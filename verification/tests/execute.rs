use resp_kv::command::{Command, SetExpiration};
use resp_kv::persist::store::{Store, StoreService};
use resp_kv::resp::value::ProtocolValue;
use resp_kv::response::ResponseService;
use resp_kv::service::Service;

fn s(text: &str) -> String {
    text.to_string()
}

fn set_px(key: &str, val: &str, ttl: &str) -> Command {
    Command::SetWithExp {
        kv: (s(key), s(val)),
        exp_type: SetExpiration::Px,
        ttl: s(ttl),
        options: None,
    }
}

#[test]
fn replies_of_the_response_service() {
    let mut service = ResponseService::new(StoreService::new(Store::new()));
    assert_eq!(service.execute_at(Command::Ping, 0), "+PONG\r\n");
    assert_eq!(
        service.execute_at(Command::Echo(s("blueberry")), 0),
        "$9\r\nblueberry\r\n"
    );
    assert_eq!(service.execute_at(Command::Get(s("foo")), 0), "$-1\r\n");
    assert_eq!(
        service.execute_at(Command::SetValue((s("foo"), s("bar"))), 0),
        "+OK\r\n"
    );
    assert_eq!(
        service.execute_at(Command::Get(s("foo")), 0),
        "$3\r\nbar\r\n"
    );
    assert_eq!(service.execute_at(set_px("k", "v", "50"), 100), "+OK\r\n");
    assert_eq!(service.execute_at(Command::Get(s("k")), 149), "$1\r\nv\r\n");
    assert_eq!(service.execute_at(Command::Get(s("k")), 150), "$-1\r\n");
    assert_eq!(
        service.execute_at(set_px("k", "v", "fifty"), 100),
        "-Unknown error\r\n"
    );
}

#[test]
fn replies_of_the_service() {
    let mut service = Service::new(Store::new());
    assert_eq!(service.execute_at(Command::Ping, 0), "+PONG\r\n");
    assert_eq!(
        service.execute_at(Command::Echo(s("blueberry")), 0),
        "$9\r\nblueberry\r\n"
    );
    assert_eq!(service.execute_at(Command::Get(s("foo")), 0), "$-1\r\n");
    assert_eq!(
        service.execute_at(Command::SetValue((s("foo"), s("bar"))), 0),
        "+OK\r\n"
    );
    assert_eq!(
        service.execute_at(Command::Get(s("foo")), 0),
        "$3\r\nbar\r\n"
    );
    assert_eq!(service.execute_at(set_px("k", "v", "50"), 100), "+OK\r\n");
    assert_eq!(service.execute_at(Command::Get(s("k")), 149), "$1\r\nv\r\n");
    assert_eq!(service.execute_at(Command::Get(s("k")), 150), "$-1\r\n");
    assert_eq!(
        service.execute_at(
            Command::SetWithExp {
                kv: (s("k"), s("w")),
                exp_type: SetExpiration::Ex,
                ttl: s("1"),
                options: None
            },
            100
        ),
        "+OK\r\n"
    );
    assert_eq!(service.execute_at(Command::Get(s("k")), 1099), "$1\r\nw\r\n");
    assert_eq!(service.execute_at(Command::Get(s("k")), 1100), "$-1\r\n");
    assert_eq!(
        service.execute_at(set_px("k", "v", ""), 100),
        "-Unknown error\r\n"
    );
    assert_eq!(service.execute_at(Command::Get(s("k")), 1099), "$1\r\nw\r\n");
}

#[test]
fn overwrite_through_the_service_clears_the_expiry() {
    let mut service = Service::new(Store::new());
    service.execute_at(set_px("key", "v1", "100000"), 0);
    service.execute_at(Command::SetValue((s("key"), s("v2"))), 1);
    assert_eq!(
        service.execute_at(Command::Get(s("key")), u64::MAX),
        "$2\r\nv2\r\n"
    );
}

#[test]
fn services_with_the_clock() {
    let mut service = Service::new(Store::new());
    assert_eq!(service.execute(Command::Ping), "+PONG\r\n");
    assert_eq!(
        service.execute(Command::SetValue((s("foo"), s("bar")))),
        "+OK\r\n"
    );
    assert_eq!(service.execute(Command::Get(s("foo"))), "$3\r\nbar\r\n");
    assert_eq!(service.execute(set_px("soon", "v", "0")), "+OK\r\n");
    assert_eq!(service.execute(Command::Get(s("soon"))), "$-1\r\n");
    assert_eq!(service.execute(set_px("late", "v", "3600000")), "+OK\r\n");
    assert_eq!(service.execute(Command::Get(s("late"))), "$1\r\nv\r\n");

    let mut service = ResponseService::new(StoreService::new(Store::new()));
    assert_eq!(service.execute(Command::Get(s("never"))), "$-1\r\n");
    assert_eq!(service.execute(set_px("late", "v", "3600000")), "+OK\r\n");
    assert_eq!(service.execute(Command::Get(s("late"))), "$1\r\nv\r\n");
}

#[test]
fn replies_are_frames() {
    let mut service = Service::new(Store::new());
    let decode = |reply: String| ProtocolValue::decode(reply.as_bytes()).map(|(v, n)| {
        assert_eq!(n, reply.len());
        v
    });
    assert_eq!(
        decode(service.execute_at(Command::Ping, 0)),
        Ok(ProtocolValue::SimpleString(s("PONG")))
    );
    assert_eq!(
        decode(service.execute_at(Command::Echo(s("h\u{e9} \r\n!")), 0)),
        Ok(ProtocolValue::BulkString(Some("h\u{e9} \r\n!".as_bytes().to_vec())))
    );
    assert_eq!(
        decode(service.execute_at(Command::Get(s("none")), 0)),
        Ok(ProtocolValue::BulkString(None))
    );
    assert_eq!(
        decode(service.execute_at(set_px("k", "v", "x"), 0)),
        Ok(ProtocolValue::Error(s("Unknown error")))
    );
    assert_eq!(
        decode(service.execute_at(set_px("k", "v", "1"), 0)),
        Ok(ProtocolValue::SimpleString(s("OK")))
    );
}
