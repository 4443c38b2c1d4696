use resp_kv::command::Command;
use resp_kv::connection::{Action, Connection, Event, Phase};
use resp_kv::persist::store::Store;
use resp_kv::service::Service;

/// Drives the connection as a server would, with `chunks` as what the
/// socket gives read by read, and returns what was written.
fn serve(service: &mut Service, chunks: &[&[u8]], now: u64) -> Vec<String> {
    let mut connection = Connection::new();
    let mut written: Vec<String> = Vec::new();
    let mut next = 0;
    let mut action = Action::Read;
    loop {
        let event = match action {
            Action::Read => {
                if next == chunks.len() {
                    Event::Closed
                } else {
                    next += 1;
                    Event::Received(chunks[next - 1].to_vec())
                }
            }
            Action::Execute(command) => Event::Executed(service.execute_at(command, now)),
            Action::Write(reply) => {
                written.push(reply);
                Event::Written
            }
            Action::Close => break,
        };
        action = connection.step(event);
    }
    assert_eq!(connection.phase(), Phase::Closed);
    written
}

#[test]
fn ping_gets_pong() {
    let mut service = Service::new(Store::new());
    assert_eq!(
        serve(&mut service, &[b"*1\r\n$4\r\nPING\r\n"], 0),
        vec!["+PONG\r\n"]
    );
}

#[test]
fn echo_gets_its_argument() {
    let mut service = Service::new(Store::new());
    assert_eq!(
        serve(&mut service, &[b"*2\r\n$4\r\nECHO\r\n$9\r\nblueberry\r\n"], 0),
        vec!["$9\r\nblueberry\r\n"]
    );
}

#[test]
fn set_then_get_over_the_wire() {
    let mut service = Service::new(Store::new());
    assert_eq!(
        serve(
            &mut service,
            &[
                b"*3\r\n$3\r\nSET\r\n$3\r\nfoo\r\n$3\r\nbar\r\n",
                b"*2\r\n$3\r\nGET\r\n$3\r\nfoo\r\n"
            ],
            0
        ),
        vec!["+OK\r\n", "$3\r\nbar\r\n"]
    );
}

#[test]
fn get_of_a_key_never_set() {
    let mut service = Service::new(Store::new());
    assert_eq!(
        serve(&mut service, &[b"*2\r\n$3\r\nGET\r\n$5\r\nnever\r\n"], 0),
        vec!["$-1\r\n"]
    );
}

#[test]
fn malformed_frame_gets_an_error_and_the_connection_goes_on() {
    let mut service = Service::new(Store::new());
    assert_eq!(
        serve(
            &mut service,
            &[b"$abc\r\nhello\r\n", b"*1\r\n$4\r\nPING\r\n"],
            0
        ),
        vec!["-ERR invalid length\r\n", "+PONG\r\n"]
    );
}

#[test]
fn malformed_frame_takes_the_rest_of_the_buffer_with_it() {
    let mut service = Service::new(Store::new());
    assert_eq!(
        serve(&mut service, &[b"?what\r\n*1\r\n$4\r\nPING\r\n"], 0),
        vec!["-ERR unknown type prefix\r\n"]
    );
}

#[test]
fn request_that_is_no_command_gets_an_error_and_the_connection_goes_on() {
    let mut service = Service::new(Store::new());
    assert_eq!(
        serve(
            &mut service,
            &[b"*1\r\n$5\r\nFLUSH\r\n*2\r\n$4\r\nPING\r\n$1\r\nx\r\n+PING\r\n*1\r\n$4\r\nPING\r\n"],
            0
        ),
        vec![
            "-ERR unknown command\r\n",
            "-ERR wrong number of arguments\r\n",
            "-ERR request is not an array\r\n",
            "+PONG\r\n"
        ]
    );
}

#[test]
fn request_split_across_reads() {
    let whole: &[u8] = b"*3\r\n$3\r\nSET\r\n$3\r\nfoo\r\n$5\r\nb\r\nar\r\n*2\r\n$3\r\nGET\r\n$3\r\nfoo\r\n";
    for cut in 0..=whole.len() {
        let mut service = Service::new(Store::new());
        assert_eq!(
            serve(&mut service, &[&whole[..cut], &whole[cut..]], 0),
            vec!["+OK\r\n", "$5\r\nb\r\nar\r\n"],
            "cut at {}",
            cut
        );
    }
    let mut service = Service::new(Store::new());
    let bytes: Vec<&[u8]> = whole.chunks(1).collect();
    assert_eq!(
        serve(&mut service, &bytes, 0),
        vec!["+OK\r\n", "$5\r\nb\r\nar\r\n"]
    );
}

#[test]
fn expiry_over_the_wire() {
    let mut service = Service::new(Store::new());
    let set: &[u8] = b"*5\r\n$3\r\nSET\r\n$3\r\nkey\r\n$5\r\nvalue\r\n$2\r\nPX\r\n$2\r\n50\r\n";
    let get: &[u8] = b"*2\r\n$3\r\nGET\r\n$3\r\nkey\r\n";
    assert_eq!(serve(&mut service, &[set, get], 1000), vec!["+OK\r\n", "$5\r\nvalue\r\n"]);
    assert_eq!(serve(&mut service, &[get], 1049), vec!["$5\r\nvalue\r\n"]);
    assert_eq!(serve(&mut service, &[get], 1050), vec!["$-1\r\n"]);
}

#[test]
fn steps_one_by_one() {
    let mut connection = Connection::new();
    assert_eq!(connection.phase(), Phase::Reading);
    assert_eq!(connection.buffered(), 0);

    assert_eq!(
        connection.step(Event::Received(b"*1\r\n$4\r\nPI".to_vec())),
        Action::Read
    );
    assert_eq!(connection.phase(), Phase::Reading);
    assert_eq!(connection.buffered(), 10);

    assert_eq!(
        connection.step(Event::Received(b"NG\r\n*1\r\n".to_vec())),
        Action::Execute(Command::Ping)
    );
    assert_eq!(connection.phase(), Phase::Dispatching);
    assert_eq!(connection.buffered(), 4);

    assert_eq!(
        connection.step(Event::Executed("+PONG\r\n".to_string())),
        Action::Write("+PONG\r\n".to_string())
    );
    assert_eq!(connection.phase(), Phase::Writing);

    assert_eq!(connection.step(Event::Written), Action::Read);
    assert_eq!(connection.phase(), Phase::Reading);
    assert_eq!(connection.buffered(), 4);

    assert_eq!(connection.step(Event::Closed), Action::Close);
    assert_eq!(connection.phase(), Phase::Closed);
}

#[test]
fn event_out_of_turn_closes() {
    let mut connection = Connection::new();
    assert_eq!(connection.step(Event::Written), Action::Close);
    assert_eq!(connection.phase(), Phase::Closed);

    let mut connection = Connection::new();
    assert_eq!(
        connection.step(Event::Executed("+OK\r\n".to_string())),
        Action::Close
    );

    let mut connection = Connection::new();
    connection.step(Event::Received(b"*1\r\n$4\r\nPING\r\n".to_vec()));
    assert_eq!(
        connection.step(Event::Received(b"more".to_vec())),
        Action::Close
    );
}

#[test]
fn closed_stays_closed() {
    let mut connection = Connection::new();
    connection.step(Event::Closed);
    assert_eq!(
        connection.step(Event::Received(b"*1\r\n$4\r\nPING\r\n".to_vec())),
        Action::Close
    );
    assert_eq!(connection.step(Event::Written), Action::Close);
    assert_eq!(
        connection.step(Event::Executed("x".to_string())),
        Action::Close
    );
    assert_eq!(connection.step(Event::Closed), Action::Close);
    assert_eq!(connection.phase(), Phase::Closed);
}

#[test]
fn connections_share_one_store() {
    let mut service = Service::new(Store::new());
    let requests: Vec<(Vec<u8>, Vec<u8>, String)> = (0..16)
        .map(|i| {
            let key = format!("k{}", i);
            let value = format!("v{}", i);
            let set = format!(
                "*3\r\n$3\r\nSET\r\n${}\r\n{}\r\n${}\r\n{}\r\n",
                key.len(),
                key,
                value.len(),
                value
            );
            let get = format!("*2\r\n$3\r\nGET\r\n${}\r\n{}\r\n", key.len(), key);
            let reply = format!("${}\r\n{}\r\n", value.len(), value);
            (set.into_bytes(), get.into_bytes(), reply)
        })
        .collect();
    // every connection writes before any of them reads
    for (set, _, _) in &requests {
        assert_eq!(serve(&mut service, &[set], 0), vec!["+OK\r\n"]);
    }
    for (_, get, reply) in requests.iter().rev() {
        assert_eq!(serve(&mut service, &[get], 0), vec![reply.clone()]);
    }
}
