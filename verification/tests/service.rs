use resp_kv::service::RespResponseFormatter;

#[test]
fn service_simple_str() {
    let input = "OK";
    let result = RespResponseFormatter::to_simple_str(input.to_string());

    assert_eq!(result, "+OK\r\n");
}

#[test]
fn service_bulk_str() {
    let input = "blueberry";
    let result = RespResponseFormatter::to_bulk_str(input.to_string());

    assert_eq!(result, "$9\r\nblueberry\r\n");
}
