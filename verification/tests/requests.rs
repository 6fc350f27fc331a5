use radar::docker::build_request;
use radar::docker::RequestVerb;
use radar::docker::read_step;
use radar::docker::READ_BUFFER_SIZE;

#[test]
fn build_get_request() {
    let r = build_request(RequestVerb::GET, "/containers/json", None);
    assert_eq!(r, "GET /containers/json HTTP/1.1\r\nHost: v1.37\r\n\n");
}

#[test]
fn build_post_request() {
    let r = build_request(RequestVerb::POST, "/images/create", Some("{\"a\":1}".to_string()));
    assert_eq!(
        r,
        "POST /images/create HTTP/1.1\r\nHost: v1.37\r\nContent-Length: 7\r\nContent-Type: application/json\r\n\r\n{\"a\":1}\r\n\r\n"
    );
}

#[test]
fn build_post_request_counts_utf8_bytes() {
    let payload = "\u{e9}".repeat(6);
    let r = build_request(RequestVerb::POST, "/x", Some(payload.clone()));
    let expected = format!(
        "POST /x HTTP/1.1\r\nHost: v1.37\r\nContent-Length: 12\r\nContent-Type: application/json\r\n\r\n{}\r\n\r\n",
        payload
    );
    assert_eq!(r, expected);
}

#[test]
fn build_post_request_with_empty_payload() {
    let r = build_request(RequestVerb::POST, "/x", Some(String::new()));
    assert_eq!(
        r,
        "POST /x HTTP/1.1\r\nHost: v1.37\r\nContent-Length: 0\r\nContent-Type: application/json\r\n\r\n\r\n\r\n"
    );
}

#[test]
fn read_step_appends_and_continues_on_full_buffer() {
    let mut raw = vec![1u8, 2];
    let full = vec![7u8; READ_BUFFER_SIZE];
    assert!(read_step(&mut raw, &full));
    assert_eq!(raw.len(), 2 + READ_BUFFER_SIZE);
    assert_eq!(&raw[..3], &[1u8, 2, 7]);
    assert!(!read_step(&mut raw, b"end"));
    assert_eq!(&raw[raw.len() - 3..], b"end");
    assert!(!read_step(&mut raw, b""));
}
