use radar::http::HttpError;
use radar::http::Response;

fn bytes(s: &str) -> Vec<u8> {
    s.as_bytes().to_vec()
}

#[test]
fn parse_chunk_joins_the_chunks() {
    let body = bytes("4\r\nWiki\r\n5\r\npedia\r\n0\r\n\r\n");
    assert_eq!(Response::parse_chunk(body), Ok(bytes("Wikipedia")));
}

#[test]
fn parse_chunk_reads_hex_sizes_of_either_case() {
    let data = "x".repeat(26);
    let body = format!("1A\r\n{}\r\n1a\r\n{}\r\n0\r\n\r\n", data, data);
    assert_eq!(Response::parse_chunk(bytes(&body)), Ok(bytes(&data.repeat(2))));
}

#[test]
fn parse_chunk_keeps_line_ends_inside_data() {
    let body = bytes("6\r\nab\r\ncd\r\n0\r\n\r\n");
    assert_eq!(Response::parse_chunk(body), Ok(bytes("ab\r\ncd")));
}

#[test]
fn parse_chunk_skips_a_zero_chunk_that_is_not_last() {
    let body = bytes("0\r\n\r\n3\r\nabc\r\n0\r\n\r\n");
    assert_eq!(Response::parse_chunk(body), Ok(bytes("abc")));
}

#[test]
fn parse_chunk_without_line_end() {
    assert_eq!(
        Response::parse_chunk(bytes("4")),
        Err("Chuncked response without length marker".to_string())
    );
}

#[test]
fn parse_chunk_with_line_end_first() {
    assert_eq!(
        Response::parse_chunk(bytes("\r\n4\r\nWiki\r\n0\r\n\r\n")),
        Err("Chuncked response without length marker".to_string())
    );
}

#[test]
fn parse_chunk_with_missing_terminator() {
    assert_eq!(
        Response::parse_chunk(bytes("4\r\nWiki\r\n")),
        Err("Chuncked response without length marker".to_string())
    );
}

#[test]
fn parse_chunk_with_non_utf8_size() {
    let mut body = vec![0xffu8];
    body.extend_from_slice(b"\r\nWiki\r\n0\r\n\r\n");
    assert_eq!(Response::parse_chunk(body), Err("Invlid chunks".to_string()));
}

#[test]
fn parse_chunk_with_non_hex_size() {
    assert_eq!(
        Response::parse_chunk(bytes("zz\r\nWiki\r\n0\r\n\r\n")),
        Err("Invalid chunks".to_string())
    );
}

#[test]
fn parse_chunk_with_size_extension() {
    assert_eq!(
        Response::parse_chunk(bytes("4;x=y\r\nWiki\r\n0\r\n\r\n")),
        Err("Invalid chunks".to_string())
    );
}

#[test]
fn parse_chunk_accepts_a_plus_sign() {
    assert_eq!(Response::parse_chunk(bytes("+4\r\nWiki\r\n0\r\n\r\n")), Ok(bytes("Wiki")));
}

#[test]
fn parse_http_response_plain() {
    let res = bytes("HTTP/1.1 200 OK\r\nContent-Type: application/json\r\n\r\n  {\"a\":1}\n");
    let parsed = Response::parse_http_response(res).unwrap();
    assert_eq!(parsed.status_code, 200);
    assert_eq!(parsed.body, "{\"a\":1}");
}

#[test]
fn parse_http_response_without_header_lines() {
    let parsed = Response::parse_http_response(bytes("HTTP/1.1 204 No Content\r\n\r\n")).unwrap();
    assert_eq!(parsed.status_code, 204);
    assert_eq!(parsed.body, "");
}

#[test]
fn parse_http_response_status_without_reason() {
    let parsed = Response::parse_http_response(bytes("HTTP/1.1 404\r\n\r\nmissing")).unwrap();
    assert_eq!(parsed.status_code, 404);
    assert_eq!(parsed.body, "missing");
}

#[test]
fn parse_http_response_chunked() {
    let res = bytes(
        "HTTP/1.1 200 OK\r\nTransfer-Encoding: chunked\r\nServer: Docker\r\n\r\n4\r\n[1, \r\n3\r\n2]\n\r\n0\r\n\r\n",
    );
    let parsed = Response::parse_http_response(res).unwrap();
    assert_eq!(parsed.status_code, 200);
    assert_eq!(parsed.body, "[1, 2]");
}

#[test]
fn parse_http_response_last_header_wins() {
    let res = bytes(
        "HTTP/1.1 200 OK\r\nTransfer-Encoding: chunked\r\nTransfer-Encoding: identity\r\n\r\n4\r\nWiki\r\n0\r\n\r\n",
    );
    let parsed = Response::parse_http_response(res).unwrap();
    assert_eq!(parsed.body, "4\r\nWiki\r\n0");
}

#[test]
fn parse_http_response_header_name_is_case_sensitive() {
    let res = bytes("HTTP/1.1 200 OK\r\ntransfer-encoding: chunked\r\n\r\n4\r\nWiki\r\n0\r\n\r\n");
    let parsed = Response::parse_http_response(res).unwrap();
    assert_eq!(parsed.body, "4\r\nWiki\r\n0");
}

#[test]
fn parse_http_response_trims_unicode_white_space() {
    let res = bytes("HTTP/1.1 200 OK\r\n\r\n\u{3000}\u{a0} text \u{2029}\t");
    let parsed = Response::parse_http_response(res).unwrap();
    assert_eq!(parsed.body, "text");
}

#[test]
fn parse_http_response_keeps_inner_white_space() {
    let res = bytes("HTTP/1.1 200 OK\r\n\r\n a  b \n");
    assert_eq!(Response::parse_http_response(res).unwrap().body, "a  b");
}

#[test]
fn parse_http_response_not_http() {
    assert_eq!(
        Response::parse_http_response(bytes("garbage")).err(),
        Some("Not a valid HTTP response".to_string())
    );
}

#[test]
fn parse_http_response_bad_header() {
    let mut res = bytes("HTTP/1.1 200 OK\r\nX: ");
    res.push(0xc3);
    res.extend_from_slice(b"\r\n\r\nbody");
    assert_eq!(
        Response::parse_http_response(res).err(),
        Some("Error while parsing HTTP header".to_string())
    );
}

#[test]
fn parse_http_response_bad_status_code() {
    assert_eq!(
        Response::parse_http_response(bytes("HTTP/1.1 abc OK\r\n\r\n")).err(),
        Some("Error while parsing HTTP status code".to_string())
    );
}

#[test]
fn parse_http_response_status_code_too_large() {
    let res = bytes("HTTP/1.1 99999999999999999999999 OK\r\n\r\n");
    assert_eq!(
        Response::parse_http_response(res).err(),
        Some("Error while parsing HTTP status code".to_string())
    );
}

#[test]
fn parse_http_response_bad_body() {
    let mut res = bytes("HTTP/1.1 200 OK\r\n\r\n");
    res.push(0xff);
    assert_eq!(
        Response::parse_http_response(res).err(),
        Some("Error while parsing response body".to_string())
    );
}

#[test]
fn parse_http_response_bad_chunks() {
    let res = bytes("HTTP/1.1 200 OK\r\nTransfer-Encoding: chunked\r\n\r\nq\r\nWiki\r\n0\r\n\r\n");
    assert_eq!(Response::parse_http_response(res).err(), Some("Invalid chunks".to_string()));
}

#[test]
fn try_parse_http_response_agrees_where_it_returns() {
    let res = bytes("HTTP/1.0 500 Internal Server Error\r\nA: b\r\n\r\noops");
    let parsed = Response::try_parse_http_response(res).unwrap().unwrap();
    assert_eq!(parsed.status_code, 500);
    assert_eq!(parsed.body, "oops");
}

#[test]
fn try_parse_http_response_on_empty_input() {
    assert!(Response::try_parse_http_response(Vec::new()).is_none());
}

#[test]
fn try_parse_http_response_on_input_ending_in_line_end() {
    assert!(Response::try_parse_http_response(bytes("HTTP/1.1 200 OK\r\n")).is_none());
    assert!(Response::try_parse_http_response(bytes("HTTP/1.1 200 OK\r\n\r")).is_none());
}

#[test]
fn try_parse_http_response_on_status_line_without_space() {
    assert!(Response::try_parse_http_response(bytes("HTTP/1.1\r\n\r\n")).is_none());
}

#[test]
fn try_parse_http_response_on_header_line_without_separator() {
    assert!(Response::try_parse_http_response(bytes("HTTP/1.1 200 OK\r\nBroken\r\n\r\n")).is_none());
}

#[test]
fn try_parse_http_response_on_chunk_past_the_end() {
    let res = bytes("HTTP/1.1 200 OK\r\nTransfer-Encoding: chunked\r\n\r\nff\r\nWiki\r\n0\r\n\r\n");
    assert!(Response::try_parse_http_response(res).is_none());
}

#[test]
fn error_messages() {
    assert_eq!(HttpError::NotHttp.message(), "Not a valid HTTP response");
    assert_eq!(HttpError::BadChunkText.message(), "Invlid chunks");
    assert_eq!(HttpError::BadChunkSize.message(), "Invalid chunks");
}

#[test]
fn another_header_line_changes_nothing() {
    let rests = [
        "Content-Type: text/plain\r\n\r\n body \n",
        "Transfer-Encoding: chunked\r\n\r\n4\r\nWiki\r\n0\r\n\r\n",
        "\r\nplain",
        "X: y\r\n\r\n\u{ff}",
    ];
    for rest in rests {
        let without = bytes(&format!("HTTP/1.1 200 OK\r\n{}", rest));
        let with = bytes(&format!("HTTP/1.1 200 OK\r\nServer: Docker/24.0\r\n{}", rest));
        let a = Response::try_parse_http_response(without).map(|r| r.map(|p| (p.status_code, p.body)));
        let b = Response::try_parse_http_response(with).map(|r| r.map(|p| (p.status_code, p.body)));
        assert_eq!(a, b, "{:?}", rest);
    }
}

#[test]
fn chunk_error_is_passed_on() {
    let res = bytes("HTTP/1.1 200 OK\r\nTransfer-Encoding: chunked\r\n\r\n\r\n4\r\nWiki\r\n0\r\n\r\n");
    assert_eq!(
        Response::parse_http_response(res).err(),
        Some("Chuncked response without length marker".to_string())
    );
}
