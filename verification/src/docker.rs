//! The requests sent to the Docker engine.

use vstd::prelude::*;
use vstd::string::StringExecFns;
use crate::number::decimal;
use crate::number::decimal_string;
use vstd::utf8::encode_utf8;
use vstd::string::StringSliceAdditionalSpecFns;

verus! {

/// The method of a request.
pub enum RequestVerb {
    GET,
    POST,
}

/// The text of a request: the request line for `url`, the `Host` header and,
/// for a `POST`, the `Content-Length` (the payload's length in UTF-8 bytes) and
/// `Content-Type` headers followed by the JSON payload.
pub open spec fn request_text(verb: RequestVerb, url: Seq<char>, payload: Seq<char>) -> Seq<char> {
    match verb {
        RequestVerb::GET => "GET "@ + url + " HTTP/1.1\r\nHost: v1.37\r\n\n"@,
        RequestVerb::POST => "POST "@ + url + " HTTP/1.1\r\nHost: v1.37\r\n"@ + "Content-Length: "@
            + decimal(encode_utf8(payload).len()) + "\r\nContent-Type: application/json\r\n\r\n"@
            + payload + "\r\n\r\n"@,
    }
}

/// Builds the request `verb url`; a `POST` carries `payload`.
pub fn build_request(verb: RequestVerb, url: &str, payload: Option<String>) -> (r: String)
    requires
        verb is POST ==> payload is Some,
    ensures
        r@ == request_text(
            verb,
            url@,
            match payload {
                Some(p) => p@,
                None => Seq::empty(),
            },
        ),
        verb is POST ==> ({
            let p = payload->0@;
            let tail = "Content-Length: "@ + decimal(encode_utf8(p).len())
                + "\r\nContent-Type: application/json\r\n\r\n"@ + p + "\r\n\r\n"@;
            &&& tail.len() <= r@.len()
            &&& r@.subrange(r@.len() - tail.len(), r@.len() as int) == tail
        }),
{
    match verb {
        RequestVerb::GET => {
            let mut r = String::from_str("GET ");
            r.append(url);
            r.append(" HTTP/1.1\r\nHost: v1.37\r\n\n");
            r
        },
        RequestVerb::POST => {
            let p = match payload {
                Some(p) => p,
                None => {
                    assert(false);
                    String::new()
                },
            };
            let size = p.as_str().as_bytes().len();
            let length = decimal_string(size);
            let mut r = String::from_str("POST ");
            r.append(url);
            r.append(" HTTP/1.1\r\nHost: v1.37\r\n");
            let ghost front = r@;
            r.append("Content-Length: ");
            r.append(length.as_str());
            r.append("\r\nContent-Type: application/json\r\n\r\n");
            r.append(p.as_str());
            r.append("\r\n\r\n");
            proof {
                let tail = "Content-Length: "@ + decimal(encode_utf8(p@).len())
                    + "\r\nContent-Type: application/json\r\n\r\n"@ + p@ + "\r\n\r\n"@;
                assert(r@ =~= front + tail);
                assert(r@.subrange(r@.len() - tail.len(), r@.len() as int) =~= tail);
            }
            r
        },
    }
}

/// The size of the buffer that a reply from the engine is read into.
pub const READ_BUFFER_SIZE: usize = 1024;

/// Takes in the bytes `chunk` of one read of a reply: appends them to `raw`
/// and tells whether to read again, which is when the read filled the whole
/// buffer.
pub fn read_step(raw: &mut Vec<u8>, chunk: &[u8]) -> (more: bool)
    ensures
        final(raw)@ == old(raw)@ + chunk@,
        more == (chunk@.len() >= READ_BUFFER_SIZE),
{
    let ghost before = raw@;
    let mut i: usize = 0;
    while i < chunk.len()
        invariant
            i <= chunk@.len(),
            raw@ == before + chunk@.subrange(0, i as int),
        decreases chunk@.len() - i,
    {
        raw.push(chunk[i]);
        assert(raw@ =~= before + chunk@.subrange(0, i + 1));
        i = i + 1;
    }
    assert(chunk@.subrange(0, chunk@.len() as int) =~= chunk@);
    chunk.len() >= READ_BUFFER_SIZE
}

} // verus!
