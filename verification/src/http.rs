//! HTTP/1.1 responses: the status line, the header lines and the chunked
//! transfer encoding of the body.

use vstd::prelude::*;
use vstd::utf8::valid_utf8;
use vstd::utf8::decode_utf8;
use crate::bytes::find_from;
use crate::bytes::find_pattern;
use crate::bytes::lemma_find_from;
use crate::bytes::split;
use crate::bytes::split_once;
use crate::bytes::split_on;
use crate::bytes::split_once_on;
use crate::bytes::ends_with;
use crate::bytes::ends_with_bytes;
use crate::bytes::bytes_equal;
use crate::bytes::copy_range;
use crate::text::trim;
use crate::text::trim_str;
use crate::number::parse_unsigned;
use crate::number::parse_usize;
use crate::text::str_from_utf8;
use vstd::slice::slice_subrange;

verus! {

/// A parsed HTTP response.
#[derive(Debug)]
pub struct Response {
    /// The status code of the status line.
    pub status_code: usize,
    /// The body, read as text and trimmed of white space at both ends.
    pub body: String,
}

/// Carriage return and line feed.
pub open spec fn crlf() -> Seq<u8> {
    seq![13u8, 10u8]
}

fn crlf_bytes() -> (r: Vec<u8>)
    ensures
        r@ == crlf(),
{
    vec![13u8, 10u8]
}

/// Why a response, or a chunked body, was refused.
#[derive(Clone, Copy, Debug, PartialEq, Eq, Structural)]
pub enum HttpError {
    /// No blank line ends the header.
    NotHttp,
    /// The header is not well-formed UTF-8.
    BadHeader,
    /// The second word of the status line is not a status code.
    BadStatusCode,
    /// The body is not well-formed UTF-8.
    BadBody,
    /// A chunk size line has no line end.
    NoLengthMarker,
    /// A chunk size line is not well-formed UTF-8.
    BadChunkText,
    /// A chunk size line is not a hexadecimal number.
    BadChunkSize,
}

impl HttpError {
    /// The message that reports the error.
    pub open spec fn spec_message(self) -> Seq<char> {
        match self {
            HttpError::NotHttp => "Not a valid HTTP response"@,
            HttpError::BadHeader => "Error while parsing HTTP header"@,
            HttpError::BadStatusCode => "Error while parsing HTTP status code"@,
            HttpError::BadBody => "Error while parsing response body"@,
            HttpError::NoLengthMarker => "Chuncked response without length marker"@,
            HttpError::BadChunkText => "Invlid chunks"@,
            HttpError::BadChunkSize => "Invalid chunks"@,
        }
    }

    /// The message that reports the error.
    pub fn message(&self) -> (r: String)
        ensures
            r@ == self.spec_message(),
    {
        match self {
            HttpError::NotHttp => "Not a valid HTTP response".to_owned(),
            HttpError::BadHeader => "Error while parsing HTTP header".to_owned(),
            HttpError::BadStatusCode => "Error while parsing HTTP status code".to_owned(),
            HttpError::BadBody => "Error while parsing response body".to_owned(),
            HttpError::NoLengthMarker => "Chuncked response without length marker".to_owned(),
            HttpError::BadChunkText => "Invlid chunks".to_owned(),
            HttpError::BadChunkSize => "Invalid chunks".to_owned(),
        }
    }
}

/// The chunked body `body`, read from the chunk size line that starts at
/// `count` on, after the chunk data `buf` have been read. `None` where the
/// reading runs past the end of `body`.
///
/// A chunk is a size line (hexadecimal digits, then CR LF) and the data of that
/// size; the two bytes after the data are skipped unread. A size of 0 whose line
/// end is followed by exactly two more bytes ends the body.
pub open spec fn decode_chunks_from(body: Seq<u8>, count: int, buf: Seq<u8>) -> Option<
    Result<Seq<u8>, HttpError>,
>
    decreases body.len() + 2 - count,
{
    if count < 0 {
        None
    } else {
        match find_from(body, crlf(), count) {
            None => Some(Err(HttpError::NoLengthMarker)),
            Some(pos) => {
                if pos == 0 {
                    Some(Err(HttpError::NoLengthMarker))
                } else {
                    let size_text = body.subrange(count, pos);
                    if !valid_utf8(size_text) {
                        Some(Err(HttpError::BadChunkText))
                    } else {
                        match parse_unsigned(size_text, 16) {
                            None => Some(Err(HttpError::BadChunkSize)),
                            Some(size) => {
                                if size == 0 && pos + 4 == body.len() {
                                    Some(Ok(buf))
                                } else if pos + 2 + size > body.len() {
                                    None
                                } else {
                                    proof {
                                        lemma_find_from(body, crlf(), count);
                                    }
                                    decode_chunks_from(
                                        body,
                                        pos + 4 + size,
                                        buf + body.subrange(pos + 2, pos + 2 + size),
                                    )
                                }
                            },
                        }
                    }
                }
            },
        }
    }
}

/// What `Response::parse_chunk` gives for the chunked body `body`: the data of
/// its chunks, one after the other, or the error that stops the reading;
/// `None` where it does not return (an empty body, or a chunk that runs past
/// the end).
pub open spec fn decode_chunked(body: Seq<u8>) -> Option<Result<Seq<u8>, HttpError>> {
    if body.len() == 0 {
        None
    } else {
        decode_chunks_from(body, 0, Seq::empty())
    }
}

/// Decodes the chunked body `body`.
fn decode_chunked_bytes(body: &[u8]) -> (r: Option<Result<Vec<u8>, HttpError>>)
    ensures
        match decode_chunked(body@) {
            None => r is None,
            Some(Ok(data)) => r matches Some(Ok(v)) && v@ == data,
            Some(Err(e)) => r == Some(Err::<Vec<u8>, HttpError>(e)),
        },
{
    let n = body.len();
    if n == 0 {
        return None;
    }
    let line_end = crlf_bytes();
    let mut buf: Vec<u8> = Vec::new();
    let mut count: usize = 0;
    loop
        invariant
            n == body@.len(),
            n > 0,
            line_end@ == crlf(),
            count <= n,
            decode_chunked(body@) == decode_chunks_from(body@, count as int, buf@),
        decreases n + 2 - count,
    {
        let pos = match find_pattern(body, line_end.as_slice(), count) {
            None => {
                return Some(Err(HttpError::NoLengthMarker));
            },
            Some(p) => p,
        };
        proof {
            lemma_find_from(body@, crlf(), count as int);
        }
        if pos == 0 {
            return Some(Err(HttpError::NoLengthMarker));
        }
        let size_text = slice_subrange(body, count, pos);
        if str_from_utf8(size_text).is_none() {
            return Some(Err(HttpError::BadChunkText));
        }
        let size = match parse_usize(size_text, 16) {
            None => {
                return Some(Err(HttpError::BadChunkSize));
            },
            Some(v) => v,
        };
        if size == 0 && n - pos == 4 {
            return Some(Ok(buf));
        }
        if size > n - pos - 2 {
            return None;
        }
        let ghost before = buf@;
        let mut k: usize = pos + 2;
        while k < pos + 2 + size
            invariant
                n == body@.len(),
                pos + 2 <= k <= pos + 2 + size <= n,
                buf@ == before + body@.subrange(pos + 2, k as int),
            decreases pos + 2 + size - k,
        {
            buf.push(body[k]);
            assert(buf@ =~= before + body@.subrange(pos + 2, k + 1));
            k = k + 1;
        }
        if n - k < 2 {
            proof {
                lemma_find_from(body@, crlf(), pos + 4 + size);
                assert(decode_chunks_from(body@, pos + 4 + size, buf@) == Some(
                    Err::<Seq<u8>, HttpError>(HttpError::NoLengthMarker),
                ));
            }
            return Some(Err(HttpError::NoLengthMarker));
        }
        count = k + 2;
    }
}

/// The blank line that ends a header: CR LF CR LF.
pub open spec fn blank_line() -> Seq<u8> {
    seq![13u8, 10u8, 13u8, 10u8]
}

/// CR LF CR: a blank line cut off before its last byte.
pub open spec fn cut_blank_line() -> Seq<u8> {
    seq![13u8, 10u8, 13u8]
}

/// A space.
pub open spec fn space() -> Seq<u8> {
    seq![32u8]
}

/// The separator of a header line's name and value: a colon and a space.
pub open spec fn colon_space() -> Seq<u8> {
    seq![58u8, 32u8]
}

/// `Transfer-Encoding`.
pub open spec fn transfer_encoding() -> Seq<u8> {
    seq![
        84u8, 114u8, 97u8, 110u8, 115u8, 102u8, 101u8, 114u8, 45u8,
        69u8, 110u8, 99u8, 111u8, 100u8, 105u8, 110u8, 103u8,
    ]
}

/// `chunked`.
pub open spec fn chunked() -> Seq<u8> {
    seq![99u8, 104u8, 117u8, 110u8, 107u8, 101u8, 100u8]
}

/// The second word of the status line: what stands between its first space
/// and the next one, or the end of the line; `None` where it has no space.
pub open spec fn status_code_text(status_line: Seq<u8>) -> Option<Seq<u8>> {
    match split_once(status_line, space()) {
        None => None,
        Some((_, rest)) => match split_once(rest, space()) {
            Some((word, _)) => Some(word),
            None => Some(rest),
        },
    }
}

/// Every header line has a name and a value, parted by a colon and a space.
pub open spec fn fields_well_formed(fields: Seq<Seq<u8>>) -> bool {
    forall|i: int| 0 <= i < fields.len() ==> (#[trigger] split_once(fields[i], colon_space())) is Some
}

/// The value of the last header line named `name`: a later line of the same
/// name overrides an earlier one.
pub open spec fn header_value(fields: Seq<Seq<u8>>, name: Seq<u8>) -> Option<Seq<u8>>
    decreases fields.len(),
{
    if fields.len() == 0 {
        None
    } else {
        match split_once(fields.last(), colon_space()) {
            Some((key, value)) => if key == name {
                Some(value)
            } else {
                header_value(fields.drop_last(), name)
            },
            None => header_value(fields.drop_last(), name),
        }
    }
}

/// The text of the body `body` under the header lines `fields`: decoded from
/// the chunked encoding where `Transfer-Encoding` is `chunked`, read as UTF-8,
/// then trimmed of white space at both ends.
pub open spec fn read_body(fields: Seq<Seq<u8>>, body: Seq<u8>) -> Option<
    Result<Seq<char>, HttpError>,
> {
    let payload = if header_value(fields, transfer_encoding()) == Some(chunked()) {
        decode_chunked(body)
    } else {
        Some(Ok(body))
    };
    match payload {
        None => None,
        Some(Err(e)) => Some(Err(e)),
        Some(Ok(p)) => if valid_utf8(p) {
            Some(Ok(trim(decode_utf8(p))))
        } else {
            Some(Err(HttpError::BadBody))
        },
    }
}

/// The status code and the body text of a response whose header (up to its
/// final CR LF CR, that is without the last LF) is `header` and whose body is
/// `body`.
pub open spec fn read_header(header: Seq<u8>, body: Seq<u8>) -> Option<
    Result<(nat, Seq<char>), HttpError>,
> {
    if !valid_utf8(header) {
        Some(Err(HttpError::BadHeader))
    } else {
        let lines = split(header, crlf());
        match status_code_text(lines[0]) {
            None => None,
            Some(text) => match parse_unsigned(text, 10) {
                None => Some(Err(HttpError::BadStatusCode)),
                Some(code) => if lines.len() < 2 {
                    None
                } else {
                    let fields = lines.subrange(1, lines.len() - 1);
                    if !fields_well_formed(fields) {
                        None
                    } else {
                        match read_body(fields, body) {
                            None => None,
                            Some(Err(e)) => Some(Err(e)),
                            Some(Ok(text)) => Some(Ok((code, text))),
                        }
                    }
                },
            },
        }
    }
}

/// What `Response::parse_http_response` gives for the bytes `res`: the status
/// code and the body text, or the error; `None` where it does not return.
///
/// The header ends at the first blank line; the body starts right after it.
/// The header lines between the status line and the blank line must each hold
/// a colon and a space.
pub open spec fn response_outcome(res: Seq<u8>) -> Option<Result<(nat, Seq<char>), HttpError>> {
    if res.len() == 0 {
        None
    } else {
        match find_from(res, blank_line(), 0) {
            None => if ends_with(res, crlf()) || ends_with(res, cut_blank_line()) {
                None
            } else {
                Some(Err(HttpError::NotHttp))
            },
            Some(i) => read_header(res.subrange(0, i + 3), res.subrange(i + 4, res.len() as int)),
        }
    }
}

/// The second word of the status line `line`.
fn status_code_text_of(line: &[u8]) -> (r: Option<Vec<u8>>)
    ensures
        r is Some <==> status_code_text(line@) is Some,
        r matches Some(t) ==> status_code_text(line@) == Some(t@),
{
    let sp = vec![32u8];
    assert(sp@ == space());
    match split_once_on(line, sp.as_slice()) {
        None => None,
        Some((first, rest)) => {
            assert(split_once(line@, space()) == Some((first@, rest@)));
            match split_once_on(rest.as_slice(), sp.as_slice()) {
                Some((word, _)) => Some(word),
                None => Some(rest),
            }
        },
    }
}

/// The value of the last header line named `name` among `lines[1..len - 1]`;
/// `None` where one of those lines has no colon and space.
fn find_header(lines: &Vec<Vec<u8>>, name: &[u8]) -> (r: Option<Option<Vec<u8>>>)
    requires
        lines@.len() >= 2,
    ensures
        ({
            let fields = lines@.map_values(|v: Vec<u8>| v@).subrange(1, lines@.len() - 1);
            &&& r is Some <==> fields_well_formed(fields)
            &&& r matches Some(found) ==> match header_value(fields, name@) {
                Some(v) => found matches Some(w) && w@ == v,
                None => found is None,
            }
        }),
{
    let ghost fields = lines@.map_values(|v: Vec<u8>| v@).subrange(1, lines@.len() - 1);
    let sep = vec![58u8, 32u8];
    let last = lines.len() - 1;
    let mut found: Option<Vec<u8>> = None;
    let mut i: usize = 1;
    while i < last
        invariant
            last == lines@.len() - 1,
            1 <= i <= last,
            sep@ == colon_space(),
            fields == lines@.map_values(|v: Vec<u8>| v@).subrange(1, lines@.len() - 1),
            fields_well_formed(fields.subrange(0, i - 1)),
            match header_value(fields.subrange(0, i - 1), name@) {
                Some(v) => found matches Some(w) && w@ == v,
                None => found is None,
            },
        decreases last - i,
    {
        let ghost prefix = fields.subrange(0, i as int);
        assert(prefix.drop_last() =~= fields.subrange(0, i - 1));
        assert(prefix.last() == lines@[i as int]@);
        match split_once_on(lines[i].as_slice(), sep.as_slice()) {
            None => {
                assert(split_once(fields[i - 1], colon_space()) is None);
                return None;
            },
            Some((key, value)) => {
                if bytes_equal(key.as_slice(), name) {
                    found = Some(value);
                }
            },
        }
        assert forall|j: int| 0 <= j < prefix.len() implies (#[trigger] split_once(
            prefix[j],
            colon_space(),
        )) is Some by {
            if j < i - 1 {
                assert(prefix[j] == fields.subrange(0, i - 1)[j]);
            }
        }
        i = i + 1;
    }
    assert(fields.subrange(0, last - 1) =~= fields);
    Some(found)
}

/// Reads the header `header` and the body `body` of a response.
fn read_header_bytes(header: &[u8], body: &[u8]) -> (r: Option<Result<Response, HttpError>>)
    ensures
        match read_header(header@, body@) {
            None => r is None,
            Some(Ok((code, text))) => r matches Some(Ok(resp)) && resp.status_code == code
                && resp.body@ == text,
            Some(Err(e)) => r matches Some(Err(f)) && f == e,
        },
{
    if str_from_utf8(header).is_none() {
        return Some(Err(HttpError::BadHeader));
    }
    let line_end = crlf_bytes();
    let lines = split_on(header, line_end.as_slice());
    let ghost pieces = lines@.map_values(|v: Vec<u8>| v@);
    assert(pieces.len() > 0);
    assert(pieces[0] == lines@[0]@);
    let text = match status_code_text_of(lines[0].as_slice()) {
        None => {
            return None;
        },
        Some(t) => t,
    };
    let code = match parse_usize(text.as_slice(), 10) {
        None => {
            return Some(Err(HttpError::BadStatusCode));
        },
        Some(c) => c,
    };
    if lines.len() < 2 {
        return None;
    }
    let name = vec![
        84u8, 114u8, 97u8, 110u8, 115u8, 102u8, 101u8, 114u8, 45u8,
        69u8, 110u8, 99u8, 111u8, 100u8, 105u8, 110u8, 103u8,
    ];
    let found = match find_header(&lines, name.as_slice()) {
        None => {
            return None;
        },
        Some(f) => f,
    };
    let chunked_word = vec![99u8, 104u8, 117u8, 110u8, 107u8, 101u8, 100u8];
    let is_chunked = match &found {
        Some(v) => bytes_equal(v.as_slice(), chunked_word.as_slice()),
        None => false,
    };
    let payload: Vec<u8> = if is_chunked {
        match decode_chunked_bytes(body) {
            None => {
                return None;
            },
            Some(Err(e)) => {
                return Some(Err(e));
            },
            Some(Ok(p)) => p,
        }
    } else {
        copy_range(body, 0, body.len())
    };
    assert(body@.subrange(0, body@.len() as int) =~= body@);
    match str_from_utf8(payload.as_slice()) {
        None => Some(Err(HttpError::BadBody)),
        Some(t) => Some(Ok(Response { status_code: code, body: trim_str(t) })),
    }
}

/// Reads the response `res`.
fn read_response(res: &[u8]) -> (r: Option<Result<Response, HttpError>>)
    ensures
        match response_outcome(res@) {
            None => r is None,
            Some(Ok((code, text))) => r matches Some(Ok(resp)) && resp.status_code == code
                && resp.body@ == text,
            Some(Err(e)) => r matches Some(Err(f)) && f == e,
        },
{
    let n = res.len();
    if n == 0 {
        return None;
    }
    let marker = vec![13u8, 10u8, 13u8, 10u8];
    match find_pattern(res, marker.as_slice(), 0) {
        None => {
            let line_end = crlf_bytes();
            let cut = vec![13u8, 10u8, 13u8];
            if ends_with_bytes(res, line_end.as_slice()) || ends_with_bytes(res, cut.as_slice()) {
                None
            } else {
                Some(Err(HttpError::NotHttp))
            }
        },
        Some(i) => {
            proof {
                lemma_find_from(res@, blank_line(), 0);
            }
            let header = slice_subrange(res, 0, i + 3);
            let body = slice_subrange(res, i + 4, n);
            read_header_bytes(header, body)
        },
    }
}

/// `r` is what the outcome `o` of reading a response is reported as: the
/// status code and the body text, or the error's message.
pub open spec fn reports_response(r: Result<Response, String>, o: Result<(nat, Seq<char>), HttpError>) -> bool {
    match o {
        Ok((code, text)) => r matches Ok(resp) && resp.status_code == code && resp.body@ == text,
        Err(e) => r matches Err(m) && m@ == e.spec_message(),
    }
}

/// `r` is what the outcome `o` of decoding a chunked body is reported as: the
/// data, or the error's message.
pub open spec fn reports_chunks(r: Result<Vec<u8>, String>, o: Result<Seq<u8>, HttpError>) -> bool {
    match o {
        Ok(data) => r matches Ok(v) && v@ == data,
        Err(e) => r matches Err(m) && m@ == e.spec_message(),
    }
}

impl Response {
    /// Parses the raw bytes of an HTTP response: the status code of its status
    /// line and its body, decoded from the chunked encoding where the header
    /// says `Transfer-Encoding: chunked`, read as UTF-8 and trimmed.
    pub fn parse_http_response(res: Vec<u8>) -> (r: Result<Response, String>)
        requires
            response_outcome(res@) is Some,
        ensures
            reports_response(r, response_outcome(res@)->0),
    {
        match read_response(res.as_slice()) {
            Some(Ok(resp)) => Ok(resp),
            Some(Err(e)) => Err(e.message()),
            None => {
                assert(false);
                Err(HttpError::NotHttp.message())
            },
        }
    }

    /// Parses the raw bytes of an HTTP response as `parse_http_response` does,
    /// on every input: `None` where that function does not return.
    pub fn try_parse_http_response(res: Vec<u8>) -> (r: Option<Result<Response, String>>)
        ensures
            r is Some <==> response_outcome(res@) is Some,
            r matches Some(out) ==> reports_response(out, response_outcome(res@)->0),
    {
        match read_response(res.as_slice()) {
            Some(Ok(resp)) => Some(Ok(resp)),
            Some(Err(e)) => Some(Err(e.message())),
            None => None,
        }
    }

    /// A helper function to parse_http_response, when the header
    /// `Transfer-Encoding: chunked` is present in the response: the data of the
    /// chunks of `body`, one after the other.
    pub fn parse_chunk(body: Vec<u8>) -> (r: Result<Vec<u8>, String>)
        requires
            decode_chunked(body@) is Some,
        ensures
            reports_chunks(r, decode_chunked(body@)->0),
    {
        match decode_chunked_bytes(body.as_slice()) {
            Some(Ok(data)) => Ok(data),
            Some(Err(e)) => Err(e.message()),
            None => {
                assert(false);
                Err(HttpError::NoLengthMarker.message())
            },
        }
    }
}

} // verus!
