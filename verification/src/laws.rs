//! What reading a response gives back of what was written.

use vstd::prelude::*;
use vstd::utf8::decode_utf8;
use vstd::utf8::is_leading_byte_width_1;
use vstd::utf8::partial_valid_utf8_extend_ascii_block;
use vstd::utf8::valid_utf8;
use vstd::utf8::valid_utf8_concat;
use vstd::utf8::valid_utf8_split;
use vstd::utf8::is_char_boundary_iff_is_leading_byte;
use vstd::utf8::pop_first_scalar;
use crate::bytes::find_from;
use crate::bytes::lemma_find_first;
use crate::bytes::lemma_find_from;
use crate::bytes::occurs_at;
use crate::bytes::split;
use crate::bytes::split_from;
use crate::bytes::split_once;
use crate::http::blank_line;
use crate::http::cut_blank_line;
use crate::http::read_header;
use crate::bytes::ends_with;
use crate::http::chunked;
use crate::http::colon_space;
use crate::http::crlf;
use crate::http::decode_chunked;
use crate::http::decode_chunks_from;
use crate::http::fields_well_formed;
use crate::http::header_value;
use crate::http::read_body;
use crate::http::response_outcome;
use crate::http::space;
use crate::http::status_code_text;
use crate::http::transfer_encoding;
use crate::http::HttpError;
use crate::number::digit_value;
use crate::number::digits_value;
use crate::number::parse_unsigned;
use crate::number::unsigned_digits;
use crate::text::trim;

verus! {

/// `t` is a chunk size line's text for the size `n`: one or more hexadecimal
/// digits (of either case, leading zeros allowed) whose value is `n`.
pub open spec fn is_hex_size(t: Seq<u8>, n: nat) -> bool {
    &&& t.len() > 0
    &&& forall|j: int| 0 <= j < t.len() ==> (#[trigger] digit_value(t[j], 16)) is Some
    &&& digits_value(t, 16) == Some(n)
}

/// A body in the chunked encoding: each chunk as its size text, CR LF, its
/// data and CR LF, then the size text `last` of the final empty chunk, CR LF,
/// and CR LF.
pub open spec fn chunked_frames(sizes: Seq<Seq<u8>>, chunks: Seq<Seq<u8>>, last: Seq<u8>) -> Seq<u8>
    decreases chunks.len(),
{
    if chunks.len() == 0 || sizes.len() == 0 {
        last + crlf() + crlf()
    } else {
        sizes[0] + crlf() + chunks[0] + crlf() + chunked_frames(
            sizes.drop_first(),
            chunks.drop_first(),
            last,
        )
    }
}

/// The size line `t` of a chunk is read as its size.
proof fn lemma_size_line(body: Seq<u8>, count: int, t: Seq<u8>, n: nat)
    requires
        0 <= count,
        count + t.len() + 2 <= body.len(),
        body.subrange(count, count + t.len()) == t,
        body[count + t.len()] == 13,
        body[count + t.len() + 1] == 10,
        is_hex_size(t, n),
        n <= usize::MAX,
    ensures
        find_from(body, crlf(), count) == Some(count + t.len()),
        valid_utf8(body.subrange(count, count + t.len())),
        parse_unsigned(body.subrange(count, count + t.len()), 16) == Some(n),
{
    let pos = count + t.len();
    assert(body.subrange(pos, pos + 2) =~= crlf());
    assert forall|k: int| count <= k < pos implies !occurs_at(body, crlf(), k) by {
        assert(body[k] == t[k - count]);
        assert(digit_value(t[k - count], 16) is Some);
        assert(body.subrange(k, k + 2)[0] == body[k]);
    }
    lemma_find_first(body, crlf(), count, pos);
    assert forall|j: int| 0 <= j < t.len() implies #[trigger] t[j] < 0x80 by {
        assert(digit_value(t[j], 16) is Some);
    }
    lemma_ascii_utf8(t);
    assert(digit_value(t[0], 16) is Some);
    assert(unsigned_digits(t) == t);
}

proof fn lemma_decode_frames(
    body: Seq<u8>,
    count: int,
    buf: Seq<u8>,
    sizes: Seq<Seq<u8>>,
    chunks: Seq<Seq<u8>>,
    last: Seq<u8>,
)
    requires
        0 <= count <= body.len() <= usize::MAX,
        body.subrange(count, body.len() as int) == chunked_frames(sizes, chunks, last),
        sizes.len() == chunks.len(),
        forall|i: int| 0 <= i < chunks.len() ==> is_hex_size(#[trigger] sizes[i], chunks[i].len()),
        is_hex_size(last, 0),
    ensures
        decode_chunks_from(body, count, buf) == Some(Ok::<Seq<u8>, HttpError>(buf + chunks.flatten())),
    decreases chunks.len(),
{
    let suffix = body.subrange(count, body.len() as int);
    if chunks.len() == 0 {
        let pos = count + last.len();
        assert(suffix =~= last + crlf() + crlf());
        assert(suffix.subrange(0, last.len() as int) =~= last);
        assert(suffix[last.len() as int] == 13);
        assert(suffix[last.len() + 1int] == 10);
        assert(body.subrange(count, pos) =~= suffix.subrange(0, last.len() as int));
        lemma_size_line(body, count, last, 0);
        assert(buf + chunks.flatten() =~= buf);
    } else {
        let t = sizes[0];
        let c = chunks[0];
        assert(is_hex_size(sizes[0], chunks[0].len()));
        let pos = count + t.len();
        let rest = chunked_frames(sizes.drop_first(), chunks.drop_first(), last);
        assert(suffix =~= t + crlf() + c + crlf() + rest);
        assert(suffix.subrange(0, t.len() as int) =~= t);
        assert(suffix.subrange(t.len() + 2int, t.len() + 2int + c.len()) =~= c);
        assert(suffix[t.len() as int] == 13);
        assert(suffix[t.len() + 1int] == 10);
        assert(body.subrange(count, pos) =~= suffix.subrange(0, t.len() as int));
        assert(c.len() <= usize::MAX);
        lemma_size_line(body, count, t, c.len());
        let next = pos + 4 + c.len();
        assert(rest.len() >= 4) by {
            reveal_with_fuel(chunked_frames, 2);
        }
        assert(body.subrange(pos + 2, pos + 2 + c.len()) =~= suffix.subrange(
            t.len() + 2int,
            t.len() + 2int + c.len(),
        ));
        let off = (t.len() + 4 + c.len()) as int;
        assert(suffix.subrange(off, suffix.len() as int) =~= rest);
        assert(body.subrange(next, body.len() as int) =~= suffix.subrange(off, suffix.len() as int));
        assert forall|i: int| 0 <= i < chunks.drop_first().len() implies is_hex_size(
            #[trigger] sizes.drop_first()[i],
            chunks.drop_first()[i].len(),
        ) by {
            assert(is_hex_size(sizes[i + 1], chunks[i + 1].len()));
        }
        lemma_decode_frames(body, next, buf + c, sizes.drop_first(), chunks.drop_first(), last);
        assert(chunks.flatten() == c + chunks.drop_first().flatten());
        assert(buf + c + chunks.drop_first().flatten() =~= buf + chunks.flatten());
    }
}

/// Decoding undoes the chunked encoding: a body made of chunks, each sent as
/// its size in hexadecimal, CR LF, its data and CR LF, and ended by a chunk of
/// size 0 followed by CR LF CR LF, decodes to the data of its chunks, one after
/// the other.
pub proof fn law_chunked_round_trip(sizes: Seq<Seq<u8>>, chunks: Seq<Seq<u8>>, last: Seq<u8>)
    requires
        sizes.len() == chunks.len(),
        forall|i: int| 0 <= i < chunks.len() ==> is_hex_size(#[trigger] sizes[i], chunks[i].len()),
        is_hex_size(last, 0),
        chunked_frames(sizes, chunks, last).len() <= usize::MAX,
    ensures
        decode_chunked(chunked_frames(sizes, chunks, last)) == Some(
            Ok::<Seq<u8>, HttpError>(chunks.flatten()),
        ),
{
    let body = chunked_frames(sizes, chunks, last);
    assert(body.len() > 0) by {
        reveal_with_fuel(chunked_frames, 1);
    }
    assert(body.subrange(0, body.len() as int) =~= body);
    lemma_decode_frames(body, 0, Seq::empty(), sizes, chunks, last);
    assert(Seq::<u8>::empty() + chunks.flatten() =~= chunks.flatten());
}

/// No byte of `s` is a carriage return or a line feed.
pub open spec fn is_single_line(s: Seq<u8>) -> bool {
    forall|i: int| 0 <= i < s.len() ==> #[trigger] s[i] != 13 && s[i] != 10
}

/// The lines `lines`, each ended by CR LF.
pub open spec fn lines_text(lines: Seq<Seq<u8>>) -> Seq<u8>
    decreases lines.len(),
{
    if lines.len() == 0 {
        Seq::empty()
    } else {
        lines[0] + crlf() + lines_text(lines.drop_first())
    }
}

/// Each of `lines` is non-empty, well-formed UTF-8, and holds no CR or LF.
pub open spec fn lines_ok(lines: Seq<Seq<u8>>) -> bool {
    forall|i: int|
        0 <= i < lines.len() ==> {
            &&& (#[trigger] lines[i]).len() > 0
            &&& is_single_line(lines[i])
            &&& valid_utf8(lines[i])
        }
}

/// A status line: the protocol version, a space, the status code, a space and
/// the reason phrase.
pub open spec fn status_line(version: Seq<u8>, code_text: Seq<u8>, reason: Seq<u8>) -> Seq<u8> {
    version + space() + code_text + space() + reason
}

/// A response: the status line and the header lines, each ended by CR LF, a
/// blank line (CR LF), then the body.
pub open spec fn response_text(status: Seq<u8>, fields: Seq<Seq<u8>>, body: Seq<u8>) -> Seq<u8> {
    lines_text(seq![status] + fields) + crlf() + body
}

/// `t` is a status code's text for the code `n`: one or more decimal digits
/// whose value is `n`, which fits in a `usize`.
pub open spec fn is_decimal_code(t: Seq<u8>, n: nat) -> bool {
    &&& t.len() > 0
    &&& forall|j: int| 0 <= j < t.len() ==> (#[trigger] digit_value(t[j], 10)) is Some
    &&& digits_value(t, 10) == Some(n)
    &&& n <= usize::MAX
}

/// Bytes below 0x80 are well-formed UTF-8.
proof fn lemma_ascii_utf8(t: Seq<u8>)
    requires
        forall|j: int| 0 <= j < t.len() ==> #[trigger] t[j] < 0x80,
    ensures
        valid_utf8(t),
{
    assert(t.subrange(0, 0) =~= Seq::<u8>::empty());
    assert forall|i: int| 0 <= 0 <= i < t.len() <= t.len() implies #[trigger] is_leading_byte_width_1(
        t[i],
    ) by {
        assert(t[i] < 0x80);
    }
    partial_valid_utf8_extend_ascii_block(t, 0, t.len() as int);
    assert(t.subrange(0, t.len() as int) =~= t);
}

proof fn lemma_lines_text_utf8(lines: Seq<Seq<u8>>)
    requires
        lines_ok(lines),
    ensures
        valid_utf8(lines_text(lines)),
    decreases lines.len(),
{
    if lines.len() > 0 {
        let rest = lines.drop_first();
        assert forall|i: int| 0 <= i < rest.len() implies {
            &&& (#[trigger] rest[i]).len() > 0
            &&& is_single_line(rest[i])
            &&& valid_utf8(rest[i])
        } by {
            assert(rest[i] == lines[i + 1]);
        }
        lemma_lines_text_utf8(rest);
        assert(lines_ok(lines));
        assert(valid_utf8(lines[0]));
        lemma_ascii_utf8(crlf());
        valid_utf8_concat(lines[0], crlf());
        valid_utf8_concat(lines[0] + crlf(), lines_text(rest));
    }
}

/// The first blank line of a response is the one after its header lines.
proof fn lemma_blank_line_scan(s: Seq<u8>, off: int, lines: Seq<Seq<u8>>, body: Seq<u8>)
    requires
        0 <= off <= s.len(),
        lines.len() > 0,
        lines_ok(lines),
        s.subrange(off, s.len() as int) == lines_text(lines) + crlf() + body,
    ensures
        lines_text(lines).len() >= 3,
        occurs_at(s, blank_line(), off + lines_text(lines).len() - 2),
        forall|k: int|
            off <= k < off + lines_text(lines).len() - 2 ==> !occurs_at(s, blank_line(), k),
    decreases lines.len(),
{
    let l0 = lines[0];
    assert(l0.len() > 0 && is_single_line(l0));
    let rest = lines.drop_first();
    let t = lines_text(rest);
    let suf = s.subrange(off, s.len() as int);
    assert(lines_text(lines) == l0 + crlf() + t);
    assert(suf =~= l0 + crlf() + t + crlf() + body);
    let n0 = l0.len() as int;
    assert forall|k: int| off <= k < off + n0 implies !occurs_at(s, blank_line(), k) by {
        assert(0 <= k - off < suf.len());
        assert(suf[k - off] == s[(k - off) + off]);
        assert(suf[k - off] == l0[k - off]);
        if occurs_at(s, blank_line(), k) {
            assert(s.subrange(k, k + 4)[0] == s[k]);
        }
    }
    assert(suf[n0] == 13);
    assert(suf[n0 + 1] == 10);
    assert(suf.len() == s.len() - off);
    assert(0 <= n0 < suf.len());
    assert(suf[n0] == s[n0 + off]);
    assert(suf[n0 + 1] == s[(n0 + 1) + off]);
    assert(s[off + n0] == 13);
    assert(s[off + n0 + 1] == 10);
    assert(!occurs_at(s, blank_line(), off + n0 + 1)) by {
        if occurs_at(s, blank_line(), off + n0 + 1) {
            assert(s.subrange(off + n0 + 1, off + n0 + 5)[0] == s[off + n0 + 1]);
        }
    }
    if rest.len() == 0 {
        assert(t =~= Seq::<u8>::empty());
        assert(suf[n0 + 2] == s[(n0 + 2) + off]);
        assert(suf[n0 + 3] == s[(n0 + 3) + off]);
        assert(s[off + n0 + 2] == 13);
        assert(s[off + n0 + 3] == 10);
        assert(s.subrange(off + n0, off + n0 + 4) =~= blank_line());
    } else {
        let l1 = rest[0];
        assert(l1 == lines[1]);
        assert(l1.len() > 0 && is_single_line(l1));
        assert(t == l1 + crlf() + lines_text(rest.drop_first()));
        assert(suf[n0 + 2] == l1[0]);
        assert(suf[n0 + 2] == s[(n0 + 2) + off]);
        assert(s[off + n0 + 2] == l1[0]);
        assert(!occurs_at(s, blank_line(), off + n0)) by {
            if occurs_at(s, blank_line(), off + n0) {
                assert(s.subrange(off + n0, off + n0 + 4)[2] == s[off + n0 + 2]);
            }
        }
        assert forall|i: int| 0 <= i < rest.len() implies {
            &&& (#[trigger] rest[i]).len() > 0
            &&& is_single_line(rest[i])
            &&& valid_utf8(rest[i])
        } by {
            assert(rest[i] == lines[i + 1]);
        }
        let off2 = off + n0 + 2;
        assert(suf.subrange(n0 + 2, suf.len() as int) =~= t + crlf() + body);
        assert(s.subrange(off2, s.len() as int) =~= suf.subrange(n0 + 2, suf.len() as int));
        lemma_blank_line_scan(s, off2, rest, body);
    }
}

/// Split at CR LF, the header lines ended by CR LF and a last CR give back the
/// lines and that CR.
proof fn lemma_split_lines(h: Seq<u8>, off: int, lines: Seq<Seq<u8>>)
    requires
        0 <= off <= h.len(),
        lines_ok(lines),
        h.subrange(off, h.len() as int) == lines_text(lines) + seq![13u8],
    ensures
        split_from(h, crlf(), off) == lines + seq![seq![13u8]],
    decreases lines.len(),
{
    let suf = h.subrange(off, h.len() as int);
    if lines.len() == 0 {
        assert(suf =~= seq![13u8]);
        assert(find_from(h, crlf(), off) is None);
        assert(h.subrange(off, h.len() as int) =~= seq![13u8]);
        assert(lines + seq![seq![13u8]] =~= seq![seq![13u8]]);
    } else {
        let l0 = lines[0];
        assert(l0.len() > 0 && is_single_line(l0));
        let rest = lines.drop_first();
        let t = lines_text(rest);
        assert(lines_text(lines) == l0 + crlf() + t);
        assert(suf =~= l0 + crlf() + t + seq![13u8]);
        let n0 = l0.len() as int;
        assert forall|k: int| off <= k < off + n0 implies !occurs_at(h, crlf(), k) by {
            assert(0 <= k - off < suf.len());
            assert(suf[k - off] == h[(k - off) + off]);
            assert(suf[k - off] == l0[k - off]);
            if occurs_at(h, crlf(), k) {
                assert(h.subrange(k, k + 2)[0] == h[k]);
            }
        }
        assert(suf[n0] == 13);
        assert(suf[n0 + 1] == 10);
        assert(suf.len() == h.len() - off);
        assert(suf[n0] == h[n0 + off]);
        assert(suf[n0 + 1] == h[(n0 + 1) + off]);
        assert(h[off + n0] == 13);
        assert(h[off + n0 + 1] == 10);
        assert(h.subrange(off + n0, off + n0 + 2) =~= crlf());
        lemma_find_first(h, crlf(), off, off + n0);
        assert(h.subrange(off, off + n0) =~= l0);
        assert forall|i: int| 0 <= i < rest.len() implies {
            &&& (#[trigger] rest[i]).len() > 0
            &&& is_single_line(rest[i])
            &&& valid_utf8(rest[i])
        } by {
            assert(rest[i] == lines[i + 1]);
        }
        assert(suf.subrange(n0 + 2, suf.len() as int) =~= t + seq![13u8]);
        assert(h.subrange(off + n0 + 2, h.len() as int) =~= suf.subrange(n0 + 2, suf.len() as int));
        lemma_split_lines(h, off + n0 + 2, rest);
        assert(seq![l0] + (rest + seq![seq![13u8]]) =~= lines + seq![seq![13u8]]);
    }
}

/// Each of `fields` is a header line: a name and a value parted by a colon
/// and a space, well-formed UTF-8, with no CR or LF.
pub open spec fn fields_ok(fields: Seq<Seq<u8>>) -> bool {
    forall|i: int|
        0 <= i < fields.len() ==> {
            &&& (#[trigger] split_once(fields[i], colon_space())) is Some
            &&& is_single_line(fields[i])
            &&& valid_utf8(fields[i])
        }
}

/// The status line is read back: its second word is the status code's text.
proof fn lemma_status_line(version: Seq<u8>, code_text: Seq<u8>, reason: Seq<u8>, code: nat)
    requires
        forall|j: int| 0 <= j < version.len() ==> #[trigger] version[j] != 32,
        is_single_line(version),
        valid_utf8(version),
        is_decimal_code(code_text, code),
        is_single_line(reason),
        valid_utf8(reason),
    ensures
        ({
            let status = status_line(version, code_text, reason);
            &&& status.len() > 0
            &&& is_single_line(status)
            &&& valid_utf8(status)
            &&& status_code_text(status) == Some(code_text)
            &&& parse_unsigned(code_text, 10) == Some(code)
        }),
{
    let status = status_line(version, code_text, reason);
    let rest = code_text + space() + reason;
    assert(status =~= version + space() + rest);
    assert forall|j: int| 0 <= j < code_text.len() implies {
        &&& #[trigger] code_text[j] != 32
        &&& code_text[j] != 13
        &&& code_text[j] != 10
        &&& code_text[j] < 0x80
    } by {
        assert(digit_value(code_text[j], 10) is Some);
    }
    assert forall|i: int| 0 <= i < status.len() implies #[trigger] status[i] != 13 && status[i]
        != 10 by {
        if i < version.len() {
            assert(status[i] == version[i]);
        } else if i == version.len() {
        } else if i < version.len() + 1 + code_text.len() {
            assert(status[i] == code_text[i - version.len() - 1]);
        } else if i == version.len() + 1 + code_text.len() {
        } else {
            assert(status[i] == reason[i - version.len() - 2 - code_text.len()]);
        }
    }
    lemma_ascii_utf8(space());
    lemma_ascii_utf8(code_text);
    valid_utf8_concat(version, space());
    valid_utf8_concat(version + space(), code_text);
    valid_utf8_concat(version + space() + code_text, space());
    valid_utf8_concat(version + space() + code_text + space(), reason);
    // the first space ends the version
    let nv = version.len() as int;
    assert forall|k: int| 0 <= k < nv implies !occurs_at(status, space(), k) by {
        assert(status[k] == version[k]);
        if occurs_at(status, space(), k) {
            assert(status.subrange(k, k + 1)[0] == status[k]);
        }
    }
    assert(status.subrange(nv, nv + 1) =~= space());
    lemma_find_first(status, space(), 0, nv);
    assert(status.subrange(0, nv) =~= version);
    assert(status.subrange(nv + 1, status.len() as int) =~= rest);
    // the next space ends the code
    let nc = code_text.len() as int;
    assert forall|k: int| 0 <= k < nc implies !occurs_at(rest, space(), k) by {
        assert(rest[k] == code_text[k]);
        if occurs_at(rest, space(), k) {
            assert(rest.subrange(k, k + 1)[0] == rest[k]);
        }
    }
    assert(rest.subrange(nc, nc + 1) =~= space());
    lemma_find_first(rest, space(), 0, nc);
    assert(rest.subrange(0, nc) =~= code_text);
    assert(digit_value(code_text[0], 10) is Some);
    assert(unsigned_digits(code_text) == code_text);
}

/// A response made of a status line, header lines, a blank line and a body
/// is read as its status code and what `read_body` makes of its body.
proof fn lemma_response(
    version: Seq<u8>,
    code_text: Seq<u8>,
    reason: Seq<u8>,
    code: nat,
    fields: Seq<Seq<u8>>,
    body: Seq<u8>,
)
    requires
        forall|j: int| 0 <= j < version.len() ==> #[trigger] version[j] != 32,
        is_single_line(version),
        valid_utf8(version),
        is_decimal_code(code_text, code),
        is_single_line(reason),
        valid_utf8(reason),
        fields_ok(fields),
    ensures
        response_outcome(response_text(status_line(version, code_text, reason), fields, body))
            == match read_body(fields, body) {
            None => None,
            Some(Err(e)) => Some(Err(e)),
            Some(Ok(text)) => Some(Ok((code, text))),
        },
{
    let status = status_line(version, code_text, reason);
    lemma_status_line(version, code_text, reason, code);
    let lines = seq![status] + fields;
    assert forall|i: int| 0 <= i < lines.len() implies {
        &&& (#[trigger] lines[i]).len() > 0
        &&& is_single_line(lines[i])
        &&& valid_utf8(lines[i])
    } by {
        if i > 0 {
            assert(lines[i] == fields[i - 1]);
            assert(split_once(fields[i - 1], colon_space()) is Some);
            lemma_find_from(fields[i - 1], colon_space(), 0);
        }
    }
    let text = lines_text(lines);
    let res = response_text(status, fields, body);
    assert(res =~= text + crlf() + body);
    assert(res.subrange(0, res.len() as int) =~= res);
    lemma_blank_line_scan(res, 0, lines, body);
    let l = text.len() as int;
    lemma_find_first(res, blank_line(), 0, l - 2);
    let header = res.subrange(0, l + 1);
    assert(header =~= text + seq![13u8]);
    assert(res.subrange(l + 2, res.len() as int) =~= body);
    lemma_lines_text_utf8(lines);
    lemma_ascii_utf8(seq![13u8]);
    valid_utf8_concat(text, seq![13u8]);
    assert(header.subrange(0, header.len() as int) =~= header);
    lemma_split_lines(header, 0, lines);
    let pieces = split(header, crlf());
    assert(pieces == lines + seq![seq![13u8]]);
    assert(pieces[0] == status);
    assert(pieces.subrange(1, pieces.len() - 1) =~= fields);
    assert(fields_well_formed(fields)) by {
        assert forall|i: int| 0 <= i < fields.len() implies (#[trigger] split_once(
            fields[i],
            colon_space(),
        )) is Some by {
            assert(split_once(fields[i], colon_space()) is Some);
        }
    }
}

/// A response whose body is sent as it is (no `Transfer-Encoding: chunked`)
/// is read back as its status code and its body, read as UTF-8 and trimmed of
/// white space at both ends.
pub proof fn law_plain_response_round_trip(
    version: Seq<u8>,
    code_text: Seq<u8>,
    reason: Seq<u8>,
    code: nat,
    fields: Seq<Seq<u8>>,
    body: Seq<u8>,
)
    requires
        forall|j: int| 0 <= j < version.len() ==> #[trigger] version[j] != 32,
        is_single_line(version),
        valid_utf8(version),
        is_decimal_code(code_text, code),
        is_single_line(reason),
        valid_utf8(reason),
        fields_ok(fields),
        header_value(fields, transfer_encoding()) != Some(chunked()),
        valid_utf8(body),
    ensures
        response_outcome(response_text(status_line(version, code_text, reason), fields, body))
            == Some(Ok::<(nat, Seq<char>), HttpError>((code, trim(decode_utf8(body))))),
{
    lemma_response(version, code_text, reason, code, fields, body);
}

/// A response whose header says `Transfer-Encoding: chunked` and whose body is
/// in the chunked encoding is read back as its status code and the data of its
/// chunks, one after the other, read as UTF-8 and trimmed of white space at
/// both ends.
pub proof fn law_chunked_response_round_trip(
    version: Seq<u8>,
    code_text: Seq<u8>,
    reason: Seq<u8>,
    code: nat,
    fields: Seq<Seq<u8>>,
    sizes: Seq<Seq<u8>>,
    chunks: Seq<Seq<u8>>,
    last: Seq<u8>,
)
    requires
        forall|j: int| 0 <= j < version.len() ==> #[trigger] version[j] != 32,
        is_single_line(version),
        valid_utf8(version),
        is_decimal_code(code_text, code),
        is_single_line(reason),
        valid_utf8(reason),
        fields_ok(fields),
        header_value(fields, transfer_encoding()) == Some(chunked()),
        sizes.len() == chunks.len(),
        forall|i: int| 0 <= i < chunks.len() ==> is_hex_size(#[trigger] sizes[i], chunks[i].len()),
        is_hex_size(last, 0),
        chunked_frames(sizes, chunks, last).len() <= usize::MAX,
        valid_utf8(chunks.flatten()),
    ensures
        response_outcome(
            response_text(
                status_line(version, code_text, reason),
                fields,
                chunked_frames(sizes, chunks, last),
            ),
        ) == Some(Ok::<(nat, Seq<char>), HttpError>((code, trim(decode_utf8(chunks.flatten()))))),
{
    let body = chunked_frames(sizes, chunks, last);
    lemma_response(version, code_text, reason, code, fields, body);
    law_chunked_round_trip(sizes, chunks, last);
}

/// A header line read last overrides the earlier lines of the same name: the
/// value of a name is the one of its last line.
pub proof fn law_last_header_wins(fields: Seq<Seq<u8>>, name: Seq<u8>, value: Seq<u8>)
    requires
        find_from(name, colon_space(), 0) is None,
    ensures
        header_value(fields.push(name + colon_space() + value), name) == Some(value),
{
    let line = name + colon_space() + value;
    let n = name.len() as int;
    lemma_find_from(name, colon_space(), 0);
    assert forall|k: int| 0 <= k < n implies !occurs_at(line, colon_space(), k) by {
        if occurs_at(line, colon_space(), k) {
            assert(line.subrange(k, k + 2)[1] == line[k + 1]);
            assert(line.subrange(k, k + 2)[0] == line[k]);
            if k + 1 < n {
                assert(name.subrange(k, k + 2) =~= line.subrange(k, k + 2));
                assert(occurs_at(name, colon_space(), k));
            } else {
                assert(line[k + 1] == 58);
                assert(colon_space()[1] == 32);
            }
        }
    }
    assert(line.subrange(n, n + 2) =~= colon_space());
    lemma_find_first(line, colon_space(), 0, n);
    assert(line.subrange(0, n) =~= name);
    assert(line.subrange(n + 2, line.len() as int) =~= value);
    assert(fields.push(line).last() == line);
}

/// The pieces of a split are never none.
proof fn lemma_split_nonempty(s: Seq<u8>, sep: Seq<u8>, start: int)
    ensures
        split_from(s, sep, start).len() >= 1,
{
}

/// A response whose header says `Transfer-Encoding: chunked` and whose body
/// the chunk decoder refuses is refused with the decoder's error.
pub proof fn law_chunk_error_passed_on(res: Seq<u8>, i: int, e: HttpError)
    requires
        find_from(res, blank_line(), 0) == Some(i),
        valid_utf8(res.subrange(0, i + 3)),
        ({
            let lines = split(res.subrange(0, i + 3), crlf());
            let fields = lines.subrange(1, lines.len() - 1);
            &&& status_code_text(lines[0]) matches Some(t) && parse_unsigned(t, 10) is Some
            &&& fields_well_formed(fields)
            &&& header_value(fields, transfer_encoding()) == Some(chunked())
        }),
        decode_chunked(res.subrange(i + 4, res.len() as int)) == Some(
            Err::<Seq<u8>, HttpError>(e),
        ),
    ensures
        response_outcome(res) == Some(Err::<(nat, Seq<char>), HttpError>(e)),
{
    let h = res.subrange(0, i + 3);
    lemma_find_from(res, blank_line(), 0);
    assert(res.subrange(i, i + 4)[0] == res[i]);
    assert(res.subrange(i, i + 4)[1] == res[i + 1]);
    assert(h.subrange(i, i + 2) =~= crlf());
    assert(occurs_at(h, crlf(), i));
    lemma_find_from(h, crlf(), 0);
    assert(find_from(h, crlf(), 0) is Some);
    let j = find_from(h, crlf(), 0)->0;
    assert(split(h, crlf()) == seq![h.subrange(0, j)] + split_from(h, crlf(), j + 2));
    lemma_split_nonempty(h, crlf(), j + 2);
    assert(split(h, crlf()).len() >= 2);
}

/// Bytes below 0x80 before a split point: a sequence is well-formed UTF-8
/// exactly when the parts before and after that point are.
proof fn lemma_utf8_after_ascii(a: Seq<u8>, y: Seq<u8>)
    requires
        a.len() > 0,
        a.last() < 0x80,
    ensures
        valid_utf8(a + y) == (valid_utf8(a) && valid_utf8(y)),
{
    let b = a + y;
    let n = a.len() as int;
    if valid_utf8(a) && valid_utf8(y) {
        valid_utf8_concat(a, y);
    }
    if valid_utf8(b) {
        assert(b[n - 1] == a.last());
        is_char_boundary_iff_is_leading_byte(b, n - 1);
        valid_utf8_split(b, n - 1);
        let front = b.subrange(0, n - 1);
        let back = b.subrange(n - 1, b.len() as int);
        assert(front =~= a.subrange(0, n - 1));
        assert(back =~= seq![a.last()] + y);
        assert(back.len() != 0);
        assert(is_leading_byte_width_1(back[0]));
        assert(pop_first_scalar(back) =~= y);
        lemma_ascii_utf8(seq![a.last()]);
        valid_utf8_concat(front, seq![a.last()]);
        assert(front + seq![a.last()] =~= a);
    }
}

/// The search for `pat` reads only what follows the start: two sequences
/// with the same tails from `o1` and `o2` on give the same finds, shifted.
proof fn lemma_find_suffix(h1: Seq<u8>, o1: int, h2: Seq<u8>, o2: int, pat: Seq<u8>, i: int)
    requires
        pat.len() > 0,
        0 <= o1 <= h1.len(),
        0 <= o2 <= h2.len(),
        h1.subrange(o1, h1.len() as int) == h2.subrange(o2, h2.len() as int),
        o1 <= i,
    ensures
        match find_from(h1, pat, i) {
            Some(j) => find_from(h2, pat, i - o1 + o2) == Some(j - o1 + o2),
            None => find_from(h2, pat, i - o1 + o2) is None,
        },
    decreases h1.len() - i,
{
    let i2 = i - o1 + o2;
    let t1 = h1.subrange(o1, h1.len() as int);
    assert(t1.len() == h1.len() - o1);
    if i >= h1.len() || i + pat.len() > h1.len() {
    } else {
        assert forall|t: int| 0 <= t < pat.len() implies #[trigger] h1.subrange(i, i + pat.len())[t]
            == h2.subrange(i2, i2 + pat.len())[t] by {
            assert(t1[i - o1 + t] == h1[i + t]);
            assert(h2.subrange(o2, h2.len() as int)[i - o1 + t] == h2[i2 + t]);
        }
        assert(h1.subrange(i, i + pat.len()) =~= h2.subrange(i2, i2 + pat.len()));
        if !occurs_at(h1, pat, i) {
            lemma_find_suffix(h1, o1, h2, o2, pat, i + 1);
        }
    }
}

/// Splitting reads only what follows the start.
proof fn lemma_split_suffix(h1: Seq<u8>, o1: int, h2: Seq<u8>, o2: int, sep: Seq<u8>, start: int)
    requires
        sep.len() > 0,
        0 <= o1 <= h1.len(),
        0 <= o2 <= h2.len(),
        h1.subrange(o1, h1.len() as int) == h2.subrange(o2, h2.len() as int),
        o1 <= start <= h1.len(),
    ensures
        split_from(h1, sep, start) == split_from(h2, sep, start - o1 + o2),
    decreases h1.len() - start,
{
    let s2 = start - o1 + o2;
    let t1 = h1.subrange(o1, h1.len() as int);
    lemma_find_suffix(h1, o1, h2, o2, sep, start);
    lemma_find_from(h1, sep, start);
    assert(t1.len() == h1.len() - o1);
    assert(h2.subrange(o2, h2.len() as int).len() == h2.len() - o2);
    assert forall|a: int, b: int| start <= a <= b <= h1.len() implies #[trigger] h1.subrange(a, b)
        =~= h2.subrange(a - o1 + o2, b - o1 + o2) by {
        assert forall|t: int| 0 <= t < b - a implies #[trigger] h1.subrange(a, b)[t] == h2.subrange(
            a - o1 + o2,
            b - o1 + o2,
        )[t] by {
            assert(0 <= a - o1 + t < t1.len());
            assert(t1[a - o1 + t] == h1[a + t]);
            assert(h2.subrange(o2, h2.len() as int)[a - o1 + t] == h2[a - o1 + o2 + t]);
        }
    }
    match find_from(h1, sep, start) {
        None => {
            assert(h1.subrange(start, h1.len() as int) =~= h2.subrange(s2, h2.len() as int));
        },
        Some(j) => {
            assert(h1.subrange(start, j) =~= h2.subrange(s2, j - o1 + o2));
            lemma_split_suffix(h1, o1, h2, o2, sep, j + sep.len());
        },
    }
}

/// A line with no CR LF in it, ended by CR LF, is the next piece of a split.
proof fn lemma_split_step(h: Seq<u8>, off: int, n: int)
    requires
        0 <= off,
        0 <= n,
        occurs_at(h, crlf(), off + n),
        forall|k: int| off <= k < off + n ==> !occurs_at(h, crlf(), k),
    ensures
        split_from(h, crlf(), off) == seq![h.subrange(off, off + n)] + split_from(
            h,
            crlf(),
            off + n + 2,
        ),
{
    lemma_find_first(h, crlf(), off, off + n);
}

/// A header line of another name, put first, changes no header's value.
proof fn lemma_header_prepend(kv: Seq<u8>, fields: Seq<Seq<u8>>, name: Seq<u8>)
    requires
        split_once(kv, colon_space()) matches Some((k, _)) && k != name,
    ensures
        header_value(seq![kv] + fields, name) == header_value(fields, name),
    decreases fields.len(),
{
    let all = seq![kv] + fields;
    if fields.len() == 0 {
        assert(all.drop_last() =~= Seq::<Seq<u8>>::empty());
        assert(all.last() == kv);
    } else {
        assert(all.last() == fields.last());
        assert(all.drop_last() =~= seq![kv] + fields.drop_last());
        lemma_header_prepend(kv, fields.drop_last(), name);
    }
}

/// A response's start `s` and rest `r` with the header line `kv` put between.
pub open spec fn with_line(s: Seq<u8>, kv: Seq<u8>, r: Seq<u8>) -> Seq<u8> {
    s + crlf() + kv + crlf() + r
}

/// `s` holds no CR LF; `kv` is non-empty ASCII with no CR or LF.
pub open spec fn line_insertable(s: Seq<u8>, kv: Seq<u8>) -> bool {
    &&& find_from(s, crlf(), 0) is None
    &&& kv.len() > 0
    &&& forall|j: int| 0 <= j < kv.len() ==> #[trigger] kv[j] < 0x80 && kv[j] != 13 && kv[j] != 10
}

/// Where the two responses agree byte for byte.
proof fn lemma_insert_bytes(s: Seq<u8>, kv: Seq<u8>, r: Seq<u8>)
    requires
        line_insertable(s, kv),
    ensures
        ({
            let res1 = s + crlf() + r;
            let res2 = with_line(s, kv, r);
            let pl = (s.len() + 2) as int;
            let d = (kv.len() + 2) as int;
            &&& res2.len() == res1.len() + d
            &&& forall|m: int| 0 <= m < pl ==> #[trigger] res1[m] == res2[m]
            &&& forall|m: int| pl - 2 <= m < res1.len() ==> #[trigger] res1[m] == res2[m + d]
            &&& res1[pl - 2] == 13 && res1[pl - 1] == 10
            &&& forall|m: int| pl <= m < pl + kv.len() ==> #[trigger] res2[m] == kv[m - pl]
        }),
{
    let res1 = s + crlf() + r;
    let res2 = with_line(s, kv, r);
    let pl = (s.len() + 2) as int;
    let d = (kv.len() + 2) as int;
    assert forall|m: int| 0 <= m < pl implies #[trigger] res1[m] == res2[m] by {
        if m < s.len() {
            assert(res1[m] == s[m]);
            assert(res2[m] == s[m]);
        }
    }
    assert forall|m: int| pl - 2 <= m < res1.len() implies #[trigger] res1[m] == res2[m + d] by {
        if m >= pl {
            assert(res1[m] == r[m - pl]);
            assert(res2[m + d] == r[m - pl]);
        } else {
            assert(res1[m] == crlf()[m - s.len()]);
            assert(res2[m + d] == crlf()[m - s.len()]);
        }
    }
}

/// The first blank line of the response with the line put in is the first of
/// the one without, moved by the length of the line.
proof fn lemma_insert_search(s: Seq<u8>, kv: Seq<u8>, r: Seq<u8>)
    requires
        line_insertable(s, kv),
    ensures
        ({
            let res1 = s + crlf() + r;
            let res2 = with_line(s, kv, r);
            let pl = (s.len() + 2) as int;
            let d = (kv.len() + 2) as int;
            match find_from(res1, blank_line(), 0) {
                Some(j) => j >= pl - 2 && find_from(res2, blank_line(), 0) == Some(j + d),
                None => find_from(res2, blank_line(), 0) is None,
            }
        }),
{
    let res1 = s + crlf() + r;
    let res2 = with_line(s, kv, r);
    let pl = (s.len() + 2) as int;
    let d = (kv.len() + 2) as int;
    let b = blank_line();
    lemma_insert_bytes(s, kv, r);
    lemma_find_from(s, crlf(), 0);
    // no blank line starts within the start line
    assert forall|q: int| 0 <= q < pl - 2 implies !occurs_at(res1, b, q) && !occurs_at(
        res2,
        b,
        q,
    ) by {
        if q + 1 < s.len() {
            assert(res1[q] == s[q] && res1[q + 1] == s[q + 1]);
            assert(res2[q] == s[q] && res2[q + 1] == s[q + 1]);
            if occurs_at(res1, b, q) || occurs_at(res2, b, q) {
                assert(res1.subrange(q, q + 4)[0] == res1[q]);
                assert(res1.subrange(q, q + 4)[1] == res1[q + 1]);
                assert(res2.subrange(q, q + 4)[0] == res2[q]);
                assert(res2.subrange(q, q + 4)[1] == res2[q + 1]);
                assert(s.subrange(q, q + 2) =~= crlf());
                assert(occurs_at(s, crlf(), q));
            }
        } else {
            assert(res1[q + 1] == 13);
            assert(res2[q + 1] == 13);
            if occurs_at(res1, b, q) {
                assert(res1.subrange(q, q + 4)[1] == res1[q + 1]);
            }
            if occurs_at(res2, b, q) {
                assert(res2.subrange(q, q + 4)[1] == res2[q + 1]);
            }
        }
    }
    // nor within the line put in
    assert forall|q: int| pl - 2 <= q < pl - 2 + d implies !occurs_at(res2, b, q) by {
        if occurs_at(res2, b, q) {
            if q == pl - 2 {
                assert(res2[pl] == kv[0]);
                assert(res2.subrange(q, q + 4)[2] == res2[pl]);
            } else if q == pl - 1 {
                assert(res2[q] == res1[q]);
                assert(res2.subrange(q, q + 4)[0] == res2[q]);
            } else {
                assert(res2[q] == kv[q - pl]);
                assert(res2.subrange(q, q + 4)[0] == res2[q]);
            }
        }
    }
    // after it, the two agree
    assert forall|q: int| pl - 2 <= q implies occurs_at(res2, b, q + d) == occurs_at(
        res1,
        b,
        q,
    ) by {
        if q + 4 <= res1.len() {
            assert forall|t: int| 0 <= t < 4 implies #[trigger] res1.subrange(q, q + 4)[t]
                == res2.subrange(q + d, q + d + 4)[t] by {
                assert(res1[q + t] == res2[q + t + d]);
            }
            assert(res1.subrange(q, q + 4) =~= res2.subrange(q + d, q + d + 4));
        }
    }
    lemma_find_from(res1, b, 0);
    lemma_find_from(res2, b, 0);
    match find_from(res1, b, 0) {
        Some(j) => {
            assert(j >= pl - 2);
            assert(occurs_at(res2, b, j + d));
            assert forall|q: int| 0 <= q < j + d implies !occurs_at(res2, b, q) by {
                if q >= pl - 2 + d {
                    assert(!occurs_at(res1, b, q - d));
                }
            }
            lemma_find_first(res2, b, 0, j + d);
        },
        None => {
            if find_from(res2, b, 0) is Some {
                let j2 = find_from(res2, b, 0)->0;
                assert(occurs_at(res2, b, j2));
                if j2 >= pl - 2 + d {
                    assert(occurs_at(res1, b, j2 - d));
                }
            }
        },
    }
}

/// The two responses end alike, as far as the checks for a cut-off blank
/// line look.
proof fn lemma_insert_ends(s: Seq<u8>, kv: Seq<u8>, r: Seq<u8>)
    requires
        line_insertable(s, kv),
    ensures
        ({
            let res1 = s + crlf() + r;
            let res2 = with_line(s, kv, r);
            &&& ends_with(res2, crlf()) == ends_with(res1, crlf())
            &&& ends_with(res2, cut_blank_line()) == ends_with(res1, cut_blank_line())
        }),
{
    let res1 = s + crlf() + r;
    let res2 = with_line(s, kv, r);
    let pl = (s.len() + 2) as int;
    let d = (kv.len() + 2) as int;
    let n1 = res1.len() as int;
    let n2 = res2.len() as int;
    lemma_insert_bytes(s, kv, r);
    if r.len() >= 1 {
        assert forall|n: int| 2 <= n <= 3 implies #[trigger] res1.subrange(n1 - n, n1)
            =~= res2.subrange(n2 - n, n2) by {
            assert forall|t: int| 0 <= t < n implies #[trigger] res1.subrange(n1 - n, n1)[t]
                == res2.subrange(n2 - n, n2)[t] by {
                assert(res1[n1 - n + t] == res2[n1 - n + t + d]);
            }
        }
        assert(res1.subrange(n1 - 2, n1) =~= res2.subrange(n2 - 2, n2));
        assert(res1.subrange(n1 - 3, n1) =~= res2.subrange(n2 - 3, n2));
    } else {
        assert(res1.subrange(n1 - 2, n1) =~= crlf());
        assert(res2.subrange(n2 - 2, n2) =~= crlf());
        if ends_with(res1, cut_blank_line()) {
            assert(res1.subrange(n1 - 3, n1)[2] == res1[n1 - 1]);
        }
        if ends_with(res2, cut_blank_line()) {
            assert(res2.subrange(n2 - 3, n2)[2] == res2[n2 - 1]);
        }
    }
}

/// Where the first blank line is found, the two headers read alike.
proof fn lemma_insert_header(s: Seq<u8>, kv: Seq<u8>, r: Seq<u8>, j: int)
    requires
        line_insertable(s, kv),
        split_once(kv, colon_space()) matches Some((k, _)) && k != transfer_encoding(),
        j >= s.len(),
        j + 4 <= s.len() + 2 + r.len(),
    ensures
        ({
            let res1 = s + crlf() + r;
            let res2 = with_line(s, kv, r);
            let d = (kv.len() + 2) as int;
            &&& res1.subrange(j + 4, res1.len() as int) == res2.subrange(
                j + d + 4,
                res2.len() as int,
            )
            &&& read_header(res1.subrange(0, j + 3), res1.subrange(j + 4, res1.len() as int))
                == read_header(
                res2.subrange(0, j + d + 3),
                res2.subrange(j + d + 4, res2.len() as int),
            )
        }),
{
    let res1 = s + crlf() + r;
    let res2 = with_line(s, kv, r);
    let pl = (s.len() + 2) as int;
    let d = (kv.len() + 2) as int;
    let n1 = res1.len() as int;
    let n2 = res2.len() as int;
    lemma_insert_bytes(s, kv, r);
    lemma_find_from(s, crlf(), 0);
    let start = s + crlf();
    let line = kv + crlf();
    let hh = res1.subrange(pl, j + 3);
    let h1 = res1.subrange(0, j + 3);
    let h2 = res2.subrange(0, j + d + 3);
    let body = res1.subrange(j + 4, n1);
    assert(body =~= res2.subrange(j + d + 4, n2)) by {
        assert forall|t: int| 0 <= t < body.len() implies #[trigger] body[t] == res2.subrange(
            j + d + 4,
            n2,
        )[t] by {
            assert(res1[j + 4 + t] == res2[j + 4 + t + d]);
        }
    }
    assert(h1 =~= start + hh) by {
        assert forall|t: int| 0 <= t < h1.len() implies #[trigger] h1[t] == (start + hh)[t] by {
            if t < s.len() {
                assert(res1[t] == s[t]);
            }
        }
    }
    assert(h2 =~= start + (line + hh)) by {
        assert forall|t: int| 0 <= t < h2.len() implies #[trigger] h2[t] == (start + (line
            + hh))[t] by {
            if t < s.len() {
                assert(res2[t] == s[t]);
            } else if t < pl {
                assert(res2[t] == res1[t]);
            } else if t < pl + kv.len() {
                assert(res2[t] == kv[t - pl]);
            } else if t < pl + d {
            } else {
                assert(res1[t - d] == res2[t - d + d]);
            }
        }
    }
    // well-formed UTF-8 alike
    assert(start.last() == 10);
    assert(line.last() == 10);
    lemma_utf8_after_ascii(start, hh);
    lemma_utf8_after_ascii(start, line + hh);
    lemma_utf8_after_ascii(line, hh);
    assert forall|t: int| 0 <= t < line.len() implies #[trigger] line[t] < 0x80 by {
        if t < kv.len() {
            assert(line[t] == kv[t]);
        }
    }
    lemma_ascii_utf8(line);
    assert(valid_utf8(h1) == valid_utf8(h2));
    // the same lines, with `kv` among them
    let ns = s.len() as int;
    assert forall|q: int| 0 <= q < ns implies !occurs_at(h1, crlf(), q) && !occurs_at(
        h2,
        crlf(),
        q,
    ) by {
        if q + 1 < ns {
            if occurs_at(h1, crlf(), q) || occurs_at(h2, crlf(), q) {
                assert(h1.subrange(q, q + 2)[0] == h1[q]);
                assert(h1.subrange(q, q + 2)[1] == h1[q + 1]);
                assert(h2.subrange(q, q + 2)[0] == h2[q]);
                assert(h2.subrange(q, q + 2)[1] == h2[q + 1]);
                assert(h1[q] == s[q] && h1[q + 1] == s[q + 1]);
                assert(h2[q] == s[q] && h2[q + 1] == s[q + 1]);
                assert(s.subrange(q, q + 2) =~= crlf());
                assert(occurs_at(s, crlf(), q));
            }
        } else {
            assert(h1[q + 1] == 13);
            assert(h2[q + 1] == 13);
            if occurs_at(h1, crlf(), q) {
                assert(h1.subrange(q, q + 2)[1] == h1[q + 1]);
            }
            if occurs_at(h2, crlf(), q) {
                assert(h2.subrange(q, q + 2)[1] == h2[q + 1]);
            }
        }
    }
    assert(h1.subrange(ns, ns + 2) =~= crlf());
    assert(h2.subrange(ns, ns + 2) =~= crlf());
    lemma_split_step(h1, 0, ns);
    lemma_split_step(h2, 0, ns);
    assert(h1.subrange(0, ns) =~= s);
    assert(h2.subrange(0, ns) =~= s);
    let nk = kv.len() as int;
    assert forall|q: int| pl <= q < pl + nk implies !occurs_at(h2, crlf(), q) by {
        if occurs_at(h2, crlf(), q) {
            assert(h2.subrange(q, q + 2)[0] == h2[q]);
            assert(h2[q] == kv[q - pl]);
        }
    }
    assert(h2.subrange(pl + nk, pl + nk + 2) =~= crlf());
    lemma_split_step(h2, pl, nk);
    assert(h2.subrange(pl, pl + nk) =~= kv);
    assert(h1.subrange(pl, h1.len() as int) =~= hh);
    assert(h2.subrange(pl + d, h2.len() as int) =~= hh);
    lemma_split_suffix(h1, pl, h2, pl + d, crlf(), pl);
    let tail = split_from(h1, crlf(), pl);
    lemma_split_nonempty(h1, crlf(), pl);
    let lines1 = split(h1, crlf());
    let lines2 = split(h2, crlf());
    assert(lines1 == seq![s] + tail);
    assert(lines2 =~= seq![s] + (seq![kv] + tail));
    let fields1 = lines1.subrange(1, lines1.len() - 1);
    let fields2 = lines2.subrange(1, lines2.len() - 1);
    assert(fields2 =~= seq![kv] + fields1);
    assert(fields_well_formed(fields2) == fields_well_formed(fields1)) by {
        if fields_well_formed(fields1) {
            assert forall|q: int| 0 <= q < fields2.len() implies (#[trigger] split_once(
                fields2[q],
                colon_space(),
            )) is Some by {
                if q > 0 {
                    assert(fields2[q] == fields1[q - 1]);
                }
            }
        }
        if fields_well_formed(fields2) {
            assert forall|q: int| 0 <= q < fields1.len() implies (#[trigger] split_once(
                fields1[q],
                colon_space(),
            )) is Some by {
                assert(fields2[q + 1] == fields1[q]);
            }
        }
    }
    lemma_header_prepend(kv, fields1, transfer_encoding());
    assert(read_body(fields2, body) == read_body(fields1, body));
    assert(lines1[0] == lines2[0]);
}

/// A header line of any name but `Transfer-Encoding`, put right after the
/// status line, changes nothing in what a response is read as: neither the
/// status code, nor the body, nor the error, nor whether it is read at all.
pub proof fn law_other_header_changes_nothing(s: Seq<u8>, k: Seq<u8>, v: Seq<u8>, r: Seq<u8>)
    requires
        find_from(s, crlf(), 0) is None,
        k.len() > 0,
        forall|j: int|
            0 <= j < k.len() ==> #[trigger] k[j] < 0x80 && k[j] != 58 && k[j] != 13 && k[j] != 10,
        k != transfer_encoding(),
        forall|j: int| 0 <= j < v.len() ==> #[trigger] v[j] < 0x80 && v[j] != 13 && v[j] != 10,
    ensures
        response_outcome(s + crlf() + k + colon_space() + v + crlf() + r) == response_outcome(
            s + crlf() + r,
        ),
{
    let kv = k + colon_space() + v;
    let nk = k.len() as int;
    assert forall|j: int| 0 <= j < kv.len() implies #[trigger] kv[j] < 0x80 && kv[j] != 13
        && kv[j] != 10 by {
        if j < nk {
            assert(kv[j] == k[j]);
        } else if j >= nk + 2 {
            assert(kv[j] == v[j - nk - 2]);
        }
    }
    assert(line_insertable(s, kv));
    assert forall|q: int| 0 <= q < nk implies !occurs_at(kv, colon_space(), q) by {
        if occurs_at(kv, colon_space(), q) {
            assert(kv.subrange(q, q + 2)[0] == kv[q]);
            assert(kv[q] == k[q]);
        }
    }
    assert(kv.subrange(nk, nk + 2) =~= colon_space());
    lemma_find_first(kv, colon_space(), 0, nk);
    assert(kv.subrange(0, nk) =~= k);
    let res1 = s + crlf() + r;
    let res2 = with_line(s, kv, r);
    assert(res2 =~= s + crlf() + k + colon_space() + v + crlf() + r);
    lemma_insert_search(s, kv, r);
    match find_from(res1, blank_line(), 0) {
        None => {
            lemma_insert_ends(s, kv, r);
        },
        Some(j) => {
            lemma_find_from(res1, blank_line(), 0);
            lemma_insert_header(s, kv, r, j);
        },
    }
}

/// The value of a header name is that of the last line of that name, whatever
/// lines of other names follow it.
pub proof fn law_last_line_of_name_wins(
    f: Seq<Seq<u8>>,
    name: Seq<u8>,
    value: Seq<u8>,
    g: Seq<Seq<u8>>,
)
    requires
        find_from(name, colon_space(), 0) is None,
        forall|i: int|
            0 <= i < g.len() ==> (#[trigger] split_once(g[i], colon_space())) is None
                || (split_once(g[i], colon_space())->0).0 != name,
    ensures
        header_value(f.push(name + colon_space() + value) + g, name) == Some(value),
    decreases g.len(),
{
    let line = name + colon_space() + value;
    if g.len() == 0 {
        assert(f.push(line) + g =~= f.push(line));
        law_last_header_wins(f, name, value);
    } else {
        let all = f.push(line) + g;
        assert(all.last() == g.last());
        assert(all.drop_last() =~= f.push(line) + g.drop_last());
        assert(split_once(g[g.len() - 1], colon_space()) is None || (split_once(g[g.len() - 1], colon_space())->0).0 != name);
        assert forall|i: int| 0 <= i < g.drop_last().len() implies (#[trigger] split_once(
            g.drop_last()[i],
            colon_space(),
        )) is None || (split_once(g.drop_last()[i], colon_space())->0).0 != name by {
            assert(g.drop_last()[i] == g[i]);
            assert(split_once(g[i], colon_space()) is None || (split_once(g[i], colon_space())->0).0
                != name);
        }
        law_last_line_of_name_wins(f, name, value, g.drop_last());
    }
}

} // verus!
