//! What holds of the codec as a whole: reading back what was written, and
//! reading a frame that arrives in pieces.

use vstd::prelude::*;
use vstd::utf8::{decode_utf8, encode_scalar, encode_utf8, valid_utf8};
use crate::decimal::{
    decimal_text, has_minus, is_digit, lemma_decimal_text_value, lemma_nat_digits,
    magnitude_digits, nat_digits,
};
use crate::frame::{FrameView, ParseError};
use crate::wire::{
    crlf_at, find_crlf, is_text_line, lemma_find_crlf, lemma_first_crlf, lemma_parse_items_used,
    lemma_parse_used, spec_bulk, spec_header, spec_line, spec_parse, spec_parse_items,
    spec_serialize, spec_serialize_items, spec_text, CR, LF,
};

verus! {

/// A line that holds no CR LF pair, followed by CR LF and anything, is read
/// back as that line.
pub proof fn lemma_line_roundtrip(line: Seq<u8>, tail: Seq<u8>)
    requires
        forall|j: int| !crlf_at(line, j),
    ensures
        spec_line(line + seq![CR, LF] + tail) == Some((line, (line.len() + 2) as nat)),
{
    let s = line + seq![CR, LF] + tail;
    let k = line.len() as int;
    assert(s[k] == CR && s[k + 1] == LF);
    assert forall|j: int| 0 <= j < k implies !crlf_at(s, j) by {
        if j + 1 < k {
            assert(!crlf_at(line, j));
            assert(s[j] == line[j] && s[j + 1] == line[j + 1]);
        }
    }
    lemma_first_crlf(s, k);
    assert(s.take(k) =~= line);
}

/// A line that has been found stays the first line when more bytes follow.
pub proof fn lemma_line_stable(s: Seq<u8>, t: Seq<u8>)
    requires
        spec_line(s) is Some,
    ensures
        spec_line(s + t) == spec_line(s),
{
    lemma_find_crlf(s);
    let k = find_crlf(s)->Some_0 as int;
    let w = s + t;
    assert(crlf_at(w, k)) by {
        assert(w[k] == s[k] && w[k + 1] == s[k + 1]);
    }
    assert forall|j: int| 0 <= j < k implies !crlf_at(w, j) by {
        assert(!crlf_at(s, j));
        assert(w[j] == s[j] && w[j + 1] == s[j + 1]);
    }
    lemma_first_crlf(w, k);
    assert(w.take(k) =~= s.take(k));
}

/// Whether a result is the request for more bytes.
pub open spec fn is_incomplete<T>(r: Result<T, ParseError>) -> bool {
    r matches Err(ParseError::Incomplete)
}

proof fn lemma_header_stable(s: Seq<u8>, t: Seq<u8>)
    requires
        !is_incomplete(spec_header(s)),
    ensures
        spec_header(s + t) == spec_header(s),
{
    lemma_line_stable(s, t);
}

proof fn lemma_text_stable(s: Seq<u8>, t: Seq<u8>)
    requires
        !is_incomplete(spec_text(s)),
    ensures
        spec_text(s + t) == spec_text(s),
{
    lemma_line_stable(s, t);
}

proof fn lemma_bulk_stable(s: Seq<u8>, t: Seq<u8>)
    requires
        !is_incomplete(spec_bulk(s)),
    ensures
        spec_bulk(s + t) == spec_bulk(s),
{
    lemma_header_stable(s, t);
    lemma_find_crlf(s);
    assert(s.len() >= 2);
    assert((s + t)[0] == s[0]);
    match spec_header(s) {
        Ok((n, used)) => {
            if !has_minus(s) {
                let w = s + t;
                assert(w[used + n] == s[used + n]);
                assert(w[used + n + 1] == s[used + n + 1]);
                assert(w.subrange(used as int, used + n) =~= s.subrange(used as int, used + n));
            }
        },
        Err(_) => {},
    }
}

/// Deciding on a frame never depends on what follows it.
///
/// Once a byte sequence starts with a whole frame, or is refused for good,
/// the same holds with the same outcome however the sequence goes on. Only
/// `Incomplete` can change as bytes arrive.
pub proof fn lemma_parse_stable(s: Seq<u8>, t: Seq<u8>)
    requires
        !is_incomplete(spec_parse(s)),
    ensures
        spec_parse(s + t) == spec_parse(s),
    decreases s.len(), 0int,
{
    let w = s + t;
    let body = s.skip(1);
    assert(s.len() > 0);
    assert(w[0] == s[0]);
    assert(w.skip(1) =~= body + t);
    if s[0] == 43 || s[0] == 45 {
        lemma_text_stable(body, t);
    } else if s[0] == 58 {
        lemma_header_stable(body, t);
    } else if s[0] == 36 {
        lemma_bulk_stable(body, t);
    } else if s[0] == 42 {
        lemma_header_stable(body, t);
        match spec_header(body) {
            Ok((n, used)) => {
                if n >= 0 {
                    assert((body + t).skip(used as int) =~= body.skip(used as int) + t);
                    lemma_parse_items_stable(body.skip(used as int), t, n as nat);
                }
            },
            Err(_) => {},
        }
    }
}

/// Deciding on a run of frames never depends on what follows it.
pub proof fn lemma_parse_items_stable(s: Seq<u8>, t: Seq<u8>, count: nat)
    requires
        !is_incomplete(spec_parse_items(s, count)),
    ensures
        spec_parse_items(s + t, count) == spec_parse_items(s, count),
    decreases s.len(), 1int, count,
{
    if count > 0 {
        lemma_parse_used(s);
        lemma_parse_stable(s, t);
        match spec_parse(s) {
            Ok((_, used)) => {
                assert((s + t).skip(used as int) =~= s.skip(used as int) + t);
                lemma_parse_items_stable(s.skip(used as int), t, (count - 1) as nat);
            },
            Err(_) => {},
        }
    }
}

/// A line is found from its own bytes and terminator alone.
proof fn lemma_line_cut(s: Seq<u8>, k: int)
    requires
        spec_line(s) is Some,
        spec_line(s)->Some_0.1 <= k <= s.len(),
    ensures
        spec_line(s.take(k)) == spec_line(s),
{
    lemma_find_crlf(s);
    let at = find_crlf(s)->Some_0 as int;
    let p = s.take(k);
    assert(crlf_at(p, at)) by {
        assert(p[at] == s[at] && p[at + 1] == s[at + 1]);
    }
    assert forall|j: int| 0 <= j < at implies !crlf_at(p, j) by {
        assert(!crlf_at(s, j));
        assert(p[j] == s[j] && p[j + 1] == s[j + 1]);
    }
    lemma_first_crlf(p, at);
    assert(p.take(at) =~= s.take(at));
}

/// A frame is decided by its own bytes alone: cutting the input right behind
/// the frame changes nothing.
pub proof fn lemma_parse_cut(s: Seq<u8>)
    requires
        spec_parse(s) is Ok,
    ensures
        spec_parse(s.take(spec_parse(s)->Ok_0.1 as int)) == spec_parse(s),
    decreases s.len(), 0int,
{
    lemma_parse_used(s);
    let used = spec_parse(s)->Ok_0.1 as int;
    let p = s.take(used);
    let body = s.skip(1);
    assert(p[0] == s[0]);
    assert(p.skip(1) =~= body.take(used - 1));
    if s[0] == 43 || s[0] == 45 || s[0] == 58 {
        lemma_line_cut(body, used - 1);
    } else if s[0] == 36 {
        lemma_line_cut(body, used - 1);
        lemma_find_crlf(body);
        let cut = body.take(used - 1);
        assert(cut[0] == body[0]);
        match spec_header(body) {
            Ok((n, hu)) => {
                if !has_minus(body) {
                    assert(cut[hu + n] == body[hu + n]);
                    assert(cut[hu + n + 1] == body[hu + n + 1]);
                    assert(cut.subrange(hu as int, hu + n) =~= body.subrange(hu as int, hu + n));
                }
            },
            Err(_) => {},
        }
    } else if s[0] == 42 {
        match spec_header(body) {
            Ok((n, hu)) => {
                let items_in = body.skip(hu as int);
                lemma_parse_items_used(items_in, n as nat);
                let more = spec_parse_items(items_in, n as nat)->Ok_0.1 as int;
                lemma_line_cut(body, hu + more);
                assert(body.take(hu + more).skip(hu as int) =~= items_in.take(more));
                lemma_parse_items_cut(items_in, n as nat);
            },
            Err(_) => {},
        }
    }
}

/// A run of frames is decided by its own bytes alone.
pub proof fn lemma_parse_items_cut(s: Seq<u8>, count: nat)
    requires
        spec_parse_items(s, count) is Ok,
    ensures
        spec_parse_items(s.take(spec_parse_items(s, count)->Ok_0.1 as int), count)
            == spec_parse_items(s, count),
    decreases s.len(), 1int, count,
{
    lemma_parse_items_used(s, count);
    if count > 0 {
        lemma_parse_used(s);
        let used = spec_parse(s)->Ok_0.1 as int;
        let after = s.skip(used);
        lemma_parse_items_used(after, (count - 1) as nat);
        let more = spec_parse_items(after, (count - 1) as nat)->Ok_0.1 as int;
        let p = s.take(used + more);
        lemma_parse_cut(s);
        assert(s.take(used) + s.subrange(used, used + more) =~= p);
        lemma_parse_stable(s.take(used), s.subrange(used, used + more));
        assert(p.skip(used) =~= after.take(more));
        lemma_parse_items_cut(after, (count - 1) as nat);
    }
}

/// A frame that arrives in pieces is not there until its last byte is: every
/// shorter beginning of it asks for more bytes.
pub proof fn lemma_parse_prefix_incomplete(s: Seq<u8>, k: int)
    requires
        spec_parse(s) is Ok,
        0 <= k < spec_parse(s)->Ok_0.1,
    ensures
        spec_parse(s.take(k)) == Err::<(FrameView, nat), ParseError>(ParseError::Incomplete),
{
    lemma_parse_used(s);
    let p = s.take(k);
    let rest = s.skip(k);
    assert(p + rest =~= s);
    if !is_incomplete(spec_parse(p)) {
        lemma_parse_stable(p, rest);
        lemma_parse_used(p);
    }
}

/// A frame is found as soon as its last byte is there: every beginning of the
/// bytes that holds the whole frame gives the same frame.
pub proof fn lemma_parse_prefix_complete(s: Seq<u8>, k: int)
    requires
        spec_parse(s) is Ok,
        spec_parse(s)->Ok_0.1 <= k <= s.len(),
    ensures
        spec_parse(s.take(k)) == spec_parse(s),
{
    lemma_parse_used(s);
    let used = spec_parse(s)->Ok_0.1 as int;
    let p = s.take(used);
    assert(p + s.skip(used) =~= s);
    lemma_parse_cut(s);
    lemma_parse_stable(p, s.skip(used));
    assert(p + s.subrange(used, k) =~= s.take(k));
    lemma_parse_stable(p, s.subrange(used, k));
}

/// Status text that a line can carry: no carriage return and no line feed.
pub open spec fn is_status_text(text: Seq<char>) -> bool {
    forall|i: int| 0 <= i < text.len() ==> #[trigger] text[i] != '\r' && text[i] != '\n'
}

/// No byte of the UTF-8 encoding of a character other than CR and LF is CR
/// or LF.
proof fn lemma_scalar_bytes(v: u32)
    by (bit_vector)
    requires
        v != 13,
        v != 10,
    ensures
        v <= 0x7F ==> (v & 0x7F) as u8 != 13 && (v & 0x7F) as u8 != 10,
        0xC0 | ((v >> 6) & 0x1F) as u8 != 13,
        0xC0 | ((v >> 6) & 0x1F) as u8 != 10,
        0xE0 | ((v >> 12) & 0x0F) as u8 != 13,
        0xE0 | ((v >> 12) & 0x0F) as u8 != 10,
        0xF0 | ((v >> 18) & 0x7) as u8 != 13,
        0xF0 | ((v >> 18) & 0x7) as u8 != 10,
        0x80 | (v & 0x3F) as u8 != 13,
        0x80 | (v & 0x3F) as u8 != 10,
        0x80 | ((v >> 6) & 0x3F) as u8 != 13,
        0x80 | ((v >> 6) & 0x3F) as u8 != 10,
        0x80 | ((v >> 12) & 0x3F) as u8 != 13,
        0x80 | ((v >> 12) & 0x3F) as u8 != 10,
{
}

/// Text without CR and LF is written without CR and LF bytes.
pub proof fn lemma_status_text_bytes(text: Seq<char>)
    requires
        is_status_text(text),
    ensures
        is_text_line(encode_utf8(text)),
    decreases text.len(),
{
    if text.len() > 0 {
        let v = text[0] as u32;
        let first = encode_scalar(v);
        let others = text.drop_first();
        assert(v != 13 && v != 10) by {
            assert(text[0] != '\r' && text[0] != '\n');
            vstd::utf8::char_u32_cast(text[0], v);
            assert(13u32 as char == '\r');
            assert(10u32 as char == '\n');
        }
        lemma_scalar_bytes(v);
        assert forall|i: int| 0 <= i < others.len() implies #[trigger] others[i] != '\r'
            && others[i] != '\n' by {
            assert(others[i] == text[i + 1]);
        }
        lemma_status_text_bytes(others);
        let line = encode_utf8(text);
        assert(line == first + encode_utf8(others));
        assert forall|j: int| 0 <= j < line.len() implies #[trigger] line[j] != CR && line[j]
            != LF by {
            if j < first.len() {
                assert(line[j] == first[j]);
            } else {
                assert(line[j] == encode_utf8(others)[j - first.len()]);
            }
        }
    }
}

/// The frame values that the grammar can carry: status text without CR or LF,
/// and lengths and counts that a header can state.
pub open spec fn wire_ok(f: FrameView) -> bool
    decreases f,
{
    match f {
        FrameView::SimpleString(text) => is_status_text(text),
        FrameView::SimpleError(text) => is_status_text(text),
        FrameView::Integer(n) => i64::MIN <= n <= i64::MAX,
        FrameView::BulkString(data) => data.len() <= i64::MAX,
        FrameView::Null => true,
        FrameView::Array(items) => items.len() <= i64::MAX && forall|i: int|
            0 <= i < items.len() ==> wire_ok(#[trigger] items[i]),
    }
}

/// The decimal text of a 64-bit number, followed by CR LF and anything, is read
/// back as a header with that number.
proof fn lemma_header_roundtrip(n: int, tail: Seq<u8>)
    requires
        i64::MIN <= n <= i64::MAX,
    ensures
        spec_header(decimal_text(n) + seq![CR, LF] + tail) == Ok::<(i64, nat), ParseError>(
            (n as i64, (decimal_text(n).len() + 2) as nat),
        ),
        has_minus(decimal_text(n) + seq![CR, LF] + tail) == (n < 0),
{
    let text = decimal_text(n);
    lemma_decimal_text_value(n);
    if n < 0 {
        lemma_nat_digits((-n) as nat);
        assert forall|j: int| 0 <= j < text.len() implies text[j] != CR by {
            if j > 0 {
                assert(text[j] == nat_digits((-n) as nat)[j - 1]);
                assert(is_digit(nat_digits((-n) as nat)[j - 1]));
            }
        }
    } else {
        lemma_nat_digits(n as nat);
        assert forall|j: int| 0 <= j < text.len() implies text[j] != CR by {
            assert(is_digit(text[j]));
        }
        assert(is_digit(text[0]));
    }
    assert((text + seq![CR, LF] + tail)[0] == text[0]);
    lemma_line_roundtrip(text, tail);
}

/// Status text without CR or LF, written and followed by CR LF and anything,
/// is read back as that text.
proof fn lemma_text_roundtrip(text: Seq<char>, tail: Seq<u8>)
    requires
        is_status_text(text),
    ensures
        spec_text(encode_utf8(text) + seq![CR, LF] + tail) == Ok::<(Seq<char>, nat), ParseError>(
            (text, (encode_utf8(text).len() + 2) as nat),
        ),
{
    let line = encode_utf8(text);
    lemma_status_text_bytes(text);
    assert forall|j: int| !crlf_at(line, j) by {
        if 0 <= j < line.len() {
            assert(line[j] != CR);
        }
    }
    lemma_line_roundtrip(line, tail);
    vstd::utf8::encode_utf8_valid_utf8(text);
    vstd::utf8::encode_utf8_decode_utf8(text);
}

proof fn lemma_roundtrip_status(f: FrameView, tail: Seq<u8>)
    requires
        wire_ok(f),
        f is SimpleString || f is SimpleError,
    ensures
        spec_parse(spec_serialize(f) + tail) == Ok::<(FrameView, nat), ParseError>(
            (f, spec_serialize(f).len()),
        ),
{
    let s = spec_serialize(f) + tail;
    match f {
        FrameView::SimpleString(text) => {
            assert(s.skip(1) =~= encode_utf8(text) + seq![CR, LF] + tail);
            lemma_text_roundtrip(text, tail);
        },
        FrameView::SimpleError(text) => {
            assert(s.skip(1) =~= encode_utf8(text) + seq![CR, LF] + tail);
            lemma_text_roundtrip(text, tail);
        },
        _ => {},
    }
}

proof fn lemma_roundtrip_integer(n: int, tail: Seq<u8>)
    requires
        i64::MIN <= n <= i64::MAX,
    ensures
        spec_parse(spec_serialize(FrameView::Integer(n)) + tail) == Ok::<
            (FrameView, nat),
            ParseError,
        >((FrameView::Integer(n), spec_serialize(FrameView::Integer(n)).len())),
{
    let s = spec_serialize(FrameView::Integer(n)) + tail;
    assert(s.skip(1) =~= decimal_text(n) + seq![CR, LF] + tail);
    lemma_header_roundtrip(n, tail);
}

/// A bulk string is read back byte for byte, whatever bytes it holds: CR and
/// LF inside the payload are payload.
pub proof fn lemma_roundtrip_bulk(data: Seq<u8>, tail: Seq<u8>)
    requires
        data.len() <= i64::MAX,
    ensures
        spec_parse(spec_serialize(FrameView::BulkString(data)) + tail) == Ok::<
            (FrameView, nat),
            ParseError,
        >((FrameView::BulkString(data), spec_serialize(FrameView::BulkString(data)).len())),
{
    let s = spec_serialize(FrameView::BulkString(data)) + tail;
    let n = data.len() as int;
    let after = data + seq![CR, LF] + tail;
    let body = s.skip(1);
    assert(body =~= decimal_text(n) + seq![CR, LF] + after);
    lemma_header_roundtrip(n, after);
    let used = decimal_text(n).len() + 2;
    assert(body[used + n] == CR);
    assert(body[used + n + 1] == LF);
    assert(body.subrange(used as int, used + n) =~= data);
}

proof fn lemma_roundtrip_null(tail: Seq<u8>)
    ensures
        spec_parse(spec_serialize(FrameView::Null) + tail) == Ok::<(FrameView, nat), ParseError>(
            (FrameView::Null, spec_serialize(FrameView::Null).len()),
        ),
{
    let s = spec_serialize(FrameView::Null) + tail;
    let body = s.skip(1);
    let line = seq![45u8, 49u8];
    assert(body =~= line + seq![CR, LF] + tail);
    assert forall|j: int| !crlf_at(line, j) by {}
    lemma_line_roundtrip(line, tail);
    assert(magnitude_digits(line) =~= seq![49u8]);
    assert(seq![49u8].drop_last() =~= Seq::<u8>::empty());
    assert(crate::decimal::digits_value(seq![49u8]) == 1) by {
        reveal_with_fuel(crate::decimal::digits_value, 2);
    }
    assert(body[0] == 45);
}

/// Reading back what was written gives the frame that was written, and takes
/// exactly the bytes that were written, whatever follows them.
pub proof fn lemma_roundtrip(f: FrameView, tail: Seq<u8>)
    requires
        wire_ok(f),
    ensures
        spec_parse(spec_serialize(f) + tail) == Ok::<(FrameView, nat), ParseError>(
            (f, spec_serialize(f).len()),
        ),
    decreases f,
{
    match f {
        FrameView::SimpleString(_) => {
            lemma_roundtrip_status(f, tail);
        },
        FrameView::SimpleError(_) => {
            lemma_roundtrip_status(f, tail);
        },
        FrameView::Integer(n) => {
            lemma_roundtrip_integer(n, tail);
        },
        FrameView::BulkString(data) => {
            lemma_roundtrip_bulk(data, tail);
        },
        FrameView::Null => {
            lemma_roundtrip_null(tail);
        },
        FrameView::Array(items) => {
            let s = spec_serialize(f) + tail;
            let n = items.len() as int;
            let after = spec_serialize_items(items) + tail;
            let body = s.skip(1);
            assert(body =~= decimal_text(n) + seq![CR, LF] + after);
            lemma_header_roundtrip(n, after);
            let used = decimal_text(n).len() + 2;
            assert(body.skip(used as int) =~= after);
            lemma_roundtrip_items(items, tail);
        },
    }
}

/// Reading back a run of frames that was written gives those frames.
pub proof fn lemma_roundtrip_items(items: Seq<FrameView>, tail: Seq<u8>)
    requires
        forall|i: int| 0 <= i < items.len() ==> wire_ok(#[trigger] items[i]),
    ensures
        spec_parse_items(spec_serialize_items(items) + tail, items.len()) == Ok::<
            (Seq<FrameView>, nat),
            ParseError,
        >((items, spec_serialize_items(items).len())),
    decreases items,
{
    if items.len() > 0 {
        let first = spec_serialize(items[0]);
        let others = items.skip(1);
        let s = spec_serialize_items(items) + tail;
        assert(s =~= first + (spec_serialize_items(others) + tail));
        lemma_roundtrip(items[0], spec_serialize_items(others) + tail);
        lemma_parse_used(s);
        assert(s.skip(first.len() as int) =~= spec_serialize_items(others) + tail);
        assert forall|i: int| 0 <= i < others.len() implies wire_ok(#[trigger] others[i]) by {
            assert(others[i] == items[i + 1]);
        }
        lemma_roundtrip_items(others, tail);
        assert(seq![items[0]] + others =~= items);
        assert(spec_serialize_items(items).len() == first.len() + spec_serialize_items(
            others,
        ).len());
    } else {
        assert(items =~= Seq::<FrameView>::empty());
        assert(spec_serialize_items(items).len() == 0);
    }
}

/// A carriage return or line feed in a text shows as that byte in its
/// encoding.
proof fn lemma_control_char_shows(text: Seq<char>, i: int)
    requires
        0 <= i < text.len(),
        text[i] == '\r' || text[i] == '\n',
    ensures
        !is_text_line(encode_utf8(text)),
    decreases text.len(),
{
    let first = encode_scalar(text[0] as u32);
    let others = text.drop_first();
    let line = encode_utf8(text);
    assert(line == first + encode_utf8(others));
    if i == 0 {
        assert((13u32 & 0x7F) as u8 == 13 && (10u32 & 0x7F) as u8 == 10) by (bit_vector);
        assert(line[0] == first[0]);
        assert(line[0] == CR || line[0] == LF);
    } else {
        assert(others[i - 1] == text[i]);
        lemma_control_char_shows(others, i - 1);
        let j = choose|j: int|
            0 <= j < encode_utf8(others).len() && !(#[trigger] encode_utf8(others)[j] != CR
                && encode_utf8(others)[j] != LF);
        assert(line[first.len() + j] == encode_utf8(others)[j]);
    }
}

/// A line without CR and LF bytes that is UTF-8 decodes to text without CR
/// and LF.
proof fn lemma_text_line_decodes(line: Seq<u8>)
    requires
        is_text_line(line),
        valid_utf8(line),
    ensures
        is_status_text(decode_utf8(line)),
{
    let text = decode_utf8(line);
    vstd::utf8::decode_utf8_encode_utf8(line);
    assert forall|i: int| 0 <= i < text.len() implies #[trigger] text[i] != '\r' && text[i]
        != '\n' by {
        if text[i] == '\r' || text[i] == '\n' {
            lemma_control_char_shows(text, i);
        }
    }
}

/// Every frame that is read is one that the grammar can carry, so that
/// writing it and reading it back gives the same frame again.
pub proof fn lemma_parsed_is_wire_ok(s: Seq<u8>)
    requires
        spec_parse(s) is Ok,
    ensures
        wire_ok(spec_parse(s)->Ok_0.0),
    decreases s.len(), 0int,
{
    let body = s.skip(1);
    if s[0] == 43 || s[0] == 45 {
        lemma_text_line_decodes(spec_line(body)->Some_0.0);
    } else if s[0] == 58 {
    } else if s[0] == 36 {
    } else if s[0] == 42 {
        match spec_header(body) {
            Ok((n, used)) => {
                lemma_parse_items_used(body.skip(used as int), n as nat);
                lemma_parsed_items_are_wire_ok(body.skip(used as int), n as nat);
            },
            Err(_) => {},
        }
    }
}

/// Every frame of a run that is read is one that the grammar can carry.
pub proof fn lemma_parsed_items_are_wire_ok(s: Seq<u8>, count: nat)
    requires
        spec_parse_items(s, count) is Ok,
    ensures
        forall|i: int|
            0 <= i < spec_parse_items(s, count)->Ok_0.0.len() ==> wire_ok(
                #[trigger] spec_parse_items(s, count)->Ok_0.0[i],
            ),
    decreases s.len(), 1int, count,
{
    if count > 0 {
        lemma_parse_used(s);
        lemma_parsed_is_wire_ok(s);
        let used = spec_parse(s)->Ok_0.1;
        lemma_parsed_items_are_wire_ok(s.skip(used as int), (count - 1) as nat);
        let first = spec_parse(s)->Ok_0.0;
        let rest = spec_parse_items(s.skip(used as int), (count - 1) as nat)->Ok_0.0;
        let items = spec_parse_items(s, count)->Ok_0.0;
        assert(items == seq![first] + rest);
        assert forall|i: int| 0 <= i < items.len() implies wire_ok(#[trigger] items[i]) by {
            if i > 0 {
                assert(items[i] == rest[i - 1]);
            }
        }
    }
}

} // verus!
