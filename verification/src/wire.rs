//! The wire grammar, as mathematics.
//!
//! [`spec_parse`] says what the first frame of a byte sequence is and how many
//! bytes it takes, or why there is none; [`spec_serialize`] says what bytes a
//! frame value is written as.

use vstd::prelude::*;
use vstd::utf8::{decode_utf8, encode_utf8, valid_utf8};
use crate::decimal::{decimal_text, has_minus, spec_parse_decimal};
use crate::frame::{FrameView, ParseError};

verus! {

pub const CR: u8 = 13;

pub const LF: u8 = 10;

/// Whether a CR LF pair starts at index `i` of `s`.
pub open spec fn crlf_at(s: Seq<u8>, i: int) -> bool {
    0 <= i && i + 1 < s.len() && s[i] == CR && s[i + 1] == LF
}

/// The index of the first CR LF pair in `s`, if there is one.
pub open spec fn find_crlf(s: Seq<u8>) -> Option<nat>
    decreases s.len(),
{
    if s.len() < 2 {
        None
    } else if s[0] == CR && s[1] == LF {
        Some(0)
    } else {
        match find_crlf(s.skip(1)) {
            Some(k) => Some(k + 1),
            None => None,
        }
    }
}

/// `find_crlf` finds a CR LF pair, and none starts before it; it finds none
/// only where there is none.
pub proof fn lemma_find_crlf(s: Seq<u8>)
    ensures
        match find_crlf(s) {
            Some(k) => crlf_at(s, k as int) && forall|j: int| 0 <= j < k ==> !crlf_at(s, j),
            None => forall|j: int| !crlf_at(s, j),
        },
    decreases s.len(),
{
    if s.len() < 2 {
    } else if s[0] == CR && s[1] == LF {
    } else {
        let t = s.skip(1);
        lemma_find_crlf(t);
        assert forall|j: int| crlf_at(t, j) == crlf_at(s, j + 1) by {}
        match find_crlf(t) {
            Some(k) => {
                assert(crlf_at(t, k as int));
                assert forall|j: int| 0 <= j < k + 1 implies !crlf_at(s, j) by {
                    if j > 0 {
                        assert(!crlf_at(t, j - 1));
                    }
                }
            },
            None => {
                assert forall|j: int| !crlf_at(s, j) by {
                    if j > 0 {
                        assert(!crlf_at(t, j - 1));
                    }
                }
            },
        }
    }
}

/// The first CR LF pair of `s` is the one that `find_crlf` finds.
pub proof fn lemma_first_crlf(s: Seq<u8>, k: int)
    requires
        crlf_at(s, k),
        forall|j: int| 0 <= j < k ==> !crlf_at(s, j),
    ensures
        find_crlf(s) == Some(k as nat),
        spec_line(s) == Some((s.take(k), (k + 2) as nat)),
{
    lemma_find_crlf(s);
    match find_crlf(s) {
        Some(m) => {
            if m < k {
                assert(!crlf_at(s, m as int));
            } else if m > k {
                assert(!crlf_at(s, k));
            }
        },
        None => {
            assert(!crlf_at(s, k));
        },
    }
}

/// Without a CR LF pair there is no line.
pub proof fn lemma_no_crlf(s: Seq<u8>)
    requires
        forall|j: int| !crlf_at(s, j),
    ensures
        spec_line(s) == None::<(Seq<u8>, nat)>,
{
    lemma_find_crlf(s);
}

/// The first line of `s`: the bytes before the first CR LF pair, and the number
/// of bytes that the line takes together with its terminator.
pub open spec fn spec_line(s: Seq<u8>) -> Option<(Seq<u8>, nat)> {
    match find_crlf(s) {
        Some(k) => if k + 2 <= s.len() {
            Some((s.take(k as int), k + 2))
        } else {
            None
        },
        None => None,
    }
}

/// Whether a line is free of carriage returns and line feeds.
pub open spec fn is_text_line(line: Seq<u8>) -> bool {
    forall|i: int| 0 <= i < line.len() ==> #[trigger] line[i] != CR && line[i] != LF
}

/// A numeric line at the start of `s`: its value and the bytes it takes.
pub open spec fn spec_header(s: Seq<u8>) -> Result<(i64, nat), ParseError> {
    match spec_line(s) {
        None => Err(ParseError::Incomplete),
        Some((line, used)) => match spec_parse_decimal(line) {
            Some(n) => Ok((n, used)),
            None => Err(ParseError::InvalidInteger),
        },
    }
}

/// A status line at the start of `s`: its text and the bytes it takes.
pub open spec fn spec_text(s: Seq<u8>) -> Result<(Seq<char>, nat), ParseError> {
    match spec_line(s) {
        None => Err(ParseError::Incomplete),
        Some((line, used)) => if !is_text_line(line) {
            Err(ParseError::InvalidString)
        } else if !valid_utf8(line) {
            Err(ParseError::InvalidUtf8)
        } else {
            Ok((decode_utf8(line), used))
        },
    }
}

/// What follows the `$` of a bulk frame: a header line, then for a length `n`
/// exactly `n` payload bytes, whatever they are, and CR LF. A header with a
/// minus sign must be the null marker `-1`.
pub open spec fn spec_bulk(s: Seq<u8>) -> Result<(FrameView, nat), ParseError> {
    match spec_header(s) {
        Err(e) => Err(e),
        Ok((n, used)) => if has_minus(s) {
            if n == -1 {
                Ok((FrameView::Null, used))
            } else {
                Err(ParseError::InvalidNull)
            }
        } else if s.len() < used + n + 2 {
            Err(ParseError::Incomplete)
        } else if s[used + n] != CR || s[used + n + 1] != LF {
            Err(ParseError::InvalidEnd)
        } else {
            Ok((FrameView::BulkString(s.subrange(used as int, used + n)), (used + n + 2) as nat))
        },
    }
}

/// The first frame of `s` and the number of bytes it takes, or the reason why
/// `s` does not start with a frame.
pub open spec fn spec_parse(s: Seq<u8>) -> Result<(FrameView, nat), ParseError>
    decreases s.len(), 0int,
{
    if s.len() == 0 {
        Err(ParseError::Incomplete)
    } else {
        let body = s.skip(1);
        if s[0] == 43 {
            match spec_text(body) {
                Ok((text, used)) => Ok((FrameView::SimpleString(text), used + 1)),
                Err(e) => Err(e),
            }
        } else if s[0] == 45 {
            match spec_text(body) {
                Ok((text, used)) => Ok((FrameView::SimpleError(text), used + 1)),
                Err(e) => Err(e),
            }
        } else if s[0] == 58 {
            match spec_header(body) {
                Ok((n, used)) => Ok((FrameView::Integer(n as int), used + 1)),
                Err(e) => Err(e),
            }
        } else if s[0] == 36 {
            match spec_bulk(body) {
                Ok((frame, used)) => Ok((frame, used + 1)),
                Err(e) => Err(e),
            }
        } else if s[0] == 42 {
            match spec_header(body) {
                Err(e) => Err(e),
                Ok((n, used)) => if n < 0 {
                    Err(ParseError::InvalidInteger)
                } else {
                    match spec_parse_items(body.skip(used as int), n as nat) {
                        Ok((items, more)) => Ok((FrameView::Array(items), 1 + used + more)),
                        Err(e) => Err(e),
                    }
                },
            }
        } else {
            Err(ParseError::UnknownType)
        }
    }
}

/// The first `count` frames of `s`, one after the other, and the number of
/// bytes they take together.
///
/// A frame takes at least one byte and never more than there are
/// ([`lemma_parse_used`]); the test on `used` only makes that evident where the
/// definition recurses.
pub open spec fn spec_parse_items(s: Seq<u8>, count: nat) -> Result<(Seq<FrameView>, nat), ParseError>
    decreases s.len(), 1int, count,
{
    if count == 0 {
        Ok((Seq::empty(), 0))
    } else {
        match spec_parse(s) {
            Err(e) => Err(e),
            Ok((first, used)) => if 0 < used <= s.len() {
                match spec_parse_items(s.skip(used as int), (count - 1) as nat) {
                    Ok((rest, more)) => Ok((seq![first] + rest, used + more)),
                    Err(e) => Err(e),
                }
            } else {
                Err(ParseError::Incomplete)
            },
        }
    }
}

/// A frame takes at least one byte and no more bytes than there are.
pub proof fn lemma_parse_used(s: Seq<u8>)
    ensures
        spec_parse(s) matches Ok((_, used)) ==> 0 < used <= s.len(),
    decreases s.len(), 0int,
{
    if s.len() > 0 && s[0] == 42 {
        let body = s.skip(1);
        match spec_header(body) {
            Ok((n, used)) => {
                if n >= 0 {
                    lemma_parse_items_used(body.skip(used as int), n as nat);
                }
            },
            Err(_) => {},
        }
    }
}

/// A run of `count` frames yields `count` values and takes no more bytes than
/// there are.
pub proof fn lemma_parse_items_used(s: Seq<u8>, count: nat)
    ensures
        spec_parse_items(s, count) matches Ok((items, used)) ==> used <= s.len() && items.len()
            == count,
    decreases s.len(), 1int, count,
{
    if count > 0 {
        lemma_parse_used(s);
        match spec_parse(s) {
            Ok((_, used)) => {
                lemma_parse_items_used(s.skip(used as int), (count - 1) as nat);
            },
            Err(_) => {},
        }
    }
}

/// The bytes that a frame value is written as.
pub open spec fn spec_serialize(f: FrameView) -> Seq<u8>
    decreases f,
{
    match f {
        FrameView::SimpleString(text) => seq![43u8] + encode_utf8(text) + seq![CR, LF],
        FrameView::SimpleError(text) => seq![45u8] + encode_utf8(text) + seq![CR, LF],
        FrameView::Integer(n) => seq![58u8] + decimal_text(n) + seq![CR, LF],
        FrameView::BulkString(data) => seq![36u8] + decimal_text(data.len() as int) + seq![CR, LF]
            + data + seq![CR, LF],
        FrameView::Null => seq![36u8, 45u8, 49u8, CR, LF],
        FrameView::Array(items) => seq![42u8] + decimal_text(items.len() as int) + seq![CR, LF]
            + spec_serialize_items(items),
    }
}

/// The bytes of a sequence of frame values, written one after the other.
pub open spec fn spec_serialize_items(items: Seq<FrameView>) -> Seq<u8>
    decreases items,
{
    if items.len() == 0 {
        Seq::empty()
    } else {
        spec_serialize(items[0]) + spec_serialize_items(items.skip(1))
    }
}

/// Writing two runs of frames one after the other is writing them as one run.
pub proof fn lemma_serialize_items_concat(a: Seq<FrameView>, b: Seq<FrameView>)
    ensures
        spec_serialize_items(a + b) == spec_serialize_items(a) + spec_serialize_items(b),
    decreases a.len(),
{
    if a.len() == 0 {
        assert(a + b =~= b);
        assert(spec_serialize_items(a) + spec_serialize_items(b) =~= spec_serialize_items(b));
    } else {
        lemma_serialize_items_concat(a.skip(1), b);
        assert((a + b).skip(1) =~= a.skip(1) + b);
        assert((a + b)[0] == a[0]);
        assert(spec_serialize(a[0]) + (spec_serialize_items(a.skip(1)) + spec_serialize_items(b))
            =~= (spec_serialize(a[0]) + spec_serialize_items(a.skip(1))) + spec_serialize_items(
            b,
        ));
    }
}

/// Writing a run of one frame is writing that frame.
pub proof fn lemma_serialize_items_one(f: FrameView)
    ensures
        spec_serialize_items(seq![f]) == spec_serialize(f),
{
    let s = seq![f];
    assert(s.skip(1) =~= Seq::<FrameView>::empty());
    assert(spec_serialize_items(s.skip(1)) =~= Seq::<u8>::empty());
    assert(spec_serialize(s[0]) + Seq::<u8>::empty() =~= spec_serialize(f));
}

} // verus!
