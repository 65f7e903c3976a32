//! Protocol values of the RESP2 wire protocol.

use vstd::prelude::*;
use bytes::Bytes;
use std::io::Cursor;
use vstd::slice::{slice_subrange, slice_to_vec};
use vstd::utf8::{decode_utf8, valid_utf8};
use crate::cursor::{
    cursor_advance, cursor_at, cursor_chunk, cursor_data, cursor_has_remaining, cursor_move_to,
    cursor_position, cursor_rest, cursor_slice, cursor_take_u8,
};
use crate::decimal::{decimal_text, parse_decimal, push_decimal, push_digits, spec_parse_decimal};
use crate::payload::{append_bytes, bytes_eq, bytes_view};
use crate::wire::{
    crlf_at, is_text_line, lemma_first_crlf, lemma_no_crlf, lemma_parse_used,
    lemma_serialize_items_concat, lemma_serialize_items_one, spec_bulk, spec_header, spec_line,
    spec_parse, spec_parse_items, spec_serialize, spec_serialize_items, CR, LF,
};

verus! {

/// One protocol value.
#[derive(Debug)]
pub enum Frame {
    SimpleString(String),
    /// An error reported to the peer as a protocol value.
    SimpleError(String),
    Integer(i64),
    BulkString(Bytes),
    Null,
    Array(Vec<Frame>),
}

/// Why a byte sequence could not be read as a frame.
#[derive(Debug, Clone, Copy, PartialEq, Eq, Structural)]
pub enum ParseError {
    /// The bytes so far are the beginning of a frame; more are needed.
    Incomplete,
    /// A numeric line is not a well-formed signed 64-bit decimal, or an array
    /// count is negative.
    InvalidInteger,
    /// A status line holds a stray carriage return or line feed.
    InvalidString,
    /// The two bytes after a bulk payload are not CR LF.
    InvalidEnd,
    /// The first byte selects no kind of frame.
    UnknownType,
    /// A bulk header carries a minus sign but is not the null marker.
    InvalidNull,
    /// A status line is not UTF-8.
    InvalidUtf8,
}

/// The mathematical value of a [`Frame`].
pub ghost enum FrameView {
    SimpleString(Seq<char>),
    SimpleError(Seq<char>),
    Integer(int),
    BulkString(Seq<u8>),
    Null,
    Array(Seq<FrameView>),
}

impl View for Frame {
    type V = FrameView;

    open spec fn view(&self) -> FrameView
        decreases self,
    {
        match self {
            Frame::SimpleString(s) => FrameView::SimpleString(s@),
            Frame::SimpleError(s) => FrameView::SimpleError(s@),
            Frame::Integer(n) => FrameView::Integer(*n as int),
            Frame::BulkString(b) => FrameView::BulkString(bytes_view(*b)),
            Frame::Null => FrameView::Null,
            Frame::Array(v) => FrameView::Array(
                Seq::new(v@.len(), |i: int| if 0 <= i < v@.len() { v@[i].view() } else { FrameView::Null }),
            ),
        }
    }
}

impl Clone for Frame {
    fn clone(&self) -> (r: Frame)
        ensures
            r@ == self@,
        decreases self,
    {
        match self {
            Frame::SimpleString(s) => Frame::SimpleString(s.clone()),
            Frame::SimpleError(s) => Frame::SimpleError(s.clone()),
            Frame::Integer(n) => Frame::Integer(*n),
            Frame::BulkString(b) => Frame::BulkString(b.clone()),
            Frame::Null => Frame::Null,
            Frame::Array(v) => {
                let mut out: Vec<Frame> = Vec::new();
                let mut i: usize = 0;
                while i < v.len()
                    invariant
                        decreases_to!(self => v),
                        i <= v@.len(),
                        out@.len() == i,
                        forall|j: int| 0 <= j < i ==> out@[j]@ == v@[j]@,
                    decreases v@.len() - i,
                {
                    proof {
                        assert(decreases_to!(*v => v[i as int]));
                    }
                    let item = v[i].clone();
                    out.push(item);
                    i += 1;
                }
                let r = Frame::Array(out);
                assert(r@->Array_0 =~= self@->Array_0);
                r
            },
        }
    }
}

impl Frame {
    /// Whether two frames are the same variant with the same contents.
    pub fn same(&self, other: &Frame) -> (r: bool)
        ensures
            r == (self@ == other@),
        decreases self,
    {
        match (self, other) {
            (Frame::SimpleString(a), Frame::SimpleString(b)) => *a == *b,
            (Frame::SimpleError(a), Frame::SimpleError(b)) => *a == *b,
            (Frame::Integer(a), Frame::Integer(b)) => *a == *b,
            (Frame::BulkString(a), Frame::BulkString(b)) => bytes_eq(a, b),
            (Frame::Null, Frame::Null) => true,
            (Frame::Array(a), Frame::Array(b)) => {
                if a.len() != b.len() {
                    assert(self@->Array_0.len() != other@->Array_0.len());
                    return false;
                }
                let mut i: usize = 0;
                while i < a.len()
                    invariant
                        decreases_to!(self => a),
                        *self == Frame::Array(*a),
                        *other == Frame::Array(*b),
                        a@.len() == b@.len(),
                        i <= a@.len(),
                        forall|j: int| 0 <= j < i ==> a@[j]@ == b@[j]@,
                    decreases a@.len() - i,
                {
                    proof {
                        assert(decreases_to!(*a => a[i as int]));
                    }
                    if !a[i].same(&b[i]) {
                        assert(self@->Array_0[i as int] != other@->Array_0[i as int]);
                        return false;
                    }
                    i += 1;
                }
                assert(self@->Array_0 =~= other@->Array_0);
                true
            },
            _ => false,
        }
    }
}

impl PartialEq for Frame {
    fn eq(&self, other: &Frame) -> (r: bool) {
        self.same(other)
    }
}

impl vstd::std_specs::cmp::PartialEqSpecImpl for Frame {
    open spec fn obeys_eq_spec() -> bool {
        true
    }

    open spec fn eq_spec(&self, other: &Frame) -> bool {
        self@ == other@
    }
}

/// Takes the next byte from the cursor, if there is one.
pub fn get_u8(buf: &mut Cursor<&[u8]>) -> (r: Result<u8, ParseError>)
    ensures
        cursor_data(*final(buf)) == cursor_data(*old(buf)),
        cursor_rest(*old(buf)).len() == 0 ==> r == Err::<u8, ParseError>(ParseError::Incomplete)
            && cursor_position(*final(buf)) == cursor_position(*old(buf)),
        cursor_rest(*old(buf)).len() > 0 ==> r == Ok::<u8, ParseError>(cursor_rest(*old(buf))[0])
            && cursor_position(*final(buf)) == cursor_position(*old(buf)) + 1,
{
    if !cursor_has_remaining(buf) {
        return Err(ParseError::Incomplete);
    }
    Ok(cursor_take_u8(buf))
}

/// Looks at the next byte of the cursor, if there is one, without taking it.
pub fn peek_u8(buf: &mut Cursor<&[u8]>) -> (r: Result<u8, ParseError>)
    ensures
        *final(buf) == *old(buf),
        cursor_rest(*old(buf)).len() == 0 ==> r == Err::<u8, ParseError>(ParseError::Incomplete),
        cursor_rest(*old(buf)).len() > 0 ==> r == Ok::<u8, ParseError>(cursor_rest(*old(buf))[0]),
{
    if !cursor_has_remaining(buf) {
        return Err(ParseError::Incomplete);
    }
    let rest = cursor_chunk(buf);
    Ok(rest[0])
}

/// Takes the next line from the cursor: the bytes up to the first CR LF pair.
/// The cursor moves past the pair; without one it stays where it is.
pub fn get_line<'a>(buf: &mut Cursor<&'a [u8]>) -> (r: Result<&'a [u8], ParseError>)
    ensures
        cursor_data(*final(buf)) == cursor_data(*old(buf)),
        match spec_line(cursor_rest(*old(buf))) {
            Some((line, used)) => r is Ok && r->Ok_0@ == line && cursor_position(*final(buf))
                == cursor_position(*old(buf)) + used,
            None => r == Err::<&[u8], ParseError>(ParseError::Incomplete) && cursor_position(
                *final(buf),
            ) == cursor_position(*old(buf)),
        },
{
    let data: &'a [u8] = cursor_slice(buf);
    let at: u64 = cursor_at(buf);
    let ghost rest = cursor_rest(*buf);
    if at >= data.len() as u64 {
        proof {
            lemma_no_crlf(rest);
        }
        return Err(ParseError::Incomplete);
    }
    let start: usize = at as usize;
    assert(rest == data@.subrange(start as int, data@.len() as int));
    let mut i: usize = start;
    while i + 1 < data.len()
        invariant
            start <= i < data@.len() <= usize::MAX,
            *buf == *old(buf),
            data@ == cursor_data(*buf),
            start == cursor_position(*buf),
            rest == cursor_rest(*buf),
            rest == data@.subrange(start as int, data@.len() as int),
            forall|j: int| 0 <= j < i - start ==> !crlf_at(rest, j),
        decreases data@.len() - i,
    {
        if data[i] == 13 && data[i + 1] == 10 {
            proof {
                assert(crlf_at(rest, i - start));
                lemma_first_crlf(rest, i - start);
                assert(rest.take(i - start) =~= data@.subrange(start as int, i as int));
            }
            cursor_move_to(buf, (i + 2) as u64);
            return Ok(slice_subrange(data, start, i));
        }
        i += 1;
    }
    proof {
        assert forall|j: int| !crlf_at(rest, j) by {
            if 0 <= j < i - start {
            }
        }
        lemma_no_crlf(rest);
    }
    Err(ParseError::Incomplete)
}

/// Reads a line as a signed 64-bit decimal number.
pub fn get_integer(line: &[u8]) -> (r: Result<i64, ParseError>)
    ensures
        r == match spec_parse_decimal(line@) {
            Some(n) => Ok::<i64, ParseError>(n),
            None => Err::<i64, ParseError>(ParseError::InvalidInteger),
        },
{
    match parse_decimal(line) {
        Some(n) => Ok(n),
        None => Err(ParseError::InvalidInteger),
    }
}

/// Removes the CR LF pair that must end `line`.
pub fn strip_line(line: &[u8]) -> (r: Result<&[u8], ParseError>)
    ensures
        match r {
            Ok(stripped) => line@.len() >= 2 && line@[line@.len() - 2] == CR && line@[line@.len()
                - 1] == LF && stripped@ == line@.take(line@.len() - 2),
            Err(e) => e == ParseError::InvalidEnd && !(line@.len() >= 2 && line@[line@.len() - 2]
                == CR && line@[line@.len() - 1] == LF),
        },
{
    if line.len() < 2 || line[line.len() - 2] != 13 || line[line.len() - 1] != 10 {
        return Err(ParseError::InvalidEnd);
    }
    Ok(slice_subrange(line, 0, line.len() - 2))
}

/// The values of a sequence of frames.
pub open spec fn frame_views(v: Seq<Frame>) -> Seq<FrameView> {
    Seq::new(v.len(), |i: int| v[i]@)
}

/// The value of an array frame is the array of the values of its elements.
pub proof fn lemma_array_view(v: Vec<Frame>)
    ensures
        Frame::Array(v)@ == FrameView::Array(frame_views(v@)),
{
    assert(Frame::Array(v)@->Array_0 =~= frame_views(v@));
}

/// `String::from_utf8`: the text that the bytes encode, exactly when they are
/// well-formed UTF-8.
#[verifier::external_body]
pub(crate) fn string_from_utf8(bytes: Vec<u8>) -> (r: Option<String>)
    ensures
        match r {
            Some(text) => valid_utf8(bytes@) && text@ == decode_utf8(bytes@),
            None => !valid_utf8(bytes@),
        },
{
    match String::from_utf8(bytes) {
        Ok(text) => Some(text),
        Err(_) => None,
    }
}

/// Reads a status line as text: no stray CR or LF, and well-formed UTF-8.
pub fn get_text(line: &[u8]) -> (r: Result<String, ParseError>)
    ensures
        match r {
            Ok(text) => is_text_line(line@) && valid_utf8(line@) && text@ == decode_utf8(line@),
            Err(e) => if !is_text_line(line@) {
                e == ParseError::InvalidString
            } else {
                e == ParseError::InvalidUtf8 && !valid_utf8(line@)
            },
        },
{
    let mut i: usize = 0;
    while i < line.len()
        invariant
            i <= line@.len(),
            forall|j: int| 0 <= j < i ==> #[trigger] line@[j] != CR && line@[j] != LF,
        decreases line@.len() - i,
    {
        if line[i] == 13 || line[i] == 10 {
            return Err(ParseError::InvalidString);
        }
        i += 1;
    }
    match string_from_utf8(slice_to_vec(line)) {
        Some(text) => Ok(text),
        None => Err(ParseError::InvalidUtf8),
    }
}

impl Frame {
    /// An empty array.
    pub fn array() -> (r: Frame)
        ensures
            r@ == FrameView::Array(Seq::<FrameView>::empty()),
    {
        let r = Frame::Array(Vec::new());
        assert(r@->Array_0 =~= Seq::<FrameView>::empty());
        r
    }

    /// Reads one frame from the cursor.
    ///
    /// On success the cursor stands just behind the frame. When the bytes from
    /// the cursor on are only the beginning of a frame the result is
    /// `Incomplete`; any other error says that they can never become one. After
    /// an error the position of the cursor says nothing.
    pub fn parse(buf: &mut Cursor<&[u8]>) -> (r: Result<Frame, ParseError>)
        ensures
            cursor_data(*final(buf)) == cursor_data(*old(buf)),
            match spec_parse(cursor_rest(*old(buf))) {
                Ok((frame, used)) => r is Ok && r->Ok_0@ == frame && cursor_position(*final(buf))
                    == cursor_position(*old(buf)) + used,
                Err(e) => r is Err && r->Err_0 == e,
            },
        decreases cursor_rest(*old(buf)).len(),
    {
        let ghost whole = cursor_rest(*buf);
        let kind = match get_u8(buf) {
            Ok(b) => b,
            Err(e) => {
                return Err(e);
            },
        };
        let ghost body = cursor_rest(*buf);
        assert(body =~= whole.skip(1));
        if kind == 43 || kind == 45 {
            let line = match get_line(buf) {
                Ok(line) => line,
                Err(e) => {
                    return Err(e);
                },
            };
            let text = match get_text(line) {
                Ok(text) => text,
                Err(e) => {
                    return Err(e);
                },
            };
            if kind == 43 {
                Ok(Frame::SimpleString(text))
            } else {
                Ok(Frame::SimpleError(text))
            }
        } else if kind == 58 {
            let line = match get_line(buf) {
                Ok(line) => line,
                Err(e) => {
                    return Err(e);
                },
            };
            match get_integer(line) {
                Ok(n) => Ok(Frame::Integer(n)),
                Err(e) => Err(e),
            }
        } else if kind == 36 {
            Frame::parse_bulk(buf)
        } else if kind == 42 {
            let line = match get_line(buf) {
                Ok(line) => line,
                Err(e) => {
                    return Err(e);
                },
            };
            let count = match get_integer(line) {
                Ok(n) => n,
                Err(e) => {
                    return Err(e);
                },
            };
            if count < 0 {
                return Err(ParseError::InvalidInteger);
            }
            let ghost items_at = cursor_position(*buf);
            let ghost items_rest = cursor_rest(*buf);
            let ghost header_used = spec_line(body)->Some_0.1;
            assert(items_rest =~= body.skip(header_used as int));
            let mut out: Vec<Frame> = Vec::new();
            let mut i: i64 = 0;
            while i < count
                invariant
                    0 <= i <= count,
                    out@.len() == i,
                    whole == cursor_rest(*old(buf)),
                    whole.len() > 0 && whole[0] == 42,
                    body == whole.skip(1),
                    spec_header(body) == Ok::<(i64, nat), ParseError>(
                        (count, header_used),
                    ),
                    items_rest == body.skip(header_used as int),
                    cursor_data(*buf) == cursor_data(*old(buf)),
                    cursor_rest(*buf).len() < whole.len(),
                    cursor_position(*buf) >= items_at,
                    match spec_parse_items(cursor_rest(*buf), (count - i) as nat) {
                        Ok((tail, more)) => spec_parse_items(items_rest, count as nat) == Ok::<
                            (Seq<FrameView>, nat),
                            ParseError,
                        >(
                            (
                                frame_views(out@) + tail,
                                (cursor_position(*buf) - items_at + more) as nat,
                            ),
                        ),
                        Err(e) => spec_parse_items(items_rest, count as nat) == Err::<
                            (Seq<FrameView>, nat),
                            ParseError,
                        >(e),
                    },
                decreases count - i,
            {
                let ghost here = cursor_rest(*buf);
                let ghost here_at = cursor_position(*buf);
                let ghost before = out@;
                proof {
                    lemma_parse_used(here);
                }
                let item = match Frame::parse(buf) {
                    Ok(item) => item,
                    Err(e) => {
                        return Err(e);
                    },
                };
                out.push(item);
                i += 1;
                proof {
                    let used = spec_parse(here)->Ok_0.1;
                    assert(cursor_rest(*buf) =~= here.skip(used as int));
                    assert(frame_views(out@) =~= frame_views(before) + seq![item@]);
                    match spec_parse_items(cursor_rest(*buf), (count - i) as nat) {
                        Ok((tail, more)) => {
                            assert((frame_views(before) + (seq![item@] + tail)) =~= (frame_views(
                                out@,
                            ) + tail));
                        },
                        Err(_) => {},
                    }
                }
            }
            proof {
                assert(frame_views(out@) + Seq::<FrameView>::empty() =~= frame_views(out@));
                lemma_array_view(out);
            }
            Ok(Frame::Array(out))
        } else {
            Err(ParseError::UnknownType)
        }
    }

    /// Reads what follows the `$` of a bulk frame.
    fn parse_bulk(buf: &mut Cursor<&[u8]>) -> (r: Result<Frame, ParseError>)
        ensures
            cursor_data(*final(buf)) == cursor_data(*old(buf)),
            match spec_bulk(cursor_rest(*old(buf))) {
                Ok((frame, used)) => r is Ok && r->Ok_0@ == frame && cursor_position(*final(buf))
                    == cursor_position(*old(buf)) + used,
                Err(e) => r is Err && r->Err_0 == e,
            },
    {
        let ghost body = cursor_rest(*buf);
        let first = match peek_u8(buf) {
            Ok(b) => b,
            Err(e) => {
                proof {
                    lemma_no_crlf(body);
                }
                return Err(e);
            },
        };
        let line = match get_line(buf) {
            Ok(line) => line,
            Err(e) => {
                return Err(e);
            },
        };
        let n = match get_integer(line) {
            Ok(n) => n,
            Err(e) => {
                return Err(e);
            },
        };
        let ghost used = spec_line(body)->Some_0.1;
        assert(line@.len() > 0);
        assert(line@[0] == body[0]);
        if first == 45 {
            if n == -1 {
                Ok(Frame::Null)
            } else {
                Err(ParseError::InvalidNull)
            }
        } else {
            assert(n >= 0);
            let rest = cursor_chunk(buf);
            assert(rest@ =~= body.skip(used as int));
            if (rest.len() as u64) < (n as u64) + 2 {
                return Err(ParseError::Incomplete);
            }
            let len: usize = n as usize;
            let window = slice_subrange(rest, 0, len + 2);
            let payload = match strip_line(window) {
                Ok(payload) => payload,
                Err(e) => {
                    return Err(e);
                },
            };
            let data = Bytes::copy_from_slice(payload);
            assert(payload@ =~= body.subrange(used as int, used + n));
            cursor_advance(buf, len + 2);
            Ok(Frame::BulkString(data))
        }
    }
}

impl Frame {
    /// The wire bytes of this frame.
    pub fn serialize(&self) -> (out: Vec<u8>)
        ensures
            out@ == spec_serialize(self@),
    {
        let mut out: Vec<u8> = Vec::new();
        self.write_to(&mut out);
        assert(Seq::<u8>::empty() + spec_serialize(self@) =~= spec_serialize(self@));
        out
    }

    /// Appends the wire bytes of this frame to `out`.
    pub fn write_to(&self, out: &mut Vec<u8>)
        ensures
            final(out)@ == old(out)@ + spec_serialize(self@),
        decreases self,
    {
        match self {
            Frame::SimpleString(text) => {
                out.push(43);
                append_bytes(out, text.as_str().as_bytes());
                out.push(13);
                out.push(10);
                assert(out@ =~= old(out)@ + spec_serialize(self@));
            },
            Frame::SimpleError(text) => {
                out.push(45);
                append_bytes(out, text.as_str().as_bytes());
                out.push(13);
                out.push(10);
                assert(out@ =~= old(out)@ + spec_serialize(self@));
            },
            Frame::Integer(n) => {
                out.push(58);
                push_decimal(*n, out);
                out.push(13);
                out.push(10);
                assert(out@ =~= old(out)@ + spec_serialize(self@));
            },
            Frame::BulkString(data) => {
                out.push(36);
                push_decimal_len(data.len(), out);
                out.push(13);
                out.push(10);
                append_bytes(out, data.as_ref());
                out.push(13);
                out.push(10);
                assert(out@ =~= old(out)@ + spec_serialize(self@));
            },
            Frame::Null => {
                out.push(36);
                out.push(45);
                out.push(49);
                out.push(13);
                out.push(10);
                assert(out@ =~= old(out)@ + spec_serialize(self@));
            },
            Frame::Array(items) => {
                out.push(42);
                push_decimal_len(items.len(), out);
                out.push(13);
                out.push(10);
                let ghost head = out@;
                let ghost views = frame_views(items@);
                proof {
                    lemma_array_view(*items);
                    assert(head =~= old(out)@ + (seq![42u8] + decimal_text(
                        items@.len() as int,
                    ) + seq![CR, LF]));
                    assert(views.take(0) =~= Seq::<FrameView>::empty());
                    assert(head + spec_serialize_items(views.take(0)) =~= head);
                }
                let mut i: usize = 0;
                while i < items.len()
                    invariant
                        decreases_to!(self => items),
                        i <= items@.len(),
                        views == frame_views(items@),
                        out@ == head + spec_serialize_items(views.take(i as int)),
                    decreases items@.len() - i,
                {
                    proof {
                        assert(decreases_to!(*items => items[i as int]));
                        lemma_serialize_items_concat(views.take(i as int), seq![views[i as int]]);
                        lemma_serialize_items_one(views[i as int]);
                        assert(views.take(i + 1) =~= views.take(i as int) + seq![views[i as int]]);
                    }
                    let ghost before = out@;
                    items[i].write_to(out);
                    i += 1;
                    assert(out@ =~= head + spec_serialize_items(views.take(i as int)));
                }
                proof {
                    assert(views.take(i as int) =~= views);
                    assert(out@ =~= old(out)@ + spec_serialize(self@));
                }
            },
        }
    }
}

/// Appends the decimal text of a length to `out`.
fn push_decimal_len(n: usize, out: &mut Vec<u8>)
    ensures
        final(out)@ == old(out)@ + decimal_text(n as int),
{
    push_digits(n as u64, out);
}

} // verus!
