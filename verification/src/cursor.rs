//! The byte cursor that the frame codec reads from.
//!
//! The cursor is `std::io::Cursor` over a byte slice, read through the
//! `bytes::Buf` interface. Verus cannot look inside it, so this module names
//! what a cursor holds and states, without proof, what each operation used by
//! the codec does to it.

use vstd::prelude::*;
use bytes::Buf;
use std::io::Cursor;

verus! {

/// `std::io::Cursor`, taken as it is: a slice and a position in it.
#[verifier::external_type_specification]
#[verifier::external_body]
#[verifier::reject_recursive_types(T)]
pub struct ExCursor<T>(std::io::Cursor<T>);

/// The whole byte slice that a cursor was made over.
pub uninterp spec fn cursor_data(c: Cursor<&[u8]>) -> Seq<u8>;

/// The current position of a cursor, counted from the start of its slice.
pub uninterp spec fn cursor_position(c: Cursor<&[u8]>) -> nat;

/// The bytes of the cursor that have not been consumed yet.
pub open spec fn cursor_rest(c: Cursor<&[u8]>) -> Seq<u8> {
    if cursor_position(c) <= cursor_data(c).len() {
        cursor_data(c).subrange(cursor_position(c) as int, cursor_data(c).len() as int)
    } else {
        Seq::empty()
    }
}

/// `Cursor::new`: a cursor over `data`, positioned at its start.
#[verifier::external_body]
pub(crate) fn cursor_new<'a>(data: &'a [u8]) -> (c: Cursor<&'a [u8]>)
    ensures
        cursor_data(c) == data@,
        cursor_position(c) == 0,
{
    Cursor::new(data)
}

/// `Cursor::position`: the current position.
#[verifier::external_body]
pub(crate) fn cursor_at(c: &Cursor<&[u8]>) -> (p: u64)
    ensures
        p == cursor_position(*c),
{
    c.position()
}

/// `Cursor::set_position`: moves the cursor; the slice is untouched.
#[verifier::external_body]
pub(crate) fn cursor_move_to(c: &mut Cursor<&[u8]>, p: u64)
    ensures
        cursor_position(*final(c)) == p,
        cursor_data(*final(c)) == cursor_data(*old(c)),
{
    c.set_position(p)
}

/// `Cursor::get_ref`: the whole underlying slice.
#[verifier::external_body]
pub(crate) fn cursor_slice<'a>(c: &Cursor<&'a [u8]>) -> (s: &'a [u8])
    ensures
        s@ == cursor_data(*c),
{
    c.get_ref()
}

/// `Buf::has_remaining` for a cursor: whether any byte lies at or after the position.
#[verifier::external_body]
pub(crate) fn cursor_has_remaining(c: &Cursor<&[u8]>) -> (b: bool)
    ensures
        b == (cursor_position(*c) < cursor_data(*c).len()),
{
    c.has_remaining()
}

/// `Buf::get_u8` for a cursor: the byte at the position, which then moves on
/// by one. The call panics when no byte is left, so that case is excluded.
#[verifier::external_body]
pub(crate) fn cursor_take_u8(c: &mut Cursor<&[u8]>) -> (b: u8)
    requires
        cursor_position(*old(c)) < cursor_data(*old(c)).len(),
    ensures
        b == cursor_data(*old(c))[cursor_position(*old(c)) as int],
        cursor_position(*final(c)) == cursor_position(*old(c)) + 1,
        cursor_data(*final(c)) == cursor_data(*old(c)),
{
    c.get_u8()
}

/// `Buf::chunk` for a cursor: the bytes from the position to the end of the
/// slice, none when the position lies beyond it.
#[verifier::external_body]
pub(crate) fn cursor_chunk<'b>(c: &'b Cursor<&[u8]>) -> (s: &'b [u8])
    ensures
        s@ == cursor_rest(*c),
{
    c.chunk()
}

/// `Buf::advance` for a cursor: moves the position forward by `cnt`. The call
/// panics when fewer than `cnt` bytes are left, so that case is excluded.
#[verifier::external_body]
pub(crate) fn cursor_advance(c: &mut Cursor<&[u8]>, cnt: usize)
    requires
        cnt <= cursor_rest(*old(c)).len(),
    ensures
        cursor_position(*final(c)) == cursor_position(*old(c)) + cnt,
        cursor_data(*final(c)) == cursor_data(*old(c)),
{
    c.advance(cnt)
}

} // verus!
