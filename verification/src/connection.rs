//! The connection framer: from the bytes of a stream to frames.
//!
//! A [`Connection`] holds what has been received and not yet read as a frame.
//! Whoever owns the stream feeds it the bytes as they arrive and asks for the
//! next frame; when the stream ends, [`Connection::end_of_stream`] says
//! whether it ended between two frames or in the middle of one.

use vstd::prelude::*;
use bytes::{Buf, BytesMut};
use crate::cursor::{cursor_at, cursor_new, cursor_rest};
use crate::frame::{Frame, FrameView, ParseError};
use crate::payload::buffer_view;
use crate::codec_laws::{is_incomplete, lemma_parse_stable};
use crate::wire::{lemma_parse_used, spec_parse};

verus! {

/// Why a connection cannot go on.
#[derive(Debug, Clone, Copy, PartialEq, Eq, Structural)]
pub enum ConnectionError {
    /// What was received is not a frame and cannot become one.
    Parse(ParseError),
    /// The stream ended in the middle of a frame.
    UnexpectedEof,
}

/// The receiving side of one connection.
pub struct Connection {
    buffer: BytesMut,
}

impl View for Connection {
    type V = Seq<u8>;

    /// The bytes received and not yet read as a frame.
    closed spec fn view(&self) -> Seq<u8> {
        buffer_view(self.buffer)
    }
}

/// What asking for the next frame gives on the buffered bytes `b`: the first
/// frame and the bytes left behind it, or nothing yet, or the error that ends
/// the connection.
pub open spec fn spec_read_frame(b: Seq<u8>) -> Result<Option<(FrameView, Seq<u8>)>, ConnectionError> {
    match spec_parse(b) {
        Ok((frame, used)) => Ok(Some((frame, b.skip(used as int)))),
        Err(ParseError::Incomplete) => Ok(None),
        Err(e) => Err(ConnectionError::Parse(e)),
    }
}

impl Connection {
    /// A connection on which nothing has been received yet.
    pub fn new() -> (r: Connection)
        ensures
            r@ == Seq::<u8>::empty(),
    {
        Connection { buffer: BytesMut::new() }
    }

    /// Takes in bytes that have arrived from the stream.
    pub fn feed(&mut self, bytes: &[u8])
        ensures
            final(self)@ == old(self)@ + bytes@,
    {
        self.buffer.extend_from_slice(bytes);
    }

    /// Whether nothing is buffered.
    pub fn is_empty(&self) -> (r: bool)
        ensures
            r == (self@.len() == 0),
    {
        self.buffer.len() == 0
    }

    /// Takes the next frame out of the buffer, if a whole one is there.
    ///
    /// `Ok(None)` asks for more bytes and leaves the buffer as it is. A frame
    /// takes exactly its own bytes away; what has arrived behind it stays for
    /// the next call.
    pub fn read_frame(&mut self) -> (r: Result<Option<Frame>, ConnectionError>)
        ensures
            match spec_read_frame(old(self)@) {
                Ok(Some((frame, rest))) => r matches Ok(Some(f)) && f@ == frame && final(self)@
                    == rest,
                Ok(None) => r matches Ok(None) && final(self)@ == old(self)@,
                Err(e) => r == Err::<Option<Frame>, ConnectionError>(e) && final(self)@ == old(
                    self,
                )@,
            },
    {
        let data = self.buffer.as_ref();
        let len = data.len();
        let mut cursor = cursor_new(data);
        assert(cursor_rest(cursor) =~= data@);
        proof {
            lemma_parse_used(data@);
        }
        match Frame::parse(&mut cursor) {
            Ok(frame) => {
                let at = cursor_at(&cursor);
                assert(at <= len);
                self.buffer.advance(at as usize);
                Ok(Some(frame))
            },
            Err(ParseError::Incomplete) => Ok(None),
            Err(e) => Err(ConnectionError::Parse(e)),
        }
    }

    /// What the end of the stream means: a clean close where nothing is
    /// buffered, a broken connection where part of a frame is.
    pub fn end_of_stream(&self) -> (r: Result<(), ConnectionError>)
        ensures
            r == (if self@.len() == 0 {
                Ok::<(), ConnectionError>(())
            } else {
                Err::<(), ConnectionError>(ConnectionError::UnexpectedEof)
            }),
    {
        if self.buffer.len() == 0 {
            Ok(())
        } else {
            Err(ConnectionError::UnexpectedEof)
        }
    }
}

/// What a connection makes of the bytes `b` when it is asked for frames until
/// none is left: the frames, the bytes that stay buffered, and the error that
/// stopped it, if one did.
pub ghost struct Drained {
    pub frames: Seq<FrameView>,
    pub rest: Seq<u8>,
    pub error: Option<ParseError>,
}

/// Reads frames off the front of `b` for as long as there is a whole one.
///
/// A frame takes at least one byte and never more than there are
/// ([`lemma_parse_used`]); the test on `used` only makes that evident where
/// the definition recurses.
pub open spec fn spec_drain(b: Seq<u8>) -> Drained
    decreases b.len(),
{
    match spec_parse(b) {
        Ok((frame, used)) => if 0 < used <= b.len() {
            let later = spec_drain(b.skip(used as int));
            Drained { frames: seq![frame] + later.frames, rest: later.rest, error: later.error }
        } else {
            Drained { frames: Seq::empty(), rest: b, error: None }
        },
        Err(ParseError::Incomplete) => Drained { frames: Seq::empty(), rest: b, error: None },
        Err(e) => Drained { frames: Seq::empty(), rest: b, error: Some(e) },
    }
}

/// What is left in the buffer after draining is the beginning of a frame at
/// most: no whole frame is left in it.
pub proof fn lemma_drain_rest(b: Seq<u8>)
    ensures
        spec_drain(b).error is None ==> is_incomplete(spec_parse(spec_drain(b).rest)),
        spec_drain(b).error matches Some(e) ==> spec_parse(spec_drain(b).rest) == Err::<
            (FrameView, nat),
            ParseError,
        >(e) && e != ParseError::Incomplete,
    decreases b.len(),
{
    lemma_parse_used(b);
    match spec_parse(b) {
        Ok((_, used)) => {
            lemma_drain_rest(b.skip(used as int));
        },
        Err(_) => {},
    }
}

/// Frames arrive the same however the stream is cut into pieces.
///
/// Feeding `first`, reading all the frames that are there, then feeding `second`
/// and reading again gives the frames, the leftover and the error that feeding
/// `first + second` at once gives. An error found in `first` ends the
/// connection there, whatever follows.
pub proof fn lemma_incremental(first: Seq<u8>, second: Seq<u8>)
    ensures
        spec_drain(first).error is None ==> spec_drain(first + second) == (Drained {
            frames: spec_drain(first).frames + spec_drain(spec_drain(first).rest + second).frames,
            rest: spec_drain(spec_drain(first).rest + second).rest,
            error: spec_drain(spec_drain(first).rest + second).error,
        }),
        spec_drain(first).error is Some ==> spec_drain(first + second).frames == spec_drain(
            first,
        ).frames && spec_drain(first + second).error == spec_drain(first).error,
    decreases first.len(),
{
    lemma_parse_used(first);
    match spec_parse(first) {
        Ok((frame, used)) => {
            lemma_parse_stable(first, second);
            let after = first.skip(used as int);
            assert((first + second).skip(used as int) =~= after + second);
            lemma_incremental(after, second);
            let later = spec_drain(after);
            if later.error is None {
                let more = spec_drain(later.rest + second);
                assert(seq![frame] + (later.frames + more.frames) =~= (seq![frame] + later.frames)
                    + more.frames);
            }
        },
        Err(ParseError::Incomplete) => {
            assert(Seq::<FrameView>::empty() + spec_drain(first + second).frames =~= spec_drain(
                first + second,
            ).frames);
        },
        Err(e) => {
            lemma_parse_stable(first, second);
        },
    }
}

} // verus!
