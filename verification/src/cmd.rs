//! Requests: what a frame asks for.

use vstd::prelude::*;
use vstd::string::StringExecFns;
use bytes::Bytes;
use std::time::Duration;
use crate::clock::duration_nanos;
use crate::decimal::{all_digits, digits_value, is_digit};
use crate::frame::{frame_views, lemma_array_view, Frame, FrameView};
use crate::payload::bytes_view;

verus! {

/// A request.
#[allow(inconsistent_fields)]
pub enum Command {
    Ping { msg: Option<Bytes> },
    Echo { msg: Bytes },
    Get { key: Bytes },
    /// `SET`: store a value, to expire after `expiry` or never.
    SetValue { key: Bytes, value: Bytes, expiry: Option<Duration> },
}

/// The mathematical value of a [`Command`]; a time to live is counted in
/// nanoseconds.
#[allow(inconsistent_fields)]
pub ghost enum CommandView {
    Ping { msg: Option<Seq<u8>> },
    Echo { msg: Seq<u8> },
    Get { key: Seq<u8> },
    SetValue { key: Seq<u8>, value: Seq<u8>, expiry: Option<nat> },
}

impl View for Command {
    type V = CommandView;

    open spec fn view(&self) -> CommandView {
        match self {
            Command::Ping { msg } => CommandView::Ping {
                msg: match msg {
                    Some(m) => Some(bytes_view(*m)),
                    None => None,
                },
            },
            Command::Echo { msg } => CommandView::Echo { msg: bytes_view(*msg) },
            Command::Get { key } => CommandView::Get { key: bytes_view(*key) },
            Command::SetValue { key, value, expiry } => CommandView::SetValue {
                key: bytes_view(*key),
                value: bytes_view(*value),
                expiry: match expiry {
                    Some(ttl) => Some(duration_nanos(*ttl)),
                    None => None,
                },
            },
        }
    }
}

/// Why a frame is not a request.
#[derive(Debug)]
pub enum CommandError {
    /// The frame is not an array.
    ExpectedArray,
    /// The command name, as text, is none that the server knows.
    Unknown(String),
    /// The array is empty.
    Empty,
    /// The first element of the array is not a bulk string.
    InvalidCommandName,
    /// The arguments are not what the command takes.
    InvalidMsg,
    /// The expiry clause of `SET` is malformed.
    InvalidExpiry,
}

/// The mathematical value of a [`CommandError`].
pub ghost enum CommandErrorView {
    ExpectedArray,
    Unknown(Seq<char>),
    Empty,
    InvalidCommandName,
    InvalidMsg,
    InvalidExpiry,
}

impl View for CommandError {
    type V = CommandErrorView;

    open spec fn view(&self) -> CommandErrorView {
        match self {
            CommandError::ExpectedArray => CommandErrorView::ExpectedArray,
            CommandError::Unknown(name) => CommandErrorView::Unknown(name@),
            CommandError::Empty => CommandErrorView::Empty,
            CommandError::InvalidCommandName => CommandErrorView::InvalidCommandName,
            CommandError::InvalidMsg => CommandErrorView::InvalidMsg,
            CommandError::InvalidExpiry => CommandErrorView::InvalidExpiry,
        }
    }
}

/// The upper-case form of an ASCII letter; any other byte as it is.
pub open spec fn upper_byte(b: u8) -> u8 {
    if 97 <= b <= 122 {
        (b - 32) as u8
    } else {
        b
    }
}

/// A byte string with its ASCII letters in upper case.
pub open spec fn ascii_upper(s: Seq<u8>) -> Seq<u8> {
    Seq::new(s.len(), |i: int| upper_byte(s[i]))
}

/// Whether `name` is `word` up to the case of ASCII letters; `word` is in
/// upper case.
pub fn is_word(name: &[u8], word: &[u8]) -> (r: bool)
    ensures
        r == (ascii_upper(name@) == word@),
{
    if name.len() != word.len() {
        return false;
    }
    let mut i: usize = 0;
    while i < name.len()
        invariant
            name@.len() == word@.len(),
            i <= name@.len(),
            forall|j: int| 0 <= j < i ==> upper_byte(#[trigger] name@[j]) == word@[j],
        decreases name@.len() - i,
    {
        let b = name[i];
        let up: u8 = if 97 <= b && b <= 122 { b - 32 } else { b };
        if up != word[i] {
            assert(ascii_upper(name@)[i as int] != word@[i as int]);
            return false;
        }
        i += 1;
    }
    assert(ascii_upper(name@) =~= word@);
    true
}

/// What reading `s` as an unsigned 64-bit decimal gives: an optional plus
/// sign, then one or more digits and nothing else, with a value that fits.
pub open spec fn spec_parse_u64(s: Seq<u8>) -> Option<u64> {
    let digits = if s.len() > 0 && s[0] == 43 { s.skip(1) } else { s };
    if digits.len() >= 1 && all_digits(digits) && digits_value(digits) <= u64::MAX {
        Some(digits_value(digits) as u64)
    } else {
        None
    }
}

/// A number only grows as digits are added to it.
proof fn lemma_digits_value_grows(s: Seq<u8>, k: int)
    requires
        all_digits(s),
        0 <= k <= s.len(),
    ensures
        digits_value(s.take(k)) <= digits_value(s),
    decreases s.len() - k,
{
    if k < s.len() {
        let t = s.take(k + 1);
        assert(t.drop_last() =~= s.take(k));
        assert(is_digit(s[k]));
        assert(t.last() == s[k]);
        lemma_digits_value_grows(s, k + 1);
    } else {
        assert(s.take(k) =~= s);
    }
}

/// Reads a whole byte string as an unsigned 64-bit decimal number.
pub fn parse_u64(text: &[u8]) -> (r: Option<u64>)
    ensures
        r == spec_parse_u64(text@),
{
    let start: usize = if text.len() > 0 && text[0] == 43 { 1 } else { 0 };
    let ghost digits = if text@.len() > 0 && text@[0] == 43 { text@.skip(1) } else { text@ };
    if text.len() <= start {
        return None;
    }
    let mut acc: u64 = 0;
    let mut i: usize = start;
    assert(digits.take(0) =~= Seq::<u8>::empty());
    while i < text.len()
        invariant
            start <= i <= text@.len(),
            digits == (if text@.len() > 0 && text@[0] == 43 {
                text@.skip(1)
            } else {
                text@
            }),
            start == (if text@.len() > 0 && text@[0] == 43 { 1usize } else { 0usize }),
            digits.len() == text@.len() - start,
            forall|j: int| 0 <= j < digits.len() ==> digits[j] == text@[j + start],
            forall|j: int| 0 <= j < i - start ==> is_digit(#[trigger] digits[j]),
            acc == digits_value(digits.take(i - start)),
        decreases text@.len() - i,
    {
        let b = text[i];
        if b < 48 || b > 57 {
            assert(!is_digit(digits[i - start]));
            return None;
        }
        let d: u64 = (b - 48) as u64;
        let ghost next = digits.take(i - start + 1);
        proof {
            assert(next.drop_last() =~= digits.take(i - start));
            assert(next.last() == b);
        }
        if acc > (u64::MAX - d) / 10 {
            proof {
                assert(digits_value(next) > u64::MAX);
                if all_digits(digits) {
                    lemma_digits_value_grows(digits, i - start + 1);
                }
            }
            return None;
        }
        acc = acc * 10 + d;
        i += 1;
    }
    assert(digits.take(i - start) =~= digits);
    Some(acc)
}

/// The text that `String::from_utf8_lossy` makes of a byte string.
pub uninterp spec fn lossy_text(bytes: Seq<u8>) -> Seq<char>;

/// `String::from_utf8_lossy`, as an owned string: the bytes as text, with a
/// replacement character wherever they are not UTF-8.
#[verifier::external_body]
pub(crate) fn from_utf8_lossy(bytes: &[u8]) -> (r: String)
    ensures
        r@ == lossy_text(bytes@),
{
    String::from_utf8_lossy(bytes).into_owned()
}

/// The arguments of `GET`: exactly one bulk string, the key.
pub open spec fn spec_get_args(args: Seq<FrameView>) -> Result<CommandView, CommandErrorView> {
    if args.len() == 1 && args[0] is BulkString {
        Ok(CommandView::Get { key: args[0]->BulkString_0 })
    } else {
        Err(CommandErrorView::InvalidMsg)
    }
}

/// The arguments of `ECHO`: exactly one bulk string, the message.
pub open spec fn spec_echo_args(args: Seq<FrameView>) -> Result<CommandView, CommandErrorView> {
    if args.len() == 1 && args[0] is BulkString {
        Ok(CommandView::Echo { msg: args[0]->BulkString_0 })
    } else {
        Err(CommandErrorView::InvalidMsg)
    }
}

/// The arguments of `PING`: none, or one. One that is a bulk string is the
/// message; any other single argument is passed over.
pub open spec fn spec_ping_args(args: Seq<FrameView>) -> Result<CommandView, CommandErrorView> {
    if args.len() == 0 {
        Ok(CommandView::Ping { msg: None })
    } else if args.len() == 1 {
        if args[0] is BulkString {
            Ok(CommandView::Ping { msg: Some(args[0]->BulkString_0) })
        } else {
            Ok(CommandView::Ping { msg: None })
        }
    } else {
        Err(CommandErrorView::InvalidMsg)
    }
}

/// The expiry clause of `SET`: nothing, or `EX` and a number of seconds, or
/// `PX` and a number of milliseconds. The result is in nanoseconds.
pub open spec fn spec_expiry(rest: Seq<FrameView>) -> Result<Option<nat>, CommandErrorView> {
    if rest.len() == 0 {
        Ok(None)
    } else if rest.len() == 2 && rest[0] is BulkString && rest[1] is BulkString {
        match spec_parse_u64(rest[1]->BulkString_0) {
            None => Err(CommandErrorView::InvalidExpiry),
            Some(time) => {
                let unit = ascii_upper(rest[0]->BulkString_0);
                if unit == seq![69u8, 88u8] {
                    Ok(Some((time * 1_000_000_000) as nat))
                } else if unit == seq![80u8, 88u8] {
                    Ok(Some((time * 1_000_000) as nat))
                } else {
                    Err(CommandErrorView::InvalidExpiry)
                }
            },
        }
    } else {
        Err(CommandErrorView::InvalidExpiry)
    }
}

/// The arguments of `SET`: a key and a value, both bulk strings, then an
/// optional expiry clause.
pub open spec fn spec_set_args(args: Seq<FrameView>) -> Result<CommandView, CommandErrorView> {
    if args.len() >= 2 && args[0] is BulkString && args[1] is BulkString {
        match spec_expiry(args.skip(2)) {
            Ok(expiry) => Ok(
                CommandView::SetValue {
                    key: args[0]->BulkString_0,
                    value: args[1]->BulkString_0,
                    expiry,
                },
            ),
            Err(e) => Err(e),
        }
    } else {
        Err(CommandErrorView::InvalidMsg)
    }
}

/// The request that a frame makes: an array whose first element, a bulk
/// string, names the command in any mix of upper and lower case.
pub open spec fn spec_command(f: FrameView) -> Result<CommandView, CommandErrorView> {
    match f {
        FrameView::Array(items) => if items.len() == 0 {
            Err(CommandErrorView::Empty)
        } else {
            match items[0] {
                FrameView::BulkString(name) => {
                    let word = ascii_upper(name);
                    let args = items.skip(1);
                    if word == seq![71u8, 69u8, 84u8] {
                        spec_get_args(args)
                    } else if word == seq![83u8, 69u8, 84u8] {
                        spec_set_args(args)
                    } else if word == seq![80u8, 73u8, 78u8, 71u8] {
                        spec_ping_args(args)
                    } else if word == seq![69u8, 67u8, 72u8, 79u8] {
                        spec_echo_args(args)
                    } else {
                        Err(CommandErrorView::Unknown(lossy_text(name)))
                    }
                },
                _ => Err(CommandErrorView::InvalidCommandName),
            }
        },
        _ => Err(CommandErrorView::ExpectedArray),
    }
}

/// Whether a result of parsing stands for the given outcome.
pub open spec fn is_outcome(
    r: Result<Command, CommandError>,
    expected: Result<CommandView, CommandErrorView>,
) -> bool {
    match expected {
        Ok(c) => r is Ok && r->Ok_0@ == c,
        Err(e) => r is Err && r->Err_0@ == e,
    }
}

fn parse_get(frames: &[Frame]) -> (r: Result<Command, CommandError>)
    ensures
        is_outcome(r, spec_get_args(frame_views(frames@))),
{
    if frames.len() == 1 {
        if let Frame::BulkString(key) = &frames[0] {
            return Ok(Command::Get { key: key.clone() });
        }
    }
    Err(CommandError::InvalidMsg)
}

fn parse_echo(frames: &[Frame]) -> (r: Result<Command, CommandError>)
    ensures
        is_outcome(r, spec_echo_args(frame_views(frames@))),
{
    if frames.len() == 1 {
        if let Frame::BulkString(msg) = &frames[0] {
            return Ok(Command::Echo { msg: msg.clone() });
        }
    }
    Err(CommandError::InvalidMsg)
}

fn parse_ping(frames: &[Frame]) -> (r: Result<Command, CommandError>)
    ensures
        is_outcome(r, spec_ping_args(frame_views(frames@))),
{
    if frames.len() == 0 {
        Ok(Command::Ping { msg: None })
    } else if frames.len() == 1 {
        if let Frame::BulkString(msg) = &frames[0] {
            Ok(Command::Ping { msg: Some(msg.clone()) })
        } else {
            Ok(Command::Ping { msg: None })
        }
    } else {
        Err(CommandError::InvalidMsg)
    }
}

/// Reads the expiry clause of `SET` from the arguments after key and value.
fn parse_expiry(frames: &[Frame]) -> (r: Result<Option<Duration>, CommandError>)
    requires
        frames@.len() >= 2,
    ensures
        match spec_expiry(frame_views(frames@).skip(2)) {
            Ok(expiry) => r is Ok && expiry == (match r->Ok_0 {
                Some(ttl) => Some(duration_nanos(ttl)),
                None => None::<nat>,
            }),
            Err(e) => r is Err && r->Err_0@ == e,
        },
{
    let ghost rest = frame_views(frames@).skip(2);
    if frames.len() == 2 {
        return Ok(None);
    }
    if frames.len() != 4 {
        return Err(CommandError::InvalidExpiry);
    }
    assert(rest[0] == frames@[2]@ && rest[1] == frames@[3]@);
    let unit = match &frames[2] {
        Frame::BulkString(unit) => unit,
        _ => {
            return Err(CommandError::InvalidExpiry);
        },
    };
    let time = match &frames[3] {
        Frame::BulkString(time) => time,
        _ => {
            return Err(CommandError::InvalidExpiry);
        },
    };
    let time = match parse_u64(time.as_ref()) {
        Some(time) => time,
        None => {
            return Err(CommandError::InvalidExpiry);
        },
    };
    if is_word(unit.as_ref(), vec![69u8, 88u8].as_slice()) {
        Ok(Some(Duration::from_secs(time)))
    } else if is_word(unit.as_ref(), vec![80u8, 88u8].as_slice()) {
        Ok(Some(Duration::from_millis(time)))
    } else {
        Err(CommandError::InvalidExpiry)
    }
}

fn parse_set(frames: &[Frame]) -> (r: Result<Command, CommandError>)
    ensures
        is_outcome(r, spec_set_args(frame_views(frames@))),
{
    if frames.len() < 2 {
        return Err(CommandError::InvalidMsg);
    }
    let key = match &frames[0] {
        Frame::BulkString(key) => key,
        _ => {
            return Err(CommandError::InvalidMsg);
        },
    };
    let value = match &frames[1] {
        Frame::BulkString(value) => value,
        _ => {
            return Err(CommandError::InvalidMsg);
        },
    };
    match parse_expiry(frames) {
        Ok(expiry) => Ok(Command::SetValue { key: key.clone(), value: value.clone(), expiry }),
        Err(e) => Err(e),
    }
}

impl Command {
    /// Reads a frame as a request.
    pub fn from_frame(frame: Frame) -> (r: Result<Command, CommandError>)
        ensures
            is_outcome(r, spec_command(frame@)),
    {
        match frame {
            Frame::Array(frames) => {
                let mut frames = frames;
                let ghost items = frame_views(frames@);
                proof {
                    lemma_array_view(frames);
                }
                if frames.len() == 0 {
                    return Err(CommandError::Empty);
                }
                let name = match frames.remove(0) {
                    Frame::BulkString(name) => name,
                    _ => {
                        return Err(CommandError::InvalidCommandName);
                    },
                };
                assert(frame_views(frames@) =~= items.skip(1));
                let word = name.as_ref();
                if is_word(word, vec![71u8, 69u8, 84u8].as_slice()) {
                    parse_get(frames.as_slice())
                } else if is_word(word, vec![83u8, 69u8, 84u8].as_slice()) {
                    parse_set(frames.as_slice())
                } else if is_word(word, vec![80u8, 73u8, 78u8, 71u8].as_slice()) {
                    parse_ping(frames.as_slice())
                } else if is_word(word, vec![69u8, 67u8, 72u8, 79u8].as_slice()) {
                    parse_echo(frames.as_slice())
                } else {
                    Err(CommandError::Unknown(from_utf8_lossy(word)))
                }
            },
            _ => Err(CommandError::ExpectedArray),
        }
    }
}

/// What a client is told about an error.
pub open spec fn spec_message(e: CommandErrorView) -> Seq<char> {
    match e {
        CommandErrorView::ExpectedArray => "Expected array for command parsing"@,
        CommandErrorView::Unknown(_) => "Unknown Command"@,
        CommandErrorView::Empty => "Expected command, got empty frame"@,
        CommandErrorView::InvalidCommandName => "Failed to parse command name"@,
        CommandErrorView::InvalidMsg => "Expected String for message"@,
        CommandErrorView::InvalidExpiry => "Invalid expiry"@,
    }
}

/// No error message is empty.
pub proof fn lemma_message_not_empty(e: CommandErrorView)
    ensures
        spec_message(e).len() > 0,
{
    reveal_strlit("Expected array for command parsing");
    reveal_strlit("Unknown Command");
    reveal_strlit("Expected command, got empty frame");
    reveal_strlit("Failed to parse command name");
    reveal_strlit("Expected String for message");
    reveal_strlit("Invalid expiry");
}

impl CommandError {
    /// What a client is told about this error.
    pub fn message(&self) -> (r: String)
        ensures
            r@ == spec_message(self@),
    {
        match self {
            CommandError::ExpectedArray => String::from_str("Expected array for command parsing"),
            CommandError::Unknown(_) => String::from_str("Unknown Command"),
            CommandError::Empty => String::from_str("Expected command, got empty frame"),
            CommandError::InvalidCommandName => String::from_str("Failed to parse command name"),
            CommandError::InvalidMsg => String::from_str("Expected String for message"),
            CommandError::InvalidExpiry => String::from_str("Invalid expiry"),
        }
    }
}

} // verus!
