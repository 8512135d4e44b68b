//! What can go wrong opening a device, and how each failure reads.
use crate::stream::MAX_BLOCK;
use vstd::prelude::*;

verus! {

/// Which side of the device a failure is on.
#[derive(Debug, Clone, Copy, PartialEq, Eq, Structural)]
pub enum Direction {
    /// The device the chain is fed from.
    Input,
    /// The device the chain is played to.
    Output,
}

/// The word a message uses for a side.
pub open spec fn direction_word(d: Direction) -> Seq<char> {
    match d {
        Direction::Input => "input"@,
        Direction::Output => "output"@,
    }
}

impl Direction {
    /// The word a message uses for this side: `input` or `output`.
    pub fn name(&self) -> (word: &'static str)
        ensures
            word@ == direction_word(*self),
    {
        match self {
            Direction::Input => "input",
            Direction::Output => "output",
        }
    }
}

/// Everything the checks and choices made before a device is opened can
/// fail with.
#[derive(Debug, Clone, PartialEq, Eq)]
pub enum Error {
    /// The block size asked for is zero, or larger than [`crate::MAX_BLOCK`].
    Block(usize),
    /// The chain was said to produce a number of channels other than 1 or 2.
    OutputChannels(usize),
    /// The sample rate asked for is zero.
    SampleRate,
    /// The host has no default device of that kind.
    NoDevice(Direction),
    /// No device of that kind has the name asked for.
    NoSuchDevice(Direction, String),
    /// The device offers no `f32` configuration at the requested rate.
    NoConfig(Direction, u32),
    /// The device claims a configuration with no channels in it.
    NoChannels(Direction),
}

/// The decimal digit `d` (below ten) as a character.
pub open spec fn digit_char(d: nat) -> char {
    (48 + d) as char
}

/// `n` written in decimal, without leading zeros.
pub open spec fn decimal(n: nat) -> Seq<char>
    decreases n,
{
    if n < 10 {
        seq![digit_char(n)]
    } else {
        decimal(n / 10).push(digit_char(n % 10))
    }
}

/// The text of std's `Debug` formatting of a string: the string in double
/// quotes, with quotes, backslashes and the characters that need it escaped.
pub uninterp spec fn debug_text(s: Seq<char>) -> Seq<char>;

/// `format!("{:?}", s)`, std's `Debug` formatting of a string. The result
/// is named, not spelled out: the escaping rules are std's.
#[verifier::external_body]
fn debug_quoted(s: &String) -> (text: String)
    ensures
        text@ == debug_text(s@),
{
    format!("{:?}", s)
}

/// The decimal digit `d` as a one-character string.
fn digit(d: u64) -> (text: &'static str)
    requires
        d < 10,
    ensures
        text@ == seq![digit_char(d as nat)],
{
    proof {
        reveal_strlit("0");
        reveal_strlit("1");
        reveal_strlit("2");
        reveal_strlit("3");
        reveal_strlit("4");
        reveal_strlit("5");
        reveal_strlit("6");
        reveal_strlit("7");
        reveal_strlit("8");
        reveal_strlit("9");
    }
    match d {
        0 => "0",
        1 => "1",
        2 => "2",
        3 => "3",
        4 => "4",
        5 => "5",
        6 => "6",
        7 => "7",
        8 => "8",
        _ => "9",
    }
}

/// Append `n` in decimal to `text`.
fn push_decimal(text: &mut String, n: u64)
    ensures
        final(text)@ == old(text)@ + decimal(n as nat),
    decreases n,
{
    if n >= 10 {
        push_decimal(text, n / 10);
    }
    text.append(digit(n % 10));
    proof {
        if n >= 10 {
            assert(decimal(n as nat) == decimal((n / 10) as nat).push(digit_char((n % 10) as nat)));
        }
    }
    assert(text@ =~= old(text)@ + decimal(n as nat));
}

/// How `error` reads.
pub open spec fn message_text(error: Error) -> Seq<char> {
    match error {
        Error::Block(block) => "a block of "@ + decimal(block as nat)
            + " frames, which is not between 1 and "@ + decimal(MAX_BLOCK as nat),
        Error::OutputChannels(n) => decimal(n as nat) + " output channels, which is not 1 or 2"@,
        Error::SampleRate => "a sample rate of zero"@,
        Error::NoDevice(d) => "no default "@ + direction_word(d) + " device"@,
        Error::NoSuchDevice(d, name) => "no "@ + direction_word(d) + " device named "@ + debug_text(
            name@,
        ),
        Error::NoConfig(d, rate) => "the "@ + direction_word(d) + " device offers no f32 configuration at "@
            + decimal(rate as nat) + " Hz"@,
        Error::NoChannels(d) => "the "@ + direction_word(d)
            + " device offers a configuration with no channels"@,
    }
}

impl Error {
    /// How this failure reads, for a log or a dialog.
    pub fn message(&self) -> (text: String)
        ensures
            text@ == message_text(*self),
    {
        let mut text = String::new();
        match self {
            Error::Block(block) => {
                text.append("a block of ");
                push_decimal(&mut text, *block as u64);
                text.append(" frames, which is not between 1 and ");
                push_decimal(&mut text, MAX_BLOCK as u64);
            },
            Error::OutputChannels(n) => {
                push_decimal(&mut text, *n as u64);
                text.append(" output channels, which is not 1 or 2");
            },
            Error::SampleRate => {
                text.append("a sample rate of zero");
            },
            Error::NoDevice(d) => {
                text.append("no default ");
                text.append(d.name());
                text.append(" device");
            },
            Error::NoSuchDevice(d, name) => {
                text.append("no ");
                text.append(d.name());
                text.append(" device named ");
                let quoted = debug_quoted(name);
                text.append(quoted.as_str());
            },
            Error::NoConfig(d, rate) => {
                text.append("the ");
                text.append(d.name());
                text.append(" device offers no f32 configuration at ");
                push_decimal(&mut text, *rate as u64);
                text.append(" Hz");
            },
            Error::NoChannels(d) => {
                text.append("the ");
                text.append(d.name());
                text.append(" device offers a configuration with no channels");
            },
        }
        proof {
            assert(text@ =~= message_text(*self));
        }
        text
    }
}

} // verus!
