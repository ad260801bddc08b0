//! Frames of the broker channel: a four-byte big-endian length, then the body.

use vstd::prelude::*;
use vstd::string::*;

use crate::protocol::MAX_FRAME_BYTES;
use crate::text::{decimal, decimal_text, joined, joined3};

verus! {

/// Why a frame was not read or written.
#[derive(Debug, PartialEq, Eq)]
pub enum FrameError {
    /// Input or output failed.
    Io(String),
    Empty,
    TooLarge(usize),
    /// The body is not the JSON that was expected.
    Json(String),
}

/// Why a frame was not read or written.
pub enum FrameFailure {
    Io(Seq<char>),
    Empty,
    TooLarge(usize),
    Json(Seq<char>),
}

impl View for FrameError {
    type V = FrameFailure;

    open spec fn view(&self) -> FrameFailure {
        match *self {
            FrameError::Io(error) => FrameFailure::Io(error@),
            FrameError::Empty => FrameFailure::Empty,
            FrameError::TooLarge(size) => FrameFailure::TooLarge(size),
            FrameError::Json(error) => FrameFailure::Json(error@),
        }
    }
}

impl FrameError {
    /// What happened, in words.
    pub fn message(&self) -> (text: String)
        ensures
            text@ == match self@ {
                FrameFailure::Io(error) => "frame I/O failed: "@ + error,
                FrameFailure::Empty => "empty frame"@,
                FrameFailure::TooLarge(size) => "frame size "@ + decimal(size as nat)
                    + " exceeds 1048576"@,
                FrameFailure::Json(error) => "invalid frame JSON: "@ + error,
            },
    {
        match self {
            FrameError::Io(error) => joined("frame I/O failed: ", error.as_str()),
            FrameError::Empty => "empty frame".to_owned(),
            FrameError::TooLarge(size) => {
                let number = decimal_text(*size as u64);
                joined3("frame size ", number.as_str(), " exceeds 1048576")
            },
            FrameError::Json(error) => joined("invalid frame JSON: ", error.as_str()),
        }
    }
}

/// The number that four bytes stand for, the most significant one first.
pub open spec fn big_endian(bytes: Seq<u8>) -> nat {
    (bytes[0] * 0x100_0000 + bytes[1] * 0x1_0000 + bytes[2] * 0x100 + bytes[3]) as nat
}

/// The four bytes of a number, the most significant one first.
pub open spec fn length_bytes(n: nat) -> Seq<u8> {
    seq![
        (n / 0x100_0000 % 256) as u8,
        (n / 0x1_0000 % 256) as u8,
        (n / 0x100 % 256) as u8,
        (n % 256) as u8,
    ]
}

proof fn lemma_length_bytes(n: nat)
    requires
        n <= u32::MAX,
    ensures
        big_endian(length_bytes(n)) == n,
        length_bytes(n).len() == 4,
{
    assert(n == n / 0x100_0000 % 256 * 0x100_0000 + n / 0x1_0000 % 256 * 0x1_0000 + n / 0x100 % 256
        * 0x100 + n % 256);
}

/// Whether a body of `length` bytes may stand in a frame.
pub open spec fn length_accepted(length: nat) -> Result<(), FrameFailure> {
    if length == 0 {
        Err(FrameFailure::Empty)
    } else if length > MAX_FRAME_BYTES {
        Err(FrameFailure::TooLarge(length as usize))
    } else {
        Ok(())
    }
}

/// The length of the body that a header announces.
///
/// # Errors
///
/// Fails for an empty and for an oversized body, before any of it is read.
pub fn frame_length(header: &[u8]) -> (result: Result<usize, FrameError>)
    requires
        header@.len() == 4,
    ensures
        match result {
            Ok(length) => length == big_endian(header@) && length_accepted(big_endian(header@))
                is Ok,
            Err(error) => length_accepted(big_endian(header@)) == Err::<(), FrameFailure>(error@),
        },
{
    let length: u32 = header[0] as u32 * 0x100_0000 + header[1] as u32 * 0x1_0000 + header[2] as u32
        * 0x100 + header[3] as u32;
    if length == 0 {
        return Err(FrameError::Empty);
    }
    if length > 1_048_576 {
        return Err(FrameError::TooLarge(length as usize));
    }
    Ok(length as usize)
}

/// What stands at one place of the channel's input.
pub enum Reading {
    /// The input ends here.
    End,
    /// A frame, with its body and the place behind it.
    Frame { body: Seq<u8>, end: int },
}

/// What stands in `input` at `at`.
pub open spec fn frame_at(input: Seq<u8>, at: int) -> Result<Reading, FrameFailure> {
    if at >= input.len() {
        Ok(Reading::End)
    } else if at + 4 > input.len() {
        Err(FrameFailure::Io("failed to fill whole buffer"@))
    } else {
        let length = big_endian(input.subrange(at, at + 4));
        match length_accepted(length) {
            Err(failure) => Err(failure),
            Ok(_) => if at + 4 + length > input.len() {
                Err(FrameFailure::Io("failed to fill whole buffer"@))
            } else {
                Ok(
                    Reading::Frame {
                        body: input.subrange(at + 4, at + 4 + length),
                        end: at + 4 + length,
                    },
                )
            },
        }
    }
}

fn copy_bytes(input: &Vec<u8>, from: usize, to: usize) -> (out: Vec<u8>)
    requires
        from <= to <= input@.len(),
    ensures
        out@ == input@.subrange(from as int, to as int),
{
    let mut out: Vec<u8> = Vec::new();
    let mut i: usize = from;
    assert(out@ =~= input@.subrange(from as int, from as int));
    while i < to
        invariant
            from <= i <= to <= input@.len(),
            out@ == input@.subrange(from as int, i as int),
        decreases to - i,
    {
        out.push(input[i]);
        i = i + 1;
        assert(out@ =~= input@.subrange(from as int, i as int));
    }
    out
}

/// Reads the frame that stands in `input` at `at`: its body and the place
/// behind it, or `None` at the end of the input.
///
/// # Errors
///
/// Fails for a partial, an empty and an oversized frame.
pub fn read_frame(input: &Vec<u8>, at: usize) -> (result: Result<Option<(Vec<u8>, usize)>, FrameError>)
    ensures
        match result {
            Ok(None) => frame_at(input@, at as int) == Ok::<Reading, FrameFailure>(Reading::End),
            Ok(Some(frame)) => frame_at(input@, at as int) == Ok::<Reading, FrameFailure>(
                Reading::Frame { body: frame.0@, end: frame.1 as int },
            ),
            Err(error) => frame_at(input@, at as int) == Err::<Reading, FrameFailure>(error@),
        },
{
    if at >= input.len() {
        return Ok(None);
    }
    if input.len() - at < 4 {
        return Err(FrameError::Io("failed to fill whole buffer".to_owned()));
    }
    let header = copy_bytes(input, at, at + 4);
    let length = match frame_length(header.as_slice()) {
        Ok(length) => length,
        Err(error) => {
            return Err(error);
        },
    };
    let start = at + 4;
    if input.len() - start < length {
        return Err(FrameError::Io("failed to fill whole buffer".to_owned()));
    }
    let end = start + length;
    Ok(Some((copy_bytes(input, start, end), end)))
}

/// The bytes of a frame with the given body.
pub open spec fn frame_bytes(body: Seq<u8>) -> Seq<u8> {
    length_bytes(body.len()) + body
}

/// Appends a frame with the given body to the output.
///
/// # Errors
///
/// Fails for an empty and for an oversized body, and then appends nothing.
pub fn write_frame(output: &mut Vec<u8>, body: &Vec<u8>) -> (result: Result<(), FrameError>)
    ensures
        match result {
            Ok(_) => length_accepted(body@.len()) is Ok && final(output)@ == old(output)@
                + frame_bytes(body@),
            Err(error) => length_accepted(body@.len()) == Err::<(), FrameFailure>(error@)
                && final(output)@ == old(output)@,
        },
{
    let length = body.len();
    if length == 0 {
        return Err(FrameError::Empty);
    }
    if length > MAX_FRAME_BYTES {
        return Err(FrameError::TooLarge(length));
    }
    let ghost start = output@;
    output.push((length / 0x100_0000 % 256) as u8);
    output.push((length / 0x1_0000 % 256) as u8);
    output.push((length / 0x100 % 256) as u8);
    output.push((length % 256) as u8);
    assert(output@ =~= start + length_bytes(body@.len()));
    let mut i: usize = 0;
    let ghost framed = output@;
    assert(framed + body@.take(0) =~= framed);
    while i < body.len()
        invariant
            i <= body@.len(),
            output@ == framed + body@.take(i as int),
        decreases body@.len() - i,
    {
        output.push(body[i]);
        i = i + 1;
        assert(output@ =~= framed + body@.take(i as int));
    }
    assert(body@.take(i as int) =~= body@);
    assert(output@ =~= start + frame_bytes(body@));
    Ok(())
}

/// What is read back of a frame that was written is its body, whatever stands
/// before and behind it, and reading goes on right behind the frame.
pub proof fn written_frames_are_read_back(before: Seq<u8>, body: Seq<u8>, behind: Seq<u8>)
    requires
        length_accepted(body.len()) is Ok,
    ensures
        frame_at(before + frame_bytes(body) + behind, before.len() as int) == Ok::<
            Reading,
            FrameFailure,
        >(Reading::Frame { body, end: (before.len() + frame_bytes(body).len()) as int }),
{
    let input = before + frame_bytes(body) + behind;
    let at = before.len() as int;
    lemma_length_bytes(body.len());
    assert(input.subrange(at, at + 4) =~= length_bytes(body.len()));
    assert(input.subrange(at + 4, at + 4 + body.len()) =~= body);
}

} // verus!
