//! Bounded forwarding of a command's output.

use vstd::prelude::*;
use vstd::string::*;

use crate::outside::{base64_bytes, base64_encode, base64_text};
use crate::protocol::{EventModel, ServerEvent};

verus! {

/// Most bytes that are read from a stream at once.
pub const OUTPUT_CHUNK_BYTES: usize = 16_384;

/// How many of `requested` bytes may still be forwarded.
pub open spec fn claimable(used: u64, limit: u64, requested: u64) -> u64 {
    let left = if used < limit {
        (limit - used) as u64
    } else {
        0
    };
    if requested < left {
        requested
    } else {
        left
    }
}

/// Claims up to `requested` bytes of what is left of the limit.
pub fn claim_output(used: &mut u64, limit: u64, requested: u64) -> (allowed: u64)
    ensures
        allowed == claimable(*old(used), limit, requested),
        *final(used) == *old(used) + allowed,
        *old(used) <= limit ==> *final(used) <= limit,
{
    let left: u64 = if *used < limit {
        limit - *used
    } else {
        0
    };
    let allowed: u64 = if requested < left {
        requested
    } else {
        left
    };
    *used = *used + allowed;
    allowed
}

/// What was forwarded of a command's output.
#[derive(Clone, Copy, Debug, PartialEq, Eq, Structural)]
pub struct OutputMeter {
    pub used: u64,
    pub limit: u64,
    pub truncated: bool,
}

/// One of a command's output streams, and how many chunks of it were forwarded.
#[derive(Clone, Copy, Debug, PartialEq, Eq, Structural)]
pub struct OutputStream {
    pub stdout: bool,
    pub sequence: u64,
}

/// The meter after `read` bytes were read.
pub open spec fn metered(meter: OutputMeter, read: u64) -> OutputMeter {
    let allowed = claimable(meter.used, meter.limit, read);
    OutputMeter {
        used: (meter.used + allowed) as u64,
        limit: meter.limit,
        truncated: meter.truncated || allowed < read,
    }
}

/// The event of one chunk of a stream.
pub open spec fn chunk_event(stream: OutputStream, id: Seq<char>, data: Seq<u8>) -> EventModel {
    if stream.stdout {
        EventModel::Stdout { id, sequence: stream.sequence, data_base64: base64_text(data) }
    } else {
        EventModel::Stderr { id, sequence: stream.sequence, data_base64: base64_text(data) }
    }
}

/// The bytes that the event of a chunk carries.
pub open spec fn carried_bytes(event: EventModel) -> Option<Seq<u8>> {
    let text = match event {
        EventModel::Stdout { id, sequence, data_base64 } => data_base64,
        EventModel::Stderr { id, sequence, data_base64 } => data_base64,
        _ => Seq::empty(),
    };
    match base64_bytes(text) {
        Ok(bytes) => Some(bytes),
        Err(_) => None,
    }
}

/// Decides what of a chunk is forwarded: as much of its front as the limit
/// leaves room for, or nothing.
pub fn forward_chunk(meter: &mut OutputMeter, stream: &OutputStream, id: &str, chunk: &[u8]) -> (
event: Option<ServerEvent>)
    requires
        chunk@.len() <= OUTPUT_CHUNK_BYTES,
    ensures
        *final(meter) == metered(*old(meter), chunk@.len() as u64),
        ({
            let allowed = claimable(old(meter).used, old(meter).limit, chunk@.len() as u64);
            match event {
                Some(event) => allowed > 0 && event@ == chunk_event(
                    *stream,
                    id@,
                    chunk@.take(allowed as int),
                ) && carried_bytes(event@) == Some(chunk@.take(allowed as int)),
                None => allowed == 0,
            }
        }),
{
    let read = chunk.len() as u64;
    let mut used = meter.used;
    let allowed = claim_output(&mut used, meter.limit, read);
    meter.used = used;
    if allowed < read {
        meter.truncated = true;
    }
    if allowed == 0 {
        return None;
    }
    let data = vstd::slice::slice_subrange(chunk, 0, allowed as usize);
    assert(data@ =~= chunk@.take(allowed as int));
    let data_base64 = base64_encode(data);
    Some(
        if stream.stdout {
            ServerEvent::Stdout { id: id.to_owned(), sequence: stream.sequence, data_base64 }
        } else {
            ServerEvent::Stderr { id: id.to_owned(), sequence: stream.sequence, data_base64 }
        },
    )
}

impl OutputStream {
    /// A stream of which nothing was forwarded.
    pub fn new(stdout: bool) -> (stream: OutputStream)
        ensures
            stream == (OutputStream { stdout, sequence: 0 }),
    {
        OutputStream { stdout, sequence: 0 }
    }

    /// Counts a chunk that was forwarded.
    pub fn sent(&mut self)
        requires
            old(self).sequence < u64::MAX,
        ensures
            *final(self) == (OutputStream {
                stdout: old(self).stdout,
                sequence: (old(self).sequence + 1) as u64,
            }),
    {
        self.sequence = self.sequence + 1;
    }
}

/// A piece of output: whether it came from the first stream, and its bytes.
pub type Piece = (bool, Seq<u8>);

/// What was forwarded of a command's two streams.
pub struct Forwarding {
    pub meter: OutputMeter,
    pub stdout: OutputStream,
    pub stderr: OutputStream,
    pub events: Seq<EventModel>,
    /// The bytes of the events, in the order in which they were read.
    pub data: Seq<u8>,
}

/// Nothing was forwarded yet.
pub open spec fn forwarding_start(limit: u64) -> Forwarding {
    Forwarding {
        meter: OutputMeter { used: 0, limit, truncated: false },
        stdout: OutputStream { stdout: true, sequence: 0 },
        stderr: OutputStream { stdout: false, sequence: 0 },
        events: Seq::empty(),
        data: Seq::empty(),
    }
}

/// A stream after one more chunk of it was forwarded.
pub open spec fn counted(stream: OutputStream) -> OutputStream {
    OutputStream { sequence: (stream.sequence + 1) as u64, ..stream }
}

/// What was forwarded after one more piece was read.
pub open spec fn piece_forwarded(before: Forwarding, id: Seq<char>, piece: Piece) -> Forwarding {
    let read = piece.1.len() as u64;
    let allowed = claimable(before.meter.used, before.meter.limit, read);
    let meter = metered(before.meter, read);
    let kept = piece.1.take(allowed as int);
    if allowed == 0 {
        Forwarding { meter, ..before }
    } else if piece.0 {
        Forwarding {
            meter,
            stdout: counted(before.stdout),
            events: before.events.push(chunk_event(before.stdout, id, kept)),
            data: before.data + kept,
            ..before
        }
    } else {
        Forwarding {
            meter,
            stderr: counted(before.stderr),
            events: before.events.push(chunk_event(before.stderr, id, kept)),
            data: before.data + kept,
            ..before
        }
    }
}

/// What is forwarded of several pieces, in the order in which they were read.
pub open spec fn forwarded(id: Seq<char>, limit: u64, pieces: Seq<Piece>) -> Forwarding
    decreases pieces.len(),
{
    if pieces.len() == 0 {
        forwarding_start(limit)
    } else {
        piece_forwarded(forwarded(id, limit, pieces.drop_last()), id, pieces.last())
    }
}

/// The bytes of several pieces, one behind the other.
pub open spec fn read_bytes(pieces: Seq<Piece>) -> Seq<u8>
    decreases pieces.len(),
{
    if pieces.len() == 0 {
        Seq::empty()
    } else {
        read_bytes(pieces.drop_last()) + pieces.last().1
    }
}

/// The numbers that the events of one stream have, in order.
pub open spec fn sequences(events: Seq<EventModel>, stdout: bool) -> Seq<u64>
    decreases events.len(),
{
    if events.len() == 0 {
        Seq::empty()
    } else {
        let before = sequences(events.drop_last(), stdout);
        match events.last() {
            EventModel::Stdout { id, sequence, data_base64 } => if stdout {
                before.push(sequence)
            } else {
                before
            },
            EventModel::Stderr { id, sequence, data_base64 } => if stdout {
                before
            } else {
                before.push(sequence)
            },
            _ => before,
        }
    }
}

/// Whether numbers count up from zero.
pub open spec fn counts_up(numbers: Seq<u64>) -> bool {
    forall|i: int| 0 <= i < numbers.len() ==> #[trigger] numbers[i] == i
}

/// However the two streams of a command are read, the bytes that are forwarded are
/// the front of what was read, as much of it as the limit leaves room for, and the
/// events of each stream are numbered from zero, without a gap.
pub proof fn forwarded_output_is_the_front(id: Seq<char>, limit: u64, pieces: Seq<Piece>)
    requires
        forall|i: int| 0 <= i < pieces.len() ==> (#[trigger] pieces[i]).1.len() <= OUTPUT_CHUNK_BYTES,
    ensures
        ({
            let end = forwarded(id, limit, pieces);
            let read = read_bytes(pieces);
            &&& end.meter.limit == limit
            &&& end.meter.used == end.data.len()
            &&& end.data == read.take(
                if read.len() <= limit {
                    read.len() as int
                } else {
                    limit as int
                },
            )
            &&& end.meter.truncated == (read.len() > limit)
            &&& end.stdout.stdout && !end.stderr.stdout
            &&& counts_up(sequences(end.events, true))
            &&& counts_up(sequences(end.events, false))
            &&& sequences(end.events, true).len() == end.stdout.sequence
            &&& sequences(end.events, false).len() == end.stderr.sequence
            &&& end.stdout.sequence + end.stderr.sequence <= end.data.len()
        }),
    decreases pieces.len(),
{
    if pieces.len() > 0 {
        let front = pieces.drop_last();
        let piece = pieces.last();
        assert forall|i: int| 0 <= i < front.len() implies (#[trigger] front[i]).1.len()
            <= OUTPUT_CHUNK_BYTES by {
            assert(front[i] == pieces[i]);
        }
        forwarded_output_is_the_front(id, limit, front);
        let before = forwarded(id, limit, front);
        let end = forwarded(id, limit, pieces);
        let read = read_bytes(front);
        assert(pieces[pieces.len() - 1].1.len() <= OUTPUT_CHUNK_BYTES);
        assert(read_bytes(pieces) == read + piece.1);
        let allowed = claimable(before.meter.used, limit, piece.1.len() as u64);
        if allowed > 0 {
            assert(end.events.drop_last() =~= before.events);
            assert(before.data =~= read);
            assert(end.data =~= (read + piece.1).take(read.len() + allowed));
        } else if piece.1.len() == 0 {
            assert(read + piece.1 =~= read);
        } else {
            assert(before.data =~= (read + piece.1).take(limit as int));
        }
    }
}

} // verus!
