//! Reading denials out of the log stream of the Seatbelt sandbox.

use vstd::prelude::*;
use vstd::slice::slice_subrange;
use vstd::string::*;
use vstd::utf8::*;

use crate::numbers::{parse_i32, signed_number};
use crate::outside::{json_string, json_string_field, regex_captures, regex_groups};
use crate::protocol::{text_option, Denial, DenialModel};
use crate::text::{begins_with, byte_len, chars_of, contains_char, starts_with, text_of};
use crate::words::{lemma_trim_len, part_at_space, parted, trim, trimmed};

verus! {

/// The longest line that is kept, its line end included.
pub const MAX_LINE_BYTES: usize = 65_536;

pub const MAX_PROCESS_CHARS: usize = 256;

pub const MAX_CAPABILITY_CHARS: usize = 4_096;

pub const MAX_OPERATION_BYTES: usize = 128;

pub const MAX_PATH_BYTES: usize = 4_096;

/// What a denial's message looks like: a process with its ID, and what it was
/// denied.
pub const DENIAL_PATTERN: &'static str =
    r"^Sandbox:\s*(.+?)\((\d+)\)\s+deny\(.*?\)\s*(.+)$";

/// How many bytes stand up to the first line end, and with it.
pub open spec fn line_end(bytes: Seq<u8>) -> nat
    decreases bytes.len(),
{
    if bytes.len() == 0 {
        0
    } else if bytes[0] == 10 {
        1
    } else {
        1 + line_end(bytes.drop_first())
    }
}

/// Whether bytes hold a line end.
pub open spec fn has_line_end(bytes: Seq<u8>) -> bool {
    exists|i: int| 0 <= i < bytes.len() && #[trigger] bytes[i] == 10
}

/// A line as it is handed out: nothing of it where it is too long.
pub open spec fn bounded(line: Seq<u8>, limit: nat) -> Seq<u8> {
    if line.len() <= limit {
        line
    } else {
        Seq::empty()
    }
}

/// What the next bytes of a stream bring: how many of them belong to the line, the
/// line where it is complete, and what is then read of an incomplete one.
pub open spec fn line_read(seen: Seq<u8>, limit: nat, buffer: Seq<u8>) -> (
    nat,
    Option<Seq<u8>>,
    Seq<u8>,
) {
    let end = line_end(buffer);
    if has_line_end(buffer) {
        (end, Some(bounded(seen + buffer.take(end as int), limit)), Seq::empty())
    } else {
        (end, None, seen + buffer)
    }
}

/// A line on its way, of which no more than a limit is held.
pub struct BoundedLine {
    line: Vec<u8>,
    exceeded: bool,
    limit: usize,
    seen: Ghost<Seq<u8>>,
}

impl BoundedLine {
    #[verifier::type_invariant]
    spec fn well_formed(self) -> bool {
        if self.seen@.len() <= self.limit {
            !self.exceeded && self.line@ == self.seen@
        } else {
            self.exceeded && self.line@.len() == 0
        }
    }

    /// What was read of the line.
    pub closed spec fn seen(self) -> Seq<u8> {
        self.seen@
    }

    /// The longest line that is kept.
    pub closed spec fn limit(self) -> nat {
        self.limit as nat
    }

    /// A line of which nothing was read.
    pub fn new(limit: usize) -> (line: BoundedLine)
        ensures
            line.seen() == Seq::<u8>::empty(),
            line.limit() == limit,
    {
        BoundedLine { line: Vec::new(), exceeded: false, limit, seen: Ghost(Seq::empty()) }
    }

    /// Takes the next bytes of the stream: how many of them belong to the line, and
    /// the line where it is complete.
    pub fn read_bounded_line(&mut self, buffer: &[u8]) -> (read: (usize, Option<Vec<u8>>))
        ensures
            final(self).limit() == old(self).limit(),
            match read.1 {
                Some(line) => line_read(old(self).seen(), old(self).limit(), buffer@) == (
                    read.0 as nat,
                    Some(line@),
                    final(self).seen(),
                ),
                None => line_read(old(self).seen(), old(self).limit(), buffer@) == (
                    read.0 as nat,
                    None::<Seq<u8>>,
                    final(self).seen(),
                ),
            },
    {
        let mut taken = BoundedLine::new(0);
        std::mem::swap(self, &mut taken);
        proof {
            use_type_invariant(&taken);
        }
        let BoundedLine { line, exceeded, limit, seen } = taken;
        let mut line = line;
        let mut exceeded = exceeded;
        let mut end: usize = 0;
        let mut ended = false;
        assert(buffer@.skip(0) =~= buffer@);
        while end < buffer.len() && !ended
            invariant
                end <= buffer@.len(),
                ended ==> end > 0 && buffer@[end - 1] == 10,
                forall|i: int|
                    0 <= i < (if ended {
                        end - 1
                    } else {
                        end as int
                    }) ==> #[trigger] buffer@[i] != 10,
                ended ==> line_end(buffer@) == end,
                !ended ==> line_end(buffer@) == end + line_end(buffer@.skip(end as int)),
            decreases buffer@.len() - end,
        {
            assert(buffer@.skip(end as int).drop_first() =~= buffer@.skip(end + 1));
            assert(buffer@.skip(end as int)[0] == buffer@[end as int]);
            ended = buffer[end] == 10;
            end = end + 1;
        }
        let ghost read_now = buffer@.take(end as int);
        let ghost all = seen@ + read_now;
        if !exceeded {
            if end <= limit && line.len() <= limit - end {
                line.extend_from_slice(slice_subrange(buffer, 0, end));
                assert(line@ =~= all);
            } else {
                line = Vec::new();
                exceeded = true;
            }
        }
        assert(ended == has_line_end(buffer@));
        if ended {
            *self = BoundedLine::new(limit);
            assert(line@ == bounded(all, limit as nat));
            (end, Some(line))
        } else {
            assert(read_now =~= buffer@);
            *self = BoundedLine { line, exceeded, limit, seen: Ghost(all) };
            (end, None)
        }
    }

    /// Hands out what is left where the stream has ended.
    pub fn finish(&mut self) -> (line: Option<Vec<u8>>)
        ensures
            final(self).limit() == old(self).limit(),
            final(self).seen() == Seq::<u8>::empty(),
            match line {
                Some(line) => old(self).seen().len() > 0 && line@ == bounded(
                    old(self).seen(),
                    old(self).limit(),
                ),
                None => old(self).seen().len() == 0,
            },
    {
        let mut taken = BoundedLine::new(0);
        std::mem::swap(self, &mut taken);
        proof {
            use_type_invariant(&taken);
        }
        let BoundedLine { line, exceeded, limit, seen } = taken;
        *self = BoundedLine::new(limit);
        if line.len() == 0 && !exceeded {
            None
        } else {
            Some(line)
        }
    }
}

proof fn lemma_line_end(bytes: Seq<u8>, more: Seq<u8>)
    ensures
        line_end(bytes) <= bytes.len(),
        has_line_end(bytes) ==> line_end(bytes + more) == line_end(bytes),
        !has_line_end(bytes) ==> line_end(bytes) == bytes.len() && line_end(bytes + more)
            == bytes.len() + line_end(more),
    decreases bytes.len(),
{
    if bytes.len() == 0 {
        assert(bytes + more =~= more);
    } else {
        let rest = bytes.drop_first();
        lemma_line_end(rest, more);
        assert((bytes + more).drop_first() =~= rest + more);
        if bytes[0] != 10 {
            if has_line_end(bytes) {
                let i = choose|i: int| 0 <= i < bytes.len() && #[trigger] bytes[i] == 10;
                assert(rest[i - 1] == 10);
            }
            if has_line_end(rest) {
                let i = choose|i: int| 0 <= i < rest.len() && #[trigger] rest[i] == 10;
                assert(bytes[i + 1] == 10);
            }
        }
    }
}

/// How a stream is cut into pieces makes no difference: where the first piece does
/// not complete the line, reading one piece after the other gives what reading
/// both at once gives.
pub proof fn reading_in_pieces_makes_no_difference(
    seen: Seq<u8>,
    limit: nat,
    first: Seq<u8>,
    second: Seq<u8>,
)
    requires
        !has_line_end(first),
    ensures
        ({
            let whole = line_read(seen, limit, first + second);
            let begun = line_read(seen, limit, first);
            let rest = line_read(begun.2, limit, second);
            &&& begun.0 == first.len()
            &&& whole.0 == begun.0 + rest.0
            &&& whole.1 == rest.1
            &&& whole.2 == rest.2
        }),
{
    lemma_line_end(first, second);
    lemma_line_end(second, Seq::empty());
    let both = first + second;
    if has_line_end(second) {
        let i = choose|i: int| 0 <= i < second.len() && #[trigger] second[i] == 10;
        assert(both[first.len() + i] == 10);
        let end = line_end(second) as int;
        assert(seen + both.take(first.len() + end) =~= (seen + first) + second.take(end));
    } else {
        if has_line_end(both) {
            let i = choose|i: int| 0 <= i < both.len() && #[trigger] both[i] == 10;
            if i < first.len() {
                assert(first[i] == 10);
            } else {
                assert(second[i - first.len()] == 10);
            }
        }
        assert(seen + both =~= (seen + first) + second);
    }
}

/// A text without the quotes around it, where it begins with one.
pub open spec fn unquoted(text: Seq<char>) -> Option<Seq<char>> {
    if text.len() > 0 && (text[0] == '"' || text[0] == '\'') {
        let inner = text.drop_first();
        if inner.len() > 0 && inner.last() == text[0] {
            Some(inner.drop_last())
        } else {
            None
        }
    } else {
        Some(text)
    }
}

/// The path that a denial names, where it is absolute, of a fair length and
/// without a NUL.
pub open spec fn denied_path(argument: Seq<char>) -> Option<Seq<char>> {
    match unquoted(trimmed(argument)) {
        Some(path) => if path.len() > 0 && path[0] == '/' && !path.contains('\0')
            && encode_utf8(path).len() <= MAX_PATH_BYTES {
            Some(path)
        } else {
            None
        },
        None => None,
    }
}

/// The path that a denial names.
pub fn exact_absolute_path(argument: &str) -> (path: Option<String>)
    ensures
        text_option(path) == denied_path(argument@),
{
    let value = trim(argument);
    let chars = chars_of(value.as_str());
    let path = if chars.len() > 0 && (chars[0] == '"' || chars[0] == '\'') {
        if chars.len() < 2 || chars[chars.len() - 1] != chars[0] {
            return None;
        }
        let inner = text_of(&chars, 1, chars.len() - 1);
        assert(inner@ =~= value@.drop_first().drop_last());
        inner
    } else {
        value
    };
    if starts_with(path.as_str(), "/") && !contains_char(path.as_str(), '\0') && byte_len(
        path.as_str(),
    ) <= MAX_PATH_BYTES {
        proof {
            reveal_strlit("/");
        }
        assert(path@[0] == path@.take(1)[0]);
        Some(path)
    } else {
        proof {
            reveal_strlit("/");
        }
        assert(path@.len() > 0 && path@[0] == '/' ==> path@.take(1) =~= "/"@);
        None
    }
}

/// The operation and the argument of what was denied.
pub open spec fn operation_and_argument(capability: Seq<char>) -> (Seq<char>, Option<Seq<char>>) {
    match parted(capability) {
        Some((operation, rest)) => (trimmed(operation), Some(trimmed(rest))),
        None => (trimmed(capability), None),
    }
}

/// The denial of an operation to a process.
pub open spec fn denial_of(process: Seq<char>, capability: Seq<char>) -> DenialModel {
    let (operation, argument) = operation_and_argument(capability);
    let on_file = begins_with(operation, "file-read"@) || begins_with(operation, "file-write"@);
    DenialModel {
        operation,
        path: match argument {
            Some(argument) if on_file => denied_path(argument),
            _ => None,
        },
        process: Some(trimmed(process)),
    }
}

/// How many bytes the texts of a denial take.
pub open spec fn denial_bytes(denial: DenialModel) -> nat {
    encode_utf8(denial.operation).len() + (match denial.path {
        Some(path) => encode_utf8(path).len(),
        None => 0,
    }) + (match denial.process {
        Some(process) => encode_utf8(process).len(),
        None => 0,
    })
}

/// The denial that a message's parts give, with the process ID and its size.
pub open spec fn parsed_denial(process: Seq<char>, pid: Seq<char>, capability: Seq<char>) -> Option<
    (i32, DenialModel, nat),
> {
    let denial = denial_of(process, capability);
    if process.len() > MAX_PROCESS_CHARS || capability.len() > MAX_CAPABILITY_CHARS || trimmed(
        process,
    ).len() == 0 || denial.operation.len() == 0 || encode_utf8(denial.operation).len()
        > MAX_OPERATION_BYTES {
        None
    } else {
        match signed_number(trimmed(pid)) {
            Some(number) if 0 < number <= i32::MAX => Some(
                (number as i32, denial, denial_bytes(denial)),
            ),
            _ => None,
        }
    }
}

/// The parsed denial of an executable result.
pub open spec fn parsed_model(parsed: Option<(i32, Denial, usize)>) -> Option<
    (i32, DenialModel, nat),
> {
    match parsed {
        Some((pid, denial, bytes)) => Some((pid, denial@, bytes as nat)),
        None => None,
    }
}

/// A character takes at most four bytes.
pub proof fn lemma_utf8_len(text: Seq<char>)
    ensures
        encode_utf8(text).len() <= 4 * text.len(),
    decreases text.len(),
{
    if text.len() > 0 {
        lemma_utf8_len(text.drop_first());
    }
}

/// The largest denial that a message gives.
pub proof fn lemma_parsed_bytes(process: Seq<char>, pid: Seq<char>, capability: Seq<char>)
    ensures
        match parsed_denial(process, pid, capability) {
            Some((_, _, bytes)) => bytes <= MAX_OPERATION_BYTES + MAX_PATH_BYTES + 4
                * MAX_PROCESS_CHARS,
            None => true,
        },
{
    lemma_trim_len(process);
    lemma_trim_len(crate::words::trim_start(process));
    lemma_utf8_len(trimmed(process));
}

/// The denial that a message's parts give, with the process ID and its size.
pub fn parse_fields(process: &str, pid: &str, capability: &str) -> (parsed: Option<
    (i32, Denial, usize),
>)
    ensures
        parsed_model(parsed) == parsed_denial(process@, pid@, capability@),
{
    let process_chars = chars_of(process);
    let capability_chars = chars_of(capability);
    if process_chars.len() > MAX_PROCESS_CHARS || capability_chars.len() > MAX_CAPABILITY_CHARS {
        return None;
    }
    let name = trim(process);
    if chars_of(name.as_str()).len() == 0 {
        return None;
    }
    let pid_text = trim(pid);
    let number = match parse_i32(pid_text.as_str()) {
        Some(number) => number,
        None => {
            return None;
        },
    };
    if number <= 0 {
        return None;
    }
    let (operation, argument) = match part_at_space(capability) {
        Some((operation, rest)) => (trim(operation.as_str()), Some(trim(rest.as_str()))),
        None => (trim(capability), None),
    };
    assert((operation@, text_option(argument)) == operation_and_argument(capability@));
    let operation_bytes = byte_len(operation.as_str());
    if chars_of(operation.as_str()).len() == 0 || operation_bytes > MAX_OPERATION_BYTES {
        return None;
    }
    let on_file = starts_with(operation.as_str(), "file-read") || starts_with(
        operation.as_str(),
        "file-write",
    );
    let path = match argument {
        Some(argument) => if on_file {
            exact_absolute_path(argument.as_str())
        } else {
            None
        },
        None => None,
    };
    let path_bytes: usize = match &path {
        Some(path) => byte_len(path.as_str()),
        None => 0,
    };
    let name_bytes = byte_len(name.as_str());
    proof {
        lemma_parsed_bytes(process@, pid@, capability@);
        assert(text_option(path) == denial_of(process@, capability@).path);
    }
    let denial = Denial { operation, path, process: Some(name) };
    Some((number, denial, operation_bytes + path_bytes + name_bytes))
}

/// The denial that a message tells of.
pub open spec fn message_denial(message: Seq<char>) -> Option<(i32, DenialModel, nat)> {
    match regex_groups(DENIAL_PATTERN@, message) {
        Some((process, pid, capability)) => parsed_denial(process, pid, capability),
        None => None,
    }
}

/// The denial that a message tells of.
pub fn parse_message(message: &str) -> (parsed: Option<(i32, Denial, usize)>)
    ensures
        parsed_model(parsed) == message_denial(message@),
{
    match regex_captures(DENIAL_PATTERN, message) {
        Some((process, pid, capability)) => parse_fields(
            process.as_str(),
            pid.as_str(),
            capability.as_str(),
        ),
        None => None,
    }
}

/// The denial that a line of the log tells of.
pub open spec fn line_denial(line: Seq<u8>) -> Option<(i32, DenialModel, nat)> {
    match json_string(line, "eventMessage"@) {
        Some(message) => message_denial(message),
        None => None,
    }
}

/// The denial that a line of the log tells of.
pub fn parse_log_line(line: &[u8]) -> (parsed: Option<(i32, Denial, usize)>)
    ensures
        parsed_model(parsed) == line_denial(line@),
{
    match json_string_field(line, "eventMessage") {
        Some(message) => parse_message(message.as_str()),
        None => None,
    }
}

} // verus!
