//! What is read from and written to streams: frames, lines, numbers, output and log
//! messages.

use vstd::prelude::*;
use vstd::utf8::encode_utf8;

use crate::denial_log::{denied_path, line_end, line_read, parsed_denial};
use crate::framing::{frame_at, frame_bytes, length_accepted, FrameFailure, Reading};
use crate::numbers::{all_digits, digits_value, is_digit, signed_number, whole_number};
use crate::output::{
    forwarded, forwarded_output_is_the_front, read_bytes, Piece, OUTPUT_CHUNK_BYTES,
};
use crate::outside::base64_text;
use crate::protocol::{DenialModel, EventModel};
use crate::text::{decimal, is_space};
use crate::words::{parted, trim_end, trim_start, trimmed, word_len};

verus! {

/// A number in decimal notation is read back, as a whole number and as a signed one: its
/// notation is digits alone, without a zero in front of others.
pub proof fn decimal_numbers_are_read_back(n: nat)
    ensures
        whole_number(decimal(n)) == Some(n),
        signed_number(decimal(n)) == Some(n as int),
        decimal(n).len() > 0,
        forall|i: int| 0 <= i < decimal(n).len() ==> '0' <= #[trigger] decimal(n)[i] <= '9',
        n > 0 ==> decimal(n)[0] != '0',
{
    lemma_decimal(n);
    assert(is_digit(decimal(n)[0]));
}

proof fn lemma_decimal(n: nat)
    ensures
        all_digits(decimal(n)),
        digits_value(decimal(n)) == n,
        n > 0 ==> decimal(n)[0] != '0',
    decreases n,
{
    if n < 10 {
        let text = decimal(n);
        assert(text.drop_last() =~= Seq::empty());
        reveal_with_fuel(digits_value, 2);
    } else {
        lemma_decimal(n / 10);
        let front = decimal(n / 10);
        let text = decimal(n);
        assert(text.drop_last() =~= front);
        assert forall|i: int| 0 <= i < text.len() implies is_digit(#[trigger] text[i]) by {
            if i < front.len() {
                assert(text[i] == front[i]);
            }
        }
        assert(text[0] == front[0]);
    }
}

/// Numbers in decimal notation are as different as the numbers.
pub proof fn decimal_numbers_are_told_apart(a: nat, b: nat)
    requires
        decimal(a) == decimal(b),
    ensures
        a == b,
{
    lemma_decimal(a);
    lemma_decimal(b);
}

/// A frame is its length in four bytes, the most significant one first, and its body.
pub proof fn frames_are_a_length_and_a_body(body: Seq<u8>)
    requires
        body.len() < 0x1_0000_0000,
    ensures
        frame_bytes(body).len() == 4 + body.len(),
        frame_bytes(body).skip(4) == body,
        frame_bytes(body)[0] * 0x100_0000 + frame_bytes(body)[1] * 0x1_0000 + frame_bytes(body)[2]
            * 0x100 + frame_bytes(body)[3] == body.len(),
{
    let bytes = frame_bytes(body);
    assert(bytes.skip(4) =~= body);
    let n = body.len();
    assert(n == (n / 0x100_0000 % 256) * 0x100_0000 + (n / 0x1_0000 % 256) * 0x1_0000 + (n / 0x100
        % 256) * 0x100 + n % 256);
}

/// A frame may hold from one byte to a mebibyte, and is refused for its size alone.
pub proof fn frames_are_refused_for_their_size(length: nat)
    ensures
        length_accepted(length) is Ok <==> 0 < length <= 1_048_576,
        length_accepted(length) == Err::<(), FrameFailure>(FrameFailure::Empty) <==> length == 0,
{
}

/// What is read as a frame is there, as a whole: four bytes with the length of the body,
/// then the body; and behind the last byte the input ends.
pub proof fn frames_are_read_where_they_stand(input: Seq<u8>, at: int)
    requires
        0 <= at,
    ensures
        frame_at(input, at) matches Ok(Reading::Frame { body, end }) ==> {
            &&& at + 4 <= end <= input.len()
            &&& body == input.subrange(at + 4, end)
            &&& 0 < body.len() <= 1_048_576
            &&& input[at] * 0x100_0000 + input[at + 1] * 0x1_0000 + input[at + 2] * 0x100 + input[at
                + 3] == body.len()
        },
        frame_at(input, at) == Ok::<Reading, FrameFailure>(Reading::End) <==> at >= input.len(),
        at + 4 <= input.len() && ({
            let length = input[at] * 0x100_0000 + input[at + 1] * 0x1_0000 + input[at + 2] * 0x100
                + input[at + 3];
            0 < length <= 1_048_576 && at + 4 + length <= input.len()
        }) ==> frame_at(input, at) is Ok,
{
    if at + 4 <= input.len() {
        let head = input.subrange(at, at + 4);
        assert(head[0] == input[at] && head[1] == input[at + 1] && head[2] == input[at + 2]
            && head[3] == input[at + 3]);
    }
}

proof fn lemma_line_end(bytes: Seq<u8>)
    ensures
        line_end(bytes) <= bytes.len(),
        forall|i: int| 0 <= i < line_end(bytes) - 1 ==> #[trigger] bytes[i] != 10,
        bytes.len() > 0 ==> line_end(bytes) > 0,
        (exists|i: int| 0 <= i < bytes.len() && #[trigger] bytes[i] == 10) ==> bytes[line_end(bytes)
            - 1] == 10,
        (forall|i: int| 0 <= i < bytes.len() ==> #[trigger] bytes[i] != 10) ==> line_end(bytes)
            == bytes.len(),
    decreases bytes.len(),
{
    if bytes.len() > 0 && bytes[0] != 10 {
        let rest = bytes.drop_first();
        lemma_line_end(rest);
        assert forall|i: int| 0 <= i < line_end(bytes) - 1 implies #[trigger] bytes[i] != 10 by {
            if i > 0 {
                assert(rest[i - 1] == bytes[i]);
            }
        }
        if exists|i: int| 0 <= i < bytes.len() && #[trigger] bytes[i] == 10 {
            let i = choose|i: int| 0 <= i < bytes.len() && #[trigger] bytes[i] == 10;
            assert(rest[i - 1] == 10);
            assert(rest[line_end(rest) - 1] == bytes[line_end(bytes) - 1]);
        }
        if forall|i: int| 0 <= i < bytes.len() ==> #[trigger] bytes[i] != 10 {
            assert forall|i: int| 0 <= i < rest.len() implies #[trigger] rest[i] != 10 by {
                assert(bytes[i + 1] != 10);
            }
        }
    }
}

/// A line goes up to its line end and no further: what was seen of it before, then the
/// bytes up to the first line end, all of them unless they are too many; and bytes
/// without a line end all belong to a line that goes on.
pub proof fn lines_go_up_to_their_end(seen: Seq<u8>, limit: nat, buffer: Seq<u8>)
    ensures
        ({
            let (taken, line, rest) = line_read(seen, limit, buffer);
            &&& taken <= buffer.len()
            &&& forall|i: int| 0 <= i < taken - 1 ==> #[trigger] buffer[i] != 10
            &&& line is Some <==> exists|i: int| 0 <= i < buffer.len() && #[trigger] buffer[i] == 10
            &&& line is Some ==> {
                &&& taken > 0 && buffer[taken - 1] == 10
                &&& rest.len() == 0
                &&& seen.len() + taken <= limit ==> line->0 == seen + buffer.take(taken as int)
                &&& seen.len() + taken > limit ==> line->0.len() == 0
            }
            &&& line is None ==> taken == buffer.len() && rest == seen + buffer
        }),
{
    lemma_line_end(buffer);
}

proof fn lemma_trim_whole(text: Seq<char>)
    requires
        text.len() > 0 ==> !is_space(text[0]) && !is_space(text.last()),
    ensures
        trimmed(text) == text,
{
    assert(trim_start(text) == text);
    assert(trim_end(text) == text);
}

proof fn lemma_word(word: Seq<char>, space: char, rest: Seq<char>)
    requires
        forall|i: int| 0 <= i < word.len() ==> !is_space(#[trigger] word[i]),
        is_space(space),
    ensures
        word_len(word.push(space) + rest) == word.len(),
    decreases word.len(),
{
    let text = word.push(space) + rest;
    if word.len() > 0 {
        assert(text[0] == word[0]);
        assert(text.drop_first() =~= word.drop_first().push(space) + rest);
        assert forall|i: int| 0 <= i < word.drop_first().len() implies !is_space(
            #[trigger] word.drop_first()[i],
        ) by {
            assert(word.drop_first()[i] == word[i + 1]);
        }
        lemma_word(word.drop_first(), space, rest);
    } else {
        assert(text[0] == space);
    }
}

/// Whether a text can stand where white space around it is dropped.
pub open spec fn is_tight(text: Seq<char>) -> bool {
    text.len() > 0 && !is_space(text[0]) && !is_space(text.last())
}

/// A message that names a process, its ID, an operation and what it was denied on gives
/// a denial with exactly these: the process and the operation as they stand, the ID as a
/// number, and the path of a file where the operation is on one; and its size is that of
/// its texts.
pub proof fn denials_are_read_from_their_parts(
    process: Seq<char>,
    pid: i32,
    operation: Seq<char>,
    space: char,
    argument: Seq<char>,
)
    requires
        is_tight(process),
        process.len() <= 256,
        pid > 0,
        operation.len() > 0,
        forall|i: int| 0 <= i < operation.len() ==> !is_space(#[trigger] operation[i]),
        encode_utf8(operation).len() <= 128,
        is_space(space),
        is_tight(argument),
        argument[0] != '"' && argument[0] != '\'',
        operation.len() + 1 + argument.len() <= 4_096,
    ensures
        ({
            let parsed = parsed_denial(
                process,
                decimal(pid as nat),
                operation.push(space) + argument,
            );
            let on_file = (operation.len() >= 9 && operation.take(9) == "file-read"@) || (
            operation.len() >= 10 && operation.take(10) == "file-write"@);
            let named = on_file && argument[0] == '/' && !argument.contains('\0') && encode_utf8(
                argument,
            ).len() <= 4_096;
            let denial = DenialModel {
                operation,
                path: if named {
                    Some(argument)
                } else {
                    None
                },
                process: Some(process),
            };
            let size = encode_utf8(operation).len() + encode_utf8(process).len() + (if named {
                encode_utf8(argument).len()
            } else {
                0
            });
            parsed == Some((pid, denial, size))
        }),
{
    reveal_strlit("file-read");
    reveal_strlit("file-write");
    let capability = operation.push(space) + argument;
    decimal_numbers_are_read_back(pid as nat);
    let digits = decimal(pid as nat);
    assert(is_tight(digits)) by {
        assert('0' <= digits[0] <= '9');
        assert('0' <= digits[digits.len() - 1] <= '9');
    }
    lemma_trim_whole(digits);
    lemma_trim_whole(process);
    lemma_word(operation, space, argument);
    assert(capability.take(operation.len() as int) =~= operation);
    assert(capability.skip(operation.len() + 1int) =~= argument);
    assert(parted(capability) == Some((operation, argument)));
    assert(is_tight(operation)) by {
        assert(!is_space(operation[0]));
        assert(!is_space(operation[operation.len() - 1]));
    }
    lemma_trim_whole(operation);
    lemma_trim_whole(argument);
}

/// A path in quotes is the path between them.
pub proof fn quoted_paths_are_unquoted(path: Seq<char>, quote: char)
    requires
        quote == '"' || quote == '\'',
        path.len() > 0,
        path[0] == '/',
        !path.contains('\0'),
        encode_utf8(path).len() <= 4_096,
    ensures
        denied_path(seq![quote] + path + seq![quote]) == Some(path),
{
    let text = seq![quote] + path + seq![quote];
    lemma_trim_whole(text);
    assert(text.drop_first().drop_last() =~= path);
}

/// How many bytes of a piece are forwarded, given how many were read before it.
pub open spec fn share(before: int, length: int, limit: int) -> int {
    if before >= limit {
        0
    } else if before + length <= limit {
        length
    } else {
        limit - before
    }
}

/// Whether an event carries the front of a piece, of the given length: on the stream
/// that the piece was read from, under the command's ID.
pub open spec fn carries(event: EventModel, id: Seq<char>, piece: Piece, length: int) -> bool {
    match event {
        EventModel::Stdout { id: named, data_base64, .. } => piece.0 && named == id && data_base64
            == base64_text(piece.1.take(length)),
        EventModel::Stderr { id: named, data_base64, .. } => !piece.0 && named == id && data_base64
            == base64_text(piece.1.take(length)),
        _ => false,
    }
}

/// Each event of output carries what was read from its stream, under the command's ID:
/// the whole piece, or the front that the limit leaves. No piece that anything is left
/// of goes without an event, and the events come in the order of the pieces.
pub proof fn events_carry_what_was_read(id: Seq<char>, limit: u64, pieces: Seq<Piece>) -> (places:
    Seq<int>)
    requires
        forall|i: int|
            0 <= i < pieces.len() ==> (#[trigger] pieces[i]).1.len() <= OUTPUT_CHUNK_BYTES,
    ensures
        places.len() == forwarded(id, limit, pieces).events.len(),
        forall|k: int|
            0 <= k < places.len() ==> {
                let at = #[trigger] places[k];
                &&& 0 <= at < pieces.len()
                &&& share(
                    read_bytes(pieces.take(at)).len() as int,
                    pieces[at].1.len() as int,
                    limit as int,
                ) > 0
                &&& carries(
                    forwarded(id, limit, pieces).events[k],
                    id,
                    pieces[at],
                    share(
                        read_bytes(pieces.take(at)).len() as int,
                        pieces[at].1.len() as int,
                        limit as int,
                    ),
                )
            },
        forall|a: int, b: int|
            0 <= a < b < places.len() ==> #[trigger] places[a] < #[trigger] places[b],
        forall|i: int|
            0 <= i < pieces.len() && share(
                read_bytes(#[trigger] pieces.take(i)).len() as int,
                pieces[i].1.len() as int,
                limit as int,
            ) > 0 ==> places.contains(i),
    decreases pieces.len(),
{
    if pieces.len() == 0 {
        Seq::empty()
    } else {
        let front = pieces.drop_last();
        let n = front.len() as int;
        assert forall|i: int| 0 <= i < front.len() implies (#[trigger] front[i]).1.len()
            <= OUTPUT_CHUNK_BYTES by {
            assert(front[i] == pieces[i]);
        }
        let places = events_carry_what_was_read(id, limit, front);
        forwarded_output_is_the_front(id, limit, front);
        let before = forwarded(id, limit, front);
        let end = forwarded(id, limit, pieces);
        assert(pieces[n].1.len() <= OUTPUT_CHUNK_BYTES);
        assert(pieces.take(n) =~= front);
        assert forall|i: int| 0 <= i < n implies #[trigger] front.take(i) =~= pieces.take(i) by {}
        let part = share(
            read_bytes(front).len() as int,
            pieces[n].1.len() as int,
            limit as int,
        );
        let more = if part > 0 {
            places.push(n)
        } else {
            places
        };
        assert forall|k: int| 0 <= k < more.len() implies {
            let at = #[trigger] more[k];
            &&& 0 <= at < pieces.len()
            &&& share(
                read_bytes(pieces.take(at)).len() as int,
                pieces[at].1.len() as int,
                limit as int,
            ) > 0
            &&& carries(
                end.events[k],
                id,
                pieces[at],
                share(
                    read_bytes(pieces.take(at)).len() as int,
                    pieces[at].1.len() as int,
                    limit as int,
                ),
            )
        } by {
            if k < places.len() {
                assert(end.events[k] == before.events[k]);
                assert(front.take(places[k]) =~= pieces.take(places[k]));
                assert(front[places[k]] == pieces[places[k]]);
            }
        }
        assert forall|i: int|
            0 <= i < pieces.len() && share(
                read_bytes(#[trigger] pieces.take(i)).len() as int,
                pieces[i].1.len() as int,
                limit as int,
            ) > 0 implies more.contains(i) by {
            if i < n {
                assert(front.take(i) =~= pieces.take(i));
                assert(places.contains(i));
                let k = choose|k: int| 0 <= k < places.len() && places[k] == i;
                assert(more[k] == i);
            } else {
                assert(more[more.len() - 1] == n);
            }
        }
        more
    }
}

/// A path that begins with a quote and does not end with the same is none.
pub proof fn unbalanced_quotes_name_nothing(path: Seq<char>, quote: char, last: char)
    requires
        quote == '"' || quote == '\'',
        last != quote,
        !is_space(last),
    ensures
        denied_path(seq![quote] + path + seq![last]) is None,
{
    let text = seq![quote] + path + seq![last];
    lemma_trim_whole(text);
    assert(text.drop_first().last() == last);
}

/// Whether a text is white space alone.
pub open spec fn is_all_space(text: Seq<char>) -> bool {
    forall|i: int| 0 <= i < text.len() ==> is_space(#[trigger] text[i])
}

proof fn lemma_trim_start(text: Seq<char>) -> (n: int)
    ensures
        0 <= n <= text.len(),
        trim_start(text) == text.skip(n),
        is_all_space(text.take(n)),
        n < text.len() ==> !is_space(text[n]),
    decreases text.len(),
{
    if text.len() > 0 && is_space(text[0]) {
        let m = lemma_trim_start(text.drop_first());
        let rest = text.drop_first();
        assert(rest.skip(m) =~= text.skip(m + 1));
        assert forall|i: int| 0 <= i < m + 1 implies is_space(#[trigger] text.take(m + 1)[i]) by {
            if i > 0 {
                assert(rest.take(m)[i - 1] == text[i]);
            }
        }
        m + 1
    } else {
        assert(text.skip(0) =~= text);
        0
    }
}

proof fn lemma_trim_end(text: Seq<char>) -> (n: int)
    ensures
        0 <= n <= text.len(),
        trim_end(text) == text.take(n),
        is_all_space(text.skip(n)),
        n > 0 ==> !is_space(text[n - 1]),
    decreases text.len(),
{
    if text.len() > 0 && is_space(text.last()) {
        let front = text.drop_last();
        let m = lemma_trim_end(front);
        assert(front.take(m) =~= text.take(m));
        assert forall|i: int| 0 <= i < text.skip(m).len() implies is_space(
            #[trigger] text.skip(m)[i],
        ) by {
            if m + i < front.len() {
                assert(front.skip(m)[i] == text[m + i]);
            }
        }
        m
    } else {
        let n = text.len() as int;
        assert(text.take(n) =~= text);
        n
    }
}

/// A trimmed text is the text without the white space at its ends, and without anything
/// else: it has none at its own ends, and the text is it with white space around.
pub proof fn trimmed_texts_lack_only_white_space(text: Seq<char>) -> (ends: (Seq<char>, Seq<char>))
    ensures
        text == ends.0 + trimmed(text) + ends.1,
        is_all_space(ends.0),
        is_all_space(ends.1),
        trimmed(text).len() > 0 ==> !is_space(trimmed(text)[0]) && !is_space(trimmed(text).last()),
{
    let n = lemma_trim_start(text);
    let rest = text.skip(n);
    let m = lemma_trim_end(rest);
    assert(text =~= text.take(n) + rest.take(m) + rest.skip(m));
    (text.take(n), rest.skip(m))
}

/// What holds anything but digits is no number, a sign in front excepted; and a sign
/// alone is none either.
pub proof fn only_digits_are_numbers(text: Seq<char>, i: int)
    requires
        0 <= i < text.len(),
        !('0' <= text[i] <= '9') && (i > 0 || (text[0] != '+' && text[0] != '-')) || text.len() == 1
            && (text[0] == '+' || text[0] == '-'),
    ensures
        whole_number(text) is None,
        signed_number(text) is None,
{
    let rest = text.drop_first();
    if i > 0 {
        assert(rest[i - 1] == text[i]);
        assert(!is_digit(rest[i - 1]));
        assert(!all_digits(rest));
    }
    if !('0' <= text[i] <= '9') {
        assert(!is_digit(text[i]));
        assert(!all_digits(text));
    }
}

/// Only fair messages are read: what a denial is read from is of a fair length, names a
/// process and an operation, and has a positive ID; and the denial carries them without
/// the white space around them.
pub proof fn only_fair_messages_are_read(
    process: Seq<char>,
    pid: Seq<char>,
    capability: Seq<char>,
)
    ensures
        parsed_denial(process, pid, capability) matches Some((number, denial, _)) ==> {
            &&& process.len() <= 256
            &&& capability.len() <= 4_096
            &&& number > 0
            &&& signed_number(trimmed(pid)) == Some(number as int)
            &&& denial.operation.len() > 0
            &&& encode_utf8(denial.operation).len() <= 128
            &&& denial.process == Some(trimmed(process))
            &&& trimmed(process).len() > 0
            &&& denial.path is Some ==> denial.path->0.len() > 0 && denial.path->0[0] == '/'
                && encode_utf8(denial.path->0).len() <= 4_096
        },
{
}

} // verus!
