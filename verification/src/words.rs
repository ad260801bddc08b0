//! White space, words and numbers in texts.

use vstd::prelude::*;
use vstd::string::*;

use crate::text::{chars_of, is_space, is_whitespace, text_of};

verus! {

/// `text` without the white space at its start.
pub open spec fn trim_start(text: Seq<char>) -> Seq<char>
    decreases text.len(),
{
    if text.len() > 0 && is_space(text[0]) {
        trim_start(text.drop_first())
    } else {
        text
    }
}

/// `text` without the white space at its end.
pub open spec fn trim_end(text: Seq<char>) -> Seq<char>
    decreases text.len(),
{
    if text.len() > 0 && is_space(text.last()) {
        trim_end(text.drop_last())
    } else {
        text
    }
}

/// `text` without the white space at both ends.
pub open spec fn trimmed(text: Seq<char>) -> Seq<char> {
    trim_end(trim_start(text))
}

/// How many characters stand before the first white space.
pub open spec fn word_len(text: Seq<char>) -> nat
    decreases text.len(),
{
    if text.len() == 0 || is_space(text[0]) {
        0
    } else {
        1 + word_len(text.drop_first())
    }
}

/// The words of `text`, which white space parts.
pub open spec fn words(text: Seq<char>) -> Seq<Seq<char>>
    decreases text.len(),
{
    let rest = trim_start(text);
    let n = word_len(rest) as int;
    if n == 0 {
        Seq::empty()
    } else {
        proof {
            lemma_trim_len(text);
            lemma_word_len(rest);
        }
        seq![rest.take(n)] + words(rest.skip(n))
    }
}

/// The first place before `upto`, counted from behind, where a closing bracket
/// and a space stand.
pub open spec fn last_close(text: Seq<char>, upto: int) -> Option<int>
    decreases upto,
{
    if upto <= 0 {
        None
    } else if upto < text.len() && text[upto - 1] == ')' && text[upto] == ' ' {
        Some(upto - 1)
    } else {
        last_close(text, upto - 1)
    }
}

/// The length of a trimmed text never exceeds that of the text.
pub proof fn lemma_trim_len(text: Seq<char>)
    ensures
        trim_start(text).len() <= text.len(),
        trim_end(text).len() <= text.len(),
    decreases text.len(),
{
    if text.len() > 0 {
        lemma_trim_len(text.drop_first());
        lemma_trim_len(text.drop_last());
    }
}

/// A first word is no longer than its text, and empty only before white space or
/// the end.
pub proof fn lemma_word_len(text: Seq<char>)
    ensures
        word_len(text) <= text.len(),
        word_len(text) == 0 ==> text.len() == 0 || is_space(text[0]),
    decreases text.len(),
{
    if text.len() > 0 {
        lemma_word_len(text.drop_first());
    }
}

/// The place behind the white space that begins at `from`.
fn after_space(chars: &Vec<char>, from: usize) -> (at: usize)
    requires
        from <= chars@.len(),
    ensures
        from <= at <= chars@.len(),
        trim_start(chars@.skip(from as int)) == chars@.skip(at as int),
{
    let mut at = from;
    while at < chars.len() && is_whitespace(chars[at])
        invariant
            from <= at <= chars@.len(),
            trim_start(chars@.skip(from as int)) == trim_start(chars@.skip(at as int)),
        decreases chars@.len() - at,
    {
        assert(chars@.skip(at as int).drop_first() =~= chars@.skip(at + 1));
        at = at + 1;
    }
    at
}

/// The place behind the word that begins at `from`.
fn after_word(chars: &Vec<char>, from: usize) -> (at: usize)
    requires
        from <= chars@.len(),
    ensures
        from <= at <= chars@.len(),
        word_len(chars@.skip(from as int)) == at - from,
{
    let mut at = from;
    while at < chars.len() && !is_whitespace(chars[at])
        invariant
            from <= at <= chars@.len(),
            word_len(chars@.skip(from as int)) == at - from + word_len(chars@.skip(at as int)),
        decreases chars@.len() - at,
    {
        assert(chars@.skip(at as int).drop_first() =~= chars@.skip(at + 1));
        at = at + 1;
    }
    at
}

/// `text` without the white space at both ends.
pub fn trim(text: &str) -> (out: String)
    ensures
        out@ == trimmed(text@),
{
    let chars = chars_of(text);
    let from = after_space(&chars, 0);
    assert(chars@.skip(0) =~= text@);
    let mut to = chars.len();
    assert(chars@.skip(from as int) =~= chars@.subrange(from as int, to as int));
    while to > from && is_whitespace(chars[to - 1])
        invariant
            from <= to <= chars@.len(),
            trimmed(text@) == trim_end(chars@.subrange(from as int, to as int)),
        decreases to,
    {
        assert(chars@.subrange(from as int, to as int).drop_last() =~= chars@.subrange(
            from as int,
            to - 1,
        ));
        to = to - 1;
    }
    assert(to > from ==> chars@.subrange(from as int, to as int).last() == chars@[to - 1]);
    text_of(&chars, from, to)
}

/// What stands before and behind the first white space of a text.
pub open spec fn parted(text: Seq<char>) -> Option<(Seq<char>, Seq<char>)> {
    let n = word_len(text) as int;
    if n < text.len() {
        Some((text.take(n), text.skip(n + 1)))
    } else {
        None
    }
}

/// Parts a text at its first white space.
pub fn part_at_space(text: &str) -> (parts: Option<(String, String)>)
    ensures
        match parts {
            Some((head, tail)) => parted(text@) == Some((head@, tail@)),
            None => parted(text@) is None,
        },
{
    let chars = chars_of(text);
    assert(chars@.skip(0) =~= text@);
    let at = after_word(&chars, 0);
    if at < chars.len() {
        let head = text_of(&chars, 0, at);
        let tail = text_of(&chars, at + 1, chars.len());
        assert(head@ =~= text@.take(at as int));
        assert(tail@ =~= text@.skip(at + 1));
        Some((head, tail))
    } else {
        None
    }
}

/// The word at place `n` of the characters from `from` on.
fn word_from(chars: &Vec<char>, from: usize, n: usize) -> (word: Option<String>)
    requires
        from <= chars@.len(),
    ensures
        match word {
            Some(word) => n < words(chars@.skip(from as int)).len() && word@ == words(
                chars@.skip(from as int),
            )[n as int],
            None => n >= words(chars@.skip(from as int)).len(),
        },
{
    let ghost all = words(chars@.skip(from as int));
    let mut at = from;
    let mut left = n;
    loop
        invariant
            at <= chars@.len(),
            left <= n,
            all == words(chars@.skip(from as int)),
            n - left <= all.len(),
            all.skip(n - left) == words(chars@.skip(at as int)),
        decreases left,
    {
        let start = after_space(chars, at);
        let end = after_word(chars, start);
        let ghost rest = chars@.skip(start as int);
        proof {
            lemma_word_len(rest);
            lemma_trim_len(chars@.skip(at as int));
        }
        if end == start {
            return None;
        }
        assert(rest.skip(end - start) =~= chars@.skip(end as int));
        assert(words(chars@.skip(at as int)) == seq![rest.take(end - start)] + words(
            chars@.skip(end as int),
        ));
        assert(all.skip(n - left)[0] == rest.take(end - start));
        if left == 0 {
            let word = text_of(chars, start, end);
            assert(word@ =~= rest.take(end - start));
            return Some(word);
        }
        assert(all.skip(n - left + 1) =~= all.skip(n - left).skip(1));
        assert(all.skip(n - left).skip(1) =~= words(chars@.skip(end as int)));
        at = end;
        left = left - 1;
    }
}

/// The word at place `n` behind the last closing bracket that a space follows.
pub open spec fn word_behind_bracket(text: Seq<char>, n: nat) -> Option<Seq<char>> {
    match last_close(text, text.len() as int) {
        Some(at) => {
            let all = words(text.skip(at + 2));
            if n < all.len() {
                Some(all[n as int])
            } else {
                None
            }
        },
        None => None,
    }
}

/// The word at place `n` behind the last closing bracket that a space follows.
pub fn nth_word_behind_bracket(text: &str, n: usize) -> (word: Option<String>)
    ensures
        match word {
            Some(word) => word_behind_bracket(text@, n as nat) == Some(word@),
            None => word_behind_bracket(text@, n as nat) is None,
        },
{
    let chars = chars_of(text);
    let mut upto = chars.len();
    while upto > 0
        invariant
            upto <= chars@.len(),
            chars@ == text@,
            last_close(text@, text@.len() as int) == last_close(text@, upto as int),
        decreases upto,
    {
        if upto < chars.len() && chars[upto - 1] == ')' && chars[upto] == ' ' {
            return word_from(&chars, upto + 1, n);
        }
        upto = upto - 1;
    }
    None
}

} // verus!
