//! Ordered lists without repetition: of texts, and of paths compared component
//! by component.

use vstd::prelude::*;
use vstd::string::*;

use crate::paths::{components, path_components, same_path};
use crate::text::{chars_of, texts};

verus! {

/// How the items of a list are compared.
#[derive(Clone, Copy, Debug, PartialEq, Eq, Structural)]
pub enum Order {
    /// As texts, character by character.
    Text,
    /// As paths, component by component.
    Path,
}

/// How one item stands to another.
#[derive(Clone, Copy, Debug, PartialEq, Eq, Structural)]
pub enum Place {
    Before,
    Same,
    After,
}

/// Lexicographic order of number sequences.
pub open spec fn numbers_less(a: Seq<int>, b: Seq<int>) -> bool
    decreases a.len(),
{
    if b.len() == 0 {
        false
    } else if a.len() == 0 {
        true
    } else if a[0] != b[0] {
        a[0] < b[0]
    } else {
        numbers_less(a.skip(1), b.skip(1))
    }
}

/// Lexicographic order of sequences whose items are ordered by `numbers_less`.
pub open spec fn rows_less(a: Seq<Seq<int>>, b: Seq<Seq<int>>) -> bool
    decreases a.len(),
{
    if b.len() == 0 {
        false
    } else if a.len() == 0 {
        true
    } else if a[0] != b[0] {
        numbers_less(a[0], b[0])
    } else {
        rows_less(a.skip(1), b.skip(1))
    }
}

/// The code points of `text`.
pub open spec fn code_points(text: Seq<char>) -> Seq<int> {
    text.map_values(|c: char| c as int)
}

/// Where components of a kind stand: the root first, then `.`, `..` and names.
pub open spec fn part_rank(part: Seq<char>) -> int {
    if part == seq!['/'] {
        0
    } else if part == seq!['.'] {
        1
    } else if part == seq!['.', '.'] {
        2
    } else {
        3
    }
}

/// What a component is ordered by.
pub open spec fn part_key(part: Seq<char>) -> Seq<int> {
    seq![part_rank(part)] + code_points(part)
}

/// What an item is ordered by.
pub open spec fn item_key(order: Order, item: Seq<char>) -> Seq<Seq<int>> {
    match order {
        Order::Text => seq![code_points(item)],
        Order::Path => components(item).map_values(|part: Seq<char>| part_key(part)),
    }
}

/// Whether `a` comes before `b`.
pub open spec fn item_less(order: Order, a: Seq<char>, b: Seq<char>) -> bool {
    rows_less(item_key(order, a), item_key(order, b))
}

/// Whether `a` and `b` are the same item.
pub open spec fn item_same(order: Order, a: Seq<char>, b: Seq<char>) -> bool {
    match order {
        Order::Text => a == b,
        Order::Path => same_path(a, b),
    }
}

/// Whether a list is in order and holds nothing twice.
pub open spec fn in_order(order: Order, list: Seq<Seq<char>>) -> bool {
    forall|i: int, j: int| 0 <= i < j < list.len() ==> item_less(order, list[i], list[j])
}

/// Whether a list holds `item`.
pub open spec fn holds(order: Order, list: Seq<Seq<char>>, item: Seq<char>) -> bool {
    exists|i: int| 0 <= i < list.len() && item_same(order, #[trigger] list[i], item)
}

/// `list` with `item` at its place; unchanged where it holds the item already.
pub open spec fn insertion(order: Order, list: Seq<Seq<char>>, item: Seq<char>) -> Seq<Seq<char>>
    decreases list.len(),
{
    if list.len() == 0 {
        seq![item]
    } else if item_same(order, list.last(), item) {
        list
    } else if item_less(order, list.last(), item) {
        list.push(item)
    } else {
        insertion(order, list.drop_last(), item).push(list.last())
    }
}

/// The items of a sequence in order, each one once, the first of equal ones.
pub open spec fn collected(order: Order, items: Seq<Seq<char>>) -> Seq<Seq<char>>
    decreases items.len(),
{
    if items.len() == 0 {
        Seq::empty()
    } else {
        insertion(order, collected(order, items.drop_last()), items.last())
    }
}

proof fn lemma_numbers_less(a: Seq<int>, b: Seq<int>)
    ensures
        a == b <==> !numbers_less(a, b) && !numbers_less(b, a),
        !(numbers_less(a, b) && numbers_less(b, a)),
    decreases a.len(),
{
    if a.len() > 0 && b.len() > 0 {
        lemma_numbers_less(a.skip(1), b.skip(1));
        assert(a =~= seq![a[0]] + a.skip(1));
        assert(b =~= seq![b[0]] + b.skip(1));
    } else if a.len() == 0 && b.len() == 0 {
        assert(a =~= b);
    }
}

proof fn lemma_numbers_transitive(a: Seq<int>, b: Seq<int>, c: Seq<int>)
    requires
        numbers_less(a, b),
        numbers_less(b, c),
    ensures
        numbers_less(a, c),
    decreases a.len(),
{
    if a.len() > 0 && b.len() > 0 && c.len() > 0 && a[0] == b[0] && b[0] == c[0] {
        lemma_numbers_transitive(a.skip(1), b.skip(1), c.skip(1));
    }
}

proof fn lemma_rows_less(a: Seq<Seq<int>>, b: Seq<Seq<int>>)
    ensures
        a == b <==> !rows_less(a, b) && !rows_less(b, a),
        !(rows_less(a, b) && rows_less(b, a)),
    decreases a.len(),
{
    if a.len() > 0 && b.len() > 0 {
        lemma_rows_less(a.skip(1), b.skip(1));
        lemma_numbers_less(a[0], b[0]);
        assert(a =~= seq![a[0]] + a.skip(1));
        assert(b =~= seq![b[0]] + b.skip(1));
    } else if a.len() == 0 && b.len() == 0 {
        assert(a =~= b);
    }
}

proof fn lemma_rows_transitive(a: Seq<Seq<int>>, b: Seq<Seq<int>>, c: Seq<Seq<int>>)
    requires
        rows_less(a, b),
        rows_less(b, c),
    ensures
        rows_less(a, c),
    decreases a.len(),
{
    if a.len() > 0 && b.len() > 0 && c.len() > 0 {
        if a[0] == b[0] && b[0] == c[0] {
            lemma_rows_transitive(a.skip(1), b.skip(1), c.skip(1));
        } else if a[0] != b[0] && b[0] != c[0] {
            lemma_numbers_transitive(a[0], b[0], c[0]);
            lemma_numbers_less(a[0], b[0]);
        }
    }
}

proof fn lemma_code_points(a: Seq<char>, b: Seq<char>)
    ensures
        code_points(a) == code_points(b) <==> a == b,
{
    if code_points(a) == code_points(b) {
        assert(a.len() == code_points(a).len());
        assert forall|i: int| 0 <= i < a.len() implies a[i] == b[i] by {
            assert(code_points(a)[i] == code_points(b)[i]);
        }
        assert(a =~= b);
    }
}

proof fn lemma_item_key(order: Order, a: Seq<char>, b: Seq<char>)
    ensures
        item_key(order, a) == item_key(order, b) <==> item_same(order, a, b),
{
    match order {
        Order::Text => {
            lemma_code_points(a, b);
            if item_key(order, a) == item_key(order, b) {
                assert(item_key(order, a)[0] == item_key(order, b)[0]);
            }
        },
        Order::Path => {
            let left = components(a);
            let right = components(b);
            if item_key(order, a) == item_key(order, b) {
                assert(left.len() == item_key(order, a).len());
                assert forall|i: int| 0 <= i < left.len() implies left[i] == right[i] by {
                    assert(item_key(order, a)[i] == item_key(order, b)[i]);
                    assert(part_key(left[i]).skip(1) =~= code_points(left[i]));
                    assert(part_key(right[i]).skip(1) =~= code_points(right[i]));
                    lemma_code_points(left[i], right[i]);
                }
                assert(left =~= right);
            }
        },
    }
}

/// Of two items exactly one thing holds: they are the same, or one of them
/// comes before the other.
pub proof fn order_is_total(order: Order, a: Seq<char>, b: Seq<char>)
    ensures
        item_same(order, a, b) <==> !item_less(order, a, b) && !item_less(order, b, a),
        !(item_less(order, a, b) && item_less(order, b, a)),
{
    lemma_rows_less(item_key(order, a), item_key(order, b));
    lemma_item_key(order, a, b);
}

/// What comes before an item comes before everything that the item comes before.
pub proof fn order_is_transitive(order: Order, a: Seq<char>, b: Seq<char>, c: Seq<char>)
    requires
        item_less(order, a, b),
        item_less(order, b, c),
    ensures
        item_less(order, a, c),
{
    lemma_rows_transitive(item_key(order, a), item_key(order, b), item_key(order, c));
}

proof fn lemma_same_less(order: Order, a: Seq<char>, b: Seq<char>, c: Seq<char>)
    requires
        item_same(order, a, b),
    ensures
        item_less(order, a, c) == item_less(order, b, c),
        item_less(order, c, a) == item_less(order, c, b),
{
    lemma_item_key(order, a, b);
}

/// Putting an item into a list in order leaves it in order, and the list then
/// holds what it held and the item, and nothing else.
pub proof fn insertion_adds_one_item(order: Order, list: Seq<Seq<char>>, item: Seq<char>)
    requires
        in_order(order, list),
    ensures
        in_order(order, insertion(order, list, item)),
        forall|other: Seq<char>|
            holds(order, insertion(order, list, item), other) <==> holds(order, list, other)
                || item_same(order, item, other),
    decreases list.len(),
{
    let out = insertion(order, list, item);
    if list.len() == 0 {
        assert(out[0] == item);
    } else {
        let last = list.last();
        let front = list.drop_last();
        order_is_total(order, last, item);
        if item_same(order, last, item) {
            assert forall|other: Seq<char>| item_same(order, item, other) implies holds(
                order,
                list,
                other,
            ) by {
                assert(item_same(order, list[list.len() - 1], other));
            }
        } else if item_less(order, last, item) {
            assert forall|i: int, j: int| 0 <= i < j < out.len() implies item_less(
                order,
                out[i],
                out[j],
            ) by {
                if j == list.len() && i < list.len() - 1 {
                    order_is_transitive(order, list[i], last, item);
                }
            }
            assert forall|other: Seq<char>| holds(order, out, other) <==> holds(order, list, other)
                || item_same(order, item, other) by {
                if holds(order, list, other) {
                    let i = choose|i: int|
                        0 <= i < list.len() && item_same(order, #[trigger] list[i], other);
                    assert(item_same(order, out[i], other));
                }
                if item_same(order, item, other) {
                    assert(item_same(order, out[list.len() as int], other));
                }
                if holds(order, out, other) && !item_same(order, item, other) {
                    let i = choose|i: int|
                        0 <= i < out.len() && item_same(order, #[trigger] out[i], other);
                    assert(item_same(order, list[i], other));
                }
            }
        } else {
            let inner = insertion(order, front, item);
            assert forall|i: int, j: int| 0 <= i < j < front.len() implies item_less(
                order,
                front[i],
                front[j],
            ) by {
                assert(front[i] == list[i] && front[j] == list[j]);
            }
            insertion_adds_one_item(order, front, item);
            assert forall|i: int, j: int| 0 <= i < j < out.len() implies item_less(
                order,
                out[i],
                out[j],
            ) by {
                if j == inner.len() {
                    assert(item_same(order, inner[i], inner[i])) by {
                        lemma_item_key(order, inner[i], inner[i]);
                    }
                    assert(holds(order, inner, inner[i]));
                    if item_same(order, item, inner[i]) {
                        lemma_same_less(order, item, inner[i], last);
                    } else {
                        let k = choose|k: int|
                            0 <= k < front.len() && item_same(order, #[trigger] front[k], inner[i]);
                        lemma_same_less(order, front[k], inner[i], last);
                        assert(item_less(order, list[k], list[list.len() - 1]));
                    }
                }
            }
            assert forall|other: Seq<char>| holds(order, out, other) <==> holds(order, list, other)
                || item_same(order, item, other) by {
                if holds(order, out, other) {
                    let i = choose|i: int|
                        0 <= i < out.len() && item_same(order, #[trigger] out[i], other);
                    if i < inner.len() {
                        assert(item_same(order, inner[i], other));
                        assert(holds(order, inner, other));
                        if holds(order, front, other) {
                            let k = choose|k: int|
                                0 <= k < front.len() && item_same(order, #[trigger] front[k], other);
                            assert(item_same(order, list[k], other));
                        }
                    } else {
                        assert(item_same(order, list[list.len() - 1], other));
                    }
                }
                if holds(order, list, other) {
                    let k = choose|k: int|
                        0 <= k < list.len() && item_same(order, #[trigger] list[k], other);
                    if k < front.len() {
                        assert(item_same(order, front[k], other));
                        assert(holds(order, front, other));
                        assert(holds(order, inner, other));
                        let i = choose|i: int|
                            0 <= i < inner.len() && item_same(order, #[trigger] inner[i], other);
                        assert(item_same(order, out[i], other));
                    } else {
                        assert(item_same(order, out[inner.len() as int], other));
                    }
                }
                if item_same(order, item, other) {
                    assert(holds(order, inner, other));
                    let i = choose|i: int|
                        0 <= i < inner.len() && item_same(order, #[trigger] inner[i], other);
                    assert(item_same(order, out[i], other));
                }
            }
        }
    }
}

/// A collected sequence is in order and holds exactly the items of the sequence.
pub proof fn collected_is_a_set(order: Order, items: Seq<Seq<char>>)
    ensures
        in_order(order, collected(order, items)),
        forall|other: Seq<char>|
            holds(order, collected(order, items), other) <==> holds(order, items, other),
    decreases items.len(),
{
    if items.len() > 0 {
        let front = items.drop_last();
        collected_is_a_set(order, front);
        insertion_adds_one_item(order, collected(order, front), items.last());
        assert forall|other: Seq<char>|
            holds(order, collected(order, items), other) <==> holds(order, items, other) by {
            if holds(order, items, other) {
                let k = choose|k: int|
                    0 <= k < items.len() && item_same(order, #[trigger] items[k], other);
                if k < front.len() {
                    assert(item_same(order, front[k], other));
                }
            }
            if holds(order, front, other) {
                let k = choose|k: int|
                    0 <= k < front.len() && item_same(order, #[trigger] front[k], other);
                assert(item_same(order, items[k], other));
            }
            if item_same(order, items.last(), other) {
                assert(item_same(order, items[items.len() - 1], other));
            }
        }
    }
}

spec fn numbers(row: Seq<u32>) -> Seq<int> {
    row.map_values(|n: u32| n as int)
}

spec fn number_rows(rows: Seq<Vec<u32>>) -> Seq<Seq<int>> {
    Seq::new(rows.len(), |i: int| numbers(rows[i]@))
}

fn code_point(c: char) -> (n: u32)
    ensures
        n as int == c as int,
{
    c as u32
}

fn code_point_row(text: &str, rank: Option<u32>) -> (row: Vec<u32>)
    ensures
        numbers(row@) == match rank {
            Some(rank) => seq![rank as int] + code_points(text@),
            None => code_points(text@),
        },
{
    let chars = chars_of(text);
    let mut row: Vec<u32> = Vec::new();
    if let Some(rank) = rank {
        row.push(rank);
    }
    let ghost lead = numbers(row@);
    let mut i: usize = 0;
    assert(numbers(row@) =~= lead + code_points(chars@.take(0)));
    while i < chars.len()
        invariant
            i <= chars@.len(),
            numbers(row@) == lead + code_points(chars@.take(i as int)),
        decreases chars@.len() - i,
    {
        let ghost before = row@;
        row.push(code_point(chars[i]));
        i = i + 1;
        assert(numbers(row@) =~= numbers(before).push(chars@[i - 1] as int));
        assert(code_points(chars@.take(i as int)) =~= code_points(chars@.take(i - 1)).push(
            chars@[i - 1] as int,
        ));
        assert(numbers(row@) =~= lead + code_points(chars@.take(i as int)));
    }
    assert(chars@.take(i as int) =~= text@);
    assert(match rank {
        Some(rank) => lead =~= seq![rank as int],
        None => lead =~= Seq::<int>::empty(),
    });
    assert(numbers(row@) =~= match rank {
        Some(rank) => seq![rank as int] + code_points(text@),
        None => code_points(text@),
    });
    row
}

fn rank_of(part: &str) -> (rank: u32)
    ensures
        rank == part_rank(part@),
{
    let chars = chars_of(part);
    if chars.len() == 1 && chars[0] == '/' {
        assert(part@ =~= seq!['/']);
        return 0;
    }
    assert(part@ == seq!['/'] ==> part@.len() == 1 && part@[0] == '/');
    if chars.len() == 1 && chars[0] == '.' {
        assert(part@ =~= seq!['.']);
        return 1;
    }
    assert(part@ == seq!['.'] ==> part@.len() == 1 && part@[0] == '.');
    if chars.len() == 2 && chars[0] == '.' && chars[1] == '.' {
        assert(part@ =~= seq!['.', '.']);
        return 2;
    }
    assert(part@ == seq!['.', '.'] ==> part@.len() == 2 && part@[0] == '.' && part@[1] == '.');
    3
}

fn key_of(order: Order, item: &str) -> (rows: Vec<Vec<u32>>)
    ensures
        number_rows(rows@) == item_key(order, item@),
{
    let mut rows: Vec<Vec<u32>> = Vec::new();
    match order {
        Order::Text => {
            rows.push(code_point_row(item, None));
            assert(number_rows(rows@) =~= seq![code_points(item@)]);
        },
        Order::Path => {
            let parts = path_components(item);
            let mut i: usize = 0;
            let ghost keys = item_key(order, item@);
            while i < parts.len()
                invariant
                    i <= parts@.len(),
                    texts(parts@) == components(item@),
                    keys == components(item@).map_values(|part: Seq<char>| part_key(part)),
                    number_rows(rows@) == keys.take(i as int),
                decreases parts@.len() - i,
            {
                let rank = rank_of(parts[i].as_str());
                let ghost before = number_rows(rows@);
                let row = code_point_row(parts[i].as_str(), Some(rank));
                assert(components(item@)[i as int] == parts@[i as int]@);
                rows.push(row);
                i = i + 1;
                assert(number_rows(rows@) =~= before.push(keys[i - 1]));
                assert(keys.take(i as int) =~= keys.take(i - 1).push(keys[i - 1]));
            }
            assert(texts(parts@).len() == parts@.len());
            assert(keys.take(i as int) =~= keys);
        },
    }
    rows
}

fn place_numbers(a: &Vec<u32>, b: &Vec<u32>) -> (place: Place)
    ensures
        match place {
            Place::Before => numbers_less(numbers(a@), numbers(b@)),
            Place::Same => numbers(a@) == numbers(b@),
            Place::After => numbers_less(numbers(b@), numbers(a@)),
        },
{
    let ghost left = numbers(a@);
    let ghost right = numbers(b@);
    let mut i: usize = 0;
    assert(left.skip(0) =~= left);
    assert(right.skip(0) =~= right);
    while i < a.len() && i < b.len()
        invariant
            i <= a@.len(),
            i <= b@.len(),
            left == numbers(a@),
            right == numbers(b@),
            left.take(i as int) == right.take(i as int),
            numbers_less(left, right) == numbers_less(left.skip(i as int), right.skip(i as int)),
            numbers_less(right, left) == numbers_less(right.skip(i as int), left.skip(i as int)),
        decreases a@.len() - i,
    {
        assert(left.skip(i as int)[0] == a@[i as int] as int);
        assert(right.skip(i as int)[0] == b@[i as int] as int);
        if a[i] < b[i] {
            return Place::Before;
        }
        if b[i] < a[i] {
            return Place::After;
        }
        i = i + 1;
        assert(left.skip(i - 1).skip(1) =~= left.skip(i as int));
        assert(right.skip(i - 1).skip(1) =~= right.skip(i as int));
        assert(left.take(i as int) =~= left.take(i - 1).push(left[i - 1]));
        assert(right.take(i as int) =~= right.take(i - 1).push(right[i - 1]));
    }
    if i < b.len() {
        Place::Before
    } else if i < a.len() {
        Place::After
    } else {
        assert(left =~= left.take(i as int));
        assert(right =~= right.take(i as int));
        Place::Same
    }
}

fn place_rows(a: &Vec<Vec<u32>>, b: &Vec<Vec<u32>>) -> (place: Place)
    ensures
        match place {
            Place::Before => rows_less(number_rows(a@), number_rows(b@)),
            Place::Same => number_rows(a@) == number_rows(b@),
            Place::After => rows_less(number_rows(b@), number_rows(a@)),
        },
{
    let ghost left = number_rows(a@);
    let ghost right = number_rows(b@);
    let mut i: usize = 0;
    assert(left.skip(0) =~= left);
    assert(right.skip(0) =~= right);
    while i < a.len() && i < b.len()
        invariant
            i <= a@.len(),
            i <= b@.len(),
            left == number_rows(a@),
            right == number_rows(b@),
            left.take(i as int) == right.take(i as int),
            rows_less(left, right) == rows_less(left.skip(i as int), right.skip(i as int)),
            rows_less(right, left) == rows_less(right.skip(i as int), left.skip(i as int)),
        decreases a@.len() - i,
    {
        assert(left.skip(i as int)[0] == numbers(a@[i as int]@));
        assert(right.skip(i as int)[0] == numbers(b@[i as int]@));
        proof {
            lemma_numbers_less(numbers(a@[i as int]@), numbers(b@[i as int]@));
        }
        match place_numbers(&a[i], &b[i]) {
            Place::Before => {
                return Place::Before;
            },
            Place::After => {
                return Place::After;
            },
            Place::Same => {},
        }
        i = i + 1;
        assert(left.skip(i - 1).skip(1) =~= left.skip(i as int));
        assert(right.skip(i - 1).skip(1) =~= right.skip(i as int));
        assert(left.take(i as int) =~= left.take(i - 1).push(left[i - 1]));
        assert(right.take(i as int) =~= right.take(i - 1).push(right[i - 1]));
    }
    if i < b.len() {
        Place::Before
    } else if i < a.len() {
        Place::After
    } else {
        assert(left =~= left.take(i as int));
        assert(right =~= right.take(i as int));
        Place::Same
    }
}

/// How `a` stands to `b`.
pub fn place_items(order: Order, a: &str, b: &str) -> (place: Place)
    ensures
        match place {
            Place::Before => item_less(order, a@, b@),
            Place::Same => item_same(order, a@, b@),
            Place::After => item_less(order, b@, a@),
        },
{
    let left = key_of(order, a);
    let right = key_of(order, b);
    proof {
        lemma_item_key(order, a@, b@);
    }
    place_rows(&left, &right)
}

/// Where `item` stands in a list in order: its index where the list holds it,
/// else the index that it would have.
pub fn locate(order: Order, list: &Vec<String>, item: &str) -> (found: (bool, usize))
    requires
        in_order(order, texts(list@)),
    ensures
        found.1 <= list@.len(),
        found.0 == holds(order, texts(list@), item@),
        found.0 ==> found.1 < list@.len() && item_same(order, list@[found.1 as int]@, item@),
        forall|j: int| 0 <= j < found.1 ==> item_less(order, #[trigger] texts(list@)[j], item@),
        forall|j: int|
            found.1 <= j < list@.len() && (j > found.1 || !found.0) ==> item_less(
                order,
                item@,
                #[trigger] texts(list@)[j],
            ),
{
    let mut low: usize = 0;
    let mut high: usize = list.len();
    let ghost items = texts(list@);
    while low < high
        invariant
            low <= high <= list@.len(),
            items == texts(list@),
            in_order(order, items),
            forall|j: int| 0 <= j < low ==> item_less(order, #[trigger] items[j], item@),
            forall|j: int| high <= j < list@.len() ==> item_less(order, item@, #[trigger] items[j]),
        decreases high - low,
    {
        let middle: usize = low + (high - low) / 2;
        let place = place_items(order, list[middle].as_str(), item);
        assert(items[middle as int] == list@[middle as int]@);
        match place {
            Place::Before => {
                assert forall|j: int| 0 <= j < middle + 1 implies item_less(
                    order,
                    #[trigger] items[j],
                    item@,
                ) by {
                    if j < middle {
                        order_is_transitive(order, items[j], items[middle as int], item@);
                    }
                }
                low = middle + 1;
            },
            Place::After => {
                assert forall|j: int| middle <= j < list@.len() implies item_less(
                    order,
                    item@,
                    #[trigger] items[j],
                ) by {
                    if j > middle {
                        order_is_transitive(order, item@, items[middle as int], items[j]);
                    }
                }
                high = middle;
            },
            Place::Same => {
                assert forall|j: int| 0 <= j < list@.len() && j != middle implies (if j < middle {
                    item_less(order, #[trigger] items[j], item@)
                } else {
                    item_less(order, item@, items[j])
                }) by {
                    lemma_same_less(order, items[middle as int], item@, items[j]);
                }
                return (true, middle);
            },
        }
    }
    assert forall|j: int| 0 <= j < items.len() implies !item_same(order, #[trigger] items[j], item@) by {
        order_is_total(order, items[j], item@);
    }
    (false, low)
}

proof fn lemma_insertion_found(order: Order, list: Seq<Seq<char>>, item: Seq<char>, at: int)
    requires
        in_order(order, list),
        0 <= at < list.len(),
        item_same(order, list[at], item),
    ensures
        insertion(order, list, item) == list,
    decreases list.len(),
{
    let last = list.last();
    if at < list.len() - 1 {
        assert(item_less(order, list[at], list[list.len() - 1]));
        lemma_same_less(order, list[at], item, last);
        order_is_total(order, last, item);
        let front = list.drop_last();
        assert forall|i: int, j: int| 0 <= i < j < front.len() implies item_less(
            order,
            front[i],
            front[j],
        ) by {
            assert(front[i] == list[i] && front[j] == list[j]);
        }
        lemma_insertion_found(order, front, item, at);
        assert(front.push(last) =~= list);
    }
}

proof fn lemma_insertion_new(order: Order, list: Seq<Seq<char>>, item: Seq<char>, at: int)
    requires
        0 <= at <= list.len(),
        forall|j: int| 0 <= j < at ==> item_less(order, #[trigger] list[j], item),
        forall|j: int| at <= j < list.len() ==> item_less(order, item, #[trigger] list[j]),
    ensures
        insertion(order, list, item) == list.insert(at, item),
    decreases list.len(),
{
    if list.len() == 0 {
        assert(list.insert(at, item) =~= seq![item]);
    } else {
        let last = list.last();
        order_is_total(order, last, item);
        if at == list.len() {
            assert(item_less(order, list[list.len() - 1], item));
            assert(list.insert(at, item) =~= list.push(item));
        } else {
            assert(item_less(order, item, list[list.len() - 1]));
            let front = list.drop_last();
            assert forall|j: int| 0 <= j < at implies item_less(order, #[trigger] front[j], item) by {
                assert(front[j] == list[j]);
            }
            assert forall|j: int| at <= j < front.len() implies item_less(
                order,
                item,
                #[trigger] front[j],
            ) by {
                assert(front[j] == list[j]);
            }
            lemma_insertion_new(order, front, item, at);
            assert(list.insert(at, item) =~= front.insert(at, item).push(last));
        }
    }
}

/// An item put where it belongs between its neighbours leaves a list in order.
pub proof fn insertion_at(order: Order, list: Seq<Seq<char>>, item: Seq<char>, at: int)
    requires
        in_order(order, list),
        0 <= at <= list.len(),
        forall|j: int| 0 <= j < at ==> item_less(order, #[trigger] list[j], item),
        forall|j: int| at <= j < list.len() ==> item_less(order, item, #[trigger] list[j]),
    ensures
        insertion(order, list, item) == list.insert(at, item),
        in_order(order, list.insert(at, item)),
{
    lemma_insertion_new(order, list, item, at);
    insertion_adds_one_item(order, list, item);
}

/// Whether a list in order holds `item`.
pub fn contains_item(order: Order, list: &Vec<String>, item: &str) -> (found: bool)
    requires
        in_order(order, texts(list@)),
    ensures
        found == holds(order, texts(list@), item@),
{
    locate(order, list, item).0
}

/// Puts `item` at its place in a list in order, unless the list holds it.
pub fn insert_item(order: Order, list: &mut Vec<String>, item: String)
    requires
        in_order(order, texts(old(list)@)),
    ensures
        texts(final(list)@) == insertion(order, texts(old(list)@), item@),
        in_order(order, texts(final(list)@)),
{
    let ghost before = texts(list@);
    let (found, at) = locate(order, list, item.as_str());
    proof {
        insertion_adds_one_item(order, before, item@);
    }
    if found {
        proof {
            lemma_insertion_found(order, before, item@, at as int);
        }
        return ;
    }
    proof {
        lemma_insertion_new(order, before, item@, at as int);
    }
    list.insert(at, item);
    assert(texts(list@) =~= before.insert(at as int, item@));
}

} // verus!
