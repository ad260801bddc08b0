//! What paths are made of, and in what order they come.

use vstd::prelude::*;

use crate::order::{
    code_points, item_key, item_less, numbers_less, part_key, part_rank, rows_less, Order,
};
use crate::paths::{
    components, file_name_of, front_of, has_dots, is_absolute, is_part, lemma_pushed_components,
    lies_under, parent_of, pushed, real_parts, same_path, segments,
};

verus! {

/// Whether a text can be one name of a path: not empty, not the directory itself, and
/// without a separator.
pub open spec fn is_path_name(name: Seq<char>) -> bool {
    name.len() > 0 && name != seq!['.'] && !name.contains('/')
}

/// Whether texts can be the names of a path.
pub open spec fn are_names(names: Seq<Seq<char>>) -> bool {
    forall|i: int| 0 <= i < names.len() ==> is_path_name(#[trigger] names[i])
}

/// An absolute path spelled out: the root, or a separator before each name.
pub open spec fn spelled(names: Seq<Seq<char>>) -> Seq<char>
    decreases names.len(),
{
    if names.len() == 0 {
        seq!['/']
    } else if names.len() == 1 {
        seq!['/'] + names[0]
    } else {
        spelled(names.drop_last()) + seq!['/'] + names.last()
    }
}

proof fn lemma_front_names(names: Seq<Seq<char>>)
    requires
        are_names(names),
        names.len() > 0,
    ensures
        are_names(names.drop_last()),
        is_path_name(names.last()),
{
    assert(names[names.len() - 1] == names.last());
    assert forall|i: int| 0 <= i < names.drop_last().len() implies is_path_name(
        #[trigger] names.drop_last()[i],
    ) by {
        assert(names[i] == names.drop_last()[i]);
    }
}

proof fn lemma_spelled(names: Seq<Seq<char>>)
    requires
        are_names(names),
    ensures
        is_absolute(spelled(names)),
        names.len() > 0 ==> spelled(names).len() > 1 && spelled(names).last() != '/',
        components(spelled(names)) == seq![seq!['/']] + names,
    decreases names.len(),
{
    let path = spelled(names);
    if names.len() == 0 {
        let none = Seq::<char>::empty();
        let root = seq!['/'];
        lemma_pushed_components(root, none);
        reveal_with_fuel(segments, 2);
        reveal_with_fuel(real_parts, 3);
        assert(root.drop_last() =~= none);
        assert(components(root) =~= seq![seq!['/']]);
        assert(seq![seq!['/']] + names =~= seq![seq!['/']]);
    } else {
        let front = names.drop_last();
        let last = names.last();
        lemma_front_names(names);
        lemma_spelled(front);
        lemma_pushed_components(spelled(front), last);
        assert(last.contains(last[last.len() - 1]));
        if names.len() == 1 {
            assert(front =~= Seq::empty());
            assert(names[0] == last);
            assert(path =~= spelled(front) + last);
        }
        assert(path == pushed(spelled(front), last));
        assert(path[path.len() - 1] == last[last.len() - 1]);
        assert((seq![seq!['/']] + front).push(last) =~= seq![seq!['/']] + names);
    }
}

/// The components of an absolute path are the root and its names, in order.
pub proof fn components_are_the_names(names: Seq<Seq<char>>)
    requires
        are_names(names),
    ensures
        components(spelled(names)) == seq![seq!['/']] + names,
{
    lemma_spelled(names);
}

/// Separators at the end of a path, and names that stand for the directory itself, are
/// no components.
pub proof fn trailing_separators_name_nothing(path: Seq<char>)
    requires
        path.len() > 0,
        path[0] == '/',
    ensures
        components(path + seq!['/']) == components(path),
        components(path + seq!['/', '.']) == components(path),
{
    let none = Seq::<char>::empty();
    if path.last() != '/' {
        lemma_pushed_components(path, none);
        assert(path + seq!['/'] + none =~= path + seq!['/']);
        assert(!seq!['.'].contains('/'));
        lemma_pushed_components(path, seq!['.']);
        assert(path + seq!['/'] + seq!['.'] =~= path + seq!['/', '.']);
    } else {
        let more = path + seq!['/'];
        lemma_double(path);
        assert(!seq!['.'].contains('/'));
        lemma_pushed_components(more, seq!['.']);
        assert(more + seq!['.'] =~= path + seq!['/', '.']);
    }
}

proof fn lemma_double(path: Seq<char>)
    ensures
        path.len() > 0 && path[0] == '/' ==> components(path + seq!['/']) == components(path),
{
    let more = path + seq!['/'];
    if path.len() > 0 && path[0] == '/' {
        assert(more.drop_last() =~= path);
        assert(more.last() == '/');
        let before = segments(path);
        let after = segments(more);
        assert(after == before.push(Seq::empty()));
        assert(after.drop_last() =~= before);
        assert(real_parts(after) == real_parts(before));
    }
}

/// A path lies under another exactly where it begins with the names of that one.
pub proof fn paths_lie_under_what_they_begin_with(names: Seq<Seq<char>>, others: Seq<Seq<char>>)
    requires
        are_names(names),
        are_names(others),
    ensures
        lies_under(spelled(names), spelled(others)) <==> others.len() <= names.len()
            && names.take(others.len() as int) == others,
        same_path(spelled(names), spelled(others)) <==> names == others,
{
    lemma_spelled(names);
    lemma_spelled(others);
    let root = seq![seq!['/']];
    let a = components(spelled(names));
    let b = components(spelled(others));
    assert(a.skip(1) =~= names);
    assert(b.skip(1) =~= others);
    if others.len() <= names.len() {
        let n = others.len() as int;
        assert(a.take(n + 1) =~= root + names.take(n));
        assert((root + names.take(n)).skip(1) =~= names.take(n));
    }
}

/// The last name of a path is its file name, unless it leads upwards.
pub proof fn the_last_name_is_the_file_name(names: Seq<Seq<char>>)
    requires
        are_names(names),
        names.len() > 0,
        names.last() != seq!['.', '.'],
    ensures
        file_name_of(spelled(names)) == Some(names.last()),
{
    lemma_spelled(names);
    lemma_front_names(names);
    let parts = components(spelled(names));
    assert(parts.last() == names.last());
    if names.last() == seq!['/'] {
        assert(names.last()[0] == '/');
        assert(names.last().contains('/'));
    }
}

/// An absolute path of names is unclean exactly where one of them leads upwards.
pub proof fn only_upward_names_are_unclean(names: Seq<Seq<char>>)
    requires
        are_names(names),
    ensures
        has_dots(spelled(names)) <==> names.contains(seq!['.', '.']),
{
    lemma_spelled(names);
    let parts = components(spelled(names));
    let up = seq!['.', '.'];
    assert(parts[0] == seq!['/']);
    assert(seq!['/'] != up) by {
        assert(seq!['/'].len() != up.len());
    }
    if parts.contains(seq!['.']) {
        let i = choose|i: int| 0 <= i < parts.len() && parts[i] == seq!['.'];
        assert(seq!['/'][0] != seq!['.'][0]);
        assert(names[i - 1] == parts[i]);
        assert(is_path_name(names[i - 1]));
    }
    if parts.contains(up) {
        let i = choose|i: int| 0 <= i < parts.len() && parts[i] == up;
        assert(names[i - 1] == parts[i]);
    }
    if names.contains(up) {
        let i = choose|i: int| 0 <= i < names.len() && names[i] == up;
        assert(parts[i + 1] == up);
    }
}

proof fn lemma_front_stops(names: Seq<Seq<char>>)
    requires
        are_names(names),
    ensures
        front_of(spelled(names), names.len() + 1int) == spelled(names),
{
    let path = spelled(names);
    let n = names.len() + 1;
    lemma_spelled(names);
    let parts = components(path);
    assert(parts.take(n as int) =~= parts);
    let less = path.drop_last();
    if names.len() == 0 {
        assert(less =~= Seq::empty());
        reveal_with_fuel(segments, 2);
        reveal_with_fuel(real_parts, 3);
        assert(segments(less)[0] == Seq::<char>::empty());
        assert(Seq::<char>::empty() != seq!['.']);
        assert(components(less).len() == 0);
    } else {
        let front = names.drop_last();
        let last = names.last();
        lemma_front_names(names);
        lemma_spelled(front);
        let base = spelled(front);
        let cut = last.drop_last();
        assert(!cut.contains('/')) by {
            if cut.contains('/') {
                let i = choose|i: int| 0 <= i < cut.len() && cut[i] == '/';
                assert(last[i] == '/');
                assert(last.contains('/'));
            }
        }
        lemma_pushed_components(base, cut);
        if names.len() == 1 {
            assert(front =~= Seq::empty());
            assert(names[0] == last);
            assert(less =~= base + cut);
        } else {
            assert(less =~= base + seq!['/'] + cut);
        }
        assert(less == pushed(base, cut));
        if is_part(cut) {
            let shorter = components(less);
            assert(shorter[names.len() as int] == cut);
            assert(parts[names.len() as int] == last);
            assert(cut.len() != last.len());
            assert(shorter.take(n as int)[names.len() as int] == cut);
        }
    }
}

proof fn lemma_front_drops(front: Seq<Seq<char>>, part: Seq<char>)
    requires
        are_names(front),
        !part.contains('/'),
    ensures
        front_of(pushed(spelled(front), part), front.len() + 1int) == spelled(front),
    decreases part.len(),
{
    let n = front.len() + 1;
    let base = spelled(front);
    let path = pushed(base, part);
    lemma_spelled(front);
    lemma_pushed_components(base, part);
    lemma_front_stops(front);
    let parts = components(base);
    assert(parts.take(n as int) =~= parts);
    assert(components(path).take(n as int) =~= parts);
    if part.len() > 0 {
        let cut = part.drop_last();
        assert(!cut.contains('/')) by {
            if cut.contains('/') {
                let i = choose|i: int| 0 <= i < cut.len() && cut[i] == '/';
                assert(part[i] == '/');
                assert(part.contains('/'));
            }
        }
        lemma_pushed_components(base, cut);
        assert(path.drop_last() =~= pushed(base, cut));
        assert(components(pushed(base, cut)).take(n as int) =~= parts);
        lemma_front_drops(front, cut);
    } else if front.len() > 0 {
        assert(path =~= base + seq!['/']);
        assert(path.drop_last() =~= base);
    } else {
        assert(path =~= base);
    }
}

/// The parent of a path is the path without its last name, and the root has none.
pub proof fn parents_lack_the_last_name(names: Seq<Seq<char>>)
    requires
        are_names(names),
    ensures
        names.len() > 0 ==> parent_of(spelled(names)) == Some(spelled(names.drop_last())),
        names.len() == 0 ==> parent_of(spelled(names)) is None,
{
    lemma_spelled(names);
    let parts = components(spelled(names));
    if names.len() > 0 {
        let front = names.drop_last();
        let last = names.last();
        lemma_front_names(names);
        lemma_spelled(front);
        lemma_pushed_components(spelled(front), last);
        if names.len() == 1 {
            assert(front =~= Seq::empty());
            assert(names[0] == last);
            assert(spelled(names) =~= spelled(front) + last);
        }
        assert(spelled(names) == pushed(spelled(front), last));
        lemma_front_drops(front, last);
        assert(parts.last() == last);
        if last == seq!['/'] {
            assert(last[0] == '/');
            assert(last.contains('/'));
        }
    } else {
        assert(parts.last() == seq!['/']);
    }
}

/// Whether numbers come before others as in a dictionary: they are the front of the
/// others, or where they first differ theirs is the smaller one.
pub open spec fn comes_before(a: Seq<int>, b: Seq<int>) -> bool {
    exists|k: int|
        {
            &&& 0 <= k <= a.len()
            &&& k < b.len()
            &&& #[trigger] a.take(k) == b.take(k)
            &&& k == a.len() || a[k] < b[k]
        }
}

proof fn lemma_numbers(a: Seq<int>, b: Seq<int>)
    ensures
        numbers_less(a, b) <==> comes_before(a, b),
    decreases a.len(),
{
    if b.len() == 0 {
    } else if a.len() == 0 {
        assert(a.take(0) =~= b.take(0));
    } else {
        let x = a.skip(1);
        let y = b.skip(1);
        lemma_numbers(x, y);
        if a[0] == b[0] {
            if comes_before(x, y) {
                let k = choose|k: int|
                    {
                        &&& 0 <= k <= x.len()
                        &&& k < y.len()
                        &&& #[trigger] x.take(k) == y.take(k)
                        &&& k == x.len() || x[k] < y[k]
                    };
                assert(a.take(k + 1) =~= seq![a[0]] + x.take(k));
                assert(b.take(k + 1) =~= seq![b[0]] + y.take(k));
                assert(a.take(k + 1) == b.take(k + 1));
            }
            if comes_before(a, b) {
                let k = choose|k: int|
                    {
                        &&& 0 <= k <= a.len()
                        &&& k < b.len()
                        &&& #[trigger] a.take(k) == b.take(k)
                        &&& k == a.len() || a[k] < b[k]
                    };
                assert(k > 0);
                assert(x.take(k - 1) =~= a.take(k).skip(1));
                assert(y.take(k - 1) =~= b.take(k).skip(1));
                assert(x.take(k - 1) == y.take(k - 1));
            }
        } else {
            if a[0] < b[0] {
                assert(a.take(0) =~= b.take(0));
            }
            if comes_before(a, b) {
                let k = choose|k: int|
                    {
                        &&& 0 <= k <= a.len()
                        &&& k < b.len()
                        &&& #[trigger] a.take(k) == b.take(k)
                        &&& k == a.len() || a[k] < b[k]
                    };
                if k > 0 {
                    assert(a.take(k)[0] == b.take(k)[0]);
                }
            }
        }
    }
}

proof fn lemma_numbers_not_before_themselves(a: Seq<int>)
    ensures
        !numbers_less(a, a),
{
    lemma_numbers(a, a);
}

/// Whether one text comes before another as in a dictionary: it is the front of the
/// other, or where they first differ its character is the smaller one.
pub open spec fn text_before(a: Seq<char>, b: Seq<char>) -> bool {
    exists|k: int|
        {
            &&& 0 <= k <= a.len()
            &&& k < b.len()
            &&& #[trigger] a.take(k) == b.take(k)
            &&& k == a.len() || a[k] < b[k]
        }
}

proof fn lemma_text_before(a: Seq<char>, b: Seq<char>)
    ensures
        numbers_less(code_points(a), code_points(b)) <==> text_before(a, b),
{
    let x = code_points(a);
    let y = code_points(b);
    lemma_numbers(x, y);
    if comes_before(x, y) {
        let k = choose|k: int|
            {
                &&& 0 <= k <= x.len()
                &&& k < y.len()
                &&& #[trigger] x.take(k) == y.take(k)
                &&& k == x.len() || x[k] < y[k]
            };
        assert forall|i: int| 0 <= i < k implies a[i] == b[i] by {
            assert(x.take(k)[i] == y.take(k)[i]);
        }
        assert(a.take(k) =~= b.take(k));
    }
    if text_before(a, b) {
        let k = choose|k: int|
            {
                &&& 0 <= k <= a.len()
                &&& k < b.len()
                &&& #[trigger] a.take(k) == b.take(k)
                &&& k == a.len() || a[k] < b[k]
            };
        assert forall|i: int| 0 <= i < k implies x[i] == y[i] by {
            assert(a.take(k)[i] == b.take(k)[i]);
        }
        assert(x.take(k) =~= y.take(k));
    }
}

/// Texts come in the order of a dictionary.
pub proof fn texts_come_as_in_a_dictionary(a: Seq<char>, b: Seq<char>)
    ensures
        item_less(Order::Text, a, b) <==> text_before(a, b),
{
    lemma_text_before(a, b);
    reveal_with_fuel(rows_less, 2);
    let x = item_key(Order::Text, a);
    let y = item_key(Order::Text, b);
    if x[0] == y[0] {
        lemma_numbers_not_before_themselves(x[0]);
        assert(x.skip(1).len() == 0 && y.skip(1).len() == 0);
    }
}

spec fn rows_before(a: Seq<Seq<int>>, b: Seq<Seq<int>>) -> bool {
    exists|k: int|
        {
            &&& 0 <= k <= a.len()
            &&& k < b.len()
            &&& #[trigger] a.take(k) == b.take(k)
            &&& k == a.len() || numbers_less(a[k], b[k])
        }
}

proof fn lemma_rows(a: Seq<Seq<int>>, b: Seq<Seq<int>>)
    ensures
        rows_less(a, b) <==> rows_before(a, b),
    decreases a.len(),
{
    if b.len() == 0 {
    } else if a.len() == 0 {
        assert(a.take(0) =~= b.take(0));
    } else {
        let x = a.skip(1);
        let y = b.skip(1);
        lemma_rows(x, y);
        if a[0] == b[0] {
            lemma_numbers_not_before_themselves(a[0]);
            if rows_before(x, y) {
                let k = choose|k: int|
                    {
                        &&& 0 <= k <= x.len()
                        &&& k < y.len()
                        &&& #[trigger] x.take(k) == y.take(k)
                        &&& k == x.len() || numbers_less(x[k], y[k])
                    };
                assert(a.take(k + 1) =~= seq![a[0]] + x.take(k));
                assert(b.take(k + 1) =~= seq![b[0]] + y.take(k));
                assert(a.take(k + 1) == b.take(k + 1));
            }
            if rows_before(a, b) {
                let k = choose|k: int|
                    {
                        &&& 0 <= k <= a.len()
                        &&& k < b.len()
                        &&& #[trigger] a.take(k) == b.take(k)
                        &&& k == a.len() || numbers_less(a[k], b[k])
                    };
                assert(k > 0);
                assert(x.take(k - 1) =~= a.take(k).skip(1));
                assert(y.take(k - 1) =~= b.take(k).skip(1));
                assert(x.take(k - 1) == y.take(k - 1));
            }
        } else {
            if numbers_less(a[0], b[0]) {
                assert(a.take(0) =~= b.take(0));
            }
            if rows_before(a, b) {
                let k = choose|k: int|
                    {
                        &&& 0 <= k <= a.len()
                        &&& k < b.len()
                        &&& #[trigger] a.take(k) == b.take(k)
                        &&& k == a.len() || numbers_less(a[k], b[k])
                    };
                if k > 0 {
                    assert(a.take(k)[0] == b.take(k)[0]);
                }
            }
        }
    }
}

proof fn lemma_part_key(a: Seq<char>, b: Seq<char>)
    requires
        is_path_name(a) && a != seq!['.', '.'],
        is_path_name(b) && b != seq!['.', '.'],
    ensures
        numbers_less(part_key(a), part_key(b)) <==> text_before(a, b),
        part_key(a) == part_key(b) ==> a == b,
{
    lemma_text_before(a, b);
    assert(part_rank(a) == 3 && part_rank(b) == 3) by {
        if a == seq!['/'] {
            assert(a[0] == '/');
            assert(a.contains('/'));
        }
        if b == seq!['/'] {
            assert(b[0] == '/');
            assert(b.contains('/'));
        }
    }
    let x = part_key(a);
    let y = part_key(b);
    assert(x.skip(1) =~= code_points(a));
    assert(y.skip(1) =~= code_points(b));
    if x == y {
        assert forall|i: int| 0 <= i < a.len() implies a[i] == b[i] by {
            assert(code_points(a)[i] == code_points(b)[i]);
        }
        assert(a.len() == code_points(a).len() && b.len() == code_points(b).len());
        assert(a =~= b);
    }
}

/// Paths come name by name, and each name as in a dictionary: a path comes before
/// another where it leads to it, or where the first name in which they differ comes
/// before the other's.
pub proof fn paths_come_name_by_name(names: Seq<Seq<char>>, others: Seq<Seq<char>>)
    requires
        are_names(names) && !names.contains(seq!['.', '.']),
        are_names(others) && !others.contains(seq!['.', '.']),
    ensures
        item_less(Order::Path, spelled(names), spelled(others)) <==> exists|k: int|
            {
                &&& 0 <= k <= names.len()
                &&& k < others.len()
                &&& #[trigger] names.take(k) == others.take(k)
                &&& k == names.len() || text_before(names[k], others[k])
            },
{
    lemma_spelled(names);
    lemma_spelled(others);
    let a = item_key(Order::Path, spelled(names));
    let b = item_key(Order::Path, spelled(others));
    lemma_rows(a, b);
    assert(a.len() == names.len() + 1 && b.len() == others.len() + 1);
    assert(a[0] == part_key(seq!['/']) && b[0] == part_key(seq!['/']));
    assert forall|i: int| 0 <= i < names.len() implies a[i + 1] == part_key(#[trigger] names[i]) by {}
    assert forall|i: int| 0 <= i < others.len() implies b[i + 1] == part_key(
        #[trigger] others[i],
    ) by {}
    if rows_before(a, b) {
        let k = choose|k: int|
            {
                &&& 0 <= k <= a.len()
                &&& k < b.len()
                &&& #[trigger] a.take(k) == b.take(k)
                &&& k == a.len() || numbers_less(a[k], b[k])
            };
        if k == 0 {
            lemma_numbers_not_before_themselves(a[0]);
        }
        assert(k > 0);
        assert forall|i: int| 0 <= i < k - 1 implies names[i] == others[i] by {
            assert(a.take(k)[i + 1] == b.take(k)[i + 1]);
            assert(names.contains(names[i]) && others.contains(others[i]));
            assert(is_path_name(names[i]) && is_path_name(others[i]));
            assert(part_key(names[i]) == part_key(others[i]));
            lemma_part_key(names[i], others[i]);
        }
        assert(names.take(k - 1) =~= others.take(k - 1));
        if k < a.len() {
            assert(names.contains(names[k - 1]) && others.contains(others[k - 1]));
            assert(is_path_name(names[k - 1]) && is_path_name(others[k - 1]));
            assert(a[k - 1 + 1] == part_key(names[k - 1]));
            assert(b[k - 1 + 1] == part_key(others[k - 1]));
            lemma_part_key(names[k - 1], others[k - 1]);
        }
    }
    if exists|k: int|
        {
            &&& 0 <= k <= names.len()
            &&& k < others.len()
            &&& #[trigger] names.take(k) == others.take(k)
            &&& k == names.len() || text_before(names[k], others[k])
        } {
        let k = choose|k: int|
            {
                &&& 0 <= k <= names.len()
                &&& k < others.len()
                &&& #[trigger] names.take(k) == others.take(k)
                &&& k == names.len() || text_before(names[k], others[k])
            };
        assert forall|i: int| 0 <= i < k + 1 implies a[i] == b[i] by {
            if i > 0 {
                assert(names.take(k)[i - 1] == others.take(k)[i - 1]);
                assert(a[i - 1 + 1] == part_key(names[i - 1]));
                assert(b[i - 1 + 1] == part_key(others[i - 1]));
            }
        }
        assert(a.take(k + 1) =~= b.take(k + 1));
        if k < names.len() {
            assert(names.contains(names[k]) && others.contains(others[k]));
            assert(is_path_name(names[k]) && is_path_name(others[k]));
            lemma_part_key(names[k], others[k]);
        }
    }
}

} // verus!
