//! Unix paths as text, read the way `std::path::Path` reads them: by their
//! components, with repeated separators and interior `.` parts ignored.

use vstd::prelude::*;
use vstd::string::*;

use crate::text::{chars_of, joined, joined3, same_text, text_of, texts};

verus! {

/// The parts of `path` between separators, empty ones included.
pub open spec fn segments(path: Seq<char>) -> Seq<Seq<char>>
    decreases path.len(),
{
    if path.len() == 0 {
        seq![Seq::empty()]
    } else {
        let before = segments(path.drop_last());
        if path.last() == '/' {
            before.push(Seq::empty())
        } else {
            before.drop_last().push(before.last().push(path.last()))
        }
    }
}

/// Whether a segment is a component of its own: neither empty nor `.`.
pub open spec fn is_part(segment: Seq<char>) -> bool {
    segment.len() > 0 && segment != seq!['.']
}

/// The segments that are components.
pub open spec fn real_parts(parts: Seq<Seq<char>>) -> Seq<Seq<char>>
    decreases parts.len(),
{
    if parts.len() == 0 {
        Seq::empty()
    } else if is_part(parts.last()) {
        real_parts(parts.drop_last()).push(parts.last())
    } else {
        real_parts(parts.drop_last())
    }
}

/// Whether `path` starts at the root.
pub open spec fn is_absolute(path: Seq<char>) -> bool {
    path.len() > 0 && path[0] == '/'
}

/// The component before the first separator: the root, a leading `.`, or none.
pub open spec fn leading_part(path: Seq<char>) -> Seq<Seq<char>> {
    if is_absolute(path) {
        seq![seq!['/']]
    } else if segments(path)[0] == seq!['.'] {
        seq![seq!['.']]
    } else {
        Seq::empty()
    }
}

/// The components of `path`: the root as `/`, then the parts in order.
pub open spec fn components(path: Seq<char>) -> Seq<Seq<char>> {
    leading_part(path) + real_parts(segments(path))
}

/// Whether two texts name the same path.
pub open spec fn same_path(a: Seq<char>, b: Seq<char>) -> bool {
    components(a) == components(b)
}

/// Whether `path` is `root` or lies below it.
pub open spec fn lies_under(path: Seq<char>, root: Seq<char>) -> bool {
    components(root).len() <= components(path).len() && components(path).take(
        components(root).len() as int,
    ) == components(root)
}

/// Whether a component names an entry of its directory.
pub open spec fn is_name(part: Seq<char>) -> bool {
    part != seq!['/'] && part != seq!['.'] && part != seq!['.', '.']
}

/// The last component of `path`, where it is a name.
pub open spec fn file_name_of(path: Seq<char>) -> Option<Seq<char>> {
    let parts = components(path);
    if parts.len() > 0 && is_name(parts.last()) {
        Some(parts.last())
    } else {
        None
    }
}

/// `base` with `name` pushed onto it.
pub open spec fn pushed(base: Seq<char>, name: Seq<char>) -> Seq<char> {
    if is_absolute(name) {
        name
    } else if base.len() == 0 || base.last() == '/' {
        base + name
    } else {
        base + seq!['/'] + name
    }
}

/// The path that is made of `parts`.
pub open spec fn rendered(parts: Seq<Seq<char>>) -> Seq<char>
    decreases parts.len(),
{
    if parts.len() == 0 {
        Seq::empty()
    } else {
        pushed(rendered(parts.drop_last()), parts.last())
    }
}

/// The shortest front of `path` with the same first `n` components.
pub open spec fn front_of(path: Seq<char>, n: int) -> Seq<char>
    decreases path.len(),
{
    if path.len() > 0 && n <= components(path.drop_last()).len() && components(
        path.drop_last(),
    ).take(n) == components(path).take(n) {
        front_of(path.drop_last(), n)
    } else {
        path
    }
}

/// The text of `path` up to its last component; none for the root and the empty
/// path.
pub open spec fn parent_of(path: Seq<char>) -> Option<Seq<char>> {
    let parts = components(path);
    if parts.len() == 0 || parts.last() == seq!['/'] {
        None
    } else {
        Some(front_of(path, parts.len() - 1))
    }
}

/// The parts of `path` between separators, empty ones included.
pub fn split_segments(path: &str) -> (parts: Vec<String>)
    ensures
        texts(parts@) == segments(path@),
        parts@.len() > 0,
{
    let chars = chars_of(path);
    let mut parts: Vec<String> = Vec::new();
    let mut current = String::new();
    let mut i: usize = 0;
    assert(chars@.take(0) =~= Seq::empty());
    assert(texts(parts@).push(current@) =~= segments(chars@.take(0)));
    while i < chars.len()
        invariant
            i <= chars@.len(),
            texts(parts@).push(current@) == segments(chars@.take(i as int)),
        decreases chars@.len() - i,
    {
        let c = chars[i];
        let ghost before = texts(parts@).push(current@);
        i = i + 1;
        assert(chars@.take(i as int).drop_last() =~= chars@.take(i - 1));
        assert(chars@.take(i as int).last() == c);
        if c == '/' {
            parts.push(current);
            current = String::new();
            assert(texts(parts@) =~= before);
            assert(texts(parts@).push(current@) =~= before.push(Seq::empty()));
        } else {
            assert(before.drop_last() =~= texts(parts@));
            current.push(c);
        }
    }
    assert(chars@.take(i as int) =~= path@);
    let ghost before = texts(parts@).push(current@);
    parts.push(current);
    assert(texts(parts@) =~= before);
    parts
}

/// Whether `path` starts at the root.
pub fn path_is_absolute(path: &str) -> (absolute: bool)
    ensures
        absolute == is_absolute(path@),
{
    let chars = chars_of(path);
    chars.len() > 0 && chars[0] == '/'
}

fn is_dot(part: &str) -> (dot: bool)
    ensures
        dot == (part@ == seq!['.']),
{
    let chars = chars_of(part);
    if chars.len() == 1 && chars[0] == '.' {
        assert(part@ =~= seq!['.']);
        true
    } else {
        assert(part@ == seq!['.'] ==> part@.len() == 1 && part@[0] == '.');
        false
    }
}

/// The components of `path`.
pub fn path_components(path: &str) -> (parts: Vec<String>)
    ensures
        texts(parts@) == components(path@),
{
    let pieces = split_segments(path);
    let mut parts: Vec<String> = Vec::new();
    if path_is_absolute(path) {
        let mut root = String::new();
        root.push('/');
        assert(root@ =~= seq!['/']);
        parts.push(root);
    } else if is_dot(pieces[0].as_str()) {
        parts.push(pieces[0].clone());
    }
    let ghost lead = leading_part(path@);
    assert(texts(pieces@)[0] == pieces@[0]@);
    assert(texts(parts@) =~= lead);
    let mut i: usize = 0;
    assert(texts(pieces@).take(0) =~= Seq::empty());
    assert(lead =~= lead + real_parts(texts(pieces@).take(0)));
    while i < pieces.len()
        invariant
            i <= pieces@.len(),
            texts(parts@) == lead + real_parts(texts(pieces@).take(i as int)),
        decreases pieces@.len() - i,
    {
        let piece = pieces[i].clone();
        let ghost before = texts(parts@);
        i = i + 1;
        assert(texts(pieces@).take(i as int).drop_last() =~= texts(pieces@).take(i - 1));
        assert(texts(pieces@).take(i as int).last() == piece@);
        if !piece.as_str().is_empty() && !is_dot(piece.as_str()) {
            parts.push(piece);
            assert(texts(parts@) =~= before.push(piece@));
        }
        assert(texts(parts@) =~= lead + real_parts(texts(pieces@).take(i as int)));
    }
    assert(texts(pieces@).take(i as int) =~= texts(pieces@));
    parts
}

/// Whether the first `n` texts of two lists are equal.
fn same_front(a: &Vec<String>, b: &Vec<String>, n: usize) -> (same: bool)
    requires
        n <= a@.len(),
        n <= b@.len(),
    ensures
        same == (texts(a@).take(n as int) == texts(b@).take(n as int)),
{
    let mut i: usize = 0;
    while i < n
        invariant
            i <= n <= a@.len(),
            n <= b@.len(),
            forall|j: int| 0 <= j < i ==> a@[j]@ == b@[j]@,
        decreases n - i,
    {
        if !same_text(a[i].as_str(), b[i].as_str()) {
            assert(texts(a@).take(n as int)[i as int] != texts(b@).take(n as int)[i as int]);
            return false;
        }
        i = i + 1;
    }
    assert(texts(a@).take(n as int) =~= texts(b@).take(n as int));
    true
}

/// Whether two texts name the same path.
pub fn paths_equal(a: &str, b: &str) -> (same: bool)
    ensures
        same == same_path(a@, b@),
{
    let left = path_components(a);
    let right = path_components(b);
    if left.len() != right.len() {
        return false;
    }
    let same = same_front(&left, &right, left.len());
    assert(texts(left@).take(left@.len() as int) =~= texts(left@));
    assert(texts(right@).take(right@.len() as int) =~= texts(right@));
    same
}

/// Whether `path` is `root` or lies below it.
pub fn path_starts_with(path: &str, root: &str) -> (under: bool)
    ensures
        under == lies_under(path@, root@),
{
    let left = path_components(path);
    let right = path_components(root);
    if right.len() > left.len() {
        return false;
    }
    let under = same_front(&left, &right, right.len());
    assert(texts(right@).take(right@.len() as int) =~= texts(right@));
    under
}

/// The number of components of `path`.
pub fn path_depth(path: &str) -> (depth: usize)
    ensures
        depth == components(path@).len(),
{
    let parts = path_components(path);
    assert(texts(parts@).len() == parts@.len());
    parts.len()
}

fn is_dots(part: &str) -> (dots: bool)
    ensures
        dots == (part@ == seq!['.', '.']),
{
    let chars = chars_of(part);
    if chars.len() == 2 && chars[0] == '.' && chars[1] == '.' {
        assert(part@ =~= seq!['.', '.']);
        true
    } else {
        assert(part@ == seq!['.', '.'] ==> part@.len() == 2 && part@[0] == '.' && part@[1] == '.');
        false
    }
}

fn is_root(part: &str) -> (root: bool)
    ensures
        root == (part@ == seq!['/']),
{
    let chars = chars_of(part);
    if chars.len() == 1 && chars[0] == '/' {
        assert(part@ =~= seq!['/']);
        true
    } else {
        assert(part@ == seq!['/'] ==> part@.len() == 1 && part@[0] == '/');
        false
    }
}

/// The last component of `path`, where it is a name.
pub fn path_file_name(path: &str) -> (name: Option<String>)
    ensures
        match name {
            Some(name) => file_name_of(path@) == Some(name@),
            None => file_name_of(path@) is None,
        },
{
    let parts = path_components(path);
    assert(texts(parts@).len() == parts@.len());
    if parts.len() == 0 {
        return None;
    }
    let last = parts[parts.len() - 1].clone();
    assert(texts(parts@).last() == last@);
    if is_root(last.as_str()) || is_dot(last.as_str()) || is_dots(last.as_str()) {
        None
    } else {
        Some(last)
    }
}

/// `base` with `name` pushed onto it.
pub fn path_join(base: &str, name: &str) -> (path: String)
    ensures
        path@ == pushed(base@, name@),
{
    if path_is_absolute(name) {
        return name.to_owned();
    }
    let chars = chars_of(base);
    if chars.len() == 0 || chars[chars.len() - 1] == '/' {
        joined(base, name)
    } else {
        proof {
            reveal_strlit("/");
            assert("/"@ =~= seq!['/']);
        }
        joined3(base, "/", name)
    }
}

/// The path that is made of the first `n` of `parts`.
pub fn path_of_parts(parts: &Vec<String>, n: usize) -> (path: String)
    requires
        n <= parts@.len(),
    ensures
        path@ == rendered(texts(parts@).take(n as int)),
{
    let mut path = String::new();
    let mut i: usize = 0;
    assert(texts(parts@).take(0) =~= Seq::empty());
    while i < n
        invariant
            i <= n <= parts@.len(),
            path@ == rendered(texts(parts@).take(i as int)),
        decreases n - i,
    {
        path = path_join(path.as_str(), parts[i].as_str());
        i = i + 1;
        assert(texts(parts@).take(i as int).drop_last() =~= texts(parts@).take(i - 1));
    }
    path
}

/// The shortest front of `path` with the same first `n` components.
pub fn path_front(path: &str, n: usize) -> (front: String)
    requires
        n <= components(path@).len(),
    ensures
        front@ == front_of(path@, n as int),
{
    let parts = path_components(path);
    assert(texts(parts@).len() == parts@.len());
    let chars = chars_of(path);
    let mut end: usize = chars.len();
    assert(chars@.take(end as int) =~= path@);
    while end > 0
        invariant_except_break
            end <= chars@.len(),
            n <= parts@.len(),
            texts(parts@).len() == parts@.len(),
            n <= components(chars@.take(end as int)).len(),
            components(chars@.take(end as int)).take(n as int) == texts(parts@).take(n as int),
            front_of(path@, n as int) == front_of(chars@.take(end as int), n as int),
        ensures
            end <= chars@.len(),
            front_of(path@, n as int) == chars@.take(end as int),
        decreases end,
    {
        assert(chars@.take(end as int).drop_last() =~= chars@.take(end - 1));
        let shorter = text_of(&chars, 0, end - 1);
        assert(shorter@ =~= chars@.take(end - 1));
        let left = path_components(shorter.as_str());
        assert(texts(left@).len() == left@.len());
        if left.len() < n || !same_front(&left, &parts, n) {
            break ;
        }
        end = end - 1;
    }
    assert(chars@.subrange(0, end as int) =~= chars@.take(end as int));
    text_of(&chars, 0, end)
}

/// The text of `path` up to its last component; none for the root and the empty
/// path.
pub fn path_parent(path: &str) -> (parent: Option<String>)
    ensures
        match parent {
            Some(parent) => parent_of(path@) == Some(parent@),
            None => parent_of(path@) is None,
        },
{
    let parts = path_components(path);
    assert(texts(parts@).len() == parts@.len());
    if parts.len() == 0 {
        return None;
    }
    let last = parts.len() - 1;
    assert(texts(parts@).last() == parts@[last as int]@);
    if is_root(parts[last].as_str()) {
        return None;
    }
    Some(path_front(path, last))
}

/// Whether `path` holds a `..` component, or a `.` where a path may not.
pub open spec fn has_dots(path: Seq<char>) -> bool {
    components(path).contains(seq!['.']) || components(path).contains(seq!['.', '.'])
}

/// Whether `path` holds a `..` component, or a `.` where a path may not.
pub fn path_has_dots(path: &str) -> (dots: bool)
    ensures
        dots == has_dots(path@),
{
    let parts = path_components(path);
    let mut i: usize = 0;
    while i < parts.len()
        invariant
            i <= parts@.len(),
            texts(parts@) == components(path@),
            forall|j: int|
                0 <= j < i ==> (#[trigger] parts@[j])@ != seq!['.'] && parts@[j]@ != seq!['.', '.'],
        decreases parts@.len() - i,
    {
        if is_dot(parts[i].as_str()) || is_dots(parts[i].as_str()) {
            assert(components(path@)[i as int] == parts@[i as int]@);
            return true;
        }
        i = i + 1;
    }
    assert forall|j: int| 0 <= j < components(path@).len() implies components(path@)[j]
        != seq!['.'] && components(path@)[j] != seq!['.', '.'] by {
        assert(components(path@)[j] == parts@[j]@);
    }
    false
}

/// Whether a text is the name of an entry in a directory.
pub open spec fn is_entry_name(name: Seq<char>) -> bool {
    is_part(name) && !name.contains('/')
}

proof fn lemma_segments_exist(path: Seq<char>)
    ensures
        segments(path).len() > 0,
        path.len() > 0 && path.last() == '/' ==> segments(path).last().len() == 0,
    decreases path.len(),
{
    if path.len() > 0 {
        lemma_segments_exist(path.drop_last());
    }
}

proof fn lemma_segments_behind(path: Seq<char>, name: Seq<char>)
    requires
        !name.contains('/'),
    ensures
        segments(path + name) == segments(path).drop_last().push(segments(path).last() + name),
    decreases name.len(),
{
    lemma_segments_exist(path);
    if name.len() == 0 {
        assert(path + name =~= path);
        assert(segments(path).last() + name =~= segments(path).last());
        assert(segments(path).drop_last().push(segments(path).last()) =~= segments(path));
    } else {
        let front = name.drop_last();
        assert(name.contains(name[name.len() - 1]));
        assert forall|c: char| front.contains(c) implies name.contains(c) by {
            let i = choose|i: int| 0 <= i < front.len() && front[i] == c;
            assert(name[i] == c);
        }
        lemma_segments_behind(path, front);
        assert((path + name).drop_last() =~= path + front);
        let before = segments(path + front);
        assert(before.last() == segments(path).last() + front);
        assert(before.last().push(name.last()) =~= segments(path).last() + name);
        assert(before.drop_last() =~= segments(path).drop_last());
    }
}

proof fn lemma_real_parts_push(parts: Seq<Seq<char>>, part: Seq<char>)
    ensures
        real_parts(parts.push(part)) == if is_part(part) {
            real_parts(parts).push(part)
        } else {
            real_parts(parts)
        },
{
    assert(parts.push(part).drop_last() =~= parts);
}

/// What is pushed onto an absolute path without a separator becomes one more
/// component of it, unless it is empty or `.`.
pub proof fn lemma_pushed_components(base: Seq<char>, name: Seq<char>)
    requires
        is_absolute(base),
        !name.contains('/'),
    ensures
        pushed(base, name) == if base.last() == '/' {
            base + name
        } else {
            base + seq!['/'] + name
        },
        is_absolute(pushed(base, name)),
        components(pushed(base, name)) == if is_part(name) {
            components(base).push(name)
        } else {
            components(base)
        },
{
    if name.len() > 0 {
        assert(name.contains(name[0]));
    }
    assert(!is_absolute(name));
    let path = pushed(base, name);
    assert(path[0] == base[0]);
    lemma_segments_exist(base);
    let all = segments(base);
    if base.last() == '/' {
        lemma_segments_behind(base, name);
        assert(all.last() + name =~= name);
        assert(all =~= all.drop_last().push(all.last()));
        lemma_real_parts_push(all.drop_last(), all.last());
        lemma_real_parts_push(all.drop_last(), name);
        assert(path == base + name);
    } else {
        let slashed = base + seq!['/'];
        lemma_segments_behind(slashed, name);
        assert(slashed.drop_last() =~= base);
        assert(segments(slashed) == all.push(Seq::empty()));
        assert(segments(slashed).drop_last() =~= all);
        assert(Seq::<char>::empty() + name =~= name);
        lemma_real_parts_push(all, name);
        assert(path == slashed + name);
    }
    if is_part(name) {
        assert(components(path) =~= components(base).push(name));
    }
}

/// A name pushed onto an absolute path becomes one more component of it.
pub proof fn a_pushed_name_is_a_component(base: Seq<char>, name: Seq<char>)
    requires
        is_absolute(base),
        is_entry_name(name),
    ensures
        is_absolute(pushed(base, name)),
        components(pushed(base, name)) == components(base).push(name),
{
    lemma_pushed_components(base, name);
}

/// What a name is pushed onto is a path that the result lies under.
pub proof fn a_pushed_name_lies_below(base: Seq<char>, name: Seq<char>)
    requires
        is_absolute(base),
        is_entry_name(name),
    ensures
        lies_under(pushed(base, name), base),
{
    a_pushed_name_is_a_component(base, name);
    assert(components(base).push(name).take(components(base).len() as int) =~= components(base));
}

/// A path lies under itself, and under whatever a path that it lies under does.
pub proof fn lying_under_is_an_order(a: Seq<char>, b: Seq<char>, c: Seq<char>)
    ensures
        lies_under(a, a),
        lies_under(a, b) && lies_under(b, c) ==> lies_under(a, c),
        lies_under(a, b) && lies_under(b, a) ==> same_path(a, b),
{
    assert(components(a).take(components(a).len() as int) =~= components(a));
    if lies_under(a, b) && lies_under(b, c) {
        let n = components(c).len() as int;
        assert(components(a).take(n) =~= components(a).take(components(b).len() as int).take(n));
    }
}

} // verus!
