//! What holds of resolved paths.

use vstd::prelude::*;

use crate::facts::{HaltModel, Host};
use crate::guarantees::is_reached;
use crate::paths::{
    a_pushed_name_is_a_component, components, front_of, has_dots, is_absolute, is_entry_name,
    is_part, lemma_pushed_components, pushed, real_parts, segments,
};
use crate::protocol::MissingPathBehavior;
use crate::seatbelt::{ancestor, clean, existing_path, extended, nearest_existing, resolved_path};

verus! {

/// Whether nothing stands in a path behind its last component.
pub open spec fn is_tight(path: Seq<char>) -> bool {
    front_of(path, components(path).len() as int) == path
}

/// Whether a path that the host resolves comes out in a form that is its own: clean,
/// with nothing behind its last component, and, where the host was asked about that
/// form, resolved to itself.
pub open spec fn resolves_for_good(host: Host, path: Seq<char>) -> bool {
    host.paths.contains_key(path) && host.paths[path].canonical is Ok ==> {
        let target = host.paths[path].canonical->Ok_0;
        &&& clean(target) is Ok
        &&& is_tight(target)
        &&& host.paths.contains_key(target) ==> host.paths[target].is_present()
            && host.paths[target].canonical == Ok::<Seq<char>, Seq<char>>(target)
    }
}

/// Whether the names behind an ancestor of a path lead to the same from what the host
/// resolves that ancestor to: where both were asked about, both are there or neither.
pub open spec fn leads_alike(host: Host, path: Seq<char>, n: int, k: int) -> bool {
    let from = ancestor(path, n);
    host.paths.contains_key(from) && host.paths[from].canonical is Ok ==> {
        let other = extended(host.paths[from].canonical->Ok_0, components(path).subrange(n, k));
        host.paths.contains_key(ancestor(path, k)) && host.paths.contains_key(other)
            ==> host.paths[ancestor(path, k)].is_present() == host.paths[other].is_present()
    }
}

/// Whether the host tells of a filesystem that did not change while it was asked.
pub open spec fn is_steady(host: Host) -> bool {
    &&& forall|path: Seq<char>| #[trigger] resolves_for_good(host, path)
    &&& forall|path: Seq<char>, n: int, k: int|
        clean(path) is Ok && 1 <= n <= k <= components(path).len() ==> #[trigger] leads_alike(
            host,
            path,
            n,
            k,
        )
}

proof fn lemma_nearest(host: Host, path: Seq<char>, from: int)
    requires
        nearest_existing(host, path, from) is Ok,
        from >= 1,
    ensures
        ({
            let n = nearest_existing(host, path, from)->Ok_0;
            &&& 1 <= n <= from
            &&& host.paths.contains_key(ancestor(path, n))
            &&& host.paths[ancestor(path, n)].is_present()
            &&& forall|k: int|
                n < k <= from ==> host.paths.contains_key(#[trigger] ancestor(path, k))
                    && !host.paths[ancestor(path, k)].is_present()
        }),
    decreases from,
{
    if !host.paths[ancestor(path, from)].is_present() {
        lemma_nearest(host, path, from - 1);
    }
}

/// A path is resolved from its longest ancestor that exists, itself where it exists:
/// the host's resolved form of that ancestor, with the names that are missing behind
/// it.
pub proof fn paths_are_resolved_from_what_exists(
    host: Host,
    path: Seq<char>,
    missing: MissingPathBehavior,
) -> (n: int)
    requires
        resolved_path(host, path, missing) is Ok,
    ensures
        1 <= n <= components(path).len(),
        host.paths.contains_key(ancestor(path, n)),
        host.paths[ancestor(path, n)].is_present(),
        host.paths[ancestor(path, n)].canonical is Ok,
        forall|k: int|
            n < k <= components(path).len() ==> host.paths.contains_key(#[trigger] ancestor(path, k))
                && !host.paths[ancestor(path, k)].is_present(),
        missing == MissingPathBehavior::Reject ==> n == components(path).len(),
        resolved_path(host, path, missing)->Ok_0 == extended(
            host.paths[ancestor(path, n)].canonical->Ok_0,
            components(path).skip(n),
        ),
{
    let len = components(path).len() as int;
    assert(components(path)[0] == seq!['/']);
    if host.paths[path].is_present() {
        assert(components(path).skip(len) =~= Seq::empty());
        len
    } else {
        lemma_nearest(host, path, len);
        nearest_existing(host, path, len)->Ok_0
    }
}

proof fn lemma_segment_chars(path: Seq<char>)
    ensures
        segments(path).len() > 0,
        forall|i: int, c: char|
            0 <= i < segments(path).len() && (#[trigger] segments(path)[i].contains(c)) ==> c
                != '/' && path.contains(c),
    decreases path.len(),
{
    if path.len() > 0 {
        let front = path.drop_last();
        lemma_segment_chars(front);
        assert(path.contains(path[path.len() - 1]));
        assert forall|i: int, c: char|
            0 <= i < segments(path).len() && (#[trigger] segments(path)[i].contains(c)) implies c
            != '/' && path.contains(c) by {
            let before = segments(front);
            if i < before.len() && before[i].contains(c) {
                let j = choose|j: int| 0 <= j < front.len() && front[j] == c;
                assert(path[j] == c);
            } else {
                let j = choose|j: int| 0 <= j < segments(path)[i].len() && segments(path)[i][j] == c;
                assert(path.last() != '/');
                assert(i == before.len() - 1);
                if j < before[i].len() {
                    assert(before[i][j] == c);
                }
            }
        }
    }
}

proof fn lemma_real_parts_are_parts(parts: Seq<Seq<char>>)
    ensures
        forall|i: int|
            0 <= i < real_parts(parts).len() ==> is_part(#[trigger] real_parts(parts)[i])
                && parts.contains(real_parts(parts)[i]),
    decreases parts.len(),
{
    if parts.len() > 0 {
        let front = parts.drop_last();
        lemma_real_parts_are_parts(front);
        assert forall|i: int| 0 <= i < real_parts(parts).len() implies is_part(
            #[trigger] real_parts(parts)[i],
        ) && parts.contains(real_parts(parts)[i]) by {
            if i < real_parts(front).len() {
                assert(real_parts(parts)[i] == real_parts(front)[i]);
                let j = choose|j: int| 0 <= j < front.len() && front[j] == real_parts(front)[i];
                assert(parts[j] == real_parts(parts)[i]);
            } else {
                assert(parts[parts.len() - 1] == real_parts(parts)[i]);
            }
        }
    }
}

/// The components of an absolute path behind its root are names of entries, made of
/// the characters of the path.
proof fn lemma_components_are_names(path: Seq<char>)
    requires
        is_absolute(path),
    ensures
        components(path).len() >= 1,
        components(path)[0] == seq!['/'],
        forall|i: int|
            1 <= i < components(path).len() ==> is_entry_name(#[trigger] components(path)[i]),
        forall|i: int, c: char|
            1 <= i < components(path).len() && (#[trigger] components(path)[i].contains(c))
                ==> path.contains(c),
{
    let parts = real_parts(segments(path));
    lemma_segment_chars(path);
    lemma_real_parts_are_parts(segments(path));
    assert forall|i: int| 1 <= i < components(path).len() implies is_entry_name(
        #[trigger] components(path)[i],
    ) && (forall|c: char| #[trigger]
        components(path)[i].contains(c) ==> path.contains(c)) by {
        assert(components(path)[i] == parts[i - 1]);
        let j = choose|j: int|
            0 <= j < segments(path).len() && segments(path)[j] == parts[i - 1];
        assert(segments(path)[j] == components(path)[i]);
        assert forall|c: char| #[trigger] components(path)[i].contains(c) implies c != '/'
            && path.contains(c) by {
            assert(segments(path)[j].contains(c));
        }
    }
}

proof fn lemma_front_step(path: Seq<char>, n: int)
    requires
        path.len() > 0,
        n <= components(path.drop_last()).len(),
        components(path.drop_last()).take(n) == components(path).take(n),
    ensures
        front_of(path, n) == front_of(path.drop_last(), n),
{
}

/// What is pushed onto a path is no part of its fronts.
proof fn lemma_front_of_pushed(base: Seq<char>, name: Seq<char>, n: int)
    requires
        is_absolute(base),
        !name.contains('/'),
        0 <= n <= components(base).len(),
    ensures
        front_of(pushed(base, name), n) == front_of(base, n),
    decreases name.len(),
{
    let path = pushed(base, name);
    lemma_pushed_components(base, name);
    assert(components(path).take(n) =~= components(base).take(n));
    if name.len() > 0 {
        let shorter = name.drop_last();
        assert(!shorter.contains('/')) by {
            if shorter.contains('/') {
                let i = choose|i: int| 0 <= i < shorter.len() && shorter[i] == '/';
                assert(name[i] == '/');
            }
        }
        lemma_front_of_pushed(base, shorter, n);
        lemma_pushed_components(base, shorter);
        assert(path.drop_last() =~= pushed(base, shorter));
        assert(components(pushed(base, shorter)).take(n) =~= components(base).take(n));
        lemma_front_step(path, n);
    } else if base.last() == '/' {
        assert(path =~= base);
    } else {
        assert(path.drop_last() =~= base);
        lemma_front_step(path, n);
    }
}

proof fn lemma_pushed_is_tight(base: Seq<char>, name: Seq<char>)
    requires
        is_absolute(base),
        is_entry_name(name),
    ensures
        is_tight(pushed(base, name)),
{
    let path = pushed(base, name);
    let shorter = name.drop_last();
    assert(!shorter.contains('/')) by {
        if shorter.contains('/') {
            let i = choose|i: int| 0 <= i < shorter.len() && shorter[i] == '/';
            assert(name[i] == '/');
        }
    }
    lemma_pushed_components(base, name);
    lemma_pushed_components(base, shorter);
    assert(path.drop_last() =~= pushed(base, shorter));
    let n = components(path).len() as int;
    let left = components(path.drop_last());
    if n <= left.len() {
        assert(left.take(n)[n - 1] == shorter);
        assert(components(path).take(n)[n - 1] == name);
        assert(shorter.len() < name.len());
    }
}

proof fn lemma_extended(base: Seq<char>, parts: Seq<Seq<char>>)
    requires
        is_absolute(base),
        forall|i: int| 0 <= i < parts.len() ==> is_entry_name(#[trigger] parts[i]),
    ensures
        is_absolute(extended(base, parts)),
        components(extended(base, parts)) == components(base) + parts,
    decreases parts.len(),
{
    if parts.len() > 0 {
        let front = parts.drop_last();
        assert forall|i: int| 0 <= i < front.len() implies is_entry_name(#[trigger] front[i]) by {
            assert(front[i] == parts[i]);
        }
        lemma_extended(base, front);
        a_pushed_name_is_a_component(extended(base, front), parts.last());
        assert(components(base) + parts =~= (components(base) + front).push(parts.last()));
    } else {
        assert(components(base) + parts =~= components(base));
    }
}

/// An ancestor of an extended path that lies behind the base is the base with fewer
/// names.
proof fn lemma_front_of_extended(base: Seq<char>, parts: Seq<Seq<char>>, j: int)
    requires
        is_absolute(base),
        is_tight(base),
        forall|i: int| 0 <= i < parts.len() ==> is_entry_name(#[trigger] parts[i]),
        0 <= j <= parts.len(),
    ensures
        front_of(extended(base, parts), components(base).len() + j) == extended(
            base,
            parts.take(j),
        ),
    decreases parts.len(),
{
    let n = components(base).len() + j;
    if j == parts.len() {
        assert(parts.take(j) =~= parts);
        lemma_extended(base, parts);
        if parts.len() > 0 {
            let front = parts.drop_last();
            assert forall|i: int| 0 <= i < front.len() implies is_entry_name(
                #[trigger] front[i],
            ) by {
                assert(front[i] == parts[i]);
            }
            lemma_extended(base, front);
            lemma_pushed_is_tight(extended(base, front), parts.last());
        }
    } else {
        let front = parts.drop_last();
        assert forall|i: int| 0 <= i < front.len() implies is_entry_name(#[trigger] front[i]) by {
            assert(front[i] == parts[i]);
        }
        lemma_extended(base, front);
        lemma_front_of_extended(base, front, j);
        lemma_front_of_pushed(extended(base, front), parts.last(), n);
        assert(front.take(j) =~= parts.take(j));
    }
}

proof fn lemma_extended_chars(base: Seq<char>, parts: Seq<Seq<char>>, c: char)
    requires
        c != '/',
        !base.contains(c),
        forall|i: int| 0 <= i < parts.len() ==> !(#[trigger] parts[i]).contains(c),
    ensures
        !extended(base, parts).contains(c),
    decreases parts.len(),
{
    if parts.len() > 0 {
        let front = parts.drop_last();
        assert forall|i: int| 0 <= i < front.len() implies !(#[trigger] front[i]).contains(c) by {
            assert(front[i] == parts[i]);
        }
        lemma_extended_chars(base, front, c);
        let before = extended(base, front);
        let last = parts[parts.len() - 1];
        assert(!last.contains(c));
        let path = extended(base, parts);
        if path.contains(c) {
            let i = choose|i: int| 0 <= i < path.len() && path[i] == c;
            let tail = path.len() - last.len();
            if is_absolute(last) {
                assert(last[i] == c);
            } else if i < before.len() {
                assert(before[i] == c);
            } else if i >= tail {
                assert(last[i - tail] == c);
            }
        }
    }
}

proof fn lemma_nearest_of_extended(host: Host, base: Seq<char>, parts: Seq<Seq<char>>, j: int)
    requires
        is_absolute(base),
        is_tight(base),
        components(base).len() >= 1,
        forall|i: int| 0 <= i < parts.len() ==> is_entry_name(#[trigger] parts[i]),
        0 <= j <= parts.len(),
        forall|k: int|
            0 < k <= parts.len() && host.paths.contains_key(
                extended(base, #[trigger] parts.take(k)),
            ) ==> !host.paths[extended(base, parts.take(k))].is_present(),
        host.paths.contains_key(base) ==> host.paths[base].is_present(),
        is_reached(
            nearest_existing(host, extended(base, parts), (components(base).len() + j) as int),
        ),
    ensures
        nearest_existing(host, extended(base, parts), (components(base).len() + j) as int) == Ok::<
            int,
            HaltModel,
        >(components(base).len() as int),
        host.paths.contains_key(base),
    decreases j,
{
    let path = extended(base, parts);
    let n = (components(base).len() + j) as int;
    lemma_extended(base, parts);
    lemma_front_of_extended(base, parts, j);
    assert(parts.take(parts.len() as int) =~= parts);
    assert(ancestor(path, n) == extended(base, parts.take(j)));
    if j > 0 {
        lemma_nearest_of_extended(host, base, parts, j - 1);
    } else {
        assert(parts.take(0) =~= Seq::empty());
    }
}

/// A resolved path is clean, and resolving it again gives it back, as long as the
/// filesystem stays as it is.
pub proof fn a_resolved_path_resolves_to_itself(
    host: Host,
    path: Seq<char>,
    missing: MissingPathBehavior,
)
    requires
        is_steady(host),
        resolved_path(host, path, missing) is Ok,
    ensures
        ({
            let resolved = resolved_path(host, path, missing)->Ok_0;
            &&& clean(resolved) is Ok
            &&& is_reached(resolved_path(host, resolved, missing)) ==> resolved_path(
                host,
                resolved,
                missing,
            ) == Ok::<Seq<char>, HaltModel>(resolved)
        }),
{
    let n = paths_are_resolved_from_what_exists(host, path, missing);
    let from = ancestor(path, n);
    let base = host.paths[from].canonical->Ok_0;
    let rest = components(path).skip(n);
    let len = components(path).len() as int;
    let resolved = resolved_path(host, path, missing)->Ok_0;
    assert(resolves_for_good(host, from));
    lemma_components_are_names(path);
    lemma_components_are_names(base);
    assert forall|i: int| 0 <= i < rest.len() implies is_entry_name(#[trigger] rest[i])
        && !rest[i].contains('\0') by {
        assert(rest[i] == components(path)[n + i]);
    }
    lemma_extended(base, rest);
    lemma_extended_chars(base, rest, '\0');
    assert(!has_dots(resolved)) by {
        let all = components(resolved);
        assert forall|dots: Seq<char>| #[trigger] all.contains(dots) implies components(
            base,
        ).contains(dots) || components(path).contains(dots) by {
            let i = choose|i: int| 0 <= i < all.len() && all[i] == dots;
            if i < components(base).len() {
                assert(components(base)[i] == dots);
            } else {
                assert(components(path)[n + i - components(base).len()] == dots);
            }
        }
    }
    assert(clean(resolved) is Ok);
    if is_reached(resolved_path(host, resolved, missing)) {
        if n == len {
            assert(rest =~= Seq::empty());
            assert(resolved == base);
        } else {
            assert forall|k: int|
                0 < k <= rest.len() && host.paths.contains_key(
                    extended(base, #[trigger] rest.take(k)),
                ) implies !host.paths[extended(base, rest.take(k))].is_present() by {
                assert(leads_alike(host, path, n, n + k));
                assert(components(path).subrange(n, n + k) =~= rest.take(k));
                assert(host.paths.contains_key(ancestor(path, n + k)));
            }
            assert(rest.take(rest.len() as int) =~= rest);
            assert(!host.paths[resolved].is_present());
            lemma_nearest_of_extended(host, base, rest, rest.len() as int);
            lemma_front_of_extended(base, rest, 0);
            assert(rest.take(0) =~= Seq::empty());
            assert(ancestor(resolved, components(base).len() as int) == base);
            assert(existing_path(host, base) == Ok::<Seq<char>, HaltModel>(base));
            assert(components(resolved).skip(components(base).len() as int) =~= rest);
        }
    }
}

} // verus!
