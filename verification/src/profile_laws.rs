//! What the text of a profile holds of rights, denies and the network.

use vstd::prelude::*;

use crate::globs::seatbelt_regex;
use crate::order::{collected, collected_is_a_set, holds, item_same, Order};
use crate::outside::escaped;
use crate::paths::{components, file_name_of, lies_under};
use crate::profile::{
    access_policy, all_filter_lines, all_root_parameters, bind_filter, bind_key, bind_parameters,
    bind_rules, carved_out, control_requirement, control_requirements, denied_below, deny_filters,
    deny_lines, deny_policy, excluded_key, excluded_requirements, exempt_requirements,
    file_denies_follow_file_rights, filter_lines, glob_filter, glob_requirements, has_tree,
    local_policy, meets_controls, network_policy, parameter_arguments, profile_text, quoted,
    root_filter, root_filters, root_key, root_parameters, sandbox_arguments, socket_key,
    socket_parameters, socket_policy, socket_rules, tree_requirements, without_slashes,
    write_rights, Parameter,
};
use crate::protocol::{Access, DeniedAccess, DenyScope, NetworkRequest, PathScope};
use crate::request_laws::takes_in;
use crate::seatbelt::{Deny, Right};
use crate::text::{decimal, joined_with, replaced};

verus! {

/// What a text between double quotes stands for: a backslash gives way to the character
/// behind it, and the first double quote without one ends the text. None where no quote
/// ends it.
pub open spec fn unquoted(text: Seq<char>) -> Option<(Seq<char>, Seq<char>)>
    decreases text.len(),
{
    if text.len() == 0 {
        None
    } else if text[0] == '"' {
        Some((Seq::empty(), text.skip(1)))
    } else if text[0] == '\\' {
        if text.len() < 2 {
            None
        } else {
            match unquoted(text.skip(2)) {
                None => None,
                Some((value, rest)) => Some((seq![text[1]] + value, rest)),
            }
        }
    } else {
        match unquoted(text.skip(1)) {
            None => None,
            Some((value, rest)) => Some((seq![text[0]] + value, rest)),
        }
    }
}

proof fn lemma_replaced_more(text: Seq<char>, last: char, c: char, by: Seq<char>)
    ensures
        replaced(text.push(last), c, by) == replaced(text, c, by) + (if last == c {
            by
        } else {
            seq![last]
        }),
{
    assert(text.push(last).drop_last() =~= text);
    assert(replaced(text, c, by).push(last) =~= replaced(text, c, by) + seq![last]);
}

proof fn lemma_replaced_concat(a: Seq<char>, b: Seq<char>, c: char, by: Seq<char>)
    ensures
        replaced(a + b, c, by) == replaced(a, c, by) + replaced(b, c, by),
    decreases b.len(),
{
    if b.len() == 0 {
        assert(a + b =~= a);
        assert(replaced(a, c, by) + replaced(b, c, by) =~= replaced(a, c, by));
    } else {
        let front = b.drop_last();
        lemma_replaced_concat(a, front, c, by);
        lemma_replaced_more(a + front, b.last(), c, by);
        lemma_replaced_more(front, b.last(), c, by);
        assert(a + b =~= (a + front).push(b.last()));
        assert(b =~= front.push(b.last()));
        assert(replaced(a + b, c, by) =~= replaced(a, c, by) + replaced(b, c, by));
    }
}

proof fn lemma_replaced_one(c: char, what: char, by: Seq<char>)
    ensures
        replaced(seq![c], what, by) == (if c == what {
            by
        } else {
            seq![c]
        }),
{
    assert(seq![c] =~= Seq::<char>::empty().push(c));
    lemma_replaced_more(Seq::empty(), c, what, by);
    assert(replaced(Seq::empty(), what, by) =~= Seq::empty());
    assert(Seq::<char>::empty() + by =~= by);
    assert(Seq::<char>::empty() + seq![c] =~= seq![c]);
}

proof fn lemma_profile_text_first(value: Seq<char>)
    requires
        value.len() > 0,
    ensures
        profile_text(value) == (if value[0] == '\\' || value[0] == '"' {
            seq!['\\', value[0]]
        } else {
            seq![value[0]]
        }) + profile_text(value.skip(1)),
{
    reveal_strlit("\\\\");
    reveal_strlit("\\\"");
    let one = seq![value[0]];
    let rest = value.skip(1);
    assert(value =~= one + rest);
    lemma_replaced_concat(one, rest, '\\', "\\\\"@);
    lemma_replaced_one(value[0], '\\', "\\\\"@);
    let first = replaced(one, '\\', "\\\\"@);
    lemma_replaced_concat(first, replaced(rest, '\\', "\\\\"@), '"', "\\\""@);
    if value[0] == '\\' {
        assert(first =~= seq!['\\'] + seq!['\\']);
        lemma_replaced_concat(seq!['\\'], seq!['\\'], '"', "\\\""@);
        lemma_replaced_one('\\', '"', "\\\""@);
        assert(seq!['\\'] + seq!['\\'] =~= seq!['\\', value[0]]);
    } else {
        lemma_replaced_one(value[0], '"', "\\\""@);
        assert("\\\""@ =~= seq!['\\', '"']);
    }
}

/// A quoted value is read back as it is: what is written between double quotes in a
/// profile stands for the value, whatever the value holds, and ends where it should.
pub proof fn quoted_values_are_read_back(value: Seq<char>, rest: Seq<char>)
    ensures
        unquoted(profile_text(value) + seq!['"'] + rest) == Some((value, rest)),
    decreases value.len(),
{
    reveal_with_fuel(unquoted, 2);
    if value.len() == 0 {
        let text = profile_text(value) + seq!['"'] + rest;
        assert(profile_text(value) =~= Seq::empty());
        assert(text.skip(1) =~= rest);
        assert(value =~= Seq::empty());
    } else {
        lemma_profile_text_first(value);
        let behind = profile_text(value.skip(1)) + seq!['"'] + rest;
        quoted_values_are_read_back(value.skip(1), rest);
        let text = profile_text(value) + seq!['"'] + rest;
        if value[0] == '\\' || value[0] == '"' {
            assert(text.skip(2) =~= behind);
            assert(text[0] == '\\' && text[1] == value[0]);
        } else {
            assert(text.skip(1) =~= behind);
            assert(text[0] == value[0]);
        }
        assert(seq![value[0]] + value.skip(1) =~= value);
    }
}

/// What an expression between double quotes stands for: a backslash that a double quote
/// follows gives way to it, and any other character stands for itself.
pub open spec fn unquoted_expression(text: Seq<char>) -> Seq<char>
    decreases text.len(),
{
    if text.len() == 0 {
        Seq::empty()
    } else if text.len() > 1 && text[0] == '\\' && text[1] == '"' {
        seq!['"'] + unquoted_expression(text.skip(2))
    } else {
        seq![text[0]] + unquoted_expression(text.skip(1))
    }
}

proof fn lemma_quoted_first(text: Seq<char>)
    requires
        text.len() > 0,
    ensures
        quoted(text) == (if text[0] == '"' {
            seq!['\\', '"']
        } else {
            seq![text[0]]
        }) + quoted(text.skip(1)),
        text.len() > 1 && text[1] == '"' ==> quoted(text.skip(1)).len() > 0 && quoted(
            text.skip(1),
        )[0] == '\\',
        quoted(text)[0] != '"',
{
    reveal_strlit("\\\"");
    let one = seq![text[0]];
    assert(text =~= one + text.skip(1));
    lemma_replaced_concat(one, text.skip(1), '"', "\\\""@);
    lemma_replaced_one(text[0], '"', "\\\""@);
    assert("\\\""@ =~= seq!['\\', '"']);
    if text.len() > 1 {
        let two = seq![text[1]];
        assert(text.skip(1) =~= two + text.skip(2));
        lemma_replaced_concat(two, text.skip(2), '"', "\\\""@);
        lemma_replaced_one(text[1], '"', "\\\""@);
    }
}

/// A quoted expression is read back as it is.
pub proof fn quoted_expressions_are_read_back(text: Seq<char>)
    ensures
        unquoted_expression(quoted(text)) == text,
    decreases text.len(),
{
    reveal_with_fuel(unquoted_expression, 2);
    if text.len() == 0 {
        assert(quoted(text) =~= Seq::empty());
        assert(text =~= Seq::empty());
    } else {
        lemma_quoted_first(text);
        quoted_expressions_are_read_back(text.skip(1));
        let whole = quoted(text);
        let behind = quoted(text.skip(1));
        if text[0] == '"' {
            assert(whole.skip(2) =~= behind);
        } else {
            assert(whole.skip(1) =~= behind);
            if text.len() > 1 {
                lemma_quoted_first(text.skip(1));
                assert(whole[1] == behind[0]);
            } else {
                assert(text.skip(1) =~= Seq::empty());
                assert(behind =~= Seq::empty());
            }
        }
        assert(seq![text[0]] + text.skip(1) =~= text);
    }
}

/// Whether a text holds another.
pub open spec fn text_holds(text: Seq<char>, part: Seq<char>) -> bool {
    exists|at: int|
        0 <= at && at + part.len() <= text.len() && part == #[trigger] text.subrange(
            at,
            at + part.len(),
        )
}

proof fn lemma_holds_between(before: Seq<char>, part: Seq<char>, behind: Seq<char>)
    ensures
        text_holds(before + part + behind, part),
{
    let text = before + part + behind;
    let at = before.len() as int;
    assert(text.subrange(at, at + part.len()) =~= part);
}

proof fn lemma_holds_through(text: Seq<char>, middle: Seq<char>, part: Seq<char>)
    requires
        text_holds(text, middle),
        text_holds(middle, part),
    ensures
        text_holds(text, part),
{
    let a = choose|at: int|
        0 <= at && at + middle.len() <= text.len() && middle == #[trigger] text.subrange(
            at,
            at + middle.len(),
        );
    let b = choose|at: int|
        0 <= at && at + part.len() <= middle.len() && part == #[trigger] middle.subrange(
            at,
            at + part.len(),
        );
    assert(text.subrange(a + b, a + b + part.len()) =~= part);
}

/// A joined text holds each of its parts.
pub proof fn joined_texts_hold_their_parts(parts: Seq<Seq<char>>, separator: Seq<char>, i: int)
    requires
        0 <= i < parts.len(),
    ensures
        text_holds(joined_with(parts, separator), parts[i]),
    decreases parts.len(),
{
    let none = Seq::<char>::empty();
    if parts.len() == 1 {
        lemma_holds_between(none, parts[0], none);
        assert(none + parts[0] + none =~= parts[0]);
    } else if i == parts.len() - 1 {
        let front = joined_with(parts.drop_last(), separator) + separator;
        lemma_holds_between(front, parts[i], none);
        assert(front + parts[i] + none =~= front + parts[i]);
    } else {
        let front = joined_with(parts.drop_last(), separator);
        joined_texts_hold_their_parts(parts.drop_last(), separator, i);
        assert(parts.drop_last()[i] == parts[i]);
        lemma_holds_between(none, front, separator + parts.last());
        assert(none + front + (separator + parts.last()) =~= front + separator + parts.last());
        lemma_holds_through(joined_with(parts, separator), front, parts[i]);
    }
}

/// A joined text is its parts with the separator between each two, and nothing else.
pub proof fn joined_texts_grow_at_the_end(
    parts: Seq<Seq<char>>,
    last: Seq<char>,
    separator: Seq<char>,
)
    ensures
        parts.len() == 0 ==> joined_with(parts.push(last), separator) == last,
        parts.len() > 0 ==> joined_with(parts.push(last), separator) == joined_with(
            parts,
            separator,
        ) + separator + last,
        parts.len() == 0 ==> joined_with(parts, separator).len() == 0,
{
    assert(parts.push(last).drop_last() =~= parts);
}

/// The requirements that leave the exempt roots out, each behind a blank.
pub open spec fn exemptions(roots: Seq<Seq<char>>) -> Seq<char>
    decreases roots.len(),
{
    if roots.len() == 0 {
        Seq::empty()
    } else {
        exemptions(roots.drop_last()) + " (require-not (literal \""@ + profile_text(roots.last())
            + "\"))"@ + " (require-not (subpath \""@ + profile_text(roots.last()) + "\"))"@
    }
}

/// Whether a filter describes what a deny names: the file itself for a file, that or
/// what lies below for a tree, and for a glob what its expression accepts, the exempt
/// roots left out.
pub open spec fn describes(deny: Deny, filter: Seq<char>) -> bool {
    match deny.scope {
        DenyScope::File => filter == "(literal \""@ + profile_text(deny.pattern) + "\")"@,
        DenyScope::Tree => {
            ||| filter == "(literal \""@ + profile_text(deny.pattern) + "\")"@
            ||| filter == "(subpath \""@ + profile_text(deny.pattern) + "\")"@
        },
        DenyScope::Glob => {
            let matched = "(regex #\""@ + quoted(seatbelt_regex(deny.pattern)->Ok_0) + "\")"@;
            if deny.exempt_roots.len() == 0 {
                filter == matched
            } else {
                filter == "(require-all "@ + matched + exemptions(deny.exempt_roots) + ")"@
            }
        },
    }
}

proof fn lemma_joined_push(parts: Seq<Seq<char>>, last: Seq<char>, separator: Seq<char>)
    requires
        parts.len() > 0,
    ensures
        joined_with(parts.push(last), separator) == joined_with(parts, separator) + separator
            + last,
{
    assert(parts.push(last).drop_last() =~= parts);
}

proof fn lemma_exemptions(matched: Seq<char>, roots: Seq<Seq<char>>)
    ensures
        joined_with(seq![matched] + exempt_requirements(roots), " "@) == matched + exemptions(
            roots,
        ),
    decreases roots.len(),
{
    let first = seq![matched];
    if roots.len() == 0 {
        assert(first + exempt_requirements(roots) =~= first);
        assert(matched + exemptions(roots) =~= matched);
    } else {
        let front = roots.drop_last();
        let root = profile_text(roots.last());
        lemma_exemptions(matched, front);
        let before = first + exempt_requirements(front);
        let literal = "(require-not (literal \""@ + root + "\"))"@;
        let subpath = "(require-not (subpath \""@ + root + "\"))"@;
        assert(first + exempt_requirements(roots) =~= before.push(literal).push(subpath));
        lemma_joined_push(before, literal, " "@);
        lemma_joined_push(before.push(literal), subpath, " "@);
        reveal_strlit(" ");
        reveal_strlit("(require-not (literal \"");
        reveal_strlit(" (require-not (literal \"");
        reveal_strlit("(require-not (subpath \"");
        reveal_strlit(" (require-not (subpath \"");
        assert(" (require-not (literal \""@ =~= " "@ + "(require-not (literal \""@);
        assert(" (require-not (subpath \""@ =~= " "@ + "(require-not (subpath \""@);
        assert(joined_with(seq![matched] + exempt_requirements(roots), " "@) =~= matched
            + exemptions(roots));
    }
}

proof fn lemma_describes(deny: Deny, filter: Seq<char>)
    requires
        deny_filters(deny) is Ok,
    ensures
        deny_filters(deny)->Ok_0.contains(filter) <==> describes(deny, filter),
{
    let filters = deny_filters(deny)->Ok_0;
    match deny.scope {
        DenyScope::File => {
            assert(filters[0] == filters[0]);
        },
        DenyScope::Tree => {
            assert(filters[0] == filters[0]);
            assert(filters[1] == filters[1]);
        },
        DenyScope::Glob => {
            let matched = "(regex #\""@ + quoted(seatbelt_regex(deny.pattern)->Ok_0) + "\")"@;
            lemma_exemptions(matched, deny.exempt_roots);
            assert(filters[0] == glob_filter(deny)->Ok_0);
            assert("(require-all "@ + (matched + exemptions(deny.exempt_roots)) + ")"@
                =~= "(require-all "@ + matched + exemptions(deny.exempt_roots) + ")"@);
        },
    }
}

/// Whether a line of a profile denies an access to what a filter describes: reading
/// where a deny is about reading, writing where it is about writing.
pub open spec fn denies_access(access: DeniedAccess, filter: Seq<char>, line: Seq<char>) -> bool {
    ||| access != DeniedAccess::Write && line == "(deny file-read* "@ + filter + ")"@
    ||| access != DeniedAccess::Read && line == "(deny file-write* "@ + filter + ")"@
}

proof fn lemma_filter_lines(access: DeniedAccess, filters: Seq<Seq<char>>, line: Seq<char>)
    ensures
        all_filter_lines(access, filters).contains(line) <==> exists|i: int|
            0 <= i < filters.len() && denies_access(access, #[trigger] filters[i], line),
    decreases filters.len(),
{
    if filters.len() > 0 {
        let front = filters.drop_last();
        let before = all_filter_lines(access, front);
        let more = filter_lines(access, filters.last());
        let all = before + more;
        lemma_filter_lines(access, front, line);
        assert(more.contains(line) <==> denies_access(access, filters.last(), line)) by {
            assert(more[0] == more[0]);
            if access == DeniedAccess::ReadWrite {
                assert(more[1] == more[1]);
            }
        }
        lemma_concat_contains(before, more, line);
        if all.contains(line) {
            if before.contains(line) {
                let i = choose|i: int|
                    0 <= i < front.len() && denies_access(access, #[trigger] front[i], line);
                assert(denies_access(access, filters[i], line));
            } else {
                assert(denies_access(access, filters[filters.len() - 1], line));
            }
        }
        if exists|i: int|
            0 <= i < filters.len() && denies_access(access, #[trigger] filters[i], line) {
            let i = choose|i: int|
                0 <= i < filters.len() && denies_access(access, #[trigger] filters[i], line);
            if i < front.len() {
                assert(denies_access(access, front[i], line));
            }
        }
    }
}

proof fn lemma_concat_contains(a: Seq<Seq<char>>, b: Seq<Seq<char>>, item: Seq<char>)
    ensures
        (a + b).contains(item) <==> a.contains(item) || b.contains(item),
{
    if a.contains(item) {
        let i = choose|i: int| 0 <= i < a.len() && a[i] == item;
        assert((a + b)[i] == item);
    }
    if b.contains(item) {
        let i = choose|i: int| 0 <= i < b.len() && b[i] == item;
        assert((a + b)[a.len() + i] == item);
    }
    if (a + b).contains(item) {
        let i = choose|i: int| 0 <= i < (a + b).len() && (a + b)[i] == item;
        if i < a.len() {
            assert(a[i] == item);
        } else {
            assert(b[i - a.len()] == item);
        }
    }
}

/// Whether a line denies what one of several denies asks for.
pub open spec fn is_asked_for(denies: Seq<Deny>, line: Seq<char>) -> bool {
    exists|d: int, filter: Seq<char>|
        0 <= d < denies.len() && #[trigger] describes(denies[d], filter) && denies_access(
            denies[d].access,
            filter,
            line,
        )
}

proof fn lemma_deny_lines(denies: Seq<Deny>, line: Seq<char>)
    requires
        deny_lines(denies) is Ok,
    ensures
        deny_lines(denies)->Ok_0.contains(line) <==> is_asked_for(denies, line),
    decreases denies.len(),
{
    if denies.len() > 0 {
        let front = denies.drop_last();
        let last = denies.last();
        let before = deny_lines(front)->Ok_0;
        let filters = deny_filters(last)->Ok_0;
        let more = all_filter_lines(last.access, filters);
        lemma_deny_lines(front, line);
        lemma_filter_lines(last.access, filters, line);
        lemma_concat_contains(before, more, line);
        if before.contains(line) {
            let (d, filter) = choose|d: int, filter: Seq<char>|
                0 <= d < front.len() && #[trigger] describes(front[d], filter) && denies_access(
                    front[d].access,
                    filter,
                    line,
                );
            assert(denies[d] == front[d]);
            assert(describes(denies[d], filter));
        }
        if more.contains(line) {
            let i = choose|i: int|
                0 <= i < filters.len() && denies_access(last.access, #[trigger] filters[i], line);
            lemma_describes(last, filters[i]);
            assert(filters.contains(filters[i]));
            assert(describes(denies[denies.len() - 1], filters[i]));
        }
        if is_asked_for(denies, line) {
            let (d, filter) = choose|d: int, filter: Seq<char>|
                0 <= d < denies.len() && #[trigger] describes(denies[d], filter)
                    && denies_access(denies[d].access, filter, line);
            if d < front.len() {
                assert(denies[d] == front[d]);
                assert(describes(front[d], filter));
            } else {
                lemma_describes(last, filter);
                let i = choose|i: int| 0 <= i < filters.len() && filters[i] == filter;
                assert(denies_access(last.access, filters[i], line));
            }
        }
    }
}

/// The part of a profile that denies is made of lines, and these are exactly the lines
/// asked for: for each filter that describes what a deny names, the line that denies
/// reading exactly if the deny is about reading, and the line that denies writing
/// exactly if it is about writing. The text holds each of them.
pub proof fn denies_are_written_out(denies: Seq<Deny>) -> (lines: Seq<Seq<char>>)
    requires
        deny_policy(denies) is Ok,
    ensures
        deny_policy(denies)->Ok_0 == joined_with(lines, "\n"@),
        forall|line: Seq<char>| #[trigger] lines.contains(line) <==> is_asked_for(denies, line),
        forall|line: Seq<char>|
            #[trigger] is_asked_for(denies, line) ==> text_holds(deny_policy(denies)->Ok_0, line),
{
    let all = deny_lines(denies)->Ok_0;
    let lines = collected(Order::Text, all);
    collected_is_a_set(Order::Text, all);
    assert forall|line: Seq<char>| #[trigger] lines.contains(line) <==> is_asked_for(
        denies,
        line,
    ) by {
        lemma_deny_lines(denies, line);
        lemma_holds_contains(lines, line);
        lemma_holds_contains(all, line);
        assert(holds(Order::Text, lines, line) <==> holds(Order::Text, all, line));
    }
    assert forall|line: Seq<char>| #[trigger] is_asked_for(denies, line) implies text_holds(
        deny_policy(denies)->Ok_0,
        line,
    ) by {
        assert(lines.contains(line));
        let i = choose|i: int| 0 <= i < lines.len() && lines[i] == line;
        joined_texts_hold_their_parts(lines, "\n"@, i);
    }
    lines
}

proof fn lemma_holds_contains(list: Seq<Seq<char>>, item: Seq<char>)
    ensures
        holds(Order::Text, list, item) <==> list.contains(item),
{
    if holds(Order::Text, list, item) {
        let i = choose|i: int| 0 <= i < list.len() && item_same(Order::Text, #[trigger] list[i], item);
        assert(list[i] == item);
    }
    if list.contains(item) {
        let i = choose|i: int| 0 <= i < list.len() && list[i] == item;
        assert(item_same(Order::Text, list[i], item));
    }
}

/// A profile is refused for its denies exactly where a glob has no expression.
pub proof fn denies_are_refused_only_for_globs(denies: Seq<Deny>)
    ensures
        deny_policy(denies) is Err <==> exists|d: int|
            0 <= d < denies.len() && (#[trigger] denies[d]).scope == DenyScope::Glob
                && seatbelt_regex(denies[d].pattern) is Err,
    decreases denies.len(),
{
    if denies.len() > 0 {
        let front = denies.drop_last();
        denies_are_refused_only_for_globs(front);
        if deny_policy(front) is Err {
            let d = choose|d: int|
                0 <= d < front.len() && (#[trigger] front[d]).scope == DenyScope::Glob
                    && seatbelt_regex(front[d].pattern) is Err;
            assert(denies[d] == front[d]);
        } else {
            assert(denies[denies.len() - 1] == denies.last());
            assert forall|d: int| 0 <= d < front.len() implies !((#[trigger] denies[d]).scope
                == DenyScope::Glob && seatbelt_regex(denies[d].pattern) is Err) by {
                assert(front[d] == denies[d]);
            }
        }
    }
}

/// A tree right leaves out what is denied below it: each path that a deny of its access
/// names there has a parameter, and the filter of the right asks that neither the path
/// nor anything below it is meant.
pub proof fn tree_rights_leave_denied_paths_out(
    right: Right,
    key: Seq<char>,
    cwd: Seq<char>,
    denies: Seq<Deny>,
    access: Access,
    d: int,
) -> (e: int)
    requires
        right.scope == PathScope::Tree,
        0 <= d < denies.len(),
        takes_in(denies[d].access, access),
        denies[d].scope != DenyScope::Glob,
        denies[d].path is Some,
        lies_under(denies[d].path->0, right.path),
    ensures
        0 <= e < root_parameters(right, key, denies, access).len(),
        ({
            let name = key + "_EXCLUDED_"@ + decimal(e as nat);
            let parameter = root_parameters(right, key, denies, access)[e];
            let filter = root_filter(right, key, cwd, denies, access);
            &&& parameter.0 == name
            &&& components(parameter.1) == components(denies[d].path->0)
            &&& text_holds(filter, "(require-not (literal (param \""@ + name + "\")))"@)
            &&& text_holds(filter, "(require-not (subpath (param \""@ + name + "\")))"@)
        }),
{
    let below = denied_below(denies, right.path, access);
    let excluded = carved_out(denies, right.path, access);
    let path = denies[d].path->0;
    lemma_denied_below(denies, right.path, access, d);
    collected_is_a_set(Order::Path, below);
    let b = choose|b: int| 0 <= b < below.len() && #[trigger] below[b] == path;
    assert(item_same(Order::Path, below[b], path));
    assert(holds(Order::Path, below, path));
    assert(holds(Order::Path, excluded, path));
    let e = choose|e: int|
        0 <= e < excluded.len() && item_same(Order::Path, #[trigger] excluded[e], path);
    assert(root_parameters(right, key, denies, access)[e] == (
        excluded_key(key, e),
        excluded[e],
    ));
    lemma_excluded_requirements(key, excluded.len(), e);
    lemma_requirement_is_held(
        right,
        key,
        cwd,
        denies,
        access,
        "(require-not (literal (param \""@ + excluded_key(key, e) + "\")))"@,
    );
    lemma_requirement_is_held(
        right,
        key,
        cwd,
        denies,
        access,
        "(require-not (subpath (param \""@ + excluded_key(key, e) + "\")))"@,
    );
    e
}

/// A tree right leaves out nothing but what is denied below it.
pub proof fn tree_rights_leave_only_denied_paths_out(
    right: Right,
    key: Seq<char>,
    denies: Seq<Deny>,
    access: Access,
    e: int,
) -> (d: int)
    requires
        0 <= e < root_parameters(right, key, denies, access).len(),
    ensures
        right.scope == PathScope::Tree,
        0 <= d < denies.len(),
        takes_in(denies[d].access, access),
        denies[d].scope != DenyScope::Glob,
        denies[d].path is Some,
        lies_under(denies[d].path->0, right.path),
        components(root_parameters(right, key, denies, access)[e].1) == components(
            denies[d].path->0,
        ),
{
    let below = denied_below(denies, right.path, access);
    let excluded = carved_out(denies, right.path, access);
    collected_is_a_set(Order::Path, below);
    assert(item_same(Order::Path, excluded[e], excluded[e]));
    assert(holds(Order::Path, excluded, excluded[e]));
    assert(holds(Order::Path, below, excluded[e]));
    let b = choose|b: int|
        0 <= b < below.len() && item_same(Order::Path, #[trigger] below[b], excluded[e]);
    lemma_denied_below_comes_from(denies, right.path, access, b)
}

proof fn lemma_denied_below(denies: Seq<Deny>, root: Seq<char>, access: Access, d: int)
    requires
        0 <= d < denies.len(),
        takes_in(denies[d].access, access),
        denies[d].scope != DenyScope::Glob,
        denies[d].path is Some,
        lies_under(denies[d].path->0, root),
    ensures
        exists|b: int|
            0 <= b < denied_below(denies, root, access).len() && #[trigger] denied_below(
                denies,
                root,
                access,
            )[b] == denies[d].path->0,
    decreases denies.len(),
{
    let front = denies.drop_last();
    let all = denied_below(denies, root, access);
    if d < front.len() {
        lemma_denied_below(front, root, access, d);
        let before = denied_below(front, root, access);
        let b = choose|b: int|
            0 <= b < before.len() && #[trigger] before[b] == front[d].path->0;
        assert(all[b] == before[b]);
    } else {
        assert(all[all.len() - 1] == denies[d].path->0);
    }
}

proof fn lemma_denied_below_comes_from(
    denies: Seq<Deny>,
    root: Seq<char>,
    access: Access,
    b: int,
) -> (d: int)
    requires
        0 <= b < denied_below(denies, root, access).len(),
    ensures
        0 <= d < denies.len(),
        takes_in(denies[d].access, access),
        denies[d].scope != DenyScope::Glob,
        denies[d].path == Some(denied_below(denies, root, access)[b]),
        lies_under(denies[d].path->0, root),
    decreases denies.len(),
{
    let front = denies.drop_last();
    if b < denied_below(front, root, access).len() {
        lemma_denied_below_comes_from(front, root, access, b)
    } else {
        denies.len() - 1
    }
}

proof fn lemma_excluded_requirements(key: Seq<char>, n: nat, e: int)
    requires
        0 <= e < n,
    ensures
        excluded_requirements(key, n).contains(
            "(require-not (literal (param \""@ + excluded_key(key, e) + "\")))"@,
        ),
        excluded_requirements(key, n).contains(
            "(require-not (subpath (param \""@ + excluded_key(key, e) + "\")))"@,
        ),
    decreases n,
{
    let all = excluded_requirements(key, n);
    if e == n - 1 {
        assert(all[all.len() - 2] == "(require-not (literal (param \""@ + excluded_key(key, e)
            + "\")))"@);
        assert(all[all.len() - 1] == "(require-not (subpath (param \""@ + excluded_key(key, e)
            + "\")))"@);
    } else {
        lemma_excluded_requirements(key, (n - 1) as nat, e);
        let before = excluded_requirements(key, (n - 1) as nat);
        let literal = "(require-not (literal (param \""@ + excluded_key(key, e) + "\")))"@;
        let subpath = "(require-not (subpath (param \""@ + excluded_key(key, e) + "\")))"@;
        let a = choose|a: int| 0 <= a < before.len() && before[a] == literal;
        let b = choose|b: int| 0 <= b < before.len() && before[b] == subpath;
        assert(all[a] == literal);
        assert(all[b] == subpath);
    }
}

proof fn lemma_requirement_is_held(
    right: Right,
    key: Seq<char>,
    cwd: Seq<char>,
    denies: Seq<Deny>,
    access: Access,
    requirement: Seq<char>,
)
    requires
        right.scope == PathScope::Tree,
        excluded_requirements(key, carved_out(denies, right.path, access).len()).contains(
            requirement,
        ) || control_requirements(right, cwd, access).contains(requirement),
    ensures
        text_holds(root_filter(right, key, cwd, denies, access), requirement),
{
    let all = tree_requirements(right, key, cwd, denies, access);
    let kept_out = excluded_requirements(key, carved_out(denies, right.path, access).len());
    let controls = control_requirements(right, cwd, access);
    if kept_out.contains(requirement) {
        let i = choose|i: int| 0 <= i < kept_out.len() && kept_out[i] == requirement;
        assert(all[i + 1] == requirement);
        joined_texts_hold_their_parts(all, " "@, i + 1);
    } else {
        let i = choose|i: int| 0 <= i < controls.len() && controls[i] == requirement;
        assert(all[kept_out.len() + 1 + i] == requirement);
        joined_texts_hold_their_parts(all, " "@, kept_out.len() + 1 + i);
    }
    let middle = joined_with(all, " "@);
    lemma_holds_between("(require-all "@, middle, ")"@);
    lemma_holds_through("(require-all "@ + middle + ")"@, middle, requirement);
}

/// The filter of a right is about its path: the path itself for a file, that or what
/// lies below for a tree, and in both cases by the parameter of the right.
pub proof fn rights_are_about_their_path(
    right: Right,
    key: Seq<char>,
    cwd: Seq<char>,
    denies: Seq<Deny>,
    access: Access,
)
    ensures
        ({
            let filter = root_filter(right, key, cwd, denies, access);
            let itself = "(literal (param \""@ + key + "\"))"@;
            let below = "(subpath (param \""@ + key + "\"))"@;
            &&& right.scope == PathScope::File ==> text_holds(filter, itself)
            &&& right.scope == PathScope::File && access == Access::Read ==> filter == itself
            &&& right.scope == PathScope::Tree ==> text_holds(
                filter,
                "(require-any "@ + itself + " "@ + below + ")"@,
            )
        }),
{
    let filter = root_filter(right, key, cwd, denies, access);
    let itself = "(literal (param \""@ + key + "\"))"@;
    let below = "(subpath (param \""@ + key + "\"))"@;
    let none = Seq::<char>::empty();
    match right.scope {
        PathScope::File => {
            let controls = control_requirements(right, cwd, access);
            let all = seq![itself] + controls;
            joined_texts_hold_their_parts(all, " "@, 0);
            let middle = joined_with(all, " "@);
            lemma_holds_between("(require-all "@, middle, ")"@);
            lemma_holds_through("(require-all "@ + middle + ")"@, middle, itself);
            lemma_holds_between(none, itself, none);
            assert(none + itself + none =~= itself);
        },
        PathScope::Tree => {
            let all = tree_requirements(right, key, cwd, denies, access);
            let inside = "(require-any "@ + itself + " "@ + below + ")"@;
            reveal_strlit("(require-any (literal (param \"");
            reveal_strlit("(require-any ");
            reveal_strlit("(literal (param \"");
            reveal_strlit("\")) (subpath (param \"");
            reveal_strlit("\"))");
            reveal_strlit(" ");
            reveal_strlit("(subpath (param \"");
            reveal_strlit("\")))");
            reveal_strlit(")");
            assert(all[0] =~= inside);
            joined_texts_hold_their_parts(all, " "@, 0);
            let middle = joined_with(all, " "@);
            lemma_holds_between("(require-all "@, middle, ")"@);
            lemma_holds_through("(require-all "@ + middle + ")"@, middle, inside);
        },
    }
}

/// No right to write opens a `.pi` in the workspace: a tree that meets the workspace,
/// and a file below a component of that name, ask that no path with such a component
/// below the workspace is meant. The same holds of `.git`, but for a grant of a file or
/// of something called `.git`.
pub proof fn write_rights_leave_control_directories_out(
    right: Right,
    key: Seq<char>,
    cwd: Seq<char>,
    denies: Seq<Deny>,
    name: Seq<char>,
)
    requires
        name == ".pi"@ || name == ".git"@ && !(right.approved && (right.scope == PathScope::File
            || file_name_of(right.path) == Some(".git"@))),
        match right.scope {
            PathScope::Tree => lies_under(cwd, right.path) || lies_under(right.path, cwd),
            PathScope::File => lies_under(right.path, cwd) && components(right.path).skip(
                components(cwd).len() as int,
            ).contains(name),
        },
    ensures
        ({
            let prefix = escaped(without_slashes(cwd));
            let expression = (if prefix == "/"@ {
                "^/(.*/)?"@
            } else {
                "^"@ + prefix + "/(.*/)?"@
            }) + escaped(name) + "(/.*)?$"@;
            text_holds(
                root_filter(right, key, cwd, denies, Access::Write),
                "(require-not (regex #\""@ + quoted(expression) + "\"))"@,
            )
        }),
{
    let controls = control_requirements(right, cwd, Access::Write);
    let requirement = control_requirement(cwd, name);
    reveal_strlit(".pi");
    reveal_strlit(".git");
    assert(".pi"@ != ".git"@) by {
        assert(".pi"@.len() != ".git"@.len());
    }
    if name == ".pi"@ {
        assert(controls[controls.len() - 1] == requirement);
    } else {
        assert(controls[0] == requirement);
    }
    assert(controls.contains(requirement));
    match right.scope {
        PathScope::Tree => {
            lemma_requirement_is_held(right, key, cwd, denies, Access::Write, requirement);
        },
        PathScope::File => {
            let all = seq!["(literal (param \""@ + key + "\"))"@] + controls;
            let i = choose|i: int| 0 <= i < controls.len() && controls[i] == requirement;
            assert(all[i + 1] == requirement);
            joined_texts_hold_their_parts(all, " "@, i + 1);
            let middle = joined_with(all, " "@);
            lemma_holds_between("(require-all "@, middle, ")"@);
            lemma_holds_through("(require-all "@ + middle + ")"@, middle, requirement);
        },
    }
}

proof fn lemma_root_parameters(
    prefix: Seq<char>,
    rights: Seq<Right>,
    denies: Seq<Deny>,
    access: Access,
    i: int,
)
    requires
        0 <= i < rights.len(),
    ensures
        all_root_parameters(prefix, rights, denies, access).contains(
            (root_key(prefix, i), rights[i].path),
        ),
        forall|e: int|
            0 <= e < root_parameters(rights[i], root_key(prefix, i), denies, access).len()
                ==> all_root_parameters(prefix, rights, denies, access).contains(
                #[trigger] root_parameters(rights[i], root_key(prefix, i), denies, access)[e],
            ),
    decreases rights.len(),
{
    let all = all_root_parameters(prefix, rights, denies, access);
    let front = rights.drop_last();
    let before = all_root_parameters(prefix, front, denies, access);
    let key = root_key(prefix, i);
    let own = root_parameters(rights[i], key, denies, access);
    let first = (key, rights[i].path);
    if i < front.len() {
        lemma_root_parameters(prefix, front, denies, access, i);
        assert(front[i] == rights[i]);
        let a = choose|a: int| 0 <= a < before.len() && before[a] == first;
        assert(all[a] == first);
        assert forall|e: int| 0 <= e < own.len() implies all.contains(#[trigger] own[e]) by {
            assert(before.contains(own[e]));
            let b = choose|b: int| 0 <= b < before.len() && before[b] == own[e];
            assert(all[b] == own[e]);
        }
    } else {
        assert(all[before.len() as int] == first);
        assert forall|e: int| 0 <= e < own.len() implies all.contains(#[trigger] own[e]) by {
            assert(all[before.len() + 1 + e] == own[e]);
        }
    }
}

proof fn lemma_write_rights(rights: Seq<Right>, i: int)
    requires
        0 <= i < rights.len(),
        rights[i].access == Access::Write,
    ensures
        write_rights(rights).contains(rights[i]),
    decreases rights.len(),
{
    let all = write_rights(rights);
    if i < rights.len() - 1 {
        lemma_write_rights(rights.drop_last(), i);
        let before = write_rights(rights.drop_last());
        assert(rights.drop_last()[i] == rights[i]);
        let k = choose|k: int| 0 <= k < before.len() && before[k] == rights[i];
        assert(all[k] == rights[i]);
    } else {
        assert(all[all.len() - 1] == rights[i]);
    }
}

/// The writable rights are the rights to write, and no others.
pub proof fn write_rights_are_the_rights_to_write(rights: Seq<Right>)
    ensures
        forall|right: Right| #[trigger]
            write_rights(rights).contains(right) <==> right.access == Access::Write
                && rights.contains(right),
    decreases rights.len(),
{
    let all = write_rights(rights);
    assert forall|right: Right| #[trigger] all.contains(right) <==> right.access == Access::Write
        && rights.contains(right) by {
        if right.access == Access::Write && rights.contains(right) {
            let i = choose|i: int| 0 <= i < rights.len() && rights[i] == right;
            lemma_write_rights(rights, i);
        }
        if all.contains(right) {
            let k = choose|k: int| 0 <= k < all.len() && all[k] == right;
            let front = rights.drop_last();
            write_rights_are_the_rights_to_write(front);
            if k < write_rights(front).len() {
                assert(write_rights(front)[k] == right);
                assert(write_rights(front).contains(right));
                let i = choose|i: int| 0 <= i < front.len() && front[i] == right;
                assert(rights[i] == right);
            } else {
                assert(rights[rights.len() - 1] == right);
            }
        }
    }
}

/// Whether arguments allow to write what a right is on, as the writable root `j`.
pub open spec fn is_written_as(
    arguments: Seq<Seq<char>>,
    right: Right,
    cwd: Seq<char>,
    denies: Seq<Deny>,
    j: int,
    rules: Seq<char>,
) -> bool {
    let writable = "WRITABLE_ROOT_"@ + decimal(j as nat);
    &&& arguments.contains("-D"@ + writable + "="@ + right.path)
    &&& text_holds(arguments[1], "(allow file-write*\n"@ + rules + "\n)"@)
    &&& text_holds(rules, root_filter(right, writable, cwd, denies, Access::Write))
}

/// The arguments of a sandbox are the profile, then parameters, then the command as it
/// is. Each right has a parameter with its path, by which the profile allows to read it,
/// and each right to write has one by which the profile allows to write it.
pub proof fn rights_are_written_out(
    base_policy: Seq<char>,
    command: Seq<Seq<char>>,
    cwd: Seq<char>,
    rights: Seq<Right>,
    denies: Seq<Deny>,
    sockets: Seq<Seq<char>>,
    network: NetworkRequest,
    i: int,
)
    requires
        0 <= i < rights.len(),
        sandbox_arguments(base_policy, command, cwd, rights, denies, sockets, network) is Ok,
    ensures
        ({
            let arguments = sandbox_arguments(
                base_policy,
                command,
                cwd,
                rights,
                denies,
                sockets,
                network,
            )->Ok_0;
            let readable = "READABLE_ROOT_"@ + decimal(i as nat);
            &&& arguments.contains("-D"@ + readable + "="@ + rights[i].path)
            &&& exists|rules: Seq<char>|
                text_holds(arguments[1], "(allow file-read*\n"@ + rules + "\n)"@)
                    && #[trigger] text_holds(
                    rules,
                    root_filter(rights[i], readable, cwd, denies, Access::Read),
                )
            &&& rights[i].access == Access::Write ==> exists|j: int, rules: Seq<char>|
                0 <= j < write_rights(rights).len() && #[trigger] is_written_as(
                    arguments,
                    rights[i],
                    cwd,
                    denies,
                    j,
                    rules,
                )
        }),
{
    let arguments = sandbox_arguments(
        base_policy,
        command,
        cwd,
        rights,
        denies,
        sockets,
        network,
    )->Ok_0;
    let writable = write_rights(rights);
    let read = access_policy("file-read*"@, "READABLE_ROOT"@, cwd, rights, denies, Access::Read);
    let write = access_policy(
        "file-write*"@,
        "WRITABLE_ROOT"@,
        cwd,
        writable,
        denies,
        Access::Write,
    );
    let (network_rules, network_parameters) = network_policy(cwd, writable, denies, network)->Ok_0;
    let parts = seq![
        base_policy,
        read,
        write,
        deny_policy(denies)->Ok_0,
        socket_policy(sockets),
        network_rules,
    ];
    let first = all_root_parameters("READABLE_ROOT"@, rights, denies, Access::Read);
    let second = all_root_parameters("WRITABLE_ROOT"@, writable, denies, Access::Write);
    let parameters = first + second + socket_parameters(sockets) + network_parameters;
    assert(arguments[1] == joined_with(parts, "\n"@));
    lemma_root_parameters("READABLE_ROOT"@, rights, denies, Access::Read, i);
    lemma_key("READABLE_ROOT"@, "READABLE_ROOT_"@, i);
    let own = ("READABLE_ROOT_"@ + decimal(i as nat), rights[i].path);
    let a = choose|a: int| 0 <= a < first.len() && first[a] == own;
    assert(parameters[a] == own);
    lemma_parameter_is_given(arguments, parameters, command, joined_with(parts, "\n"@), a);
    joined_texts_hold_their_parts(parts, "\n"@, 1);
    reveal_strlit("(allow ");
    reveal_strlit("file-read*");
    reveal_strlit("file-write*");
    reveal_strlit("\n");
    reveal_strlit("(allow file-read*\n");
    reveal_strlit("(allow file-write*\n");
    let rules = joined_with(
        root_filters("READABLE_ROOT"@, cwd, rights, denies, Access::Read),
        "\n"@,
    );
    assert("(allow "@ + "file-read*"@ + "\n"@ =~= "(allow file-read*\n"@);
    assert(read =~= "(allow file-read*\n"@ + rules + "\n)"@);
    joined_texts_hold_their_parts(
        root_filters("READABLE_ROOT"@, cwd, rights, denies, Access::Read),
        "\n"@,
        i,
    );
    assert(text_holds(
        rules,
        root_filter(rights[i], "READABLE_ROOT_"@ + decimal(i as nat), cwd, denies, Access::Read),
    ));
    if rights[i].access == Access::Write {
        lemma_write_rights(rights, i);
        let j = choose|j: int| 0 <= j < writable.len() && writable[j] == rights[i];
        lemma_root_parameters("WRITABLE_ROOT"@, writable, denies, Access::Write, j);
        lemma_key("WRITABLE_ROOT"@, "WRITABLE_ROOT_"@, j);
        let key = "WRITABLE_ROOT_"@ + decimal(j as nat);
        let own = (key, rights[i].path);
        let b = choose|b: int| 0 <= b < second.len() && second[b] == own;
        assert(parameters[first.len() + b] == own);
        lemma_parameter_is_given(
            arguments,
            parameters,
            command,
            joined_with(parts, "\n"@),
            first.len() + b,
        );
        joined_texts_hold_their_parts(parts, "\n"@, 2);
        let rules = joined_with(
            root_filters("WRITABLE_ROOT"@, cwd, writable, denies, Access::Write),
            "\n"@,
        );
        assert("(allow "@ + "file-write*"@ + "\n"@ =~= "(allow file-write*\n"@);
        assert(write =~= "(allow file-write*\n"@ + rules + "\n)"@);
        joined_texts_hold_their_parts(
            root_filters("WRITABLE_ROOT"@, cwd, writable, denies, Access::Write),
            "\n"@,
            j,
        );
        assert(is_written_as(arguments, rights[i], cwd, denies, j, rules));
    }
}

proof fn lemma_key(prefix: Seq<char>, start: Seq<char>, i: int)
    requires
        prefix == "READABLE_ROOT"@ && start == "READABLE_ROOT_"@ || prefix == "WRITABLE_ROOT"@
            && start == "WRITABLE_ROOT_"@,
    ensures
        root_key(prefix, i) == start + decimal(i as nat),
{
    reveal_strlit("READABLE_ROOT");
    reveal_strlit("READABLE_ROOT_");
    reveal_strlit("WRITABLE_ROOT");
    reveal_strlit("WRITABLE_ROOT_");
    reveal_strlit("_");
    assert(prefix + "_"@ =~= start);
}

proof fn lemma_parameter_is_given(
    arguments: Seq<Seq<char>>,
    parameters: Seq<Parameter>,
    command: Seq<Seq<char>>,
    policy: Seq<char>,
    a: int,
)
    requires
        arguments == seq!["-p"@, policy] + parameter_arguments(parameters) + seq!["--"@] + command,
        0 <= a < parameters.len(),
    ensures
        arguments.contains("-D"@ + parameters[a].0 + "="@ + parameters[a].1),
{
    assert(arguments[2 + a] == parameter_arguments(parameters)[a]);
}

/// A sandbox runs the command as it is: the command is what the arguments end with,
/// behind the mark that ends the options.
pub proof fn commands_are_run_as_they_are(
    base_policy: Seq<char>,
    command: Seq<Seq<char>>,
    cwd: Seq<char>,
    rights: Seq<Right>,
    denies: Seq<Deny>,
    sockets: Seq<Seq<char>>,
    network: NetworkRequest,
)
    ensures
        sandbox_arguments(base_policy, command, cwd, rights, denies, sockets, network) matches Ok(
            arguments,
        ) ==> {
            let options = arguments.len() - command.len() - 1;
            &&& command.len() > 0
            &&& options >= 2
            &&& arguments[0] == "-p"@
            &&& text_holds(arguments[1], base_policy)
            &&& arguments[options] == "--"@
            &&& arguments.skip(options + 1) == command
        },
{
    if let Ok(arguments) = sandbox_arguments(
        base_policy,
        command,
        cwd,
        rights,
        denies,
        sockets,
        network,
    ) {
        let writable = write_rights(rights);
        let parts = seq![
            base_policy,
            access_policy("file-read*"@, "READABLE_ROOT"@, cwd, rights, denies, Access::Read),
            access_policy("file-write*"@, "WRITABLE_ROOT"@, cwd, writable, denies, Access::Write),
            deny_policy(denies)->Ok_0,
            socket_policy(sockets),
            network_policy(cwd, writable, denies, network)->Ok_0.0,
        ];
        joined_texts_hold_their_parts(parts, "\n"@, 0);
        assert(arguments.skip(arguments.len() - command.len()) =~= command);
    }
}

/// Each socket may be bound and connected to, by a parameter with its path.
pub proof fn sockets_are_written_out(sockets: Seq<Seq<char>>, i: int)
    requires
        0 <= i < sockets.len(),
    ensures
        ({
            let key = "UNIX_SOCKET_PATH_"@ + decimal(i as nat);
            &&& socket_parameters(sockets)[i] == (key, sockets[i])
            &&& text_holds(
                socket_policy(sockets),
                "(allow network-bind (local unix-socket (literal (param \""@ + key + "\"))))"@,
            )
            &&& text_holds(
                socket_policy(sockets),
                "(allow network-outbound (remote unix-socket (literal (param \""@ + key
                    + "\"))))"@,
            )
            &&& text_holds(
                socket_policy(sockets),
                "(allow system-socket (socket-domain AF_UNIX))"@,
            )
        }),
{
    lemma_socket_rules(sockets.len(), i);
    lemma_socket_start(sockets.len());
}

proof fn lemma_socket_start(n: nat)
    ensures
        text_holds(socket_rules(n), "(allow system-socket (socket-domain AF_UNIX))"@),
    decreases n,
{
    let start = "(allow system-socket (socket-domain AF_UNIX))"@;
    let none = Seq::<char>::empty();
    if n == 0 {
        assert("(allow system-socket (socket-domain AF_UNIX))\n"@ =~= none + start + "\n"@) by {
            reveal_strlit("(allow system-socket (socket-domain AF_UNIX))\n");
            reveal_strlit("(allow system-socket (socket-domain AF_UNIX))");
            reveal_strlit("\n");
        }
        lemma_holds_between(none, start, "\n"@);
    } else {
        lemma_socket_start((n - 1) as nat);
        lemma_socket_front(n);
        lemma_holds_through(socket_rules(n), socket_rules((n - 1) as nat), start);
    }
}

proof fn lemma_socket_front(n: nat)
    requires
        n > 0,
    ensures
        text_holds(socket_rules(n), socket_rules((n - 1) as nat)),
{
    let key = socket_key(n - 1);
    let before = socket_rules((n - 1) as nat);
    let none = Seq::<char>::empty();
    let behind = "(allow network-bind (local unix-socket (literal (param \""@ + key
        + "\"))))\n"@ + "(allow network-outbound (remote unix-socket (literal (param \""@ + key
        + "\"))))\n"@;
    assert(none + before + behind =~= socket_rules(n));
    lemma_holds_between(none, before, behind);
}

proof fn lemma_socket_last(n: nat)
    requires
        n > 0,
    ensures
        text_holds(
            socket_rules(n),
            "(allow network-bind (local unix-socket (literal (param \""@ + socket_key(n - 1)
                + "\"))))"@,
        ),
        text_holds(
            socket_rules(n),
            "(allow network-outbound (remote unix-socket (literal (param \""@ + socket_key(n - 1)
                + "\"))))"@,
        ),
{
    let key = socket_key(n - 1);
    let before = socket_rules((n - 1) as nat);
    let end = "\"))))"@;
    assert("\"))))\n"@ =~= end + "\n"@) by {
        reveal_strlit("\"))))\n");
        reveal_strlit("\"))))");
        reveal_strlit("\n");
    }
    let bind = "(allow network-bind (local unix-socket (literal (param \""@;
    let outbound = "(allow network-outbound (remote unix-socket (literal (param \""@;
    let first = bind + key + end;
    let second = outbound + key + end;
    let behind = "\n"@ + second + "\n"@;
    assert(before + first + behind =~= socket_rules(n));
    lemma_holds_between(before, first, behind);
    let ahead = before + first + "\n"@;
    assert(ahead + second + "\n"@ =~= socket_rules(n));
    lemma_holds_between(ahead, second, "\n"@);
}

proof fn lemma_socket_rules(n: nat, i: int)
    requires
        0 <= i < n,
    ensures
        text_holds(
            socket_rules(n),
            "(allow network-bind (local unix-socket (literal (param \""@ + socket_key(i)
                + "\"))))"@,
        ),
        text_holds(
            socket_rules(n),
            "(allow network-outbound (remote unix-socket (literal (param \""@ + socket_key(i)
                + "\"))))"@,
        ),
    decreases n,
{
    if i == n - 1 {
        lemma_socket_last(n);
    } else {
        let before = socket_rules((n - 1) as nat);
        lemma_socket_rules((n - 1) as nat, i);
        lemma_socket_front(n);
        lemma_holds_through(
            socket_rules(n),
            before,
            "(allow network-bind (local unix-socket (literal (param \""@ + socket_key(i)
                + "\"))))"@,
        );
        lemma_holds_through(
            socket_rules(n),
            before,
            "(allow network-outbound (remote unix-socket (literal (param \""@ + socket_key(i)
                + "\"))))"@,
        );
    }
}

/// The network part of a profile is what the network mode asks for: nothing where it is
/// blocked, local addresses alone for loopback, and for a proxy its port on the local
/// machine, with local addresses exactly where binding is allowed.
pub proof fn networks_are_written_out(
    cwd: Seq<char>,
    rights: Seq<Right>,
    denies: Seq<Deny>,
    network: NetworkRequest,
)
    ensures
        network_policy(cwd, rights, denies, network) matches Ok((text, parameters)) ==> {
            let bind = "(allow network-bind (local ip \"localhost:*\"))"@;
            let inbound = "(allow network-inbound (local ip \"localhost:*\"))"@;
            let outbound = "(allow network-outbound (remote ip \"localhost:*\"))"@;
            match network {
                NetworkRequest::Blocked => text.len() == 0 && parameters.len() == 0,
                NetworkRequest::Loopback => text_holds(text, bind) && text_holds(text, inbound)
                    && text_holds(text, outbound),
                NetworkRequest::Proxy { tcp_port, allow_local_binding, .. } => {
                    let proxy = "(allow network-outbound (remote ip \"localhost:"@ + decimal(
                        tcp_port as nat,
                    ) + "\"))"@;
                    &&& text_holds(text, proxy)
                    &&& allow_local_binding ==> text_holds(text, bind) && text_holds(text, inbound)
                        && text_holds(text, outbound)
                    &&& !allow_local_binding ==> text == proxy && parameters.len() == 0
                },
            }
        },
{
    let bind = "(allow network-bind (local ip \"localhost:*\"))"@;
    let inbound = "(allow network-inbound (local ip \"localhost:*\"))"@;
    let outbound = "(allow network-outbound (remote ip \"localhost:*\"))"@;
    let none = Seq::<char>::empty();
    if let Ok(rules) = bind_rules(cwd, rights, denies) {
        let socket = if has_tree(rights) {
            seq!["(allow system-socket (socket-domain AF_UNIX))"@]
        } else {
            Seq::empty()
        };
        let all = seq![bind, inbound, outbound] + socket + rules;
        joined_texts_hold_their_parts(all, "\n"@, 0);
        joined_texts_hold_their_parts(all, "\n"@, 1);
        joined_texts_hold_their_parts(all, "\n"@, 2);
        let local = local_policy(cwd, rights, denies)->Ok_0;
        assert(local == joined_with(all, "\n"@));
        if let NetworkRequest::Proxy { tcp_port, allow_local_binding, .. } = network {
            let proxy = "(allow network-outbound (remote ip \"localhost:"@ + decimal(
                tcp_port as nat,
            ) + "\"))"@;
            let both = local + "\n"@ + proxy;
            lemma_holds_between(none, local, "\n"@ + proxy);
            assert(none + local + ("\n"@ + proxy) =~= both);
            lemma_holds_through(both, local, bind);
            lemma_holds_through(both, local, inbound);
            lemma_holds_through(both, local, outbound);
            lemma_holds_between(local + "\n"@, proxy, none);
            assert(local + "\n"@ + proxy + none =~= both);
        }
    }
    if let NetworkRequest::Proxy { tcp_port, .. } = network {
        let proxy = "(allow network-outbound (remote ip \"localhost:"@ + decimal(tcp_port as nat)
            + "\"))"@;
        lemma_holds_between(none, proxy, none);
        assert(none + proxy + none =~= proxy);
    }
}

/// Where local servers are allowed, sockets may be bound below each writable tree, by a
/// parameter with its path; what a glob that denies writing matches is left out.
pub proof fn local_servers_bind_below_writable_trees(
    cwd: Seq<char>,
    rights: Seq<Right>,
    denies: Seq<Deny>,
    i: int,
)
    requires
        0 <= i < rights.len(),
        rights[i].scope == PathScope::Tree,
        local_policy(cwd, rights, denies) is Ok,
    ensures
        bind_parameters(rights, denies).contains(
            ("LOCAL_UNIX_SOCKET_ROOT_"@ + decimal(i as nat), rights[i].path),
        ),
        exists|filter: Seq<char>|
            {
                &&& #[trigger] text_holds(
                    local_policy(cwd, rights, denies)->Ok_0,
                    "(allow network-bind (local unix-socket (require-all "@ + filter + ")))"@,
                )
                &&& text_holds(
                    filter,
                    root_filter(
                        rights[i],
                        "LOCAL_UNIX_SOCKET_ROOT_"@ + decimal(i as nat),
                        cwd,
                        denies,
                        Access::Write,
                    ),
                )
                &&& forall|d: int, matched: Seq<char>|
                    0 <= d < denies.len() && denies[d].scope == DenyScope::Glob
                        && denies[d].access != DeniedAccess::Read && #[trigger] describes(
                        denies[d],
                        matched,
                    ) ==> text_holds(filter, "(require-not "@ + matched + ")"@)
            },
{
    let rules = bind_rules(cwd, rights, denies)->Ok_0;
    let key = bind_key(i);
    let requirements = glob_requirements(denies)->Ok_0;
    let r = lemma_bind_rules(cwd, rights, denies, i);
    let own = root_filter(rights[i], key, cwd, denies, Access::Write);
    let parts = seq![own] + requirements;
    let filter = joined_with(parts, " "@);
    let socket = if has_tree(rights) {
        seq!["(allow system-socket (socket-domain AF_UNIX))"@]
    } else {
        Seq::empty()
    };
    let all = seq![
        "(allow network-bind (local ip \"localhost:*\"))"@,
        "(allow network-inbound (local ip \"localhost:*\"))"@,
        "(allow network-outbound (remote ip \"localhost:*\"))"@,
    ] + socket + rules;
    let at = 3 + socket.len() + r;
    assert(all[at] == rules[r]);
    joined_texts_hold_their_parts(all, "\n"@, at);
    lemma_bind_rule_text(filter);
    joined_texts_hold_their_parts(parts, " "@, 0);
    assert forall|d: int, matched: Seq<char>|
        0 <= d < denies.len() && denies[d].scope == DenyScope::Glob && denies[d].access
            != DeniedAccess::Read && #[trigger] describes(denies[d], matched) implies text_holds(
        filter,
        "(require-not "@ + matched + ")"@,
    ) by {
        let g = lemma_glob_requirements(denies, d, matched);
        assert(parts[g + 1] == requirements[g]);
        joined_texts_hold_their_parts(parts, " "@, g + 1);
    }
    assert(text_holds(
        local_policy(cwd, rights, denies)->Ok_0,
        "(allow network-bind (local unix-socket (require-all "@ + filter + ")))"@,
    ));
    lemma_bind_parameters(rights, denies, i);
}

proof fn lemma_bind_rule_text(filter: Seq<char>)
    ensures
        "(allow network-bind (local unix-socket "@ + ("(require-all "@ + filter + ")"@) + "))"@
            == "(allow network-bind (local unix-socket (require-all "@ + filter + ")))"@,
{
    reveal_strlit("(allow network-bind (local unix-socket ");
    reveal_strlit("(require-all ");
    reveal_strlit("(allow network-bind (local unix-socket (require-all ");
    reveal_strlit(")");
    reveal_strlit("))");
    reveal_strlit(")))");
    assert("(allow network-bind (local unix-socket (require-all "@
        =~= "(allow network-bind (local unix-socket "@ + "(require-all "@);
    assert(")))"@ =~= ")"@ + "))"@);
    assert("(allow network-bind (local unix-socket "@ + ("(require-all "@ + filter + ")"@) + "))"@
        =~= "(allow network-bind (local unix-socket (require-all "@ + filter + ")))"@);
}

proof fn lemma_glob_requirements(denies: Seq<Deny>, d: int, matched: Seq<char>) -> (g: int)
    requires
        0 <= d < denies.len(),
        denies[d].scope == DenyScope::Glob,
        denies[d].access != DeniedAccess::Read,
        describes(denies[d], matched),
        glob_requirements(denies) is Ok,
    ensures
        0 <= g < glob_requirements(denies)->Ok_0.len(),
        glob_requirements(denies)->Ok_0[g] == "(require-not "@ + matched + ")"@,
    decreases denies.len(),
{
    let front = denies.drop_last();
    if d < front.len() {
        lemma_glob_requirements(front, d, matched)
    } else {
        lemma_describes(denies[d], matched);
        glob_requirements(denies)->Ok_0.len() - 1
    }
}

proof fn lemma_bind_rules(cwd: Seq<char>, rights: Seq<Right>, denies: Seq<Deny>, i: int) -> (r: int)
    requires
        0 <= i < rights.len(),
        rights[i].scope == PathScope::Tree,
        bind_rules(cwd, rights, denies) is Ok,
    ensures
        glob_requirements(denies) is Ok,
        0 <= r < bind_rules(cwd, rights, denies)->Ok_0.len(),
        bind_rules(cwd, rights, denies)->Ok_0[r] == "(allow network-bind (local unix-socket "@
            + bind_filter(rights[i], bind_key(i), cwd, denies)->Ok_0 + "))"@,
    decreases rights.len(),
{
    if i < rights.len() - 1 {
        lemma_bind_rules(cwd, rights.drop_last(), denies, i)
    } else {
        bind_rules(cwd, rights, denies)->Ok_0.len() - 1
    }
}

proof fn lemma_bind_parameters(rights: Seq<Right>, denies: Seq<Deny>, i: int)
    requires
        0 <= i < rights.len(),
        rights[i].scope == PathScope::Tree,
    ensures
        bind_parameters(rights, denies).contains((bind_key(i), rights[i].path)),
    decreases rights.len(),
{
    let all = bind_parameters(rights, denies);
    let before = bind_parameters(rights.drop_last(), denies);
    if i < rights.len() - 1 {
        lemma_bind_parameters(rights.drop_last(), denies, i);
        let own = (bind_key(i), rights[i].path);
        let k = choose|k: int| 0 <= k < before.len() && before[k] == own;
        assert(all[k] == own);
    } else {
        assert(all[before.len() as int] == (bind_key(i), rights[i].path));
    }
}

/// The expression of everything below the workspace that has a component of a name.
pub open spec fn control_expression(cwd: Seq<char>, name: Seq<char>) -> Seq<char> {
    let prefix = escaped(without_slashes(cwd));
    (if prefix == "/"@ {
        "^/(.*/)?"@
    } else {
        "^"@ + prefix + "/(.*/)?"@
    }) + escaped(name) + "(/.*)?$"@
}

/// Whether a right to write can reach what is called by a name in the workspace and does
/// not lift its protection.
pub open spec fn is_held_back(right: Right, cwd: Seq<char>, name: Seq<char>) -> bool {
    &&& name == ".pi"@ || name == ".git"@ && !(right.approved && (right.scope == PathScope::File
        || file_name_of(right.path) == Some(".git"@)))
    &&& match right.scope {
        PathScope::Tree => lies_under(cwd, right.path) || lies_under(right.path, cwd),
        PathScope::File => lies_under(right.path, cwd) && components(right.path).skip(
            components(cwd).len() as int,
        ).contains(name),
    }
}

/// Whether a requirement leaves a carved-out path of a right out.
pub open spec fn carves_out(key: Seq<char>, e: int, requirement: Seq<char>) -> bool {
    let name = key + "_EXCLUDED_"@ + decimal(e as nat);
    ||| requirement == "(require-not (literal (param \""@ + name + "\")))"@
    ||| requirement == "(require-not (subpath (param \""@ + name + "\")))"@
}

/// Whether a requirement narrows a right for a reason: it leaves out a carved-out path,
/// or, to write, a control directory.
pub open spec fn has_to_be(
    right: Right,
    key: Seq<char>,
    cwd: Seq<char>,
    denies: Seq<Deny>,
    access: Access,
    requirement: Seq<char>,
) -> bool {
    ||| exists|e: int|
        0 <= e < root_parameters(right, key, denies, access).len() && #[trigger] carves_out(
            key,
            e,
            requirement,
        )
    ||| access == Access::Write && exists|name: Seq<char>| #[trigger]
        is_held_back(right, cwd, name) && requirement == "(require-not (regex #\""@ + quoted(
            control_expression(cwd, name),
        ) + "\"))"@
}

/// A right is narrowed only where it has to be: its filter asks for its path, that no
/// carved-out path is meant, and, to write, that no control directory is meant that it
/// can reach and whose protection it does not lift; and for nothing else.
pub proof fn rights_are_narrowed_only_where_they_have_to_be(
    right: Right,
    key: Seq<char>,
    cwd: Seq<char>,
    denies: Seq<Deny>,
    access: Access,
) -> (all: Seq<Seq<char>>)
    ensures
        all.len() > 0,
        root_filter(right, key, cwd, denies, access) == (if right.scope == PathScope::File
            && all.len() == 1 {
            all[0]
        } else {
            "(require-all "@ + joined_with(all, " "@) + ")"@
        }),
        all[0] == (match right.scope {
            PathScope::File => "(literal (param \""@ + key + "\"))"@,
            PathScope::Tree => "(require-any (literal (param \""@ + key
                + "\")) (subpath (param \""@ + key + "\")))"@,
        }),
        forall|k: int|
            1 <= k < all.len() ==> has_to_be(right, key, cwd, denies, access, #[trigger] all[k]),
{
    let controls = control_requirements(right, cwd, access);
    let excluded = carved_out(denies, right.path, access);
    let kept_out = excluded_requirements(key, excluded.len());
    let first = match right.scope {
        PathScope::File => "(literal (param \""@ + key + "\"))"@,
        PathScope::Tree => "(require-any (literal (param \""@ + key + "\")) (subpath (param \""@
            + key + "\")))"@,
    };
    let middle = match right.scope {
        PathScope::File => Seq::<Seq<char>>::empty(),
        PathScope::Tree => kept_out,
    };
    let all = seq![first] + middle + controls;
    if right.scope == PathScope::File {
        assert(all =~= seq![first] + controls);
    }
    reveal_strlit(".pi");
    reveal_strlit(".git");
    assert(".pi"@.len() != ".git"@.len());
    assert forall|k: int| 1 <= k < all.len() implies has_to_be(
        right,
        key,
        cwd,
        denies,
        access,
        #[trigger] all[k],
    ) by {
        if k < 1 + middle.len() {
            assert(all[k] == kept_out[k - 1]);
            let e = lemma_excluded_comes_from(key, excluded.len(), k - 1);
            assert(root_parameters(right, key, denies, access).len() == excluded.len());
            assert(carves_out(key, e, all[k]));
        } else {
            let c = k - 1 - middle.len();
            assert(all[k] == controls[c]);
            if controls[c] == control_requirement(cwd, ".pi"@) && meets_controls(
                right,
                cwd,
                access,
                ".pi"@,
            ) {
                assert(is_held_back(right, cwd, ".pi"@));
            } else {
                assert(controls[c] == control_requirement(cwd, ".git"@));
                assert(is_held_back(right, cwd, ".git"@));
            }
        }
    }
    all
}

proof fn lemma_excluded_comes_from(key: Seq<char>, n: nat, k: int) -> (e: int)
    requires
        0 <= k < excluded_requirements(key, n).len(),
    ensures
        0 <= e < n,
        carves_out(key, e, excluded_requirements(key, n)[k]),
    decreases n,
{
    if n > 0 {
        let before = excluded_requirements(key, (n - 1) as nat);
        if k < before.len() {
            lemma_excluded_comes_from(key, (n - 1) as nat, k)
        } else {
            n - 1
        }
    } else {
        0
    }
}

/// The text that allows an access to several rights: nothing where there is none.
pub open spec fn allowing(action: Seq<char>, filters: Seq<Seq<char>>) -> Seq<char> {
    if filters.len() == 0 {
        Seq::empty()
    } else {
        "(allow "@ + action + "\n"@ + joined_with(filters, "\n"@) + "\n)"@
    }
}

/// A profile is its parts and nothing else, in order: the fixed part, one rule that
/// allows to read with a filter for each right, one that allows to write with a filter
/// for each right to write, the denies, the sockets and the network.
pub proof fn profiles_are_their_parts(
    base_policy: Seq<char>,
    command: Seq<Seq<char>>,
    cwd: Seq<char>,
    rights: Seq<Right>,
    denies: Seq<Deny>,
    sockets: Seq<Seq<char>>,
    network: NetworkRequest,
) -> (filters: (Seq<Seq<char>>, Seq<Seq<char>>))
    requires
        sandbox_arguments(base_policy, command, cwd, rights, denies, sockets, network) is Ok,
    ensures
        ({
            let arguments = sandbox_arguments(
                base_policy,
                command,
                cwd,
                rights,
                denies,
                sockets,
                network,
            )->Ok_0;
            let writable = write_rights(rights);
            let line = "\n"@;
            &&& filters.0.len() == rights.len()
            &&& filters.1.len() == writable.len()
            &&& forall|i: int|
                0 <= i < rights.len() ==> #[trigger] filters.0[i] == root_filter(
                    rights[i],
                    "READABLE_ROOT_"@ + decimal(i as nat),
                    cwd,
                    denies,
                    Access::Read,
                )
            &&& forall|i: int|
                0 <= i < writable.len() ==> #[trigger] filters.1[i] == root_filter(
                    writable[i],
                    "WRITABLE_ROOT_"@ + decimal(i as nat),
                    cwd,
                    denies,
                    Access::Write,
                )
            &&& arguments[1] == base_policy + line + allowing("file-read*"@, filters.0) + line
                + allowing("file-write*"@, filters.1) + line + deny_policy(denies)->Ok_0 + (line
                + socket_policy(sockets) + line + network_policy(
                cwd,
                writable,
                denies,
                network,
            )->Ok_0.0)
        }),
{
    let writable = write_rights(rights);
    let first = root_filters("READABLE_ROOT"@, cwd, rights, denies, Access::Read);
    let second = root_filters("WRITABLE_ROOT"@, cwd, writable, denies, Access::Write);
    file_denies_follow_file_rights(base_policy, command, cwd, rights, denies, sockets, network);
    assert forall|i: int| 0 <= i < rights.len() implies #[trigger] first[i] == root_filter(
        rights[i],
        "READABLE_ROOT_"@ + decimal(i as nat),
        cwd,
        denies,
        Access::Read,
    ) by {
        lemma_key("READABLE_ROOT"@, "READABLE_ROOT_"@, i);
    }
    assert forall|i: int| 0 <= i < writable.len() implies #[trigger] second[i] == root_filter(
        writable[i],
        "WRITABLE_ROOT_"@ + decimal(i as nat),
        cwd,
        denies,
        Access::Write,
    ) by {
        lemma_key("WRITABLE_ROOT"@, "WRITABLE_ROOT_"@, i);
    }
    let read = access_policy("file-read*"@, "READABLE_ROOT"@, cwd, rights, denies, Access::Read);
    let write = access_policy(
        "file-write*"@,
        "WRITABLE_ROOT"@,
        cwd,
        writable,
        denies,
        Access::Write,
    );
    assert(read == allowing("file-read*"@, first));
    assert(write == allowing("file-write*"@, second));
    (first, second)
}

/// Whether a parameter is that of a right, or of a path that is carved out of it.
pub open spec fn is_root_parameter(
    parameter: Parameter,
    start: Seq<char>,
    rights: Seq<Right>,
    denies: Seq<Deny>,
    access: Access,
) -> bool {
    exists|i: int|
        {
            let key = start + decimal(i as nat);
            &&& 0 <= i < rights.len()
            &&& parameter == (key, (#[trigger] rights[i]).path) || root_parameters(
                rights[i],
                key,
                denies,
                access,
            ).contains(parameter)
        }
}

proof fn lemma_only_root_parameters(
    prefix: Seq<char>,
    start: Seq<char>,
    rights: Seq<Right>,
    denies: Seq<Deny>,
    access: Access,
    p: int,
)
    requires
        prefix == "READABLE_ROOT"@ && start == "READABLE_ROOT_"@ || prefix == "WRITABLE_ROOT"@
            && start == "WRITABLE_ROOT_"@,
        0 <= p < all_root_parameters(prefix, rights, denies, access).len(),
    ensures
        is_root_parameter(
            all_root_parameters(prefix, rights, denies, access)[p],
            start,
            rights,
            denies,
            access,
        ),
    decreases rights.len(),
{
    let all = all_root_parameters(prefix, rights, denies, access);
    let front = rights.drop_last();
    let before = all_root_parameters(prefix, front, denies, access);
    let n = front.len() as int;
    lemma_key(prefix, start, n);
    if p < before.len() {
        lemma_only_root_parameters(prefix, start, front, denies, access, p);
        assert(all[p] == before[p]);
        let i = choose|i: int|
            {
                let key = start + decimal(i as nat);
                &&& 0 <= i < front.len()
                &&& before[p] == (key, (#[trigger] front[i]).path) || root_parameters(
                    front[i],
                    key,
                    denies,
                    access,
                ).contains(before[p])
            };
        assert(rights[i] == front[i]);
    } else {
        let own = root_parameters(rights.last(), start + decimal(n as nat), denies, access);
        assert(rights[n] == rights.last());
        if p > before.len() {
            assert(all[p] == own[p - before.len() - 1]);
            assert(own.contains(all[p]));
        }
    }
}

/// The parameters of a sandbox are those of its rights, of what is carved out of them,
/// of its sockets and of its network, and no others.
pub proof fn sandboxes_have_no_other_parameters(
    base_policy: Seq<char>,
    command: Seq<Seq<char>>,
    cwd: Seq<char>,
    rights: Seq<Right>,
    denies: Seq<Deny>,
    sockets: Seq<Seq<char>>,
    network: NetworkRequest,
    a: int,
) -> (parameter: Parameter)
    requires
        sandbox_arguments(base_policy, command, cwd, rights, denies, sockets, network) is Ok,
        2 <= a < sandbox_arguments(
            base_policy,
            command,
            cwd,
            rights,
            denies,
            sockets,
            network,
        )->Ok_0.len() - command.len() - 1,
    ensures
        sandbox_arguments(base_policy, command, cwd, rights, denies, sockets, network)->Ok_0[a]
            == "-D"@ + parameter.0 + "="@ + parameter.1,
        ({
            let writable = write_rights(rights);
            ||| is_root_parameter(parameter, "READABLE_ROOT_"@, rights, denies, Access::Read)
            ||| is_root_parameter(parameter, "WRITABLE_ROOT_"@, writable, denies, Access::Write)
            ||| exists|i: int|
                0 <= i < sockets.len() && parameter == ("UNIX_SOCKET_PATH_"@ + decimal(
                    i as nat,
                ), #[trigger] sockets[i])
            ||| network_policy(cwd, writable, denies, network)->Ok_0.1.contains(parameter)
        }),
{
    let writable = write_rights(rights);
    let arguments = sandbox_arguments(
        base_policy,
        command,
        cwd,
        rights,
        denies,
        sockets,
        network,
    )->Ok_0;
    let first = all_root_parameters("READABLE_ROOT"@, rights, denies, Access::Read);
    let second = all_root_parameters("WRITABLE_ROOT"@, writable, denies, Access::Write);
    let third = socket_parameters(sockets);
    let fourth = network_policy(cwd, writable, denies, network)->Ok_0.1;
    let all = first + second + third + fourth;
    let p = a - 2;
    assert(arguments[a] == parameter_arguments(all)[p]);
    let parameter = all[p];
    if p < first.len() {
        lemma_only_root_parameters(
            "READABLE_ROOT"@,
            "READABLE_ROOT_"@,
            rights,
            denies,
            Access::Read,
            p,
        );
    } else if p < first.len() + second.len() {
        lemma_only_root_parameters(
            "WRITABLE_ROOT"@,
            "WRITABLE_ROOT_"@,
            writable,
            denies,
            Access::Write,
            p - first.len(),
        );
    } else if p < first.len() + second.len() + third.len() {
        let i = p - first.len() - second.len();
        assert(parameter == third[i]);
        assert(third[i] == (socket_key(i), sockets[i]));
    } else {
        let i = p - first.len() - second.len() - third.len();
        assert(parameter == fourth[i]);
    }
    parameter
}

/// Where local servers are allowed, the profile says so for local addresses and for
/// sockets below writable trees, and for nothing else.
pub proof fn local_servers_are_all_that_is_allowed(
    cwd: Seq<char>,
    rights: Seq<Right>,
    denies: Seq<Deny>,
) -> (lines: Seq<Seq<char>>)
    requires
        local_policy(cwd, rights, denies) is Ok,
    ensures
        local_policy(cwd, rights, denies)->Ok_0 == joined_with(lines, "\n"@),
        forall|k: int|
            0 <= k < lines.len() ==> {
                ||| #[trigger] lines[k] == "(allow network-bind (local ip \"localhost:*\"))"@
                ||| lines[k] == "(allow network-inbound (local ip \"localhost:*\"))"@
                ||| lines[k] == "(allow network-outbound (remote ip \"localhost:*\"))"@
                ||| lines[k] == "(allow system-socket (socket-domain AF_UNIX))"@ && exists|i: int|
                    0 <= i < rights.len() && (#[trigger] rights[i]).scope == PathScope::Tree
                ||| exists|i: int, filter: Seq<char>|
                    0 <= i < rights.len() && (#[trigger] rights[i]).scope == PathScope::Tree
                        && lines[k] == "(allow network-bind (local unix-socket "@ + filter
                        + "))"@ && #[trigger] text_holds(
                        filter,
                        root_filter(
                            rights[i],
                            "LOCAL_UNIX_SOCKET_ROOT_"@ + decimal(i as nat),
                            cwd,
                            denies,
                            Access::Write,
                        ),
                    )
            },
{
    let network = seq![
        "(allow network-bind (local ip \"localhost:*\"))"@,
        "(allow network-inbound (local ip \"localhost:*\"))"@,
        "(allow network-outbound (remote ip \"localhost:*\"))"@,
    ];
    let socket = if has_tree(rights) {
        seq!["(allow system-socket (socket-domain AF_UNIX))"@]
    } else {
        Seq::empty()
    };
    let rules = bind_rules(cwd, rights, denies)->Ok_0;
    let lines = network + socket + rules;
    assert forall|k: int| 0 <= k < lines.len() implies {
        ||| #[trigger] lines[k] == "(allow network-bind (local ip \"localhost:*\"))"@
        ||| lines[k] == "(allow network-inbound (local ip \"localhost:*\"))"@
        ||| lines[k] == "(allow network-outbound (remote ip \"localhost:*\"))"@
        ||| lines[k] == "(allow system-socket (socket-domain AF_UNIX))"@ && exists|i: int|
            0 <= i < rights.len() && (#[trigger] rights[i]).scope == PathScope::Tree
        ||| exists|i: int, filter: Seq<char>|
            0 <= i < rights.len() && (#[trigger] rights[i]).scope == PathScope::Tree && lines[k]
                == "(allow network-bind (local unix-socket "@ + filter + "))"@ && #[trigger]
                text_holds(
                filter,
                root_filter(
                    rights[i],
                    "LOCAL_UNIX_SOCKET_ROOT_"@ + decimal(i as nat),
                    cwd,
                    denies,
                    Access::Write,
                ),
            )
    } by {
        if k < 3 {
            assert(lines[k] == network[k]);
        } else if k < 3 + socket.len() {
            assert(lines[k] == socket[k - 3]);
        } else {
            let r = k - 3 - socket.len();
            assert(lines[k] == rules[r]);
            let i = lemma_bind_rule_comes_from(cwd, rights, denies, r);
            let filter = bind_filter(rights[i], bind_key(i), cwd, denies)->Ok_0;
            let own = root_filter(rights[i], bind_key(i), cwd, denies, Access::Write);
            let parts = seq![own] + glob_requirements(denies)->Ok_0;
            joined_texts_hold_their_parts(parts, " "@, 0);
            let middle = joined_with(parts, " "@);
            lemma_holds_between("(require-all "@, middle, ")"@);
            lemma_holds_through(filter, middle, own);
            assert(rights[i].scope == PathScope::Tree);
        }
    }
    lines
}

proof fn lemma_bind_rule_comes_from(
    cwd: Seq<char>,
    rights: Seq<Right>,
    denies: Seq<Deny>,
    r: int,
) -> (i: int)
    requires
        bind_rules(cwd, rights, denies) is Ok,
        0 <= r < bind_rules(cwd, rights, denies)->Ok_0.len(),
    ensures
        0 <= i < rights.len(),
        rights[i].scope == PathScope::Tree,
        bind_filter(rights[i], bind_key(i), cwd, denies) is Ok,
        bind_rules(cwd, rights, denies)->Ok_0[r] == "(allow network-bind (local unix-socket "@
            + bind_filter(rights[i], bind_key(i), cwd, denies)->Ok_0 + "))"@,
    decreases rights.len(),
{
    let front = rights.drop_last();
    let before = bind_rules(cwd, front, denies)->Ok_0;
    if r < before.len() {
        lemma_bind_rule_comes_from(cwd, front, denies, r)
    } else {
        rights.len() - 1
    }
}

} // verus!
