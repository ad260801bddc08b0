//! Seatbelt profiles: the arguments of `sandbox-exec` for one command.

use vstd::prelude::*;
use vstd::string::*;

use crate::facts::models;
use crate::globs::{seatbelt_regex, seatbelt_regex_for_glob};
use crate::order::{collected, collected_is_a_set, insert_item, Order};
use crate::outside::escaped;
use crate::paths::{
    components, file_name_of, lies_under, path_components, path_depth, path_file_name,
    path_starts_with,
};
use crate::protocol::{Access, DeniedAccess, DenyScope, NetworkRequest, PathScope};
use crate::seatbelt::{
    applies_to, deny_applies_to, Deny, NormalizedDeny, NormalizedRight, Right,
};
use crate::text::{
    chars_of, copy_texts, decimal, decimal_text, join_texts, joined, joined3, joined4, joined5,
    joined_with, replace_char, replaced, same_text, text_of, texts,
};
use crate::validation::ValidatedNetworkPolicy;

verus! {

pub const SANDBOX_EXEC: &'static str = "/usr/bin/sandbox-exec";

/// A profile parameter: its key and its path.
pub type Parameter = (Seq<char>, Seq<char>);

/// Whether an approved right is one on a `.git`, whose protection it lifts. The
/// protection of `.pi` is lifted by no right.
pub open spec fn opens_control(right: Right) -> bool {
    right.approved && file_name_of(right.path) == Some(".git"@)
}

/// Whether an approved right is one on a `.git`, whose protection it lifts.
pub fn is_control_grant(right: &NormalizedRight) -> (opens: bool)
    ensures
        opens == opens_control(right@),
{
    if !right.approved {
        return false;
    }
    match path_file_name(right.path.as_str()) {
        Some(name) => same_text(name.as_str(), ".git"),
        None => false,
    }
}

/// `root` without the separators at its end, the root itself excepted.
pub open spec fn without_slashes(root: Seq<char>) -> Seq<char>
    decreases root.len(),
{
    if root.len() > 1 && root.last() == '/' {
        without_slashes(root.drop_last())
    } else {
        root
    }
}

/// The regular expression of everything that has a component called `name`
/// below `root`.
pub open spec fn protected_regex(root: Seq<char>, name: Seq<char>) -> Seq<char> {
    let prefix = escaped(without_slashes(root));
    if prefix == "/"@ {
        "^/(.*/)?"@ + escaped(name) + "(/.*)?$"@
    } else {
        "^"@ + prefix + "/(.*/)?"@ + escaped(name) + "(/.*)?$"@
    }
}

/// The regular expression of everything that has a component called `name`
/// below `root`.
pub fn protected_name_regex(root: &str, name: &str) -> (regex: String)
    ensures
        regex@ == protected_regex(root@, name@),
{
    let chars = chars_of(root);
    let mut n: usize = chars.len();
    assert(chars@.take(n as int) =~= root@);
    while n > 1 && chars[n - 1] == '/'
        invariant
            n <= chars@.len(),
            without_slashes(chars@.take(n as int)) == without_slashes(root@),
        decreases n,
    {
        n = n - 1;
        assert(chars@.take(n + 1).drop_last() =~= chars@.take(n as int));
    }
    let trimmed = text_of(&chars, 0, n);
    assert(trimmed@ =~= chars@.take(n as int));
    let prefix = regex_lite::escape(trimmed.as_str());
    let name = regex_lite::escape(name);
    if same_text(prefix.as_str(), "/") {
        joined3("^/(.*/)?", name.as_str(), "(/.*)?$")
    } else {
        joined5("^", prefix.as_str(), "/(.*/)?", name.as_str(), "(/.*)?$")
    }
}

/// `text` with a backslash before each double quote.
pub open spec fn quoted(text: Seq<char>) -> Seq<char> {
    replaced(text, '"', "\\\""@)
}

fn quote(text: &str) -> (out: String)
    ensures
        out@ == quoted(text@),
{
    replace_char(text, '"', "\\\"")
}

/// `value` as it is written between double quotes in a profile.
pub open spec fn profile_text(value: Seq<char>) -> Seq<char> {
    quoted(replaced(value, '\\', "\\\\"@))
}

/// `value` as it is written between double quotes in a profile.
pub fn escape_sbpl(value: &str) -> (out: String)
    ensures
        out@ == profile_text(value@),
{
    quote(replace_char(value, '\\', "\\\\").as_str())
}

/// The paths below `root` that `denies` carve out of it for an access.
pub open spec fn denied_below(denies: Seq<Deny>, root: Seq<char>, access: Access) -> Seq<Seq<char>>
    decreases denies.len(),
{
    if denies.len() == 0 {
        Seq::empty()
    } else {
        let before = denied_below(denies.drop_last(), root, access);
        let deny = denies.last();
        if applies_to(deny.access, access) && deny.scope != DenyScope::Glob && deny.path is Some
            && lies_under(deny.path->Some_0, root) {
            before.push(deny.path->Some_0)
        } else {
            before
        }
    }
}

/// The paths that are carved out of a right, in order, each one once.
pub open spec fn carved_out(denies: Seq<Deny>, root: Seq<char>, access: Access) -> Seq<Seq<char>> {
    collected(Order::Path, denied_below(denies, root, access))
}

/// The key of the carved-out path at index `i`.
pub open spec fn excluded_key(key: Seq<char>, i: int) -> Seq<char> {
    key + "_EXCLUDED_"@ + decimal(i as nat)
}

/// The parameters of the carved-out paths.
pub open spec fn excluded_parameters(key: Seq<char>, excluded: Seq<Seq<char>>) -> Seq<Parameter> {
    Seq::new(excluded.len(), |i: int| (excluded_key(key, i), excluded[i]))
}

/// The requirements that keep the first `n` carved-out paths out.
pub open spec fn excluded_requirements(key: Seq<char>, n: nat) -> Seq<Seq<char>>
    decreases n,
{
    if n == 0 {
        Seq::empty()
    } else {
        let name = excluded_key(key, n - 1);
        excluded_requirements(key, (n - 1) as nat).push(
            "(require-not (literal (param \""@ + name + "\")))"@,
        ).push("(require-not (subpath (param \""@ + name + "\")))"@)
    }
}

/// The requirement that keeps control directories called `name` in the
/// workspace out.
pub open spec fn control_requirement(cwd: Seq<char>, name: Seq<char>) -> Seq<char> {
    "(require-not (regex #\""@ + quoted(protected_regex(cwd, name)) + "\"))"@
}

/// Whether a path has a component called `name` below the workspace.
pub open spec fn has_below(path: Seq<char>, cwd: Seq<char>, name: Seq<char>) -> bool {
    lies_under(path, cwd) && components(path).skip(components(cwd).len() as int).contains(name)
}

/// Whether a right can reach control directories called `name` in the workspace: a
/// right to write a tree that meets the workspace, or a file in such a directory.
pub open spec fn meets_controls(
    right: Right,
    cwd: Seq<char>,
    access: Access,
    name: Seq<char>,
) -> bool {
    access == Access::Write && match right.scope {
        PathScope::File => has_below(right.path, cwd, name),
        PathScope::Tree => lies_under(cwd, right.path) || lies_under(right.path, cwd),
    }
}

/// Whether a right lifts the protection of `.git`: a grant of one, or of a file.
pub open spec fn lifts_git(right: Right) -> bool {
    opens_control(right) || (right.approved && right.scope == PathScope::File)
}

/// The requirements that keep the control directories of the workspace out of a
/// right: `.git` unless the right lifts its protection, and `.pi` in any case.
pub open spec fn control_requirements(right: Right, cwd: Seq<char>, access: Access) -> Seq<
    Seq<char>,
> {
    let git = if meets_controls(right, cwd, access, ".git"@) && !lifts_git(right) {
        seq![control_requirement(cwd, ".git"@)]
    } else {
        Seq::empty()
    };
    if meets_controls(right, cwd, access, ".pi"@) {
        git.push(control_requirement(cwd, ".pi"@))
    } else {
        git
    }
}

/// The requirements of a tree right.
pub open spec fn tree_requirements(
    right: Right,
    key: Seq<char>,
    cwd: Seq<char>,
    denies: Seq<Deny>,
    access: Access,
) -> Seq<Seq<char>> {
    let inside = seq![
        "(require-any (literal (param \""@ + key + "\")) (subpath (param \""@ + key + "\")))"@,
    ];
    let kept_out = excluded_requirements(key, carved_out(denies, right.path, access).len());
    inside + kept_out + control_requirements(right, cwd, access)
}

/// The filter of one right.
pub open spec fn root_filter(
    right: Right,
    key: Seq<char>,
    cwd: Seq<char>,
    denies: Seq<Deny>,
    access: Access,
) -> Seq<char> {
    match right.scope {
        PathScope::File => {
            let literal = "(literal (param \""@ + key + "\"))"@;
            let controls = control_requirements(right, cwd, access);
            if controls.len() == 0 {
                literal
            } else {
                "(require-all "@ + joined_with(seq![literal] + controls, " "@) + ")"@
            }
        },
        PathScope::Tree => "(require-all "@ + joined_with(
            tree_requirements(right, key, cwd, denies, access),
            " "@,
        ) + ")"@,
    }
}

/// The parameters of one right's filter beyond its own path.
pub open spec fn root_parameters(
    right: Right,
    key: Seq<char>,
    denies: Seq<Deny>,
    access: Access,
) -> Seq<Parameter> {
    match right.scope {
        PathScope::File => Seq::empty(),
        PathScope::Tree => excluded_parameters(key, carved_out(denies, right.path, access)),
    }
}

fn collect_excluded(denies: &Vec<NormalizedDeny>, root: &str, access: Access) -> (excluded: Vec<
    String,
>)
    ensures
        texts(excluded@) == carved_out(models(denies@), root@, access),
{
    let ghost all = models(denies@);
    let mut excluded: Vec<String> = Vec::new();
    let mut i: usize = 0;
    assert(all.take(0) =~= Seq::empty());
    assert(texts(excluded@) =~= Seq::empty());
    while i < denies.len()
        invariant
            i <= denies@.len(),
            all == models(denies@),
            texts(excluded@) == collected(
                Order::Path,
                denied_below(all.take(i as int), root@, access),
            ),
        decreases denies@.len() - i,
    {
        let ghost below = denied_below(all.take(i as int), root@, access);
        proof {
            collected_is_a_set(Order::Path, below);
        }
        let deny = &denies[i];
        i = i + 1;
        assert(all.take(i as int).drop_last() =~= all.take(i - 1));
        assert(all.take(i as int).last() == deny@);
        if deny_applies_to(deny.access, access) && deny.scope != DenyScope::Glob {
            if let Some(path) = &deny.path {
                if path_starts_with(path.as_str(), root) {
                    insert_item(Order::Path, &mut excluded, path.clone());
                    assert(below.push(path@).drop_last() =~= below);
                }
            }
        }
    }
    assert(all.take(i as int) =~= all);
    excluded
}

fn reaches_below(path: &str, cwd: &str, name: &str) -> (below: bool)
    ensures
        below == has_below(path@, cwd@, name@),
{
    if !path_starts_with(path, cwd) {
        return false;
    }
    let parts = path_components(path);
    assert(texts(parts@).len() == parts@.len());
    let start = path_depth(cwd);
    let ghost rest = components(path@).skip(start as int);
    let mut i: usize = start;
    while i < parts.len()
        invariant
            start <= i <= parts@.len(),
            texts(parts@) == components(path@),
            rest == components(path@).skip(start as int),
            start == components(cwd@).len(),
            lies_under(path@, cwd@),
            forall|j: int| 0 <= j < i - start ==> #[trigger] rest[j] != name@,
        decreases parts@.len() - i,
    {
        assert(rest[i - start] == parts@[i as int]@);
        if same_text(parts[i].as_str(), name) {
            return true;
        }
        i = i + 1;
    }
    false
}

fn reaches_controls(root: &NormalizedRight, cwd: &str, access: Access, name: &str) -> (reaches:
    bool)
    ensures
        reaches == meets_controls(root@, cwd@, access, name@),
{
    access == Access::Write && match root.scope {
        PathScope::File => reaches_below(root.path.as_str(), cwd, name),
        PathScope::Tree => path_starts_with(cwd, root.path.as_str()) || path_starts_with(
            root.path.as_str(),
            cwd,
        ),
    }
}

fn push_control_requirements(
    requirements: &mut Vec<String>,
    root: &NormalizedRight,
    cwd: &str,
    access: Access,
)
    ensures
        texts(final(requirements)@) == texts(old(requirements)@) + control_requirements(
            root@,
            cwd@,
            access,
        ),
{
    let ghost start = texts(requirements@);
    let lifts_git = is_control_grant(root) || (root.approved && root.scope == PathScope::File);
    if reaches_controls(root, cwd, access, ".git") && !lifts_git {
        let git = quote(protected_name_regex(cwd, ".git").as_str());
        requirements.push(joined3("(require-not (regex #\"", git.as_str(), "\"))"));
        assert(texts(requirements@) =~= start.push(control_requirement(cwd@, ".git"@)));
    }
    let ghost before = texts(requirements@);
    if reaches_controls(root, cwd, access, ".pi") {
        let pi = quote(protected_name_regex(cwd, ".pi").as_str());
        requirements.push(joined3("(require-not (regex #\"", pi.as_str(), "\"))"));
        assert(texts(requirements@) =~= before.push(control_requirement(cwd@, ".pi"@)));
    }
    assert(texts(requirements@) =~= start + control_requirements(root@, cwd@, access));
}

/// The filter of one right; the parameters it needs are appended to `params`.
pub fn build_root_requirement(
    root: &NormalizedRight,
    root_key: &str,
    cwd: &str,
    denies: &Vec<NormalizedDeny>,
    access: Access,
    params: &mut Vec<(String, String)>,
) -> (filter: String)
    ensures
        filter@ == root_filter(root@, root_key@, cwd@, models(denies@), access),
        models(final(params)@) == models(old(params)@) + root_parameters(
            root@,
            root_key@,
            models(denies@),
            access,
        ),
{
    let ghost start = models(params@);
    if root.scope == PathScope::File {
        assert(start + Seq::<Parameter>::empty() =~= start);
        let literal = joined3("(literal (param \"", root_key, "\"))");
        let mut requirements: Vec<String> = Vec::new();
        requirements.push(literal.clone());
        assert(texts(requirements@) =~= seq![literal@]);
        push_control_requirements(&mut requirements, root, cwd, access);
        assert(texts(requirements@).len() == requirements@.len());
        if requirements.len() == 1 {
            return literal;
        }
        let joined_requirements = join_texts(&requirements, " ");
        return joined3("(require-all ", joined_requirements.as_str(), ")");
    }
    let mut requirements: Vec<String> = Vec::new();
    requirements.push(
        joined5(
            "(require-any (literal (param \"",
            root_key,
            "\")) (subpath (param \"",
            root_key,
            "\")))",
        ),
    );
    let ghost inside = texts(requirements@);
    let excluded = collect_excluded(denies, root.path.as_str(), access);
    let ghost parameters = excluded_parameters(root_key@, texts(excluded@));
    let mut i: usize = 0;
    assert(inside + excluded_requirements(root_key@, 0) =~= inside);
    assert(start + parameters.take(0) =~= start);
    while i < excluded.len()
        invariant
            i <= excluded@.len(),
            parameters == excluded_parameters(root_key@, texts(excluded@)),
            texts(requirements@) == inside + excluded_requirements(root_key@, i as nat),
            models(params@) == start + parameters.take(i as int),
        decreases excluded@.len() - i,
    {
        let number = decimal_text(i as u64);
        let key = joined3(root_key, "_EXCLUDED_", number.as_str());
        let ghost before = texts(requirements@);
        let ghost params_before = models(params@);
        params.push((key.clone(), excluded[i].clone()));
        requirements.push(joined3("(require-not (literal (param \"", key.as_str(), "\")))"));
        requirements.push(joined3("(require-not (subpath (param \"", key.as_str(), "\")))"));
        let ghost literal = "(require-not (literal (param \""@ + key@ + "\")))"@;
        let ghost subpath = "(require-not (subpath (param \""@ + key@ + "\")))"@;
        assert(texts(requirements@) =~= before.push(literal).push(subpath));
        i = i + 1;
        assert(texts(requirements@) =~= inside + excluded_requirements(root_key@, i as nat));
        assert(parameters[i - 1] == (key@, excluded@[i - 1]@));
        assert(models(params@) =~= params_before.push(parameters[i - 1]));
        assert(parameters.take(i as int) =~= parameters.take(i - 1).push(parameters[i - 1]));
        assert(models(params@) =~= start + parameters.take(i as int));
    }
    assert(texts(excluded@).len() == excluded@.len());
    assert(parameters.take(i as int) =~= parameters);
    let ghost kept_out = texts(requirements@);
    push_control_requirements(&mut requirements, root, cwd, access);
    assert(inside =~= seq![
        "(require-any (literal (param \""@ + root_key@ + "\")) (subpath (param \""@ + root_key@
            + "\")))"@,
    ]);
    assert(texts(requirements@) =~= tree_requirements(
        root@,
        root_key@,
        cwd@,
        models(denies@),
        access,
    ));
    let joined_requirements = join_texts(&requirements, " ");
    joined3("(require-all ", joined_requirements.as_str(), ")")
}

/// The requirements that keep exempt roots out of a glob.
pub open spec fn exempt_requirements(roots: Seq<Seq<char>>) -> Seq<Seq<char>>
    decreases roots.len(),
{
    if roots.len() == 0 {
        Seq::empty()
    } else {
        let root = profile_text(roots.last());
        exempt_requirements(roots.drop_last()).push(
            "(require-not (literal \""@ + root + "\"))"@,
        ).push("(require-not (subpath \""@ + root + "\"))"@)
    }
}

/// The filter of a glob deny, or why there is none.
pub open spec fn glob_filter(deny: Deny) -> Result<Seq<char>, Seq<char>> {
    match seatbelt_regex(deny.pattern) {
        Err(error) => Err(error),
        Ok(regex) => {
            let matched = "(regex #\""@ + quoted(regex) + "\")"@;
            if deny.exempt_roots.len() == 0 {
                Ok(matched)
            } else {
                Ok(
                    "(require-all "@ + joined_with(
                        seq![matched] + exempt_requirements(deny.exempt_roots),
                        " "@,
                    ) + ")"@,
                )
            }
        },
    }
}

/// The filter of a glob deny.
///
/// # Errors
///
/// Fails for a glob that cannot be translated.
pub fn glob_deny_matcher(deny: &NormalizedDeny) -> (filter: Result<String, String>)
    ensures
        crate::facts::text_result(filter) == glob_filter(deny@),
{
    let regex = match seatbelt_regex_for_glob(deny.pattern.as_str()) {
        Ok(regex) => regex,
        Err(error) => {
            return Err(error);
        },
    };
    let matched = joined3("(regex #\"", quote(regex.as_str()).as_str(), "\")");
    if deny.exempt_roots.len() == 0 {
        return Ok(matched);
    }
    let ghost roots = texts(deny.exempt_roots@);
    let mut requirements: Vec<String> = Vec::new();
    requirements.push(matched);
    let ghost first = seq![matched@];
    assert(texts(requirements@) =~= first);
    let mut i: usize = 0;
    assert(roots.take(0) =~= Seq::empty());
    assert(first + exempt_requirements(roots.take(0)) =~= first);
    while i < deny.exempt_roots.len()
        invariant
            i <= deny.exempt_roots@.len(),
            roots == texts(deny.exempt_roots@),
            texts(requirements@) == first + exempt_requirements(roots.take(i as int)),
        decreases deny.exempt_roots@.len() - i,
    {
        let root = escape_sbpl(deny.exempt_roots[i].as_str());
        let ghost before = texts(requirements@);
        requirements.push(joined3("(require-not (literal \"", root.as_str(), "\"))"));
        requirements.push(joined3("(require-not (subpath \"", root.as_str(), "\"))"));
        let ghost literal = "(require-not (literal \""@ + root@ + "\"))"@;
        let ghost subpath = "(require-not (subpath \""@ + root@ + "\"))"@;
        assert(texts(requirements@) =~= before.push(literal).push(subpath));
        i = i + 1;
        assert(roots.take(i as int).drop_last() =~= roots.take(i - 1));
        assert(roots.take(i as int).last() == deny.exempt_roots@[i - 1]@);
        assert(texts(requirements@) =~= first + exempt_requirements(roots.take(i as int)));
    }
    assert(roots.take(i as int) =~= roots);
    let list = join_texts(&requirements, " ");
    Ok(joined3("(require-all ", list.as_str(), ")"))
}

/// The filters that say what one deny is about, or why there are none.
pub open spec fn deny_filters(deny: Deny) -> Result<Seq<Seq<char>>, Seq<char>> {
    let literal = "(literal \""@ + profile_text(deny.pattern) + "\")"@;
    let subpath = "(subpath \""@ + profile_text(deny.pattern) + "\")"@;
    match deny.scope {
        DenyScope::File => Ok(seq![literal]),
        DenyScope::Tree => Ok(seq![literal, subpath]),
        DenyScope::Glob => match glob_filter(deny) {
            Err(error) => Err(error),
            Ok(filter) => Ok(seq![filter]),
        },
    }
}

/// The profile lines that deny an access to what a filter describes.
pub open spec fn filter_lines(access: DeniedAccess, filter: Seq<char>) -> Seq<Seq<char>> {
    let read = "(deny file-read* "@ + filter + ")"@;
    let write = "(deny file-write* "@ + filter + ")"@;
    match access {
        DeniedAccess::Read => seq![read],
        DeniedAccess::Write => seq![write],
        DeniedAccess::ReadWrite => seq![read, write],
    }
}

/// The profile lines that deny an access to what several filters describe.
pub open spec fn all_filter_lines(access: DeniedAccess, filters: Seq<Seq<char>>) -> Seq<Seq<char>>
    decreases filters.len(),
{
    if filters.len() == 0 {
        Seq::empty()
    } else {
        all_filter_lines(access, filters.drop_last()) + filter_lines(access, filters.last())
    }
}

/// The profile lines of all denies, or why there are none.
pub open spec fn deny_lines(denies: Seq<Deny>) -> Result<Seq<Seq<char>>, Seq<char>>
    decreases denies.len(),
{
    if denies.len() == 0 {
        Ok(Seq::empty())
    } else {
        match deny_lines(denies.drop_last()) {
            Err(error) => Err(error),
            Ok(lines) => match deny_filters(denies.last()) {
                Err(error) => Err(error),
                Ok(filters) => Ok(lines + all_filter_lines(denies.last().access, filters)),
            },
        }
    }
}

/// The part of a profile that denies: the lines of all denies in order, each
/// one once.
pub open spec fn deny_policy(denies: Seq<Deny>) -> Result<Seq<char>, Seq<char>> {
    match deny_lines(denies) {
        Err(error) => Err(error),
        Ok(lines) => Ok(joined_with(collected(Order::Text, lines), "\n"@)),
    }
}

proof fn lemma_deny_lines_stay(denies: Seq<Deny>, i: int)
    requires
        0 <= i <= denies.len(),
        deny_lines(denies.take(i)) is Err,
    ensures
        deny_lines(denies) == deny_lines(denies.take(i)),
    decreases denies.len(),
{
    if i == denies.len() {
        assert(denies.take(i) =~= denies);
    } else {
        assert(denies.drop_last().take(i) =~= denies.take(i));
        lemma_deny_lines_stay(denies.drop_last(), i);
    }
}

fn filters_of(deny: &NormalizedDeny) -> (filters: Result<Vec<String>, String>)
    ensures
        match filters {
            Ok(filters) => deny_filters(deny@) == Ok::<Seq<Seq<char>>, Seq<char>>(texts(filters@)),
            Err(error) => deny_filters(deny@) == Err::<Seq<Seq<char>>, Seq<char>>(error@),
        },
{
    let mut filters: Vec<String> = Vec::new();
    if deny.scope == DenyScope::Glob {
        match glob_deny_matcher(deny) {
            Ok(filter) => {
                filters.push(filter);
                assert(texts(filters@) =~= seq![filter@]);
            },
            Err(error) => {
                return Err(error);
            },
        }
    } else {
        let pattern = escape_sbpl(deny.pattern.as_str());
        filters.push(joined3("(literal \"", pattern.as_str(), "\")"));
        let ghost literal = "(literal \""@ + pattern@ + "\")"@;
        assert(texts(filters@) =~= seq![literal]);
        if deny.scope == DenyScope::Tree {
            filters.push(joined3("(subpath \"", pattern.as_str(), "\")"));
            let ghost subpath = "(subpath \""@ + pattern@ + "\")"@;
            assert(texts(filters@) =~= seq![literal, subpath]);
        }
    }
    Ok(filters)
}

fn insert_line(lines: &mut Vec<String>, Ghost(all): Ghost<Seq<Seq<char>>>, line: String)
    requires
        texts(old(lines)@) == collected(Order::Text, all),
    ensures
        texts(final(lines)@) == collected(Order::Text, all.push(line@)),
{
    proof {
        collected_is_a_set(Order::Text, all);
        assert(all.push(line@).drop_last() =~= all);
    }
    insert_item(Order::Text, lines, line);
}

/// The part of a profile that denies.
///
/// # Errors
///
/// Fails for a glob that cannot be translated.
pub fn build_explicit_deny_policy(denies: &Vec<NormalizedDeny>) -> (policy: Result<String, String>)
    ensures
        crate::facts::text_result(policy) == deny_policy(models(denies@)),
{
    let ghost requested = models(denies@);
    let ghost mut all: Seq<Seq<char>> = Seq::empty();
    let mut lines: Vec<String> = Vec::new();
    let mut i: usize = 0;
    assert(requested.take(0) =~= Seq::empty());
    assert(texts(lines@) =~= Seq::empty());
    while i < denies.len()
        invariant
            i <= denies@.len(),
            requested == models(denies@),
            deny_lines(requested.take(i as int)) == Ok::<Seq<Seq<char>>, Seq<char>>(all),
            texts(lines@) == collected(Order::Text, all),
        decreases denies@.len() - i,
    {
        let deny = &denies[i];
        let ghost before = all;
        i = i + 1;
        assert(requested.take(i as int).drop_last() =~= requested.take(i - 1));
        assert(requested.take(i as int).last() == deny@);
        let filters = match filters_of(deny) {
            Ok(filters) => filters,
            Err(error) => {
                proof {
                    lemma_deny_lines_stay(requested, i as int);
                }
                return Err(error);
            },
        };
        let ghost wanted = texts(filters@);
        let mut k: usize = 0;
        assert(wanted.take(0) =~= Seq::empty());
        assert(before + all_filter_lines(deny.access, wanted.take(0)) =~= before);
        while k < filters.len()
            invariant
                k <= filters@.len(),
                wanted == texts(filters@),
                all == before + all_filter_lines(deny.access, wanted.take(k as int)),
                texts(lines@) == collected(Order::Text, all),
            decreases filters@.len() - k,
        {
            let filter = &filters[k];
            let ghost earlier = all;
            if deny.access != DeniedAccess::Write {
                let line = joined3("(deny file-read* ", filter.as_str(), ")");
                insert_line(&mut lines, Ghost(all), line);
                proof {
                    all = all.push(line@);
                }
            }
            if deny.access != DeniedAccess::Read {
                let line = joined3("(deny file-write* ", filter.as_str(), ")");
                insert_line(&mut lines, Ghost(all), line);
                proof {
                    all = all.push(line@);
                }
            }
            k = k + 1;
            assert(all =~= earlier + filter_lines(deny.access, filter@));
            assert(wanted.take(k as int).drop_last() =~= wanted.take(k - 1));
            assert(wanted.take(k as int).last() == filter@);
            assert(all =~= before + all_filter_lines(deny.access, wanted.take(k as int)));
        }
        assert(wanted.take(k as int) =~= wanted);
    }
    assert(requested.take(i as int) =~= requested);
    Ok(join_texts(&lines, "\n"))
}

/// The key of the right at index `i`.
pub open spec fn root_key(prefix: Seq<char>, i: int) -> Seq<char> {
    prefix + "_"@ + decimal(i as nat)
}

/// The filters of several rights.
pub open spec fn root_filters(
    prefix: Seq<char>,
    cwd: Seq<char>,
    rights: Seq<Right>,
    denies: Seq<Deny>,
    access: Access,
) -> Seq<Seq<char>> {
    Seq::new(
        rights.len(),
        |i: int| root_filter(rights[i], root_key(prefix, i), cwd, denies, access),
    )
}

/// The parameters of several rights: of each its path, then what its filter needs.
pub open spec fn all_root_parameters(
    prefix: Seq<char>,
    rights: Seq<Right>,
    denies: Seq<Deny>,
    access: Access,
) -> Seq<Parameter>
    decreases rights.len(),
{
    if rights.len() == 0 {
        Seq::empty()
    } else {
        let key = root_key(prefix, rights.len() - 1);
        all_root_parameters(prefix, rights.drop_last(), denies, access).push(
            (key, rights.last().path),
        ) + root_parameters(rights.last(), key, denies, access)
    }
}

/// The part of a profile that allows an access below several roots.
pub open spec fn access_policy(
    action: Seq<char>,
    prefix: Seq<char>,
    cwd: Seq<char>,
    rights: Seq<Right>,
    denies: Seq<Deny>,
    access: Access,
) -> Seq<char> {
    if rights.len() == 0 {
        Seq::empty()
    } else {
        "(allow "@ + action + "\n"@ + joined_with(
            root_filters(prefix, cwd, rights, denies, access),
            "\n"@,
        ) + "\n)"@
    }
}

/// The part of a profile that allows an access below several roots; the
/// parameters it needs are appended to `params`.
pub fn build_access_policy(
    action: &str,
    prefix: &str,
    cwd: &str,
    roots: &Vec<NormalizedRight>,
    denies: &Vec<NormalizedDeny>,
    access: Access,
    params: &mut Vec<(String, String)>,
) -> (policy: String)
    ensures
        policy@ == access_policy(
            action@,
            prefix@,
            cwd@,
            models(roots@),
            models(denies@),
            access,
        ),
        models(final(params)@) == models(old(params)@) + all_root_parameters(
            prefix@,
            models(roots@),
            models(denies@),
            access,
        ),
{
    let ghost rights = models(roots@);
    let ghost start = models(params@);
    let ghost filters = root_filters(prefix@, cwd@, rights, models(denies@), access);
    let mut components: Vec<String> = Vec::new();
    let mut i: usize = 0;
    assert(rights.take(0) =~= Seq::empty());
    assert(texts(components@) =~= filters.take(0));
    assert(start + Seq::<Parameter>::empty() =~= start);
    while i < roots.len()
        invariant
            i <= roots@.len(),
            rights == models(roots@),
            filters == root_filters(prefix@, cwd@, rights, models(denies@), access),
            texts(components@) == filters.take(i as int),
            models(params@) == start + all_root_parameters(
                prefix@,
                rights.take(i as int),
                models(denies@),
                access,
            ),
        decreases roots@.len() - i,
    {
        let root = &roots[i];
        let number = decimal_text(i as u64);
        let key = joined3(prefix, "_", number.as_str());
        let ghost params_before = models(params@);
        let ghost before = texts(components@);
        params.push((key.clone(), root.path.clone()));
        assert(models(params@) =~= params_before.push((key@, root.path@)));
        let filter = build_root_requirement(root, key.as_str(), cwd, denies, access, params);
        components.push(filter);
        i = i + 1;
        assert(rights.take(i as int).drop_last() =~= rights.take(i - 1));
        assert(rights.take(i as int).last() == root@);
        assert(filters[i - 1] == filter@);
        assert(texts(components@) =~= before.push(filter@));
        assert(filters.take(i as int) =~= filters.take(i - 1).push(filters[i - 1]));
        assert(models(params@) =~= start + all_root_parameters(
            prefix@,
            rights.take(i as int),
            models(denies@),
            access,
        ));
    }
    assert(rights.take(i as int) =~= rights);
    assert(filters.take(i as int) =~= filters);
    assert(texts(components@).len() == components@.len());
    if components.len() == 0 {
        return String::new();
    }
    let list = join_texts(&components, "\n");
    joined5("(allow ", action, "\n", list.as_str(), "\n)")
}

/// The key of the socket path at index `i`.
pub open spec fn socket_key(i: int) -> Seq<char> {
    "UNIX_SOCKET_PATH_"@ + decimal(i as nat)
}

/// The rules of the first `n` socket paths.
pub open spec fn socket_rules(n: nat) -> Seq<char>
    decreases n,
{
    if n == 0 {
        "(allow system-socket (socket-domain AF_UNIX))\n"@
    } else {
        let key = socket_key(n - 1);
        socket_rules((n - 1) as nat)
            + "(allow network-bind (local unix-socket (literal (param \""@ + key + "\"))))\n"@
            + "(allow network-outbound (remote unix-socket (literal (param \""@ + key
            + "\"))))\n"@
    }
}

/// The part of a profile that opens Unix sockets at exact paths.
pub open spec fn socket_policy(roots: Seq<Seq<char>>) -> Seq<char> {
    if roots.len() == 0 {
        Seq::empty()
    } else {
        socket_rules(roots.len())
    }
}

/// The parameters of the socket paths.
pub open spec fn socket_parameters(roots: Seq<Seq<char>>) -> Seq<Parameter> {
    Seq::new(roots.len(), |i: int| (socket_key(i), roots[i]))
}

/// The part of a profile that opens Unix sockets at exact paths; the parameters
/// it needs are appended to `params`.
pub fn build_unix_socket_policy(socket_roots: &Vec<String>, params: &mut Vec<(String, String)>) -> (
policy: String)
    ensures
        policy@ == socket_policy(texts(socket_roots@)),
        models(final(params)@) == models(old(params)@) + socket_parameters(texts(socket_roots@)),
{
    let ghost start = models(params@);
    let ghost parameters = socket_parameters(texts(socket_roots@));
    assert(start + parameters.take(0) =~= start);
    if socket_roots.len() == 0 {
        assert(parameters =~= parameters.take(0));
        return String::new();
    }
    let mut policy = "(allow system-socket (socket-domain AF_UNIX))\n".to_owned();
    let mut i: usize = 0;
    while i < socket_roots.len()
        invariant
            i <= socket_roots@.len(),
            parameters == socket_parameters(texts(socket_roots@)),
            policy@ == socket_rules(i as nat),
            models(params@) == start + parameters.take(i as int),
        decreases socket_roots@.len() - i,
    {
        let number = decimal_text(i as u64);
        let key = joined("UNIX_SOCKET_PATH_", number.as_str());
        let ghost before = models(params@);
        params.push((key.clone(), socket_roots[i].clone()));
        policy.append("(allow network-bind (local unix-socket (literal (param \"");
        policy.append(key.as_str());
        policy.append("\"))))\n");
        policy.append("(allow network-outbound (remote unix-socket (literal (param \"");
        policy.append(key.as_str());
        policy.append("\"))))\n");
        i = i + 1;
        assert(parameters[i - 1] == (key@, socket_roots@[i - 1]@));
        assert(models(params@) =~= before.push(parameters[i - 1]));
        assert(parameters.take(i as int) =~= parameters.take(i - 1).push(parameters[i - 1]));
        assert(models(params@) =~= start + parameters.take(i as int));
    }
    assert(texts(socket_roots@).len() == socket_roots@.len());
    assert(parameters.take(i as int) =~= parameters);
    policy
}

/// The requirements that keep what write globs match out, or why there are none.
pub open spec fn glob_requirements(denies: Seq<Deny>) -> Result<Seq<Seq<char>>, Seq<char>>
    decreases denies.len(),
{
    if denies.len() == 0 {
        Ok(Seq::empty())
    } else {
        match glob_requirements(denies.drop_last()) {
            Err(error) => Err(error),
            Ok(before) => {
                let deny = denies.last();
                if !applies_to(deny.access, Access::Write) || deny.scope != DenyScope::Glob {
                    Ok(before)
                } else {
                    match glob_filter(deny) {
                        Err(error) => Err(error),
                        Ok(filter) => Ok(before.push("(require-not "@ + filter + ")"@)),
                    }
                }
            },
        }
    }
}

/// The filter of the socket paths that may be bound below a right, or why there
/// is none.
pub open spec fn bind_filter(right: Right, key: Seq<char>, cwd: Seq<char>, denies: Seq<Deny>) -> Result<
    Seq<char>,
    Seq<char>,
> {
    match glob_requirements(denies) {
        Err(error) => Err(error),
        Ok(requirements) => Ok(
            "(require-all "@ + joined_with(
                seq![root_filter(right, key, cwd, denies, Access::Write)] + requirements,
                " "@,
            ) + ")"@,
        ),
    }
}

proof fn lemma_glob_requirements_stay(denies: Seq<Deny>, i: int)
    requires
        0 <= i <= denies.len(),
        glob_requirements(denies.take(i)) is Err,
    ensures
        glob_requirements(denies) == glob_requirements(denies.take(i)),
    decreases denies.len(),
{
    if i == denies.len() {
        assert(denies.take(i) =~= denies);
    } else {
        assert(denies.drop_last().take(i) =~= denies.take(i));
        lemma_glob_requirements_stay(denies.drop_last(), i);
    }
}

/// The filter of the socket paths that may be bound below a right; the
/// parameters it needs are appended to `params`.
///
/// # Errors
///
/// Fails for a glob that cannot be translated.
pub fn build_network_root_requirement(
    root: &NormalizedRight,
    root_key: &str,
    cwd: &str,
    denies: &Vec<NormalizedDeny>,
    params: &mut Vec<(String, String)>,
) -> (filter: Result<String, String>)
    ensures
        crate::facts::text_result(filter) == bind_filter(
            root@,
            root_key@,
            cwd@,
            models(denies@),
        ),
        models(final(params)@) == models(old(params)@) + root_parameters(
            root@,
            root_key@,
            models(denies@),
            Access::Write,
        ),
{
    let mut requirements: Vec<String> = Vec::new();
    requirements.push(
        build_root_requirement(root, root_key, cwd, denies, Access::Write, params),
    );
    let ghost first = seq![
        root_filter(root@, root_key@, cwd@, models(denies@), Access::Write),
    ];
    let ghost all = models(denies@);
    let mut i: usize = 0;
    assert(all.take(0) =~= Seq::empty());
    assert(texts(requirements@) =~= first + Seq::<Seq<char>>::empty());
    while i < denies.len()
        invariant
            i <= denies@.len(),
            all == models(denies@),
            models(params@) == models(old(params)@) + root_parameters(
                root@,
                root_key@,
                all,
                Access::Write,
            ),
            glob_requirements(all.take(i as int)) is Ok,
            texts(requirements@) == first + glob_requirements(all.take(i as int))->Ok_0,
        decreases denies@.len() - i,
    {
        let deny = &denies[i];
        let ghost before = texts(requirements@);
        i = i + 1;
        assert(all.take(i as int).drop_last() =~= all.take(i - 1));
        assert(all.take(i as int).last() == deny@);
        if deny_applies_to(deny.access, Access::Write) && deny.scope == DenyScope::Glob {
            match glob_deny_matcher(deny) {
                Ok(filter) => {
                    requirements.push(joined3("(require-not ", filter.as_str(), ")"));
                    let ghost line = "(require-not "@ + filter@ + ")"@;
                    assert(texts(requirements@) =~= before.push(line));
                    assert(texts(requirements@) =~= first + glob_requirements(
                        all.take(i as int),
                    )->Ok_0);
                },
                Err(error) => {
                    proof {
                        lemma_glob_requirements_stay(all, i as int);
                    }
                    return Err(error);
                },
            }
        }
    }
    assert(all.take(i as int) =~= all);
    let list = join_texts(&requirements, " ");
    Ok(joined3("(require-all ", list.as_str(), ")"))
}

/// The key of the writable tree at index `i`.
pub open spec fn bind_key(i: int) -> Seq<char> {
    "LOCAL_UNIX_SOCKET_ROOT_"@ + decimal(i as nat)
}

/// The rules that allow sockets to be bound below writable trees, or why there
/// are none.
pub open spec fn bind_rules(cwd: Seq<char>, rights: Seq<Right>, denies: Seq<Deny>) -> Result<
    Seq<Seq<char>>,
    Seq<char>,
>
    decreases rights.len(),
{
    if rights.len() == 0 {
        Ok(Seq::empty())
    } else {
        match bind_rules(cwd, rights.drop_last(), denies) {
            Err(error) => Err(error),
            Ok(before) => if rights.last().scope != PathScope::Tree {
                Ok(before)
            } else {
                match bind_filter(rights.last(), bind_key(rights.len() - 1), cwd, denies) {
                    Err(error) => Err(error),
                    Ok(filter) => Ok(
                        before.push(
                            "(allow network-bind (local unix-socket "@ + filter + "))"@,
                        ),
                    ),
                }
            },
        }
    }
}

/// The parameters of those rules.
pub open spec fn bind_parameters(rights: Seq<Right>, denies: Seq<Deny>) -> Seq<Parameter>
    decreases rights.len(),
{
    if rights.len() == 0 {
        Seq::empty()
    } else {
        let before = bind_parameters(rights.drop_last(), denies);
        if rights.last().scope != PathScope::Tree {
            before
        } else {
            let key = bind_key(rights.len() - 1);
            before.push((key, rights.last().path)) + root_parameters(
                rights.last(),
                key,
                denies,
                Access::Write,
            )
        }
    }
}

/// Whether there is a writable tree.
pub open spec fn has_tree(rights: Seq<Right>) -> bool {
    exists|i: int| 0 <= i < rights.len() && (#[trigger] rights[i]).scope == PathScope::Tree
}

/// The part of a profile that allows local servers, or why there is none.
pub open spec fn local_policy(cwd: Seq<char>, rights: Seq<Right>, denies: Seq<Deny>) -> Result<
    Seq<char>,
    Seq<char>,
> {
    let network = seq![
        "(allow network-bind (local ip \"localhost:*\"))"@,
        "(allow network-inbound (local ip \"localhost:*\"))"@,
        "(allow network-outbound (remote ip \"localhost:*\"))"@,
    ];
    let socket = if has_tree(rights) {
        seq!["(allow system-socket (socket-domain AF_UNIX))"@]
    } else {
        Seq::empty()
    };
    match bind_rules(cwd, rights, denies) {
        Err(error) => Err(error),
        Ok(rules) => Ok(joined_with(network + socket + rules, "\n"@)),
    }
}

proof fn lemma_bind_rules_stay(cwd: Seq<char>, rights: Seq<Right>, denies: Seq<Deny>, i: int)
    requires
        0 <= i <= rights.len(),
        bind_rules(cwd, rights.take(i), denies) is Err,
    ensures
        bind_rules(cwd, rights, denies) == bind_rules(cwd, rights.take(i), denies),
    decreases rights.len(),
{
    if i == rights.len() {
        assert(rights.take(i) =~= rights);
    } else {
        assert(rights.drop_last().take(i) =~= rights.take(i));
        lemma_bind_rules_stay(cwd, rights.drop_last(), denies, i);
    }
}

fn any_tree(roots: &Vec<NormalizedRight>) -> (found: bool)
    ensures
        found == has_tree(models(roots@)),
{
    let mut i: usize = 0;
    while i < roots.len()
        invariant
            i <= roots@.len(),
            forall|j: int|
                0 <= j < i ==> (#[trigger] models(roots@)[j]).scope != PathScope::Tree,
        decreases roots@.len() - i,
    {
        assert(models(roots@)[i as int] == roots@[i as int]@);
        if roots[i].scope == PathScope::Tree {
            return true;
        }
        i = i + 1;
    }
    false
}

/// The part of a profile that allows local servers; the parameters it needs are
/// appended to `params`.
///
/// # Errors
///
/// Fails for a glob that cannot be translated.
pub fn build_local_network_policy(
    cwd: &str,
    write_roots: &Vec<NormalizedRight>,
    denies: &Vec<NormalizedDeny>,
    params: &mut Vec<(String, String)>,
) -> (policy: Result<String, String>)
    ensures
        crate::facts::text_result(policy) == local_policy(
            cwd@,
            models(write_roots@),
            models(denies@),
        ),
        policy is Ok ==> models(final(params)@) == models(old(params)@) + bind_parameters(
            models(write_roots@),
            models(denies@),
        ),
{
    let ghost rights = models(write_roots@);
    let ghost start = models(params@);
    let mut lines: Vec<String> = Vec::new();
    lines.push("(allow network-bind (local ip \"localhost:*\"))".to_owned());
    lines.push("(allow network-inbound (local ip \"localhost:*\"))".to_owned());
    lines.push("(allow network-outbound (remote ip \"localhost:*\"))".to_owned());
    if any_tree(write_roots) {
        lines.push("(allow system-socket (socket-domain AF_UNIX))".to_owned());
    }
    let ghost network = seq![
        "(allow network-bind (local ip \"localhost:*\"))"@,
        "(allow network-inbound (local ip \"localhost:*\"))"@,
        "(allow network-outbound (remote ip \"localhost:*\"))"@,
    ];
    let ghost socket = if has_tree(rights) {
        seq!["(allow system-socket (socket-domain AF_UNIX))"@]
    } else {
        Seq::empty()
    };
    let ghost first = network + socket;
    assert(texts(lines@) =~= first);
    let mut i: usize = 0;
    assert(rights.take(0) =~= Seq::empty());
    assert(first + Seq::<Seq<char>>::empty() =~= first);
    assert(start + Seq::<Parameter>::empty() =~= start);
    while i < write_roots.len()
        invariant
            i <= write_roots@.len(),
            rights == models(write_roots@),
            bind_rules(cwd@, rights.take(i as int), models(denies@)) is Ok,
            texts(lines@) == first + bind_rules(
                cwd@,
                rights.take(i as int),
                models(denies@),
            )->Ok_0,
            models(params@) == start + bind_parameters(rights.take(i as int), models(denies@)),
        decreases write_roots@.len() - i,
    {
        let root = &write_roots[i];
        let ghost lines_before = texts(lines@);
        let ghost params_before = models(params@);
        assert(rights.take(i + 1).drop_last() =~= rights.take(i as int));
        assert(rights.take(i + 1).last() == root@);
        if root.scope == PathScope::Tree {
            let number = decimal_text(i as u64);
            let key = joined("LOCAL_UNIX_SOCKET_ROOT_", number.as_str());
            params.push((key.clone(), root.path.clone()));
            assert(models(params@) =~= params_before.push((key@, root.path@)));
            match build_network_root_requirement(root, key.as_str(), cwd, denies, params) {
                Ok(filter) => {
                    lines.push(
                        joined3("(allow network-bind (local unix-socket ", filter.as_str(), "))"),
                    );
                    let ghost line = "(allow network-bind (local unix-socket "@ + filter@ + "))"@;
                    assert(texts(lines@) =~= lines_before.push(line));
                },
                Err(error) => {
                    proof {
                        lemma_bind_rules_stay(cwd@, rights, models(denies@), i + 1);
                    }
                    return Err(error);
                },
            }
        }
        i = i + 1;
        assert(texts(lines@) =~= first + bind_rules(
            cwd@,
            rights.take(i as int),
            models(denies@),
        )->Ok_0);
        assert(models(params@) =~= start + bind_parameters(rights.take(i as int), models(denies@)));
    }
    assert(rights.take(i as int) =~= rights);
    Ok(join_texts(&lines, "\n"))
}

/// The rights for writing.
pub open spec fn write_rights(rights: Seq<Right>) -> Seq<Right>
    decreases rights.len(),
{
    if rights.len() == 0 {
        Seq::empty()
    } else if rights.last().access == Access::Write {
        write_rights(rights.drop_last()).push(rights.last())
    } else {
        write_rights(rights.drop_last())
    }
}

/// The rights for writing.
pub fn select_writable(rights: &Vec<NormalizedRight>) -> (writable: Vec<NormalizedRight>)
    ensures
        models(writable@) == write_rights(models(rights@)),
{
    let ghost all = models(rights@);
    let mut writable: Vec<NormalizedRight> = Vec::new();
    let mut i: usize = 0;
    assert(all.take(0) =~= Seq::empty());
    assert(models(writable@) =~= Seq::empty());
    while i < rights.len()
        invariant
            i <= rights@.len(),
            all == models(rights@),
            models(writable@) == write_rights(all.take(i as int)),
        decreases rights@.len() - i,
    {
        let ghost before = models(writable@);
        if rights[i].access == Access::Write {
            writable.push(rights[i].clone());
            assert(models(writable@) =~= before.push(rights@[i as int]@));
        }
        i = i + 1;
        assert(all.take(i as int).drop_last() =~= all.take(i - 1));
        assert(all.take(i as int).last() == rights@[i - 1]@);
    }
    assert(all.take(i as int) =~= all);
    writable
}

/// The part of a profile that speaks of the network, and its parameters.
pub open spec fn network_policy(
    cwd: Seq<char>,
    rights: Seq<Right>,
    denies: Seq<Deny>,
    network: NetworkRequest,
) -> Result<(Seq<char>, Seq<Parameter>), Seq<char>> {
    let local = local_policy(cwd, rights, denies);
    match network {
        NetworkRequest::Blocked => Ok((Seq::empty(), Seq::empty())),
        NetworkRequest::Loopback => match local {
            Err(error) => Err(error),
            Ok(local) => Ok((local, bind_parameters(rights, denies))),
        },
        NetworkRequest::Proxy { tcp_port, unix_socket, allow_local_binding } => {
            let proxy = "(allow network-outbound (remote ip \"localhost:"@ + decimal(
                tcp_port as nat,
            ) + "\"))"@;
            if allow_local_binding {
                match local {
                    Err(error) => Err(error),
                    Ok(local) => Ok((local + "\n"@ + proxy, bind_parameters(rights, denies))),
                }
            } else {
                Ok((proxy, Seq::empty()))
            }
        },
    }
}

fn build_network_policy(
    cwd: &str,
    write_roots: &Vec<NormalizedRight>,
    denies: &Vec<NormalizedDeny>,
    network: &ValidatedNetworkPolicy,
    params: &mut Vec<(String, String)>,
) -> (policy: Result<String, String>)
    ensures
        match policy {
            Ok(policy) => network_policy(cwd@, models(write_roots@), models(denies@), network@)
                is Ok && ({
                let expected = network_policy(
                    cwd@,
                    models(write_roots@),
                    models(denies@),
                    network@,
                )->Ok_0;
                policy@ == expected.0 && models(final(params)@) == models(old(params)@)
                    + expected.1
            }),
            Err(error) => network_policy(cwd@, models(write_roots@), models(denies@), network@)
                == Err::<(Seq<char>, Seq<Parameter>), Seq<char>>(error@),
        },
{
    assert(models(params@) + Seq::<Parameter>::empty() =~= models(params@));
    match network {
        ValidatedNetworkPolicy::Blocked => Ok(String::new()),
        ValidatedNetworkPolicy::Loopback => {
            build_local_network_policy(cwd, write_roots, denies, params)
        },
        ValidatedNetworkPolicy::Proxy { tcp_port, unix_socket: _, allow_local_binding } => {
            let port = decimal_text(*tcp_port as u64);
            let proxy = joined3(
                "(allow network-outbound (remote ip \"localhost:",
                port.as_str(),
                "\"))",
            );
            if *allow_local_binding {
                match build_local_network_policy(cwd, write_roots, denies, params) {
                    Ok(local) => Ok(joined3(local.as_str(), "\n", proxy.as_str())),
                    Err(error) => Err(error),
                }
            } else {
                Ok(proxy)
            }
        },
    }
}

/// The arguments that set parameters.
pub open spec fn parameter_arguments(parameters: Seq<Parameter>) -> Seq<Seq<char>> {
    Seq::new(
        parameters.len(),
        |i: int| "-D"@ + parameters[i].0 + "="@ + parameters[i].1,
    )
}

/// The arguments of `sandbox-exec` for a command, or why there are none.
pub open spec fn sandbox_arguments(
    base_policy: Seq<char>,
    command: Seq<Seq<char>>,
    cwd: Seq<char>,
    rights: Seq<Right>,
    denies: Seq<Deny>,
    sockets: Seq<Seq<char>>,
    network: NetworkRequest,
) -> Result<Seq<Seq<char>>, Seq<char>> {
    if command.len() == 0 {
        Err("command is empty"@)
    } else {
        let writable = write_rights(rights);
        let read = access_policy(
            "file-read*"@,
            "READABLE_ROOT"@,
            cwd,
            rights,
            denies,
            Access::Read,
        );
        let write = access_policy(
            "file-write*"@,
            "WRITABLE_ROOT"@,
            cwd,
            writable,
            denies,
            Access::Write,
        );
        match deny_policy(denies) {
            Err(error) => Err(error),
            Ok(denied) => match network_policy(cwd, writable, denies, network) {
                Err(error) => Err(error),
                Ok((network_rules, network_parameters)) => {
                    let policy = joined_with(
                        seq![
                            base_policy,
                            read,
                            write,
                            denied,
                            socket_policy(sockets),
                            network_rules,
                        ],
                        "\n"@,
                    );
                    let parameters = all_root_parameters(
                        "READABLE_ROOT"@,
                        rights,
                        denies,
                        Access::Read,
                    ) + all_root_parameters("WRITABLE_ROOT"@, writable, denies, Access::Write)
                        + socket_parameters(sockets) + network_parameters;
                    Ok(
                        seq!["-p"@, policy] + parameter_arguments(parameters) + seq!["--"@]
                            + command,
                    )
                },
            },
        }
    }
}

/// Builds arguments for the fixed `/usr/bin/sandbox-exec` binary, with network
/// access blocked.
///
/// # Errors
///
/// Fails if the command is empty or a deny glob cannot be translated.
pub fn build_args(
    base_policy: &str,
    command: &Vec<String>,
    cwd: &str,
    rights: &Vec<NormalizedRight>,
    denies: &Vec<NormalizedDeny>,
    unix_socket_roots: &Vec<String>,
) -> (args: Result<Vec<String>, String>)
    ensures
        match args {
            Ok(args) => sandbox_arguments(
                base_policy@,
                texts(command@),
                cwd@,
                models(rights@),
                models(denies@),
                texts(unix_socket_roots@),
                NetworkRequest::Blocked,
            ) == Ok::<Seq<Seq<char>>, Seq<char>>(texts(args@)),
            Err(error) => sandbox_arguments(
                base_policy@,
                texts(command@),
                cwd@,
                models(rights@),
                models(denies@),
                texts(unix_socket_roots@),
                NetworkRequest::Blocked,
            ) == Err::<Seq<Seq<char>>, Seq<char>>(error@),
        },
{
    build_args_with_network(
        base_policy,
        command,
        cwd,
        rights,
        denies,
        unix_socket_roots,
        &ValidatedNetworkPolicy::Blocked,
    )
}

/// Builds Seatbelt arguments with blocked, local or proxied network access.
///
/// # Errors
///
/// Fails if the command is empty or a deny glob cannot be translated.
pub fn build_args_with_network(
    base_policy: &str,
    command: &Vec<String>,
    cwd: &str,
    rights: &Vec<NormalizedRight>,
    denies: &Vec<NormalizedDeny>,
    unix_socket_roots: &Vec<String>,
    network: &ValidatedNetworkPolicy,
) -> (args: Result<Vec<String>, String>)
    ensures
        match args {
            Ok(args) => sandbox_arguments(
                base_policy@,
                texts(command@),
                cwd@,
                models(rights@),
                models(denies@),
                texts(unix_socket_roots@),
                network@,
            ) == Ok::<Seq<Seq<char>>, Seq<char>>(texts(args@)),
            Err(error) => sandbox_arguments(
                base_policy@,
                texts(command@),
                cwd@,
                models(rights@),
                models(denies@),
                texts(unix_socket_roots@),
                network@,
            ) == Err::<Seq<Seq<char>>, Seq<char>>(error@),
        },
{
    assert(texts(command@).len() == command@.len());
    if command.len() == 0 {
        return Err("command is empty".to_owned());
    }
    let mut params: Vec<(String, String)> = Vec::new();
    assert(models(params@) =~= Seq::empty());
    let write_roots = select_writable(rights);
    let read_policy = build_access_policy(
        "file-read*",
        "READABLE_ROOT",
        cwd,
        rights,
        denies,
        Access::Read,
        &mut params,
    );
    let write_policy = build_access_policy(
        "file-write*",
        "WRITABLE_ROOT",
        cwd,
        &write_roots,
        denies,
        Access::Write,
        &mut params,
    );
    let denied = match build_explicit_deny_policy(denies) {
        Ok(denied) => denied,
        Err(error) => {
            return Err(error);
        },
    };
    let sockets = build_unix_socket_policy(unix_socket_roots, &mut params);
    let network_rules = match build_network_policy(
        cwd,
        &write_roots,
        denies,
        network,
        &mut params,
    ) {
        Ok(rules) => rules,
        Err(error) => {
            return Err(error);
        },
    };
    let ghost parameters = models(params@);
    let mut parts: Vec<String> = Vec::new();
    parts.push(base_policy.to_owned());
    parts.push(read_policy);
    parts.push(write_policy);
    parts.push(denied);
    parts.push(sockets);
    parts.push(network_rules);
    assert(texts(parts@) =~= seq![
        base_policy@,
        read_policy@,
        write_policy@,
        denied@,
        sockets@,
        network_rules@,
    ]);
    let mut args: Vec<String> = Vec::new();
    args.push("-p".to_owned());
    let policy = join_texts(&parts, "\n");
    args.push(policy);
    let ghost first = seq!["-p"@, policy@];
    assert(texts(args@) =~= first);
    let ghost settings = parameter_arguments(parameters);
    let mut i: usize = 0;
    assert(first + settings.take(0) =~= first);
    while i < params.len()
        invariant
            i <= params@.len(),
            parameters == models(params@),
            settings == parameter_arguments(parameters),
            texts(args@) == first + settings.take(i as int),
        decreases params@.len() - i,
    {
        let ghost before = texts(args@);
        assert(parameters[i as int] == params@[i as int]@);
        args.push(joined4("-D", params[i].0.as_str(), "=", params[i].1.as_str()));
        i = i + 1;
        assert(texts(args@) =~= before.push(settings[i - 1]));
        assert(settings.take(i as int) =~= settings.take(i - 1).push(settings[i - 1]));
        assert(texts(args@) =~= first + settings.take(i as int));
    }
    assert(settings.take(i as int) =~= settings);
    let ghost before = texts(args@);
    args.push("--".to_owned());
    assert(texts(args@) =~= before + seq!["--"@]);
    let ghost before = texts(args@);
    let mut rest = copy_texts(command);
    assert(texts(rest@).len() == rest@.len());
    let ghost copied = rest@;
    let ghost args_before = args@;
    args.append(&mut rest);
    assert(args@ == args_before + copied);
    assert(texts(args@) =~= before + texts(copied));
    assert(parameters =~= all_root_parameters(
        "READABLE_ROOT"@,
        models(rights@),
        models(denies@),
        Access::Read,
    ) + all_root_parameters(
        "WRITABLE_ROOT"@,
        models(write_roots@),
        models(denies@),
        Access::Write,
    ) + socket_parameters(texts(unix_socket_roots@)) + network_policy(
        cwd@,
        models(write_roots@),
        models(denies@),
        network@,
    )->Ok_0.1);
    Ok(args)
}

proof fn lemma_join_push(parts: Seq<Seq<char>>, part: Seq<char>, separator: Seq<char>)
    requires
        parts.len() > 0,
    ensures
        joined_with(parts.push(part), separator) == joined_with(parts, separator) + separator
            + part,
{
    assert(parts.push(part).drop_last() =~= parts);
}

proof fn lemma_six_joined(
    a: Seq<char>,
    b: Seq<char>,
    c: Seq<char>,
    d: Seq<char>,
    e: Seq<char>,
    f: Seq<char>,
    line: Seq<char>,
)
    ensures
        joined_with(seq![a, b, c, d, e, f], line) == (a + line + b + line + c) + line + d + (line
            + e + line + f),
{
    let parts = seq![a];
    lemma_join_push(parts, b, line);
    lemma_join_push(parts.push(b), c, line);
    lemma_join_push(parts.push(b).push(c), d, line);
    lemma_join_push(parts.push(b).push(c).push(d), e, line);
    lemma_join_push(parts.push(b).push(c).push(d).push(e), f, line);
    assert(joined_with(parts, line) == a);
    assert(parts.push(b).push(c).push(d).push(e).push(f) =~= seq![a, b, c, d, e, f]);
    let front = a + line + b + line + c + line + d;
    assert(front + line + e + line + f =~= front + (line + e + line + f));
}

/// Denies win: in the profile the rules that deny files stand behind all rules that
/// allow them, and the last rule that applies decides.
pub proof fn file_denies_follow_file_rights(
    base_policy: Seq<char>,
    command: Seq<Seq<char>>,
    cwd: Seq<char>,
    rights: Seq<Right>,
    denies: Seq<Deny>,
    sockets: Seq<Seq<char>>,
    network: NetworkRequest,
)
    ensures
        sandbox_arguments(base_policy, command, cwd, rights, denies, sockets, network) matches Ok(
            arguments,
        ) ==> {
            let read = access_policy(
                "file-read*"@,
                "READABLE_ROOT"@,
                cwd,
                rights,
                denies,
                Access::Read,
            );
            let write = access_policy(
                "file-write*"@,
                "WRITABLE_ROOT"@,
                cwd,
                write_rights(rights),
                denies,
                Access::Write,
            );
            let allowed = base_policy + "\n"@ + read + "\n"@ + write;
            let behind = "\n"@ + socket_policy(sockets) + "\n"@ + network_policy(
                cwd,
                write_rights(rights),
                denies,
                network,
            )->Ok_0.0;
            &&& arguments[0] == "-p"@
            &&& arguments[1] == allowed + "\n"@ + deny_policy(denies)->Ok_0 + behind
        },
{
    if let Ok(arguments) = sandbox_arguments(
        base_policy,
        command,
        cwd,
        rights,
        denies,
        sockets,
        network,
    ) {
        let read = access_policy("file-read*"@, "READABLE_ROOT"@, cwd, rights, denies, Access::Read);
        let write = access_policy(
            "file-write*"@,
            "WRITABLE_ROOT"@,
            cwd,
            write_rights(rights),
            denies,
            Access::Write,
        );
        let denied = deny_policy(denies)->Ok_0;
        let rules = network_policy(cwd, write_rights(rights), denies, network)->Ok_0.0;
        let line = "\n"@;
        lemma_six_joined(base_policy, read, write, denied, socket_policy(sockets), rules, line);
    }
}

/// The requirements of a right.
pub open spec fn right_requirements(
    right: Right,
    key: Seq<char>,
    cwd: Seq<char>,
    denies: Seq<Deny>,
    access: Access,
) -> Seq<Seq<char>> {
    match right.scope {
        PathScope::File => seq!["(literal (param \""@ + key + "\"))"@] + control_requirements(
            right,
            cwd,
            access,
        ),
        PathScope::Tree => tree_requirements(right, key, cwd, denies, access),
    }
}

/// Control directories stay protected: a right to write that can reach them in the
/// workspace, a tree that meets the workspace or a file in such a directory, has the
/// requirement that leaves `.pi` out, whatever right it is, and the one that leaves
/// `.git` out, unless it is a grant of a `.git` or of a file; and its filter asks for
/// all of its requirements.
pub proof fn control_directories_stay_protected(
    right: Right,
    key: Seq<char>,
    cwd: Seq<char>,
    denies: Seq<Deny>,
)
    ensures
        ({
            let all = right_requirements(right, key, cwd, denies, Access::Write);
            &&& meets_controls(right, cwd, Access::Write, ".pi"@) ==> all.contains(
                control_requirement(cwd, ".pi"@),
            )
            &&& meets_controls(right, cwd, Access::Write, ".git"@) && !lifts_git(right)
                ==> all.contains(control_requirement(cwd, ".git"@))
            &&& all.len() > 1 || right.scope == PathScope::Tree ==> root_filter(
                right,
                key,
                cwd,
                denies,
                Access::Write,
            ) == "(require-all "@ + joined_with(all, " "@) + ")"@
        }),
{
    let all = right_requirements(right, key, cwd, denies, Access::Write);
    let controls = control_requirements(right, cwd, Access::Write);
    let before = all.len() - controls.len();
    assert(all.skip(before) =~= controls);
    if meets_controls(right, cwd, Access::Write, ".pi"@) {
        assert(all[before + controls.len() - 1] == control_requirement(cwd, ".pi"@));
    }
    if meets_controls(right, cwd, Access::Write, ".git"@) && !lifts_git(right) {
        assert(all[before] == controls[0]);
        assert(controls[0] == control_requirement(cwd, ".git"@));
    }
}

} // verus!
