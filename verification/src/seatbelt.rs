//! Filesystem policy: the host's own denies, and requested rights and denies
//! resolved against the filesystem.

use vstd::prelude::*;
use vstd::string::*;

use crate::facts::{
    decided, each, lemma_each_step, models, refusal, refused, Decision, Facts, Halt, HaltModel,
    Host,
};
use crate::globs::{seatbelt_regex, seatbelt_regex_for_glob};
use crate::outside::{regex_accepts, regex_error, regex_is_match};
use crate::paths::{
    components, front_of, has_dots, is_absolute, lies_under, path_components, path_front,
    path_has_dots, path_is_absolute, path_join, path_starts_with, paths_equal, pushed, same_path,
};
use crate::protocol::{
    Access, DeniedAccess, DenyRequest, DenyScope, FilesystemDeny, FilesystemRight,
    MissingPathBehavior, PathScope, PolicyRequest, RightRequest, SandboxPolicy,
};
use crate::text::{contains_char, copy_texts, joined, joined4, texts};

verus! {

/// A right whose path was resolved.
#[derive(Debug, PartialEq, Eq)]
pub struct NormalizedRight {
    pub access: Access,
    pub path: String,
    pub scope: PathScope,
    pub approved: bool,
}

/// A deny whose path was resolved; a glob has none.
#[derive(Debug, PartialEq, Eq)]
pub struct NormalizedDeny {
    pub access: DeniedAccess,
    pub pattern: String,
    pub scope: DenyScope,
    pub path: Option<String>,
    pub exempt_roots: Vec<String>,
}

/// The denies that the broker imposes on every command.
#[derive(Debug)]
pub struct HardPolicy {
    pub denies: Vec<NormalizedDeny>,
}

/// A right whose path was resolved.
pub struct Right {
    pub access: Access,
    pub path: Seq<char>,
    pub scope: PathScope,
    pub approved: bool,
}

/// A deny whose path was resolved; a glob has none.
pub struct Deny {
    pub access: DeniedAccess,
    pub pattern: Seq<char>,
    pub scope: DenyScope,
    pub path: Option<Seq<char>>,
    pub exempt_roots: Seq<Seq<char>>,
}

impl View for NormalizedRight {
    type V = Right;

    open spec fn view(&self) -> Right {
        Right {
            access: self.access,
            path: self.path@,
            scope: self.scope,
            approved: self.approved,
        }
    }
}

impl View for NormalizedDeny {
    type V = Deny;

    open spec fn view(&self) -> Deny {
        Deny {
            access: self.access,
            pattern: self.pattern@,
            scope: self.scope,
            path: crate::protocol::text_option(self.path),
            exempt_roots: texts(self.exempt_roots@),
        }
    }
}

impl Clone for NormalizedRight {
    fn clone(&self) -> (copy: NormalizedRight)
        ensures
            copy@ == self@,
    {
        NormalizedRight {
            access: self.access,
            path: self.path.clone(),
            scope: self.scope,
            approved: self.approved,
        }
    }
}

impl Clone for NormalizedDeny {
    fn clone(&self) -> (copy: NormalizedDeny)
        ensures
            copy@ == self@,
    {
        NormalizedDeny {
            access: self.access,
            pattern: self.pattern.clone(),
            scope: self.scope,
            path: crate::protocol::copy_option(&self.path),
            exempt_roots: copy_texts(&self.exempt_roots),
        }
    }
}

/// A copy of a list of denies.
pub fn copy_denies(denies: &Vec<NormalizedDeny>) -> (copy: Vec<NormalizedDeny>)
    ensures
        models(copy@) == models(denies@),
{
    let mut copy: Vec<NormalizedDeny> = Vec::new();
    let mut i: usize = 0;
    while i < denies.len()
        invariant
            i <= denies@.len(),
            models(copy@) == models(denies@).take(i as int),
        decreases denies@.len() - i,
    {
        let ghost before = models(copy@);
        copy.push(denies[i].clone());
        i = i + 1;
        assert(models(copy@) =~= before.push(denies@[i - 1]@));
        assert(models(denies@).take(i as int) =~= before.push(denies@[i - 1]@));
    }
    assert(models(denies@).take(i as int) =~= models(denies@));
    copy
}

/// Whether a path may be resolved at all: absolute, without NUL and without
/// `..` components.
pub open spec fn clean(path: Seq<char>) -> Decision<()> {
    if !is_absolute(path) {
        refusal("path must be absolute: "@ + path)
    } else if path.contains('\0') {
        refusal("path contains NUL"@)
    } else if has_dots(path) {
        refusal("path must not contain . or ..: "@ + path)
    } else {
        Ok(())
    }
}

/// Checks that a path may be resolved at all.
///
/// # Errors
///
/// Refuses a path that is relative, or holds NUL or `..`.
pub fn assert_absolute_clean(path: &str) -> (result: Result<(), Halt>)
    ensures
        decided(result) == clean(path@),
{
    if !path_is_absolute(path) {
        return Err(refused(joined("path must be absolute: ", path)));
    }
    if contains_char(path, '\0') {
        return Err(refused("path contains NUL".to_owned()));
    }
    if path_has_dots(path) {
        return Err(refused(joined("path must not contain . or ..: ", path)));
    }
    Ok(())
}

/// The resolved form of a path that exists.
pub open spec fn existing_path(host: Host, path: Seq<char>) -> Decision<Seq<char>> {
    match clean(path) {
        Err(halt) => Err(halt),
        Ok(_) => match host.path(path) {
            Err(halt) => Err(halt),
            Ok(facts) => match facts.canonical {
                Ok(canonical) => Ok(canonical),
                Err(error) => refusal("cannot canonicalize "@ + path + ": "@ + error),
            },
        },
    }
}

/// The resolved form of a path that exists.
///
/// # Errors
///
/// Refuses an unclean path and one that the host cannot resolve.
pub fn normalize_existing(path: &str, facts: &Facts) -> (result: Result<String, Halt>)
    ensures
        decided(result) == existing_path(facts@, path@),
{
    match assert_absolute_clean(path) {
        Ok(_) => {},
        Err(halt) => {
            return Err(halt);
        },
    }
    let known = match facts.path(path) {
        Ok(known) => known,
        Err(halt) => {
            return Err(halt);
        },
    };
    match &known.canonical {
        Ok(canonical) => Ok(canonical.clone()),
        Err(error) => Err(refused(joined4("cannot canonicalize ", path, ": ", error.as_str()))),
    }
}

/// The text of `path` up to its component `n`, or the whole of it.
pub open spec fn ancestor(path: Seq<char>, n: int) -> Seq<char> {
    if n == components(path).len() {
        path
    } else {
        front_of(path, n)
    }
}

/// How many components the nearest ancestor of `path` that exists has, among
/// those with at most `n`.
pub open spec fn nearest_existing(host: Host, path: Seq<char>, n: int) -> Decision<int>
    decreases n,
{
    match host.path(ancestor(path, n)) {
        Err(halt) => Err(halt),
        Ok(facts) => if facts.is_present() {
            Ok(n)
        } else if n <= 1 {
            refusal("cannot resolve missing path: "@ + path)
        } else {
            nearest_existing(host, path, n - 1)
        },
    }
}

/// `base` with each of `parts` pushed onto it.
pub open spec fn extended(base: Seq<char>, parts: Seq<Seq<char>>) -> Seq<char>
    decreases parts.len(),
{
    if parts.len() == 0 {
        base
    } else {
        pushed(extended(base, parts.drop_last()), parts.last())
    }
}

/// The resolved form of a requested path: that of the path where it exists,
/// else, where it may be missing, that of its nearest existing ancestor with
/// the missing components behind it.
pub open spec fn resolved_path(
    host: Host,
    path: Seq<char>,
    missing: MissingPathBehavior,
) -> Decision<Seq<char>> {
    match clean(path) {
        Err(halt) => Err(halt),
        Ok(_) => match host.path(path) {
            Err(halt) => Err(halt),
            Ok(facts) => if facts.is_present() {
                existing_path(host, path)
            } else if missing == MissingPathBehavior::Reject {
                refusal("path does not exist: "@ + path)
            } else {
                let parts = components(path);
                match nearest_existing(host, path, parts.len() as int) {
                    Err(halt) => Err(halt),
                    Ok(n) => match existing_path(host, ancestor(path, n)) {
                        Err(halt) => Err(halt),
                        Ok(base) => Ok(extended(base, parts.skip(n))),
                    },
                }
            },
        },
    }
}

fn ancestor_text(path: &str, parts: &Vec<String>, n: usize) -> (text: String)
    requires
        texts(parts@) == components(path@),
        n <= parts@.len(),
    ensures
        text@ == ancestor(path@, n as int),
{
    assert(texts(parts@).len() == parts@.len());
    if n == parts.len() {
        path.to_owned()
    } else {
        path_front(path, n)
    }
}

/// The resolved form of a requested path.
///
/// # Errors
///
/// Refuses an unclean path, a missing path that must exist, and a path that the
/// host cannot resolve.
pub fn normalize_path(path: &str, missing: MissingPathBehavior, facts: &Facts) -> (result: Result<
    String,
    Halt,
>)
    ensures
        decided(result) == resolved_path(facts@, path@, missing),
{
    match assert_absolute_clean(path) {
        Ok(_) => {},
        Err(halt) => {
            return Err(halt);
        },
    }
    match facts.path(path) {
        Ok(known) => {
            if known.is_present() {
                return normalize_existing(path, facts);
            }
        },
        Err(halt) => {
            return Err(halt);
        },
    }
    if missing == MissingPathBehavior::Reject {
        return Err(refused(joined("path does not exist: ", path)));
    }
    let parts = path_components(path);
    assert(texts(parts@).len() == parts@.len());
    let mut n: usize = parts.len();
    loop
        invariant
            n <= parts@.len(),
            texts(parts@) == components(path@),
            clean(path@) is Ok,
            facts@.path(path@) is Ok && !facts@.path(path@)->Ok_0.is_present(),
            missing != MissingPathBehavior::Reject,
            nearest_existing(facts@, path@, parts@.len() as int) == nearest_existing(
                facts@,
                path@,
                n as int,
            ),
        ensures
            nearest_existing(facts@, path@, parts@.len() as int) == Ok::<int, HaltModel>(n as int),
        decreases n,
    {
        let text = ancestor_text(path, &parts, n);
        match facts.path(text.as_str()) {
            Ok(known) => {
                if known.is_present() {
                    break ;
                }
            },
            Err(halt) => {
                return Err(halt);
            },
        }
        if n <= 1 {
            return Err(refused(joined("cannot resolve missing path: ", path)));
        }
        n = n - 1;
    }
    let base = ancestor_text(path, &parts, n);
    let mut out = match normalize_existing(base.as_str(), facts) {
        Ok(out) => out,
        Err(halt) => {
            return Err(halt);
        },
    };
    let ghost start = out@;
    let ghost rest = components(path@).skip(n as int);
    let mut i: usize = n;
    assert(rest.take(0) =~= Seq::empty());
    while i < parts.len()
        invariant
            n <= i <= parts@.len(),
            texts(parts@) == components(path@),
            rest == components(path@).skip(n as int),
            out@ == extended(start, rest.take(i - n)),
        decreases parts@.len() - i,
    {
        out = path_join(out.as_str(), parts[i].as_str());
        i = i + 1;
        assert(rest.take(i - n).drop_last() =~= rest.take(i - 1 - n));
        assert(rest.take(i - n).last() == texts(parts@)[i - 1]);
    }
    assert(rest.take(i - n) =~= rest);
    Ok(out)
}

/// A requested right, resolved. An approved right must come out under the path
/// that was approved, and a right on something that exists must fit what it is.
pub open spec fn resolved_right(host: Host, right: RightRequest, approved: bool) -> Decision<Right> {
    if right.access == Access::Read && right.missing_path != MissingPathBehavior::Reject {
        refusal("read rights cannot create a missing path"@)
    } else if (right.scope == PathScope::File && right.missing_path
        == MissingPathBehavior::CreateTree) || (right.scope == PathScope::Tree && right.missing_path
        == MissingPathBehavior::CreateFile) {
        refusal("missing path behavior does not match right scope"@)
    } else {
        match resolved_path(host, right.path, right.missing_path) {
            Err(halt) => Err(halt),
            Ok(path) => if approved && !same_path(path, right.path) {
                refusal(
                    "approved right changed during broker normalization: "@ + right.path + " -> "@
                        + path,
                )
            } else {
                match host.path(path) {
                    Err(halt) => Err(halt),
                    Ok(facts) => if facts.is_present() && right.scope == PathScope::Tree
                        && !facts.is_dir() {
                        refusal("tree right is not a directory: "@ + path)
                    } else if facts.is_present() && right.scope == PathScope::File
                        && facts.is_dir() {
                        refusal("file right is a directory: "@ + path)
                    } else {
                        Ok(Right { access: right.access, path, scope: right.scope, approved })
                    },
                }
            },
        }
    }
}

/// Resolves a requested right.
///
/// # Errors
///
/// Refuses a right whose missing-path behaviour does not fit it, whose path
/// cannot be resolved, that was approved under another path, or whose scope
/// does not fit what the path leads to.
pub fn normalize_right(right: &FilesystemRight, approved: bool, facts: &Facts) -> (result: Result<
    NormalizedRight,
    Halt,
>)
    ensures
        decided(result) == resolved_right(facts@, right@, approved),
{
    if right.access == Access::Read && right.missing_path != MissingPathBehavior::Reject {
        return Err(refused("read rights cannot create a missing path".to_owned()));
    }
    if (right.scope == PathScope::File && right.missing_path == MissingPathBehavior::CreateTree)
        || (right.scope == PathScope::Tree && right.missing_path
        == MissingPathBehavior::CreateFile) {
        return Err(refused("missing path behavior does not match right scope".to_owned()));
    }
    let path = match normalize_path(right.path.as_str(), right.missing_path, facts) {
        Ok(path) => path,
        Err(halt) => {
            return Err(halt);
        },
    };
    if approved && !paths_equal(path.as_str(), right.path.as_str()) {
        return Err(
            refused(
                joined4(
                    "approved right changed during broker normalization: ",
                    right.path.as_str(),
                    " -> ",
                    path.as_str(),
                ),
            ),
        );
    }
    let known = match facts.path(path.as_str()) {
        Ok(known) => known,
        Err(halt) => {
            return Err(halt);
        },
    };
    if known.is_present() {
        if right.scope == PathScope::Tree && !known.is_dir() {
            return Err(refused(joined("tree right is not a directory: ", path.as_str())));
        }
        if right.scope == PathScope::File && known.is_dir() {
            return Err(refused(joined("file right is a directory: ", path.as_str())));
        }
    }
    Ok(NormalizedRight { access: right.access, path, scope: right.scope, approved })
}

/// A requested deny, resolved.
pub open spec fn resolved_deny(host: Host, deny: DenyRequest) -> Decision<Deny> {
    if deny.pattern.contains('\0') {
        refusal("deny pattern contains NUL"@)
    } else if deny.scope == DenyScope::Glob {
        match clean(deny.pattern) {
            Err(halt) => Err(halt),
            Ok(_) => match seatbelt_regex(deny.pattern) {
                Err(error) => refusal(error),
                Ok(_) => Ok(
                    Deny {
                        access: deny.access,
                        pattern: deny.pattern,
                        scope: deny.scope,
                        path: None,
                        exempt_roots: Seq::empty(),
                    },
                ),
            },
        }
    } else {
        match resolved_path(host, deny.pattern, MissingPathBehavior::CreateTree) {
            Err(halt) => Err(halt),
            Ok(path) => Ok(
                Deny {
                    access: deny.access,
                    pattern: path,
                    scope: deny.scope,
                    path: Some(path),
                    exempt_roots: Seq::empty(),
                },
            ),
        }
    }
}

/// Resolves a requested deny.
///
/// # Errors
///
/// Refuses a pattern with NUL, an unclean or untranslatable glob, and a path
/// that cannot be resolved.
pub fn normalize_deny(deny: &FilesystemDeny, facts: &Facts) -> (result: Result<
    NormalizedDeny,
    Halt,
>)
    ensures
        decided(result) == resolved_deny(facts@, deny@),
{
    if contains_char(deny.pattern.as_str(), '\0') {
        return Err(refused("deny pattern contains NUL".to_owned()));
    }
    let none: Vec<String> = Vec::new();
    assert(texts(none@) =~= Seq::empty());
    if deny.scope == DenyScope::Glob {
        match assert_absolute_clean(deny.pattern.as_str()) {
            Ok(_) => {},
            Err(halt) => {
                return Err(halt);
            },
        }
        match seatbelt_regex_for_glob(deny.pattern.as_str()) {
            Ok(_) => {},
            Err(error) => {
                return Err(refused(error));
            },
        }
        return Ok(
            NormalizedDeny {
                access: deny.access,
                pattern: deny.pattern.clone(),
                scope: deny.scope,
                path: None,
                exempt_roots: none,
            },
        );
    }
    let path = match normalize_path(
        deny.pattern.as_str(),
        MissingPathBehavior::CreateTree,
        facts,
    ) {
        Ok(path) => path,
        Err(halt) => {
            return Err(halt);
        },
    };
    Ok(
        NormalizedDeny {
            access: deny.access,
            pattern: path.clone(),
            scope: deny.scope,
            path: Some(path),
            exempt_roots: none,
        },
    )
}

/// Whether a deny of the kind `denied` speaks of an access of the kind `requested`.
pub open spec fn applies_to(denied: DeniedAccess, requested: Access) -> bool {
    match denied {
        DeniedAccess::ReadWrite => true,
        DeniedAccess::Read => requested == Access::Read,
        DeniedAccess::Write => requested == Access::Write,
    }
}

/// Whether a deny of the kind `denied` speaks of an access of the kind `requested`.
pub fn deny_applies_to(denied: DeniedAccess, requested: Access) -> (applies: bool)
    ensures
        applies == applies_to(denied, requested),
{
    match denied {
        DeniedAccess::ReadWrite => true,
        DeniedAccess::Read => requested == Access::Read,
        DeniedAccess::Write => requested == Access::Write,
    }
}

/// Whether `path` is, or lies below, one of `roots`.
pub open spec fn under_any(path: Seq<char>, roots: Seq<Seq<char>>) -> bool {
    exists|i: int| 0 <= i < roots.len() && lies_under(path, #[trigger] roots[i])
}

/// Whether `path` is, or lies below, one of `roots`.
pub fn is_under_any(path: &str, roots: &Vec<String>) -> (found: bool)
    ensures
        found == under_any(path@, texts(roots@)),
{
    let mut i: usize = 0;
    while i < roots.len()
        invariant
            i <= roots@.len(),
            forall|j: int| 0 <= j < i ==> !lies_under(path@, #[trigger] texts(roots@)[j]),
        decreases roots@.len() - i,
    {
        assert(texts(roots@)[i as int] == roots@[i as int]@);
        if path_starts_with(path, roots[i].as_str()) {
            return true;
        }
        i = i + 1;
    }
    false
}

/// What a glob deny makes of a path, given whether its regular expression
/// accepts the path; `None` where there is no such expression.
pub open spec fn glob_hits(accepted: Option<bool>) -> bool {
    accepted == Some(true)
}

/// Whether the regular expression of a glob accepts `path`; `None` where the
/// glob has no expression or the expression does not compile.
pub open spec fn glob_accepts(pattern: Seq<char>, path: Seq<char>) -> Option<bool> {
    match seatbelt_regex(pattern) {
        Err(_) => None,
        Ok(regex) => if regex_error(regex) is Some {
            None
        } else {
            Some(regex_accepts(regex, path))
        },
    }
}

/// Whether a deny covers what a right targets, given what the deny's glob makes
/// of the right's path. A broader right that merely contains a denied tree is
/// not covered: the denied part is carved out of it.
pub open spec fn covered(deny: Deny, right: Right, accepted: Option<bool>) -> bool {
    &&& !under_any(right.path, deny.exempt_roots)
    &&& applies_to(deny.access, right.access)
    &&& match deny.scope {
        DenyScope::File => deny.path is Some && same_path(deny.path->Some_0, right.path),
        DenyScope::Tree => deny.path is Some && lies_under(right.path, deny.path->Some_0),
        DenyScope::Glob => glob_hits(accepted),
    }
}

/// Whether a deny covers what a right targets.
pub open spec fn deny_covers(deny: Deny, right: Right) -> bool {
    covered(deny, right, glob_accepts(deny.pattern, right.path))
}

/// Whether a deny covers what a right targets, given what the deny's glob makes
/// of the right's path.
pub fn deny_covers_right(deny: &NormalizedDeny, right: &NormalizedRight, accepted: Option<bool>) -> (
hit: bool)
    ensures
        hit == covered(deny@, right@, accepted),
{
    if is_under_any(right.path.as_str(), &deny.exempt_roots) {
        return false;
    }
    if !deny_applies_to(deny.access, right.access) {
        return false;
    }
    match deny.scope {
        DenyScope::File => match &deny.path {
            Some(path) => paths_equal(path.as_str(), right.path.as_str()),
            None => false,
        },
        DenyScope::Tree => match &deny.path {
            Some(path) => path_starts_with(right.path.as_str(), path.as_str()),
            None => false,
        },
        DenyScope::Glob => match accepted {
            Some(accepted) => accepted,
            None => false,
        },
    }
}

/// Whether a deny covers what a right targets.
pub fn deny_matches_right(deny: &NormalizedDeny, right: &NormalizedRight) -> (hit: bool)
    ensures
        hit == deny_covers(deny@, right@),
{
    let accepted = if deny.scope == DenyScope::Glob {
        match seatbelt_regex_for_glob(deny.pattern.as_str()) {
            Ok(regex) => regex_is_match(regex.as_str(), right.path.as_str()),
            Err(_) => None,
        }
    } else {
        None
    };
    deny_covers_right(deny, right, accepted)
}

/// Whether one of `denies` covers what a right targets.
pub open spec fn any_covers(denies: Seq<Deny>, right: Right) -> bool {
    exists|i: int| 0 <= i < denies.len() && deny_covers(#[trigger] denies[i], right)
}

/// Whether one of `denies` covers what a right targets.
pub fn any_deny_matches(denies: &Vec<NormalizedDeny>, right: &NormalizedRight) -> (hit: bool)
    ensures
        hit == any_covers(models(denies@), right@),
{
    let mut i: usize = 0;
    while i < denies.len()
        invariant
            i <= denies@.len(),
            forall|j: int| 0 <= j < i ==> !deny_covers(#[trigger] models(denies@)[j], right@),
        decreases denies@.len() - i,
    {
        assert(models(denies@)[i as int] == denies@[i as int]@);
        if deny_matches_right(&denies[i], right) {
            return true;
        }
        i = i + 1;
    }
    false
}

/// A granted right, resolved: never on a device, and never on what a deny covers.
pub open spec fn resolved_grant(host: Host, denies: Seq<Deny>, grant: RightRequest) -> Decision<
    Right,
> {
    match resolved_right(host, grant, true) {
        Err(halt) => Err(halt),
        Ok(right) => if lies_under(right.path, "/dev"@) {
            refusal("approved rights cannot target device paths: "@ + right.path)
        } else if any_covers(denies, right) {
            refusal("approved right conflicts with a deny: "@ + right.path)
        } else {
            Ok(right)
        },
    }
}

fn normalize_grant(grant: &FilesystemRight, denies: &Vec<NormalizedDeny>, facts: &Facts) -> (result:
    Result<NormalizedRight, Halt>)
    ensures
        decided(result) == resolved_grant(facts@, models(denies@), grant@),
{
    let right = match normalize_right(grant, true, facts) {
        Ok(right) => right,
        Err(halt) => {
            return Err(halt);
        },
    };
    if path_starts_with(right.path.as_str(), "/dev") {
        return Err(
            refused(joined("approved rights cannot target device paths: ", right.path.as_str())),
        );
    }
    if any_deny_matches(denies, &right) {
        return Err(refused(joined("approved right conflicts with a deny: ", right.path.as_str())));
    }
    Ok(right)
}

/// How requested denies are resolved.
pub open spec fn deny_step(host: Host) -> spec_fn(DenyRequest) -> Decision<Deny> {
    |deny: DenyRequest| resolved_deny(host, deny)
}

/// How requested base rights are resolved.
pub open spec fn right_step(host: Host) -> spec_fn(RightRequest) -> Decision<Right> {
    |right: RightRequest| resolved_right(host, right, false)
}

/// How grants are resolved.
pub open spec fn grant_step(host: Host, denies: Seq<Deny>) -> spec_fn(RightRequest) -> Decision<
    Right,
> {
    |grant: RightRequest| resolved_grant(host, denies, grant)
}

/// Most rights, and most denies, that a command may have.
pub const MAX_POLICY_ENTRIES: usize = 128;

/// The rights and denies of a request: the host's denies, then the requested
/// ones; the base rights, then the grants that no deny covers.
pub open spec fn resolved_policy(host: Host, policy: PolicyRequest, hard: Seq<Deny>) -> Decision<
    (Seq<Right>, Seq<Deny>),
> {
    match each(policy.denies, deny_step(host)) {
        Err(halt) => Err(halt),
        Ok(requested) => {
            let denies = hard + requested;
            match each(policy.base_rights, right_step(host)) {
                Err(halt) => Err(halt),
                Ok(base) => match each(policy.grants, grant_step(host, denies)) {
                    Err(halt) => Err(halt),
                    Ok(grants) => {
                        let rights = base + grants;
                        if rights.len() > MAX_POLICY_ENTRIES || denies.len() > MAX_POLICY_ENTRIES {
                            refusal("filesystem policy has too many entries"@)
                        } else {
                            Ok((rights, denies))
                        }
                    },
                },
            }
        },
    }
}

/// Resolves all paths of a request and merges in the host's own denies.
///
/// # Errors
///
/// Refuses relative, missing, mismatched, unsafe, or malformed paths, grants
/// that a deny covers, and policies with too many entries.
pub fn normalize_policy(policy: &SandboxPolicy, hard: &HardPolicy, facts: &Facts) -> (result:
    Result<(Vec<NormalizedRight>, Vec<NormalizedDeny>), Halt>)
    ensures
        match result {
            Ok(resolved) => resolved_policy(facts@, policy@, models(hard.denies@)) == Ok::<
                (Seq<Right>, Seq<Deny>),
                HaltModel,
            >((models(resolved.0@), models(resolved.1@))),
            Err(halt) => resolved_policy(facts@, policy@, models(hard.denies@)) == Err::<
                (Seq<Right>, Seq<Deny>),
                HaltModel,
            >(halt@),
        },
{
    let mut denies = copy_denies(&hard.denies);
    let ghost hard_denies = models(hard.denies@);
    let ghost deny_requests = models(policy.denies@);
    let ghost step = deny_step(facts@);
    let mut i: usize = 0;
    assert(deny_requests.take(0) =~= Seq::empty());
    assert(hard_denies + Seq::<Deny>::empty() =~= hard_denies);
    while i < policy.denies.len()
        invariant
            i <= policy.denies@.len(),
            deny_requests == models(policy.denies@),
            step == deny_step(facts@),
            hard_denies == models(hard.denies@),
            each(deny_requests.take(i as int), step) is Ok,
            models(denies@) == hard_denies + each(deny_requests.take(i as int), step)->Ok_0,
        decreases policy.denies@.len() - i,
    {
        proof {
            lemma_each_step(deny_requests, step, i as int);
        }
        let ghost before = models(denies@);
        let deny = match normalize_deny(&policy.denies[i], facts) {
            Ok(deny) => deny,
            Err(halt) => {
                return Err(halt);
            },
        };
        denies.push(deny);
        i = i + 1;
        assert(models(denies@) =~= before.push(deny@));
        assert(models(denies@) =~= hard_denies + each(deny_requests.take(i as int), step)->Ok_0);
    }
    assert(deny_requests.take(i as int) =~= deny_requests);
    let ghost all_denies = models(denies@);

    let mut rights: Vec<NormalizedRight> = Vec::new();
    let ghost base_requests = models(policy.base_rights@);
    let ghost step = right_step(facts@);
    let mut i: usize = 0;
    assert(base_requests.take(0) =~= Seq::empty());
    assert(models(rights@) =~= Seq::empty());
    while i < policy.base_rights.len()
        invariant
            i <= policy.base_rights@.len(),
            base_requests == models(policy.base_rights@),
            step == right_step(facts@),
            all_denies == models(denies@),
            each(models(policy.denies@), deny_step(facts@)) is Ok,
            all_denies == models(hard.denies@) + each(
                models(policy.denies@),
                deny_step(facts@),
            )->Ok_0,
            each(base_requests.take(i as int), step) == Ok::<Seq<Right>, HaltModel>(
                models(rights@),
            ),
        decreases policy.base_rights@.len() - i,
    {
        proof {
            lemma_each_step(base_requests, step, i as int);
        }
        let ghost before = models(rights@);
        let right = match normalize_right(&policy.base_rights[i], false, facts) {
            Ok(right) => right,
            Err(halt) => {
                return Err(halt);
            },
        };
        rights.push(right);
        i = i + 1;
        assert(models(rights@) =~= before.push(right@));
    }
    assert(base_requests.take(i as int) =~= base_requests);
    let ghost base = models(rights@);

    let ghost grant_requests = models(policy.grants@);
    let ghost step = grant_step(facts@, all_denies);
    let mut i: usize = 0;
    assert(grant_requests.take(0) =~= Seq::empty());
    assert(base + Seq::<Right>::empty() =~= base);
    while i < policy.grants.len()
        invariant
            i <= policy.grants@.len(),
            grant_requests == models(policy.grants@),
            step == grant_step(facts@, all_denies),
            all_denies == models(denies@),
            each(models(policy.denies@), deny_step(facts@)) is Ok,
            all_denies == models(hard.denies@) + each(
                models(policy.denies@),
                deny_step(facts@),
            )->Ok_0,
            each(models(policy.base_rights@), right_step(facts@)) == Ok::<Seq<Right>, HaltModel>(
                base,
            ),
            each(grant_requests.take(i as int), step) is Ok,
            models(rights@) == base + each(grant_requests.take(i as int), step)->Ok_0,
        decreases policy.grants@.len() - i,
    {
        proof {
            lemma_each_step(grant_requests, step, i as int);
        }
        let ghost before = models(rights@);
        let right = match normalize_grant(&policy.grants[i], &denies, facts) {
            Ok(right) => right,
            Err(halt) => {
                return Err(halt);
            },
        };
        rights.push(right);
        i = i + 1;
        assert(models(rights@) =~= before.push(right@));
        assert(models(rights@) =~= base + each(grant_requests.take(i as int), step)->Ok_0);
    }
    assert(grant_requests.take(i as int) =~= grant_requests);
    if rights.len() > MAX_POLICY_ENTRIES || denies.len() > MAX_POLICY_ENTRIES {
        return Err(refused("filesystem policy has too many entries".to_owned()));
    }
    Ok((rights, denies))
}

} // verus!
