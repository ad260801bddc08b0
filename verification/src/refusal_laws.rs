//! With what reason a request is refused, and what is asked for before it is decided.

use vstd::prelude::*;
use vstd::utf8::encode_utf8;

use crate::bubblewrap::{launch_arguments, launch_mounts, Descriptors};
use crate::expansion::scan_start;
use crate::facts::{each, Decision, FileKind, HaltModel, Host, ProbeModel};
use crate::globs::seatbelt_regex;
use crate::hard_policy::{host_denies, HostSettings};
use crate::linux::{launch_plan, LaunchPlan};
use crate::paths::{components, is_absolute, lies_under, parent_of};
use crate::protocol::{
    Access, CommandRequest, DenyRequest, DenyScope, MissingPathBehavior, NetworkRequest, PathScope,
    RightRequest,
};
use crate::request_laws::{fits, the_first_halt_is_told};
use crate::scan::{file_key, walked, ScanState, Search};
use crate::seatbelt::{
    ancestor, any_covers, deny_step, existing_path, grant_step, nearest_existing, resolved_deny,
    resolved_grant, resolved_path, resolved_policy, resolved_right, right_step, Deny,
};
use crate::text::{decimal, is_space};
use crate::validation::{
    argument_step, command_accepted, directory_path, file_path, is_variable_name, resolved_network,
    socket_path, socket_roots, socket_step, text_accepted, total_bytes, validated, variable_bytes,
    variable_step, Validated,
};

verus! {

/// Whether a decision is a refusal for the given reason.
pub open spec fn is_refused_for<T>(decision: Decision<T>, reason: Seq<char>) -> bool {
    decision matches Err(HaltModel::Refused(told)) && told == reason
}

/// Whether a decision asks what a path leads to.
pub open spec fn asks_for<T>(decision: Decision<T>, path: Seq<char>) -> bool {
    decision matches Err(HaltModel::Probe(probes)) && probes == seq![ProbeModel::Path(path)]
}

/// A text that does not fit is refused for its size, or for a NUL.
pub proof fn texts_are_refused_for_their_size_or_a_nul(
    label: Seq<char>,
    text: Seq<char>,
    maximum: usize,
)
    ensures
        encode_utf8(text).len() > maximum ==> is_refused_for(
            text_accepted(label, text, maximum),
            label + " is too large"@,
        ),
        encode_utf8(text).len() <= maximum && text.contains('\0') ==> is_refused_for(
            text_accepted(label, text, maximum),
            label + " contains NUL"@,
        ),
        fits(text, maximum as nat) <==> text_accepted(label, text, maximum) is Ok,
{
}

/// A file, or a directory, is refused for a path that is not absolute, for one that the
/// host cannot resolve, and for being something else; and it is asked for where nothing
/// is known of it.
pub proof fn files_are_refused_for_what_they_are(host: Host, path: Seq<char>, label: Seq<char>)
    ensures
        ({
            let resolved = host.paths[path].canonical->Ok_0;
            let file = file_path(host, path, label);
            let directory = directory_path(host, path, label);
            if path.len() == 0 || path[0] != '/' {
                &&& is_refused_for(file, label + " must be absolute"@)
                &&& is_refused_for(directory, label + " must be absolute"@)
            } else if !host.paths.contains_key(path) {
                asks_for(file, path) && asks_for(directory, path)
            } else if host.paths[path].canonical is Err {
                let reason = "cannot canonicalize "@ + label + " "@ + path + ": "@
                    + host.paths[path].canonical->Err_0;
                is_refused_for(file, reason) && is_refused_for(directory, reason)
            } else if !host.paths.contains_key(resolved) {
                asks_for(file, resolved) && asks_for(directory, resolved)
            } else {
                let target = host.paths[resolved].target;
                &&& target is Ok && target->Ok_0.kind == FileKind::File ==> file == Ok::<
                    Seq<char>,
                    HaltModel,
                >(resolved)
                &&& !(target is Ok && target->Ok_0.kind == FileKind::File) ==> is_refused_for(
                    file,
                    label + " is not a file: "@ + resolved,
                )
                &&& target is Ok && target->Ok_0.kind == FileKind::Directory ==> directory == Ok::<
                    Seq<char>,
                    HaltModel,
                >(resolved)
                &&& !(target is Ok && target->Ok_0.kind == FileKind::Directory) ==> is_refused_for(
                    directory,
                    label + " is not a directory: "@ + resolved,
                )
            }
        }),
{
}

/// A command is refused for the first thing that is wrong with it: its ID, the number of
/// its arguments, its program, its directory, an argument, its variables, or their size
/// together.
pub proof fn commands_are_refused_for_the_first_reason(host: Host, request: CommandRequest)
    ensures
        ({
            let decision = command_accepted(host, request);
            let program = file_path(host, request.program, "program"@);
            let cwd = directory_path(host, request.cwd, "cwd"@);
            if encode_utf8(request.id).len() > 256 {
                is_refused_for(decision, "command ID"@ + " is too large"@)
            } else if request.id.contains('\0') {
                is_refused_for(decision, "command ID"@ + " contains NUL"@)
            } else if forall|i: int|
                0 <= i < request.id.len() ==> is_space(#[trigger] request.id[i]) {
                is_refused_for(decision, "command ID is empty"@)
            } else if request.args.len() > 4_096 {
                is_refused_for(decision, "command has too many arguments"@)
            } else if encode_utf8(request.program).len() > 524_288 {
                is_refused_for(decision, "program"@ + " is too large"@)
            } else if request.program.contains('\0') {
                is_refused_for(decision, "program"@ + " contains NUL"@)
            } else if program is Err {
                decision is Err && decision->Err_0 == program->Err_0
            } else if cwd is Err {
                decision is Err && decision->Err_0 == cwd->Err_0
            } else if each(request.args, argument_step()) is Err {
                ||| is_refused_for(decision, "argument"@ + " is too large"@)
                ||| is_refused_for(decision, "argument"@ + " contains NUL"@)
            } else if request.env.len() > 1_024 {
                is_refused_for(decision, "environment has too many entries"@)
            } else if each(request.env, variable_step()) is Err {
                ||| exists|i: int|
                    0 <= i < request.env.len() && !is_variable_name((#[trigger] request.env[i]).0)
                        && is_refused_for(
                        decision,
                        "invalid environment name: "@ + request.env[i].0,
                    )
                ||| is_refused_for(decision, "environment value"@ + " is too large"@)
                ||| is_refused_for(decision, "environment value"@ + " contains NUL"@)
            } else if encode_utf8(request.program).len() + total_bytes(request.args)
                + variable_bytes(request.env) > 524_288 {
                is_refused_for(decision, "command arguments and environment are too large"@)
            } else {
                decision == Ok::<(Seq<char>, Seq<char>), HaltModel>((program->Ok_0, cwd->Ok_0))
            }
        }),
{
    if each(request.args, argument_step()) is Err {
        let i = the_first_halt_is_told(request.args, argument_step());
    }
    if each(request.env, variable_step()) is Err {
        let i = the_first_halt_is_told(request.env, variable_step());
        assert(variable_step()(request.env[i]) is Err);
    }
}

/// A request is refused for the first thing that is wrong with it: its command, its
/// output limit, its timeout, its policy, its sockets or its network.
pub proof fn requests_are_refused_for_the_first_reason(
    host: Host,
    request: CommandRequest,
    hard: Seq<Deny>,
)
    ensures
        ({
            let decision = validated(host, request, hard);
            let command = command_accepted(host, request);
            let policy = resolved_policy(host, request.policy, hard);
            let sockets = socket_roots(host, request.policy.unix_socket_roots);
            let network = resolved_network(host, request.policy.network);
            let limit = request.policy.output_limit_bytes;
            if command is Err {
                decision is Err && decision->Err_0 == command->Err_0
            } else if limit == 0 || limit > 10_485_760 {
                is_refused_for(decision, "output limit must be between 1 and 10485760 bytes"@)
            } else if request.timeout_ms is Some && request.timeout_ms->0 == 0 {
                is_refused_for(decision, "timeout must be positive"@)
            } else if request.timeout_ms is Some && request.timeout_ms->0 > 86_400_000 {
                is_refused_for(decision, "timeout exceeds 24 hours"@)
            } else if policy is Err {
                decision is Err && decision->Err_0 == policy->Err_0
            } else if request.policy.unix_socket_roots.len() > 16 {
                is_refused_for(decision, "Unix socket policy has too many entries"@)
            } else if sockets is Err {
                decision is Err && decision->Err_0 == sockets->Err_0
            } else if network is Err {
                decision is Err && decision->Err_0 == network->Err_0
            } else {
                decision is Ok
            }
        }),
{
}

/// A network is refused for a proxy without a port, and for a socket that is none.
pub proof fn proxies_are_refused_for_their_port_or_socket(
    host: Host,
    tcp_port: u16,
    unix_socket: Seq<char>,
    allow_local_binding: bool,
)
    ensures
        ({
            let decision = resolved_network(
                host,
                NetworkRequest::Proxy { tcp_port, unix_socket, allow_local_binding },
            );
            let socket = socket_path(host, unix_socket);
            if tcp_port == 0 {
                is_refused_for(decision, "network proxy port must be positive"@)
            } else if socket is Err {
                decision is Err && decision->Err_0 == socket->Err_0
            } else if host.paths.contains_key(socket->Ok_0) && !host.paths[socket->Ok_0].is_socket() {
                is_refused_for(
                    decision,
                    "network proxy socket is unavailable: "@ + socket->Ok_0,
                )
            } else {
                host.paths.contains_key(socket->Ok_0) ==> decision is Ok
            }
        }),
{
}

/// A right is refused for the first thing that is wrong with it: that it is to make what
/// it may not, its path, that the path came out as another than the approved one, or
/// that what is there does not fit its scope.
pub proof fn rights_are_refused_for_the_first_reason(
    host: Host,
    right: RightRequest,
    approved: bool,
)
    ensures
        ({
            let decision = resolved_right(host, right, approved);
            let path = resolved_path(host, right.path, right.missing_path);
            let makes = right.missing_path != MissingPathBehavior::Reject;
            if right.access == Access::Read && makes {
                is_refused_for(decision, "read rights cannot create a missing path"@)
            } else if makes && (right.missing_path == MissingPathBehavior::CreateFile)
                != (right.scope == PathScope::File) {
                is_refused_for(decision, "missing path behavior does not match right scope"@)
            } else if path is Err {
                decision is Err && decision->Err_0 == path->Err_0
            } else if approved && components(path->Ok_0) != components(right.path) {
                is_refused_for(
                    decision,
                    "approved right changed during broker normalization: "@ + right.path + " -> "@
                        + path->Ok_0,
                )
            } else if !host.paths.contains_key(path->Ok_0) {
                asks_for(decision, path->Ok_0)
            } else {
                let target = host.paths[path->Ok_0].target;
                let directory = target is Ok && target->Ok_0.kind == FileKind::Directory;
                if target is Ok && right.scope == PathScope::Tree && !directory {
                    is_refused_for(decision, "tree right is not a directory: "@ + path->Ok_0)
                } else if right.scope == PathScope::File && directory {
                    is_refused_for(decision, "file right is a directory: "@ + path->Ok_0)
                } else {
                    decision is Ok
                }
            }
        }),
{
}

/// A grant is refused for a right that is refused, for a device, and for a deny that
/// covers it.
pub proof fn grants_are_refused_for_the_first_reason(
    host: Host,
    denies: Seq<Deny>,
    grant: RightRequest,
)
    ensures
        ({
            let decision = resolved_grant(host, denies, grant);
            let right = resolved_right(host, grant, true);
            if right is Err {
                decision is Err && decision->Err_0 == right->Err_0
            } else if lies_under(right->Ok_0.path, "/dev"@) {
                is_refused_for(
                    decision,
                    "approved rights cannot target device paths: "@ + right->Ok_0.path,
                )
            } else if any_covers(denies, right->Ok_0) {
                is_refused_for(
                    decision,
                    "approved right conflicts with a deny: "@ + right->Ok_0.path,
                )
            } else {
                decision == right
            }
        }),
{
}

/// A deny is refused for a NUL, for a pattern or path that is not clean, for a glob that
/// has no expression, and for a path that cannot be resolved.
pub proof fn denies_are_refused_for_the_first_reason(host: Host, deny: DenyRequest)
    ensures
        ({
            let decision = resolved_deny(host, deny);
            let path = resolved_path(host, deny.pattern, MissingPathBehavior::CreateTree);
            if deny.pattern.contains('\0') {
                is_refused_for(decision, "deny pattern contains NUL"@)
            } else if !is_absolute(deny.pattern) {
                is_refused_for(decision, "path must be absolute: "@ + deny.pattern)
            } else if components(deny.pattern).contains(seq!['.']) || components(
                deny.pattern,
            ).contains(seq!['.', '.']) {
                is_refused_for(decision, "path must not contain . or ..: "@ + deny.pattern)
            } else if deny.scope == DenyScope::Glob {
                match seatbelt_regex(deny.pattern) {
                    Err(error) => is_refused_for(decision, error),
                    Ok(_) => decision is Ok,
                }
            } else if path is Err {
                decision is Err && decision->Err_0 == path->Err_0
            } else {
                decision is Ok
            }
        }),
{
}

/// Whether a decision, where facts are missing for it, asks for paths alone, and for some
/// that nothing is known of.
pub open spec fn asks_only_for_the_unknown<T>(host: Host, decision: Decision<T>) -> bool {
    decision matches Err(HaltModel::Probe(probes)) ==> probes.len() == 1 && probes[0] is Path
        && !host.paths.contains_key(probes[0]->Path_0)
}

proof fn lemma_each_asks<A, B>(host: Host, items: Seq<A>, step: spec_fn(A) -> Decision<B>)
    requires
        forall|item: A| asks_only_for_the_unknown(host, #[trigger] step(item)),
    ensures
        asks_only_for_the_unknown(host, each(items, step)),
{
    if each(items, step) is Err {
        let i = the_first_halt_is_told(items, step);
        assert(asks_only_for_the_unknown(host, step(items[i])));
    }
}

proof fn lemma_nearest_asks(host: Host, path: Seq<char>, n: int)
    ensures
        asks_only_for_the_unknown(host, nearest_existing(host, path, n)),
    decreases n,
{
    if n > 1 {
        lemma_nearest_asks(host, path, n - 1);
    }
}

proof fn lemma_path_asks(host: Host, path: Seq<char>, missing: MissingPathBehavior)
    ensures
        asks_only_for_the_unknown(host, resolved_path(host, path, missing)),
{
    let n = components(path).len() as int;
    lemma_nearest_asks(host, path, n);
    if let Ok(m) = nearest_existing(host, path, n) {
        assert(asks_only_for_the_unknown(host, existing_path(host, ancestor(path, m))));
    }
}

/// Where a request cannot be decided yet, what is asked for is what a path leads to that
/// nothing is known of, so that each answer brings something new.
pub proof fn requests_ask_only_for_the_unknown(
    host: Host,
    request: CommandRequest,
    hard: Seq<Deny>,
)
    ensures
        asks_only_for_the_unknown(host, validated(host, request, hard)),
{
    let policy = request.policy;
    lemma_each_asks(host, request.args, argument_step());
    lemma_each_asks(host, request.env, variable_step());
    assert(asks_only_for_the_unknown(host, file_path(host, request.program, "program"@)));
    assert(asks_only_for_the_unknown(host, directory_path(host, request.cwd, "cwd"@)));
    assert forall|right: RightRequest, approved: bool| asks_only_for_the_unknown(
        host,
        #[trigger] resolved_right(host, right, approved),
    ) by {
        lemma_path_asks(host, right.path, right.missing_path);
    }
    assert forall|deny: DenyRequest| asks_only_for_the_unknown(
        host,
        #[trigger] resolved_deny(host, deny),
    ) by {
        lemma_path_asks(host, deny.pattern, MissingPathBehavior::CreateTree);
    }
    lemma_each_asks(host, policy.denies, deny_step(host));
    lemma_each_asks(host, policy.base_rights, right_step(host));
    if let Ok(requested) = each(policy.denies, deny_step(host)) {
        let denies = hard + requested;
        assert forall|grant: RightRequest| asks_only_for_the_unknown(
            host,
            #[trigger] grant_step(host, denies)(grant),
        ) by {
            assert(asks_only_for_the_unknown(host, resolved_right(host, grant, true)));
        }
        lemma_each_asks(host, policy.grants, grant_step(host, denies));
    }
    lemma_each_asks(host, policy.unix_socket_roots, socket_step(host));
    if let NetworkRequest::Proxy { unix_socket, .. } = policy.network {
        assert(asks_only_for_the_unknown(host, socket_path(host, unix_socket)));
    }
}

/// A path is refused for not being clean, for not being there where it has to be, and for
/// what the host says against it.
pub proof fn paths_are_refused_for_the_first_reason(
    host: Host,
    path: Seq<char>,
    missing: MissingPathBehavior,
)
    ensures
        ({
            let decision = resolved_path(host, path, missing);
            if path.len() == 0 || path[0] != '/' {
                is_refused_for(decision, "path must be absolute: "@ + path)
            } else if path.contains('\0') {
                is_refused_for(decision, "path contains NUL"@)
            } else if components(path).contains(seq!['.']) || components(path).contains(
                seq!['.', '.'],
            ) {
                is_refused_for(decision, "path must not contain . or ..: "@ + path)
            } else if !host.paths.contains_key(path) {
                asks_for(decision, path)
            } else if host.paths[path].target is Ok {
                match host.paths[path].canonical {
                    Ok(canonical) => decision == Ok::<Seq<char>, HaltModel>(canonical),
                    Err(error) => is_refused_for(
                        decision,
                        "cannot canonicalize "@ + path + ": "@ + error,
                    ),
                }
            } else {
                missing == MissingPathBehavior::Reject ==> is_refused_for(
                    decision,
                    "path does not exist: "@ + path,
                )
            }
        }),
{
}

/// A socket is refused for not being clean, and for what the host says against it or
/// against its directory.
pub proof fn sockets_are_refused_for_the_first_reason(host: Host, path: Seq<char>)
    ensures
        ({
            let decision = socket_path(host, path);
            if path.len() == 0 || path[0] != '/' {
                is_refused_for(decision, "Unix socket path must be absolute: "@ + path)
            } else if path.contains('\0') {
                is_refused_for(decision, "Unix socket path contains NUL"@)
            } else if components(path).contains(seq!['.']) || components(path).contains(
                seq!['.', '.'],
            ) {
                is_refused_for(decision, "Unix socket path must not contain . or ..: "@ + path)
            } else if !host.paths.contains_key(path) {
                asks_for(decision, path)
            } else if host.paths[path].target is Ok {
                match host.paths[path].canonical {
                    Ok(canonical) => decision == Ok::<Seq<char>, HaltModel>(canonical),
                    Err(error) => is_refused_for(
                        decision,
                        "cannot canonicalize Unix socket "@ + path + ": "@ + error,
                    ),
                }
            } else {
                match parent_of(path) {
                    None => is_refused_for(decision, "Unix socket path has no parent: "@ + path),
                    Some(parent) => if !host.paths.contains_key(parent) {
                        asks_for(decision, parent)
                    } else {
                        host.paths[parent].canonical matches Err(error) ==> is_refused_for(
                            decision,
                            "cannot canonicalize Unix socket parent "@ + parent + ": "@ + error,
                        )
                    },
                }
            }
        }),
{
}

/// The host's denies are refused for a home directory that is missing, for a broker that
/// cannot be located, for a development cache outside the home directory, and for helpers
/// that cannot be located.
pub proof fn host_denies_are_refused_for_the_first_reason(host: Host, settings: HostSettings)
    ensures
        ({
            let decision = host_denies(host, settings);
            let home = existing_path(host, settings.home->0);
            let broker = existing_path(host, settings.executable->Ok_0);
            let cache = existing_path(host, settings.development_cache->0);
            if settings.home is None {
                is_refused_for(decision, "broker HOME is missing"@)
            } else if home is Err {
                decision is Err && decision->Err_0 == home->Err_0
            } else if settings.executable is Err {
                is_refused_for(
                    decision,
                    "cannot locate broker executable: "@ + settings.executable->Err_0,
                )
            } else if broker is Err {
                decision is Err && decision->Err_0 == broker->Err_0
            } else if settings.development_cache is Some && cache is Err {
                decision is Err && decision->Err_0 == cache->Err_0
            } else if settings.development_cache is Some && (!lies_under(cache->Ok_0, home->Ok_0)
                || components(cache->Ok_0) == components(home->Ok_0)) {
                is_refused_for(
                    decision,
                    "development cache root must be beneath broker HOME: "@ + cache->Ok_0,
                )
            } else {
                true
            }
        }),
{
}

/// A launch is refused for sockets of its own, for not reading everything, and for an
/// empty command, in this order.
pub proof fn launches_are_refused_for_the_first_reason(
    host: Host,
    now: u64,
    request: Validated,
    command: Seq<Seq<char>>,
)
    ensures
        ({
            let decision = launch_plan(host, now, request, command);
            if request.unix_socket_roots.len() > 0 {
                is_refused_for(
                    decision,
                    "Unix socket roots are only supported by the macOS Seatbelt backend"@,
                )
            } else if forall|i: int|
                0 <= i < request.rights.len() ==> !((#[trigger] request.rights[i]).access
                    == Access::Read && request.rights[i].scope == PathScope::Tree && components(
                    request.rights[i].path,
                ) == components("/"@)) {
                is_refused_for(decision, "Linux protocol v4 requires an explicit read right for /"@)
            } else if command.len() == 0 {
                is_refused_for(decision, "command is empty"@)
            } else {
                true
            }
        }),
{
}

/// The arguments of a launch are refused for a seccomp program that is missing, and for
/// one that is not called for.
pub proof fn launch_arguments_are_refused_for_their_filter(
    host: Host,
    plan: LaunchPlan,
    descriptors: Descriptors,
)
    ensures
        !plan.network.enabled && descriptors.seccomp is None ==> is_refused_for(
            launch_arguments(host, plan, descriptors),
            "seccomp program is unavailable"@,
        ),
        plan.network.enabled && descriptors.seccomp is Some ==> is_refused_for(
            launch_arguments(host, plan, descriptors),
            "seccomp program is not for a command with a network"@,
        ),
        plan.network.enabled != (descriptors.seccomp is Some) && launch_mounts(
            host,
            plan,
            descriptors,
        ) is Ok ==> launch_arguments(host, plan, descriptors) is Ok,
{
}

/// A scan stops where it goes too deep, takes too long, meets too many directories, or
/// meets something that it cannot look at.
pub proof fn scans_stop_at_their_limits(
    host: Host,
    search: Search,
    now: u64,
    directory: Seq<char>,
    depth: nat,
    state: ScanState,
)
    ensures
        ({
            let step = walked(host, search, now, directory, depth, state);
            if depth > 64 {
                step.failure == Some("filesystem policy scan exceeds depth 64"@)
            } else if now > state.budget.deadline {
                step.failure == Some("filesystem policy scan exceeds 30 seconds"@)
            } else if host.paths.contains_key(directory) && host.paths[directory].target is Err {
                step.failure == Some(
                    "cannot inspect policy root "@ + directory + ": "@
                        + host.paths[directory].target->Err_0,
                )
            } else if host.paths.contains_key(directory) && !state.visited.contains(
                file_key(host.paths[directory].target->Ok_0),
            ) && state.budget.visited_directories >= state.budget.max_directories {
                step.failure == Some(
                    "filesystem policy scan exceeds "@ + decimal(
                        state.budget.max_directories as nat,
                    ) + " directories"@,
                )
            } else {
                true
            }
        }),
        forall|deadline: u64, n: nat| #[trigger]
            scan_start(deadline, n).budget.max_directories == 200_000,
{
}

} // verus!
