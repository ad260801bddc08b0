//! Validation of a request before anything is started for it.

use vstd::prelude::*;
use vstd::string::*;
use vstd::utf8::encode_utf8;

use crate::environment::Environment;
use crate::facts::{
    decided, decided_all, each, lemma_each_step, models, refusal, refused, Decision, Facts, Halt,
    HaltModel, Host,
};
use crate::order::{collected, collected_is_a_set, insert_item, Order};
use crate::paths::{
    file_name_of, has_dots, is_absolute, parent_of, path_file_name, path_has_dots,
    path_is_absolute, path_join, path_parent, pushed,
};
use crate::protocol::{CommandRequest, ExecRequest, NetworkPolicy, NetworkRequest};
use crate::seatbelt::{
    normalize_policy, resolved_policy, Deny, HardPolicy, NormalizedDeny, NormalizedRight, Right,
};
use crate::text::{
    blank, byte_len, chars_of, contains_char, copy_texts, is_blank, joined, joined3, joined4,
    joined5, texts,
};

verus! {

pub const MAX_ID_BYTES: usize = 256;
pub const MAX_ARGS: usize = 4_096;
pub const MAX_ARG_ENV_BYTES: usize = 524_288;
pub const MAX_ENV_ENTRIES: usize = 1_024;
pub const MAX_SOCKET_ROOTS: usize = 16;
pub const MAX_OUTPUT_BYTES: u64 = 10_485_760;
pub const MAX_TIMEOUT_MS: u64 = 86_400_000;

/// A request that may be run.
#[derive(Debug)]
pub struct ValidatedExec {
    pub id: String,
    pub program: String,
    pub args: Vec<String>,
    pub cwd: String,
    pub env: Environment,
    pub timeout_ms: Option<u64>,
    pub interactive: bool,
    pub output_limit_bytes: u64,
    pub rights: Vec<NormalizedRight>,
    pub denies: Vec<NormalizedDeny>,
    pub unix_socket_roots: Vec<String>,
    pub network: ValidatedNetworkPolicy,
}

#[derive(Debug)]
pub enum ValidatedNetworkPolicy {
    Blocked,
    Loopback,
    Proxy { tcp_port: u16, unix_socket: String, allow_local_binding: bool },
}

/// A request that may be run.
pub struct Validated {
    pub id: Seq<char>,
    pub program: Seq<char>,
    pub args: Seq<Seq<char>>,
    pub cwd: Seq<char>,
    pub env: Seq<(Seq<char>, Seq<char>)>,
    pub timeout_ms: Option<u64>,
    pub interactive: bool,
    pub output_limit_bytes: u64,
    pub rights: Seq<Right>,
    pub denies: Seq<Deny>,
    pub unix_socket_roots: Seq<Seq<char>>,
    pub network: NetworkRequest,
}

impl View for ValidatedNetworkPolicy {
    type V = NetworkRequest;

    open spec fn view(&self) -> NetworkRequest {
        match *self {
            ValidatedNetworkPolicy::Blocked => NetworkRequest::Blocked,
            ValidatedNetworkPolicy::Loopback => NetworkRequest::Loopback,
            ValidatedNetworkPolicy::Proxy { tcp_port, unix_socket, allow_local_binding } => {
                NetworkRequest::Proxy { tcp_port, unix_socket: unix_socket@, allow_local_binding }
            },
        }
    }
}

impl View for ValidatedExec {
    type V = Validated;

    open spec fn view(&self) -> Validated {
        Validated {
            id: self.id@,
            program: self.program@,
            args: texts(self.args@),
            cwd: self.cwd@,
            env: self.env@,
            timeout_ms: self.timeout_ms,
            interactive: self.interactive,
            output_limit_bytes: self.output_limit_bytes,
            rights: models(self.rights@),
            denies: models(self.denies@),
            unix_socket_roots: texts(self.unix_socket_roots@),
            network: self.network@,
        }
    }
}

impl Clone for ValidatedNetworkPolicy {
    fn clone(&self) -> (copy: ValidatedNetworkPolicy)
        ensures
            copy@ == self@,
    {
        match self {
            ValidatedNetworkPolicy::Blocked => ValidatedNetworkPolicy::Blocked,
            ValidatedNetworkPolicy::Loopback => ValidatedNetworkPolicy::Loopback,
            ValidatedNetworkPolicy::Proxy { tcp_port, unix_socket, allow_local_binding } => {
                ValidatedNetworkPolicy::Proxy {
                    tcp_port: *tcp_port,
                    unix_socket: unix_socket.clone(),
                    allow_local_binding: *allow_local_binding,
                }
            },
        }
    }
}

/// Whether a text is short enough and free of NUL.
pub open spec fn text_accepted(label: Seq<char>, value: Seq<char>, maximum: usize) -> Decision<()> {
    if encode_utf8(value).len() > maximum {
        refusal(label + " is too large"@)
    } else if value.contains('\0') {
        refusal(label + " contains NUL"@)
    } else {
        Ok(())
    }
}

/// Checks that a text is short enough and free of NUL.
///
/// # Errors
///
/// Refuses a text of more than `maximum` bytes and one with NUL.
pub fn validate_text(label: &str, value: &str, maximum: usize) -> (result: Result<(), Halt>)
    ensures
        decided(result) == text_accepted(label@, value@, maximum),
{
    if byte_len(value) > maximum {
        return Err(refused(joined(label, " is too large")));
    }
    if contains_char(value, '\0') {
        return Err(refused(joined(label, " contains NUL")));
    }
    Ok(())
}

/// The resolved form of an absolute path.
pub open spec fn absolute_path(host: Host, path: Seq<char>, label: Seq<char>) -> Decision<
    Seq<char>,
> {
    if !is_absolute(path) {
        refusal(label + " must be absolute"@)
    } else {
        match host.path(path) {
            Err(halt) => Err(halt),
            Ok(facts) => match facts.canonical {
                Ok(canonical) => Ok(canonical),
                Err(error) => refusal(
                    "cannot canonicalize "@ + label + " "@ + path + ": "@ + error,
                ),
            },
        }
    }
}

/// The resolved form of an absolute path.
///
/// # Errors
///
/// Refuses a relative path and one that the host cannot resolve.
pub fn canonical_absolute(path: &str, label: &str, facts: &Facts) -> (result: Result<String, Halt>)
    ensures
        decided(result) == absolute_path(facts@, path@, label@),
{
    if !path_is_absolute(path) {
        return Err(refused(joined(label, " must be absolute")));
    }
    let known = match facts.path(path) {
        Ok(known) => known,
        Err(halt) => {
            return Err(halt);
        },
    };
    match &known.canonical {
        Ok(canonical) => Ok(canonical.clone()),
        Err(error) => {
            let start = joined5("cannot canonicalize ", label, " ", path, ": ");
            Err(refused(joined(start.as_str(), error.as_str())))
        },
    }
}

/// The resolved form of a path to a file.
pub open spec fn file_path(host: Host, path: Seq<char>, label: Seq<char>) -> Decision<Seq<char>> {
    match absolute_path(host, path, label) {
        Err(halt) => Err(halt),
        Ok(path) => match host.path(path) {
            Err(halt) => Err(halt),
            Ok(facts) => if facts.is_file() {
                Ok(path)
            } else {
                refusal(label + " is not a file: "@ + path)
            },
        },
    }
}

/// The resolved form of a path to a file.
///
/// # Errors
///
/// Refuses a path that cannot be resolved or that leads to something else.
pub fn existing_absolute_file(path: &str, label: &str, facts: &Facts) -> (result: Result<
    String,
    Halt,
>)
    ensures
        decided(result) == file_path(facts@, path@, label@),
{
    let path = match canonical_absolute(path, label, facts) {
        Ok(path) => path,
        Err(halt) => {
            return Err(halt);
        },
    };
    let known = match facts.path(path.as_str()) {
        Ok(known) => known,
        Err(halt) => {
            return Err(halt);
        },
    };
    if !known.is_file() {
        return Err(refused(joined3(label, " is not a file: ", path.as_str())));
    }
    Ok(path)
}

/// The resolved form of a path to a directory.
pub open spec fn directory_path(host: Host, path: Seq<char>, label: Seq<char>) -> Decision<
    Seq<char>,
> {
    match absolute_path(host, path, label) {
        Err(halt) => Err(halt),
        Ok(path) => match host.path(path) {
            Err(halt) => Err(halt),
            Ok(facts) => if facts.is_dir() {
                Ok(path)
            } else {
                refusal(label + " is not a directory: "@ + path)
            },
        },
    }
}

/// The resolved form of a path to a directory.
///
/// # Errors
///
/// Refuses a path that cannot be resolved or that leads to something else.
pub fn existing_absolute_directory(path: &str, label: &str, facts: &Facts) -> (result: Result<
    String,
    Halt,
>)
    ensures
        decided(result) == directory_path(facts@, path@, label@),
{
    let path = match canonical_absolute(path, label, facts) {
        Ok(path) => path,
        Err(halt) => {
            return Err(halt);
        },
    };
    let known = match facts.path(path.as_str()) {
        Ok(known) => known,
        Err(halt) => {
            return Err(halt);
        },
    };
    if !known.is_dir() {
        return Err(refused(joined3(label, " is not a directory: ", path.as_str())));
    }
    Ok(path)
}

/// The resolved form of a Unix socket path: that of the path where it exists,
/// else that of its directory with its name behind it.
pub open spec fn socket_path(host: Host, path: Seq<char>) -> Decision<Seq<char>> {
    if !is_absolute(path) {
        refusal("Unix socket path must be absolute: "@ + path)
    } else if path.contains('\0') {
        refusal("Unix socket path contains NUL"@)
    } else if has_dots(path) {
        refusal("Unix socket path must not contain . or ..: "@ + path)
    } else {
        match host.path(path) {
            Err(halt) => Err(halt),
            Ok(facts) => if facts.is_present() {
                match facts.canonical {
                    Ok(canonical) => Ok(canonical),
                    Err(error) => refusal(
                        "cannot canonicalize Unix socket "@ + path + ": "@ + error,
                    ),
                }
            } else {
                match parent_of(path) {
                    None => refusal("Unix socket path has no parent: "@ + path),
                    Some(parent) => match host.path(parent) {
                        Err(halt) => Err(halt),
                        Ok(parent_facts) => match parent_facts.canonical {
                            Err(error) => refusal(
                                "cannot canonicalize Unix socket parent "@ + parent + ": "@ + error,
                            ),
                            Ok(directory) => match file_name_of(path) {
                                None => refusal("Unix socket path has no file name: "@ + path),
                                Some(name) => Ok(pushed(directory, name)),
                            },
                        },
                    },
                }
            },
        }
    }
}

/// The resolved form of a Unix socket path.
///
/// # Errors
///
/// Refuses a path that is relative, holds NUL or `..`, or cannot be resolved.
pub fn canonical_socket_path(path: &str, facts: &Facts) -> (result: Result<String, Halt>)
    ensures
        decided(result) == socket_path(facts@, path@),
{
    if !path_is_absolute(path) {
        return Err(refused(joined("Unix socket path must be absolute: ", path)));
    }
    if contains_char(path, '\0') {
        return Err(refused("Unix socket path contains NUL".to_owned()));
    }
    if path_has_dots(path) {
        return Err(refused(joined("Unix socket path must not contain . or ..: ", path)));
    }
    let known = match facts.path(path) {
        Ok(known) => known,
        Err(halt) => {
            return Err(halt);
        },
    };
    if known.is_present() {
        return match &known.canonical {
            Ok(canonical) => Ok(canonical.clone()),
            Err(error) => Err(
                refused(
                    joined4("cannot canonicalize Unix socket ", path, ": ", error.as_str()),
                ),
            ),
        };
    }
    let parent = match path_parent(path) {
        Some(parent) => parent,
        None => {
            return Err(refused(joined("Unix socket path has no parent: ", path)));
        },
    };
    let parent_known = match facts.path(parent.as_str()) {
        Ok(known) => known,
        Err(halt) => {
            return Err(halt);
        },
    };
    let directory = match &parent_known.canonical {
        Ok(directory) => directory,
        Err(error) => {
            return Err(
                refused(
                    joined4(
                        "cannot canonicalize Unix socket parent ",
                        parent.as_str(),
                        ": ",
                        error.as_str(),
                    ),
                ),
            );
        },
    };
    match path_file_name(path) {
        Some(name) => Ok(path_join(directory.as_str(), name.as_str())),
        None => Err(refused(joined("Unix socket path has no file name: ", path))),
    }
}

/// The resolved form of a path to a Unix socket that exists.
pub open spec fn existing_socket(host: Host, path: Seq<char>) -> Decision<Seq<char>> {
    match socket_path(host, path) {
        Err(halt) => Err(halt),
        Ok(path) => match host.path(path) {
            Err(halt) => Err(halt),
            Ok(facts) => if facts.is_socket() {
                Ok(path)
            } else {
                refusal("network proxy socket is unavailable: "@ + path)
            },
        },
    }
}

/// The resolved form of a path to a Unix socket that exists.
///
/// # Errors
///
/// Refuses a path that cannot be resolved or that leads to something else.
pub fn canonical_existing_socket(path: &str, facts: &Facts) -> (result: Result<String, Halt>)
    ensures
        decided(result) == existing_socket(facts@, path@),
{
    let path = match canonical_socket_path(path, facts) {
        Ok(path) => path,
        Err(halt) => {
            return Err(halt);
        },
    };
    let known = match facts.path(path.as_str()) {
        Ok(known) => known,
        Err(halt) => {
            return Err(halt);
        },
    };
    if !known.is_socket() {
        return Err(refused(joined("network proxy socket is unavailable: ", path.as_str())));
    }
    Ok(path)
}

/// How socket paths are resolved.
pub open spec fn socket_step(host: Host) -> spec_fn(Seq<char>) -> Decision<Seq<char>> {
    |path: Seq<char>| socket_path(host, path)
}

/// The resolved socket paths of a request, in order, each one once.
pub open spec fn socket_roots(host: Host, paths: Seq<Seq<char>>) -> Decision<Seq<Seq<char>>> {
    if paths.len() > MAX_SOCKET_ROOTS {
        refusal("Unix socket policy has too many entries"@)
    } else {
        match each(paths, socket_step(host)) {
            Err(halt) => Err(halt),
            Ok(resolved) => Ok(collected(Order::Path, resolved)),
        }
    }
}

/// Resolves the socket paths of a request.
///
/// # Errors
///
/// Refuses too many paths, and a path that cannot be resolved.
pub fn normalize_unix_socket_roots(paths: &Vec<String>, facts: &Facts) -> (result: Result<
    Vec<String>,
    Halt,
>)
    ensures
        decided_all(result) == socket_roots(facts@, texts(paths@)),
{
    assert(texts(paths@).len() == paths@.len());
    if paths.len() > MAX_SOCKET_ROOTS {
        return Err(refused("Unix socket policy has too many entries".to_owned()));
    }
    let ghost requested = texts(paths@);
    let ghost step = socket_step(facts@);
    let mut out: Vec<String> = Vec::new();
    let mut i: usize = 0;
    assert(requested.take(0) =~= Seq::empty());
    assert(texts(out@) =~= Seq::empty());
    while i < paths.len()
        invariant
            i <= paths@.len() <= MAX_SOCKET_ROOTS,
            requested == texts(paths@),
            step == socket_step(facts@),
            each(requested.take(i as int), step) is Ok,
            texts(out@) == collected(Order::Path, each(requested.take(i as int), step)->Ok_0),
        decreases paths@.len() - i,
    {
        proof {
            lemma_each_step(requested, step, i as int);
            collected_is_a_set(Order::Path, each(requested.take(i as int), step)->Ok_0);
        }
        let ghost before = each(requested.take(i as int), step)->Ok_0;
        let path = match canonical_socket_path(paths[i].as_str(), facts) {
            Ok(path) => path,
            Err(halt) => {
                return Err(halt);
            },
        };
        insert_item(Order::Path, &mut out, path);
        i = i + 1;
        assert(before.push(path@).drop_last() =~= before);
    }
    assert(requested.take(i as int) =~= requested);
    assert(models(out@) =~= texts(out@));
    Ok(out)
}

/// Whether `c` may stand in the name of a variable behind its first character.
pub open spec fn is_name_char(c: char) -> bool {
    c == '_' || 'a' <= c <= 'z' || 'A' <= c <= 'Z' || '0' <= c <= '9'
}

/// Whether `name` is the name of a variable: letters, digits and underscores,
/// no digit first.
pub open spec fn is_variable_name(name: Seq<char>) -> bool {
    &&& name.len() > 0
    &&& !('0' <= name[0] <= '9')
    &&& forall|i: int| 0 <= i < name.len() ==> is_name_char(#[trigger] name[i])
}

fn name_char(c: char) -> (fits: bool)
    ensures
        fits == is_name_char(c),
{
    c == '_' || ('a' <= c && c <= 'z') || ('A' <= c && c <= 'Z') || ('0' <= c && c <= '9')
}

/// Whether `name` is the name of a variable.
pub fn is_env_name(name: &str) -> (fits: bool)
    ensures
        fits == is_variable_name(name@),
{
    let chars = chars_of(name);
    if chars.len() == 0 {
        return false;
    }
    let first = chars[0];
    if '0' <= first && first <= '9' {
        return false;
    }
    let mut i: usize = 0;
    while i < chars.len()
        invariant
            i <= chars@.len(),
            chars@ == name@,
            forall|j: int| 0 <= j < i ==> is_name_char(#[trigger] chars@[j]),
        decreases chars@.len() - i,
    {
        if !name_char(chars[i]) {
            assert(!is_name_char(name@[i as int]));
            return false;
        }
        i = i + 1;
    }
    true
}

/// How arguments are checked.
pub open spec fn argument_step() -> spec_fn(Seq<char>) -> Decision<()> {
    |argument: Seq<char>| text_accepted("argument"@, argument, MAX_ARG_ENV_BYTES)
}

/// How variables are checked.
pub open spec fn variable_step() -> spec_fn((Seq<char>, Seq<char>)) -> Decision<()> {
    |variable: (Seq<char>, Seq<char>)|
        if !is_variable_name(variable.0) {
            refusal("invalid environment name: "@ + variable.0)
        } else {
            text_accepted("environment value"@, variable.1, MAX_ARG_ENV_BYTES)
        }
}

/// The number of bytes of several texts.
pub open spec fn total_bytes(items: Seq<Seq<char>>) -> nat
    decreases items.len(),
{
    if items.len() == 0 {
        0
    } else {
        total_bytes(items.drop_last()) + encode_utf8(items.last()).len()
    }
}

/// The number of bytes of the names and values of variables.
pub open spec fn variable_bytes(variables: Seq<(Seq<char>, Seq<char>)>) -> nat
    decreases variables.len(),
{
    if variables.len() == 0 {
        0
    } else {
        variable_bytes(variables.drop_last()) + encode_utf8(variables.last().0).len()
            + encode_utf8(variables.last().1).len()
    }
}

/// The network mode of a request, resolved.
pub open spec fn resolved_network(host: Host, network: NetworkRequest) -> Decision<NetworkRequest> {
    match network {
        NetworkRequest::Proxy { tcp_port, unix_socket, allow_local_binding } => {
            if tcp_port == 0 {
                refusal("network proxy port must be positive"@)
            } else {
                match existing_socket(host, unix_socket) {
                    Err(halt) => Err(halt),
                    Ok(socket) => Ok(
                        NetworkRequest::Proxy { tcp_port, unix_socket: socket, allow_local_binding },
                    ),
                }
            }
        },
        other => Ok(other),
    }
}

/// Whether the command of a request may be run at all, its policy aside.
pub open spec fn command_accepted(host: Host, request: CommandRequest) -> Decision<
    (Seq<char>, Seq<char>),
> {
    match text_accepted("command ID"@, request.id, MAX_ID_BYTES) {
        Err(halt) => Err(halt),
        Ok(_) => if is_blank(request.id) {
            refusal("command ID is empty"@)
        } else if request.args.len() > MAX_ARGS {
            refusal("command has too many arguments"@)
        } else {
            match text_accepted("program"@, request.program, MAX_ARG_ENV_BYTES) {
                Err(halt) => Err(halt),
                Ok(_) => match file_path(host, request.program, "program"@) {
                    Err(halt) => Err(halt),
                    Ok(program) => match directory_path(host, request.cwd, "cwd"@) {
                        Err(halt) => Err(halt),
                        Ok(cwd) => match each(request.args, argument_step()) {
                            Err(halt) => Err(halt),
                            Ok(_) => if request.env.len() > MAX_ENV_ENTRIES {
                                refusal("environment has too many entries"@)
                            } else {
                                match each(request.env, variable_step()) {
                                    Err(halt) => Err(halt),
                                    Ok(_) => if encode_utf8(request.program).len() + total_bytes(
                                        request.args,
                                    ) + variable_bytes(request.env) > MAX_ARG_ENV_BYTES {
                                        refusal("command arguments and environment are too large"@)
                                    } else {
                                        Ok((program, cwd))
                                    },
                                }
                            },
                        },
                    },
                },
            }
        },
    }
}

/// Whether the limits of a request are in range.
pub open spec fn limits_accepted(request: CommandRequest) -> Decision<()> {
    if request.policy.output_limit_bytes == 0 || request.policy.output_limit_bytes
        > MAX_OUTPUT_BYTES {
        refusal("output limit must be between 1 and 10485760 bytes"@)
    } else if request.timeout_ms == Some(0u64) {
        refusal("timeout must be positive"@)
    } else if request.timeout_ms is Some && request.timeout_ms->Some_0 > MAX_TIMEOUT_MS {
        refusal("timeout exceeds 24 hours"@)
    } else {
        Ok(())
    }
}

/// What comes of a request: the validated request, the reason for which it is
/// refused, or the facts that are missing.
pub open spec fn validated(host: Host, request: CommandRequest, hard: Seq<Deny>) -> Decision<
    Validated,
> {
    match command_accepted(host, request) {
        Err(halt) => Err(halt),
        Ok((program, cwd)) => match limits_accepted(request) {
            Err(halt) => Err(halt),
            Ok(_) => match resolved_policy(host, request.policy, hard) {
                Err(halt) => Err(halt),
                Ok((rights, denies)) => match socket_roots(
                    host,
                    request.policy.unix_socket_roots,
                ) {
                    Err(halt) => Err(halt),
                    Ok(unix_socket_roots) => match resolved_network(host, request.policy.network) {
                        Err(halt) => Err(halt),
                        Ok(network) => Ok(
                            Validated {
                                id: request.id,
                                program,
                                args: request.args,
                                cwd,
                                env: request.env,
                                timeout_ms: request.timeout_ms,
                                interactive: request.interactive,
                                output_limit_bytes: request.policy.output_limit_bytes,
                                rights,
                                denies,
                                unix_socket_roots,
                                network,
                            },
                        ),
                    },
                },
            },
        },
    }
}

/// A sum that stops at the largest number of the machine.
spec fn capped(sum: nat) -> int {
    if sum <= usize::MAX {
        sum as int
    } else {
        usize::MAX as int
    }
}

fn check_arguments(args: &Vec<String>) -> (result: Result<(), Halt>)
    ensures
        match result {
            Ok(_) => each(texts(args@), argument_step()) is Ok,
            Err(halt) => each(texts(args@), argument_step()) == Err::<Seq<()>, HaltModel>(halt@),
        },
{
    let ghost items = texts(args@);
    let ghost step = argument_step();
    let mut i: usize = 0;
    assert(items.take(0) =~= Seq::empty());
    while i < args.len()
        invariant
            i <= args@.len(),
            items == texts(args@),
            step == argument_step(),
            each(items.take(i as int), step) is Ok,
        decreases args@.len() - i,
    {
        proof {
            lemma_each_step(items, step, i as int);
        }
        match validate_text("argument", args[i].as_str(), MAX_ARG_ENV_BYTES) {
            Ok(_) => {},
            Err(halt) => {
                return Err(halt);
            },
        }
        i = i + 1;
    }
    assert(items.take(i as int) =~= items);
    Ok(())
}

fn check_variables(env: &Environment) -> (result: Result<(), Halt>)
    ensures
        match result {
            Ok(_) => each(env@, variable_step()) is Ok,
            Err(halt) => each(env@, variable_step()) == Err::<Seq<()>, HaltModel>(halt@),
        },
{
    let ghost step = variable_step();
    let n = env.len();
    let mut i: usize = 0;
    assert(env@.take(0) =~= Seq::empty());
    while i < n
        invariant
            i <= n == env@.len(),
            step == variable_step(),
            each(env@.take(i as int), step) is Ok,
        decreases n - i,
    {
        proof {
            lemma_each_step(env@, step, i as int);
        }
        if !is_env_name(env.name(i)) {
            return Err(refused(joined("invalid environment name: ", env.name(i))));
        }
        match validate_text("environment value", env.value(i), MAX_ARG_ENV_BYTES) {
            Ok(_) => {},
            Err(halt) => {
                return Err(halt);
            },
        }
        i = i + 1;
    }
    assert(env@.take(i as int) =~= env@);
    Ok(())
}

fn command_bytes(program: &str, args: &Vec<String>, env: &Environment) -> (total: usize)
    ensures
        total == capped(
            encode_utf8(program@).len() + total_bytes(texts(args@)) + variable_bytes(env@),
        ),
{
    let mut total: usize = byte_len(program);
    let ghost items = texts(args@);
    let mut i: usize = 0;
    assert(items.take(0) =~= Seq::empty());
    while i < args.len()
        invariant
            i <= args@.len(),
            items == texts(args@),
            total == capped(encode_utf8(program@).len() + total_bytes(items.take(i as int))),
        decreases args@.len() - i,
    {
        total = total.saturating_add(byte_len(args[i].as_str()));
        i = i + 1;
        assert(items.take(i as int).drop_last() =~= items.take(i - 1));
        assert(items.take(i as int).last() == args@[i - 1]@);
    }
    assert(items.take(i as int) =~= items);
    let ghost start = encode_utf8(program@).len() + total_bytes(items);
    let n = env.len();
    let mut i: usize = 0;
    assert(env@.take(0) =~= Seq::empty());
    while i < n
        invariant
            i <= n == env@.len(),
            total == capped(start + variable_bytes(env@.take(i as int))),
        decreases n - i,
    {
        total = total.saturating_add(byte_len(env.name(i)));
        total = total.saturating_add(byte_len(env.value(i)));
        i = i + 1;
        assert(env@.take(i as int).drop_last() =~= env@.take(i - 1));
    }
    assert(env@.take(i as int) =~= env@);
    total
}

fn validate_command(request: &ExecRequest, facts: &Facts) -> (result: Result<
    (String, String),
    Halt,
>)
    ensures
        decided(result) == command_accepted(facts@, request@),
{
    match validate_text("command ID", request.id.as_str(), MAX_ID_BYTES) {
        Ok(_) => {},
        Err(halt) => {
            return Err(halt);
        },
    }
    if blank(request.id.as_str()) {
        return Err(refused("command ID is empty".to_owned()));
    }
    assert(texts(request.command.args@).len() == request.command.args@.len());
    if request.command.args.len() > MAX_ARGS {
        return Err(refused("command has too many arguments".to_owned()));
    }
    match validate_text("program", request.command.program.as_str(), MAX_ARG_ENV_BYTES) {
        Ok(_) => {},
        Err(halt) => {
            return Err(halt);
        },
    }
    let program = match existing_absolute_file(
        request.command.program.as_str(),
        "program",
        facts,
    ) {
        Ok(program) => program,
        Err(halt) => {
            return Err(halt);
        },
    };
    let cwd = match existing_absolute_directory(request.cwd.as_str(), "cwd", facts) {
        Ok(cwd) => cwd,
        Err(halt) => {
            return Err(halt);
        },
    };
    match check_arguments(&request.command.args) {
        Ok(_) => {},
        Err(halt) => {
            return Err(halt);
        },
    }
    if request.env.len() > MAX_ENV_ENTRIES {
        return Err(refused("environment has too many entries".to_owned()));
    }
    match check_variables(&request.env) {
        Ok(_) => {},
        Err(halt) => {
            return Err(halt);
        },
    }
    let total = command_bytes(
        request.command.program.as_str(),
        &request.command.args,
        &request.env,
    );
    if total > MAX_ARG_ENV_BYTES {
        return Err(refused("command arguments and environment are too large".to_owned()));
    }
    Ok((program, cwd))
}

fn validate_network(network: &NetworkPolicy, facts: &Facts) -> (result: Result<
    ValidatedNetworkPolicy,
    Halt,
>)
    ensures
        decided(result) == resolved_network(facts@, network@),
{
    match network {
        NetworkPolicy::Blocked => Ok(ValidatedNetworkPolicy::Blocked),
        NetworkPolicy::Loopback => Ok(ValidatedNetworkPolicy::Loopback),
        NetworkPolicy::Proxy { tcp_port, unix_socket, allow_local_binding } => {
            if *tcp_port == 0 {
                return Err(refused("network proxy port must be positive".to_owned()));
            }
            match canonical_existing_socket(unix_socket.as_str(), facts) {
                Ok(socket) => Ok(
                    ValidatedNetworkPolicy::Proxy {
                        tcp_port: *tcp_port,
                        unix_socket: socket,
                        allow_local_binding: *allow_local_binding,
                    },
                ),
                Err(halt) => Err(halt),
            }
        },
    }
}

/// Validates a complete request before the broker starts a child.
///
/// # Errors
///
/// Refuses malformed IDs, commands, environments, paths and policies, and asks
/// for the facts that are missing.
pub fn validate_exec(request: &ExecRequest, hard: &HardPolicy, facts: &Facts) -> (result: Result<
    ValidatedExec,
    Halt,
>)
    ensures
        decided(result) == validated(facts@, request@, hard@),
{
    let (program, cwd) = match validate_command(request, facts) {
        Ok(checked) => checked,
        Err(halt) => {
            return Err(halt);
        },
    };
    let output_limit_bytes = request.policy.output_limit_bytes;
    if output_limit_bytes == 0 || output_limit_bytes > MAX_OUTPUT_BYTES {
        return Err(refused("output limit must be between 1 and 10485760 bytes".to_owned()));
    }
    match request.timeout_ms {
        Some(timeout) => {
            if timeout == 0 {
                return Err(refused("timeout must be positive".to_owned()));
            }
            if timeout > MAX_TIMEOUT_MS {
                return Err(refused("timeout exceeds 24 hours".to_owned()));
            }
        },
        None => {},
    }
    let (rights, denies) = match normalize_policy(&request.policy, hard, facts) {
        Ok(resolved) => resolved,
        Err(halt) => {
            return Err(halt);
        },
    };
    let unix_socket_roots = match normalize_unix_socket_roots(
        &request.policy.unix_socket_roots,
        facts,
    ) {
        Ok(roots) => roots,
        Err(halt) => {
            return Err(halt);
        },
    };
    assert(models(unix_socket_roots@) =~= texts(unix_socket_roots@));
    let network = match validate_network(&request.policy.network, facts) {
        Ok(network) => network,
        Err(halt) => {
            return Err(halt);
        },
    };
    Ok(
        ValidatedExec {
            id: request.id.clone(),
            program,
            args: copy_texts(&request.command.args),
            cwd,
            env: request.env.clone(),
            timeout_ms: request.timeout_ms,
            interactive: request.interactive,
            output_limit_bytes,
            rights,
            denies,
            unix_socket_roots,
            network,
        },
    )
}

} // verus!
