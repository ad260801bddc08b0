//! The arguments of Bubblewrap for a prepared launch.

use vstd::prelude::*;
use vstd::string::*;

use crate::facts::{
    decided, decided_all, each, lemma_each_step, models, refusal, refused, Decision, Facts, Halt,
    HaltModel, Host,
};
use crate::linux::{LaunchPlan, NetworkPlan, PreparedLaunch, SANDBOX_LAUNCHER_PATH};
use crate::mounts::{all_known, require_paths, ConcreteDeny, DeniedPath};
use crate::paths::{parent_of, path_parent};
use crate::protocol::{DeniedAccess, PathScope};
use crate::seatbelt::{NormalizedRight, Right};
use crate::text::{decimal, decimal_text, joined, joined4, texts};

verus! {

/// Appends `text` to the arguments.
fn push_text(args: &mut Vec<String>, text: &str)
    ensures
        texts(final(args)@) == texts(old(args)@).push(text@),
{
    args.push(text.to_owned());
    assert(texts(args@) =~= texts(old(args)@).push(text@));
}

/// The arguments that every sandbox starts with.
pub open spec fn base_arguments(drop_capabilities: bool) -> Seq<Seq<char>> {
    let base = seq![
        "--new-session"@,
        "--die-with-parent"@,
        "--unshare-user"@,
        "--unshare-pid"@,
        "--unshare-net"@,
        "--unshare-ipc"@,
        "--unshare-uts"@,
        "--ro-bind"@,
        "/"@,
        "/"@,
        "--dev"@,
        "/dev"@,
        "--proc"@,
        "/proc"@,
    ];
    if drop_capabilities {
        base + seq!["--cap-drop"@, "ALL"@]
    } else {
        base
    }
}

/// The arguments that every sandbox starts with: a read-only root, and
/// namespaces of its own for users, processes, network, IPC and host name.
pub fn base_args(drop_capabilities: bool) -> (args: Vec<String>)
    ensures
        texts(args@) == base_arguments(drop_capabilities),
{
    let mut args: Vec<String> = Vec::new();
    push_text(&mut args, "--new-session");
    push_text(&mut args, "--die-with-parent");
    push_text(&mut args, "--unshare-user");
    push_text(&mut args, "--unshare-pid");
    push_text(&mut args, "--unshare-net");
    push_text(&mut args, "--unshare-ipc");
    push_text(&mut args, "--unshare-uts");
    push_text(&mut args, "--ro-bind");
    push_text(&mut args, "/");
    push_text(&mut args, "/");
    push_text(&mut args, "--dev");
    push_text(&mut args, "/dev");
    push_text(&mut args, "--proc");
    push_text(&mut args, "/proc");
    if drop_capabilities {
        push_text(&mut args, "--cap-drop");
        push_text(&mut args, "ALL");
    }
    assert(texts(args@) =~= base_arguments(drop_capabilities));
    args
}

/// The arguments of one mount.
pub open spec fn mount(operation: Seq<char>, source: Seq<char>, target: Seq<char>) -> Seq<
    Seq<char>,
> {
    seq![operation, source, target]
}

/// Appends the arguments of one mount.
pub fn push_mount(args: &mut Vec<String>, operation: &str, source: &str, target: &str)
    ensures
        texts(final(args)@) == texts(old(args)@) + mount(operation@, source@, target@),
{
    push_text(args, operation);
    push_text(args, source);
    push_text(args, target);
    assert(texts(args@) =~= texts(old(args)@) + mount(operation@, source@, target@));
}

/// Whether what a right to write leads to fits the right's scope.
pub open spec fn type_fits(host: Host, right: Right) -> Decision<()> {
    match host.path(right.path) {
        Err(halt) => Err(halt),
        Ok(facts) => match facts.target {
            Err(error) => refusal("cannot inspect write root "@ + right.path + ": "@ + error),
            Ok(_) => if right.scope == PathScope::Tree && !facts.is_dir() {
                refusal("tree write root is not a directory: "@ + right.path)
            } else if right.scope == PathScope::File && facts.is_dir() {
                refusal("file write root is a directory: "@ + right.path)
            } else {
                Ok(())
            },
        },
    }
}

/// Checks that what a right to write leads to fits the right's scope.
///
/// # Errors
///
/// Refuses a path that cannot be inspected or that leads to something else.
pub fn ensure_existing_type(right: &NormalizedRight, facts: &Facts) -> (result: Result<(), Halt>)
    ensures
        decided(result) == type_fits(facts@, right@),
{
    let known = match facts.path(right.path.as_str()) {
        Ok(known) => known,
        Err(halt) => {
            return Err(halt);
        },
    };
    match &known.target {
        Ok(_) => {},
        Err(error) => {
            return Err(
                refused(
                    joined4(
                        "cannot inspect write root ",
                        right.path.as_str(),
                        ": ",
                        error.as_str(),
                    ),
                ),
            );
        },
    }
    if right.scope == PathScope::Tree && !known.is_dir() {
        return Err(refused(joined("tree write root is not a directory: ", right.path.as_str())));
    }
    if right.scope == PathScope::File && known.is_dir() {
        return Err(refused(joined("file write root is a directory: ", right.path.as_str())));
    }
    Ok(())
}

/// How the targets of rights to write are checked.
pub open spec fn type_step(host: Host) -> spec_fn(Right) -> Decision<()> {
    |right: Right| type_fits(host, right)
}

/// The mounts of rights to write.
pub open spec fn write_mounts(rights: Seq<Right>) -> Seq<Seq<char>>
    decreases rights.len(),
{
    if rights.len() == 0 {
        Seq::empty()
    } else {
        let path = rights.last().path;
        write_mounts(rights.drop_last()) + mount("--bind"@, path, path)
    }
}

/// The mounts that keep paths read-only.
pub open spec fn read_only_mounts(paths: Seq<Seq<char>>) -> Seq<Seq<char>>
    decreases paths.len(),
{
    if paths.len() == 0 {
        Seq::empty()
    } else {
        read_only_mounts(paths.drop_last()) + mount("--ro-bind"@, paths.last(), paths.last())
    }
}

/// The mounts that mask missing directories.
pub open spec fn mask_mounts(paths: Seq<Seq<char>>) -> Seq<Seq<char>>
    decreases paths.len(),
{
    if paths.len() == 0 {
        Seq::empty()
    } else {
        let path = paths.last();
        mask_mounts(paths.drop_last()) + seq![
            "--perms"@,
            "555"@,
            "--tmpfs"@,
            path,
            "--remount-ro"@,
            path,
        ]
    }
}

/// The mount that enforces a deny: a directory or file that cannot be read is
/// covered, one that cannot be written is made read-only, and a path that does
/// not exist needs nothing.
pub open spec fn deny_mount(host: Host, deny: DeniedPath, hidden_file: Option<u32>) -> Decision<
    Seq<Seq<char>>,
> {
    match host.path(deny.path) {
        Err(halt) => Err(halt),
        Ok(facts) => if !facts.is_present() {
            Ok(Seq::empty())
        } else if deny.access == DeniedAccess::Write {
            Ok(mount("--ro-bind"@, deny.path, deny.path))
        } else if facts.is_dir() {
            Ok(
                seq![
                    "--perms"@,
                    "000"@,
                    "--tmpfs"@,
                    deny.path,
                    "--remount-ro"@,
                    deny.path,
                ],
            )
        } else {
            match hidden_file {
                None => refusal("hidden file source is unavailable"@),
                Some(descriptor) => Ok(
                    seq![
                        "--perms"@,
                        "000"@,
                        "--ro-bind-data"@,
                        decimal(descriptor as nat),
                        deny.path,
                    ],
                ),
            }
        },
    }
}

/// Appends the mount that enforces a deny.
///
/// # Errors
///
/// Refuses a file that has to be hidden where there is nothing to hide it with.
pub fn append_deny(
    args: &mut Vec<String>,
    deny: &ConcreteDeny,
    hidden_file: Option<u32>,
    facts: &Facts,
) -> (result: Result<(), Halt>)
    ensures
        match result {
            Ok(_) => deny_mount(facts@, deny@, hidden_file) is Ok && texts(final(args)@) == texts(
                old(args)@,
            ) + deny_mount(facts@, deny@, hidden_file)->Ok_0,
            Err(halt) => deny_mount(facts@, deny@, hidden_file) == Err::<
                Seq<Seq<char>>,
                HaltModel,
            >(halt@),
        },
{
    let known = match facts.path(deny.path.as_str()) {
        Ok(known) => known,
        Err(halt) => {
            return Err(halt);
        },
    };
    if !known.is_present() {
        assert(texts(args@) + Seq::<Seq<char>>::empty() =~= texts(args@));
        return Ok(());
    }
    if deny.access == DeniedAccess::Write {
        push_mount(args, "--ro-bind", deny.path.as_str(), deny.path.as_str());
        return Ok(());
    }
    let directory = known.is_dir();
    push_text(args, "--perms");
    push_text(args, "000");
    if directory {
        push_text(args, "--tmpfs");
        push_text(args, deny.path.as_str());
        push_text(args, "--remount-ro");
        push_text(args, deny.path.as_str());
    } else {
        match hidden_file {
            Some(descriptor) => {
                push_text(args, "--ro-bind-data");
                let number = decimal_text(descriptor as u64);
                push_text(args, number.as_str());
                push_text(args, deny.path.as_str());
            },
            None => {
                return Err(refused("hidden file source is unavailable".to_owned()));
            },
        }
    }
    assert(texts(args@) =~= texts(old(args)@) + deny_mount(facts@, deny@, hidden_file)->Ok_0);
    Ok(())
}

/// The mounts that enforce denies.
pub open spec fn deny_mounts(host: Host, denies: Seq<DeniedPath>, hidden_file: Option<u32>) -> Decision<
    Seq<Seq<char>>,
>
    decreases denies.len(),
{
    if denies.len() == 0 {
        Ok(Seq::empty())
    } else {
        match deny_mounts(host, denies.drop_last(), hidden_file) {
            Err(halt) => Err(halt),
            Ok(before) => match deny_mount(host, denies.last(), hidden_file) {
                Err(halt) => Err(halt),
                Ok(mounts) => Ok(before + mounts),
            },
        }
    }
}

proof fn lemma_deny_mounts_stay(
    host: Host,
    denies: Seq<DeniedPath>,
    hidden_file: Option<u32>,
    i: int,
)
    requires
        0 <= i <= denies.len(),
        deny_mounts(host, denies.take(i), hidden_file) is Err,
    ensures
        deny_mounts(host, denies, hidden_file) == deny_mounts(host, denies.take(i), hidden_file),
    decreases denies.len(),
{
    if i == denies.len() {
        assert(denies.take(i) =~= denies);
    } else {
        assert(denies.drop_last().take(i) =~= denies.take(i));
        lemma_deny_mounts_stay(host, denies.drop_last(), hidden_file, i);
    }
}

/// The paths that a launch mounts something on.
pub open spec fn mounted_paths(plan: LaunchPlan) -> Seq<Seq<char>> {
    Seq::new(plan.writable.len(), |i: int| plan.writable[i].path) + Seq::new(
        plan.denies.len(),
        |i: int| plan.denies[i].path,
    )
}

/// The mount that keeps the directory of a proxy socket read-only.
pub open spec fn proxy_mount(socket: Option<Seq<char>>) -> Decision<Seq<Seq<char>>> {
    match socket {
        None => Ok(Seq::empty()),
        Some(socket) => match parent_of(socket) {
            None => refusal("network proxy socket has no parent directory"@),
            Some(directory) => Ok(mount("--ro-bind"@, directory, directory)),
        },
    }
}

/// The open files that a launch hands to Bubblewrap.
pub struct Descriptors {
    /// An empty file, where a file has to be hidden.
    pub hidden_file: Option<u32>,
    /// The seccomp program, for a command without network.
    pub seccomp: Option<u32>,
    /// The launcher.
    pub launcher: u32,
}

/// The arguments that give a command its seccomp program.
pub open spec fn seccomp_arguments(seccomp: Option<u32>) -> Seq<Seq<char>> {
    match seccomp {
        Some(descriptor) => seq!["--seccomp"@, decimal(descriptor as nat)],
        None => Seq::empty(),
    }
}

/// The command line inside the sandbox up to the command itself.
pub open spec fn launcher_arguments(network: NetworkPlan) -> Seq<Seq<char>> {
    if network.enabled {
        seq![
            SANDBOX_LAUNCHER_PATH@,
            "__linux_proxy_launch"@,
            match network.proxy_socket {
                Some(socket) => socket,
                None => "-"@,
            },
            if network.allow_local_binding {
                "allow-local-binding"@
            } else {
                "deny-local-binding"@
            },
            "--"@,
        ]
    } else {
        seq![SANDBOX_LAUNCHER_PATH@, "__linux_sandbox_launch"@, "--"@]
    }
}

/// The mounts of a launch: first what may be written, then what stays
/// read-only, then what is masked, then what is denied, so that nothing that
/// may be written covers what is protected, and last the proxy's directory and
/// the launcher.
pub open spec fn launch_mounts(host: Host, plan: LaunchPlan, descriptors: Descriptors) -> Decision<
    Seq<Seq<char>>,
> {
    match all_known(host, mounted_paths(plan)) {
        Err(halt) => Err(halt),
        Ok(_) => match each(plan.writable, type_step(host)) {
            Err(halt) => Err(halt),
            Ok(_) => match deny_mounts(host, plan.denies, descriptors.hidden_file) {
                Err(halt) => Err(halt),
                Ok(denied) => match proxy_mount(plan.network.proxy_socket) {
                    Err(halt) => Err(halt),
                    Ok(proxy) => Ok(
                        write_mounts(plan.writable) + read_only_mounts(plan.protected)
                            + mask_mounts(plan.synthetic_directories) + denied + proxy + seq![
                            "--ro-bind-data"@,
                            decimal(descriptors.launcher as nat),
                            SANDBOX_LAUNCHER_PATH@,
                        ],
                    ),
                },
            },
        },
    }
}

/// The arguments of Bubblewrap for a launch, or why there are none. A command
/// without network has a seccomp program, and no other command has one here: one
/// with a network gets its program from the launcher.
pub open spec fn launch_arguments(host: Host, plan: LaunchPlan, descriptors: Descriptors) -> Decision<
    Seq<Seq<char>>,
> {
    if !plan.network.enabled && descriptors.seccomp is None {
        refusal("seccomp program is unavailable"@)
    } else if plan.network.enabled && descriptors.seccomp is Some {
        refusal("seccomp program is not for a command with a network"@)
    } else {
        match launch_mounts(host, plan, descriptors) {
            Err(halt) => Err(halt),
            Ok(mounts) => Ok(
                base_arguments(!plan.network.enabled) + mounts + seccomp_arguments(
                    descriptors.seccomp,
                ) + seq!["--chdir"@, plan.cwd, "--"@] + launcher_arguments(plan.network)
                    + plan.command,
            ),
        }
    }
}

fn collect_mounted_paths(plan: &PreparedLaunch) -> (paths: Vec<String>)
    ensures
        texts(paths@) == mounted_paths(plan@),
{
    let ghost written = Seq::new(plan@.writable.len(), |i: int| plan@.writable[i].path);
    let ghost denied = Seq::new(plan@.denies.len(), |i: int| plan@.denies[i].path);
    let mut paths: Vec<String> = Vec::new();
    let mut i: usize = 0;
    assert(texts(paths@) =~= written.take(0));
    while i < plan.writable.len()
        invariant
            i <= plan.writable@.len(),
            written == Seq::new(plan@.writable.len(), |i: int| plan@.writable[i].path),
            texts(paths@) == written.take(i as int),
        decreases plan.writable@.len() - i,
    {
        let ghost before = texts(paths@);
        push_text(&mut paths, plan.writable[i].path.as_str());
        i = i + 1;
        assert(written[i - 1] == plan.writable@[i - 1].path@);
        assert(written.take(i as int) =~= before.push(written[i - 1]));
    }
    assert(written.take(i as int) =~= written);
    let mut i: usize = 0;
    assert(written + denied.take(0) =~= written);
    while i < plan.denies.len()
        invariant
            i <= plan.denies@.len(),
            denied == Seq::new(plan@.denies.len(), |i: int| plan@.denies[i].path),
            texts(paths@) == written + denied.take(i as int),
        decreases plan.denies@.len() - i,
    {
        let ghost before = texts(paths@);
        push_text(&mut paths, plan.denies[i].path.as_str());
        i = i + 1;
        assert(denied[i - 1] == plan.denies@[i - 1].path@);
        assert(written + denied.take(i as int) =~= before.push(denied[i - 1]));
    }
    assert(denied.take(i as int) =~= denied);
    paths
}

fn push_write_mounts(args: &mut Vec<String>, rights: &Vec<NormalizedRight>, facts: &Facts) -> (
result: Result<(), Halt>)
    ensures
        match result {
            Ok(_) => each(models(rights@), type_step(facts@)) is Ok && texts(final(args)@)
                == texts(old(args)@) + write_mounts(models(rights@)),
            Err(halt) => each(models(rights@), type_step(facts@)) == Err::<Seq<()>, HaltModel>(
                halt@,
            ),
        },
{
    let ghost start = texts(args@);
    let ghost all = models(rights@);
    let ghost step = type_step(facts@);
    let mut i: usize = 0;
    assert(all.take(0) =~= Seq::empty());
    assert(start + write_mounts(all.take(0)) =~= start);
    while i < rights.len()
        invariant
            i <= rights@.len(),
            all == models(rights@),
            step == type_step(facts@),
            each(all.take(i as int), step) is Ok,
            texts(args@) == start + write_mounts(all.take(i as int)),
        decreases rights@.len() - i,
    {
        proof {
            lemma_each_step(all, step, i as int);
        }
        let right = &rights[i];
        assert(all[i as int] == right@);
        match ensure_existing_type(right, facts) {
            Ok(_) => {},
            Err(halt) => {
                return Err(halt);
            },
        }
        push_mount(args, "--bind", right.path.as_str(), right.path.as_str());
        i = i + 1;
        assert(all.take(i as int).drop_last() =~= all.take(i - 1));
        assert(all.take(i as int).last() == right@);
        assert(texts(args@) =~= start + write_mounts(all.take(i as int)));
    }
    assert(all.take(i as int) =~= all);
    Ok(())
}

fn push_read_only_mounts(args: &mut Vec<String>, paths: &Vec<String>)
    ensures
        texts(final(args)@) == texts(old(args)@) + read_only_mounts(texts(paths@)),
{
    let ghost start = texts(args@);
    let ghost all = texts(paths@);
    let mut i: usize = 0;
    assert(all.take(0) =~= Seq::empty());
    assert(start + read_only_mounts(all.take(0)) =~= start);
    while i < paths.len()
        invariant
            i <= paths@.len(),
            all == texts(paths@),
            texts(args@) == start + read_only_mounts(all.take(i as int)),
        decreases paths@.len() - i,
    {
        push_mount(args, "--ro-bind", paths[i].as_str(), paths[i].as_str());
        i = i + 1;
        assert(all.take(i as int).drop_last() =~= all.take(i - 1));
        assert(all.take(i as int).last() == paths@[i - 1]@);
        assert(texts(args@) =~= start + read_only_mounts(all.take(i as int)));
    }
    assert(all.take(i as int) =~= all);
}

fn push_mask_mounts(args: &mut Vec<String>, plan: &PreparedLaunch)
    ensures
        texts(final(args)@) == texts(old(args)@) + mask_mounts(plan@.synthetic_directories),
{
    let ghost start = texts(args@);
    let ghost all = plan@.synthetic_directories;
    let mut i: usize = 0;
    assert(all.take(0) =~= Seq::empty());
    assert(start + mask_mounts(all.take(0)) =~= start);
    while i < plan.synthetic_directories.len()
        invariant
            i <= plan.synthetic_directories@.len(),
            all == models(plan.synthetic_directories@),
            texts(args@) == start + mask_mounts(all.take(i as int)),
        decreases plan.synthetic_directories@.len() - i,
    {
        let path = plan.synthetic_directories[i].path();
        push_text(args, "--perms");
        push_text(args, "555");
        push_text(args, "--tmpfs");
        push_text(args, path);
        push_text(args, "--remount-ro");
        push_text(args, path);
        i = i + 1;
        assert(all.take(i as int).drop_last() =~= all.take(i - 1));
        assert(all.take(i as int).last() == path@);
        assert(texts(args@) =~= start + mask_mounts(all.take(i as int)));
    }
    assert(all.take(i as int) =~= all);
}

fn push_deny_mounts(
    args: &mut Vec<String>,
    denies: &Vec<ConcreteDeny>,
    hidden_file: Option<u32>,
    facts: &Facts,
) -> (result: Result<(), Halt>)
    ensures
        match result {
            Ok(_) => deny_mounts(facts@, models(denies@), hidden_file) is Ok && texts(final(args)@)
                == texts(old(args)@) + deny_mounts(facts@, models(denies@), hidden_file)->Ok_0,
            Err(halt) => deny_mounts(facts@, models(denies@), hidden_file) == Err::<
                Seq<Seq<char>>,
                HaltModel,
            >(halt@),
        },
{
    let ghost start = texts(args@);
    let ghost all = models(denies@);
    let mut i: usize = 0;
    assert(all.take(0) =~= Seq::empty());
    assert(start + Seq::<Seq<char>>::empty() =~= start);
    while i < denies.len()
        invariant
            i <= denies@.len(),
            all == models(denies@),
            deny_mounts(facts@, all.take(i as int), hidden_file) is Ok,
            texts(args@) == start + deny_mounts(facts@, all.take(i as int), hidden_file)->Ok_0,
        decreases denies@.len() - i,
    {
        let pushed = append_deny(args, &denies[i], hidden_file, facts);
        i = i + 1;
        assert(all.take(i as int).drop_last() =~= all.take(i - 1));
        assert(all.take(i as int).last() == denies@[i - 1]@);
        match pushed {
            Ok(_) => {
                assert(texts(args@) =~= start + deny_mounts(
                    facts@,
                    all.take(i as int),
                    hidden_file,
                )->Ok_0);
            },
            Err(halt) => {
                proof {
                    lemma_deny_mounts_stay(facts@, all, hidden_file, i as int);
                }
                return Err(halt);
            },
        }
    }
    assert(all.take(i as int) =~= all);
    Ok(())
}

fn push_proxy_mount(args: &mut Vec<String>, socket: &Option<String>) -> (result: Result<(), Halt>)
    ensures
        match result {
            Ok(_) => proxy_mount(crate::protocol::text_option(*socket)) is Ok && texts(final(args)@)
                == texts(old(args)@) + proxy_mount(crate::protocol::text_option(*socket))->Ok_0,
            Err(halt) => proxy_mount(crate::protocol::text_option(*socket)) == Err::<
                Seq<Seq<char>>,
                HaltModel,
            >(halt@),
        },
{
    match socket {
        Some(socket) => match path_parent(socket.as_str()) {
            // The workspace can normally write `/tmp`. Mounted read-only behind
            // every write mount, the proxy's own directory keeps its socket from
            // being swapped before the bridge opens it.
            Some(directory) => {
                push_mount(args, "--ro-bind", directory.as_str(), directory.as_str());
                Ok(())
            },
            None => Err(refused("network proxy socket has no parent directory".to_owned())),
        },
        None => {
            assert(texts(args@) + Seq::<Seq<char>>::empty() =~= texts(args@));
            Ok(())
        },
    }
}

fn push_launch_mounts(
    args: &mut Vec<String>,
    plan: &PreparedLaunch,
    descriptors: &Descriptors,
    facts: &Facts,
) -> (result: Result<(), Halt>)
    ensures
        match result {
            Ok(_) => launch_mounts(facts@, plan@, *descriptors) is Ok && texts(final(args)@)
                == texts(old(args)@) + launch_mounts(facts@, plan@, *descriptors)->Ok_0,
            Err(halt) => launch_mounts(facts@, plan@, *descriptors) == Err::<
                Seq<Seq<char>>,
                HaltModel,
            >(halt@),
        },
{
    let ghost start = texts(args@);
    match require_paths(&collect_mounted_paths(plan), facts) {
        Ok(_) => {},
        Err(halt) => {
            return Err(halt);
        },
    }
    match push_write_mounts(args, &plan.writable, facts) {
        Ok(_) => {},
        Err(halt) => {
            return Err(halt);
        },
    }
    let ghost written = write_mounts(plan@.writable);
    push_read_only_mounts(args, &plan.protected);
    let ghost protected = read_only_mounts(plan@.protected);
    push_mask_mounts(args, plan);
    let ghost masked = mask_mounts(plan@.synthetic_directories);
    match push_deny_mounts(args, &plan.denies, descriptors.hidden_file, facts) {
        Ok(_) => {},
        Err(halt) => {
            return Err(halt);
        },
    }
    let ghost denied = deny_mounts(facts@, plan@.denies, descriptors.hidden_file)->Ok_0;
    match push_proxy_mount(args, &plan.network.proxy_socket) {
        Ok(_) => {},
        Err(halt) => {
            return Err(halt);
        },
    }
    let ghost proxy = proxy_mount(plan@.network.proxy_socket)->Ok_0;
    assert(texts(args@) =~= start + (written + protected + masked + denied + proxy));
    // Installed behind the write mounts, the launcher cannot be hidden or
    // replaced through a writable `/tmp`.
    let launcher = decimal_text(descriptors.launcher as u64);
    push_mount(args, "--ro-bind-data", launcher.as_str(), SANDBOX_LAUNCHER_PATH);
    assert(texts(args@) =~= start + (written + protected + masked + denied + proxy + mount(
        "--ro-bind-data"@,
        launcher@,
        SANDBOX_LAUNCHER_PATH@,
    )));
    Ok(())
}

fn push_launcher(args: &mut Vec<String>, network: &crate::linux::LaunchNetwork)
    ensures
        texts(final(args)@) == texts(old(args)@) + launcher_arguments(network@),
{
    push_text(args, SANDBOX_LAUNCHER_PATH);
    if network.enabled {
        push_text(args, "__linux_proxy_launch");
        match &network.proxy_socket {
            Some(socket) => {
                push_text(args, socket.as_str());
            },
            None => {
                push_text(args, "-");
            },
        }
        if network.allow_local_binding {
            push_text(args, "allow-local-binding");
        } else {
            push_text(args, "deny-local-binding");
        }
    } else {
        push_text(args, "__linux_sandbox_launch");
    }
    push_text(args, "--");
    assert(texts(args@) =~= texts(old(args)@) + launcher_arguments(network@));
}

fn push_seccomp(args: &mut Vec<String>, seccomp: Option<u32>)
    ensures
        texts(final(args)@) == texts(old(args)@) + seccomp_arguments(seccomp),
{
    if let Some(descriptor) = seccomp {
        push_text(args, "--seccomp");
        let number = decimal_text(descriptor as u64);
        push_text(args, number.as_str());
    }
    assert(texts(args@) =~= texts(old(args)@) + seccomp_arguments(seccomp));
}

/// Builds the arguments of Bubblewrap for a prepared launch.
///
/// # Errors
///
/// Refuses a launch whose write targets are not what they should be or that
/// cannot be mounted, a command without network that has no seccomp program, and
/// one with a network that has one, and asks for the facts that are missing.
pub fn launch_args(plan: &PreparedLaunch, descriptors: &Descriptors, facts: &Facts) -> (result:
    Result<Vec<String>, Halt>)
    ensures
        decided_all(result) == launch_arguments(facts@, plan@, *descriptors),
        result is Ok ==> (descriptors.seccomp is Some <==> !plan@.network.enabled),
{
    if !plan.network.enabled && descriptors.seccomp.is_none() {
        return Err(refused("seccomp program is unavailable".to_owned()));
    }
    if plan.network.enabled && descriptors.seccomp.is_some() {
        return Err(refused("seccomp program is not for a command with a network".to_owned()));
    }
    // A launcher with a network needs its capabilities until private loopback is
    // up, and then drops them itself. Every other command is stripped here.
    let mut args = base_args(!plan.network.enabled);
    match push_launch_mounts(&mut args, plan, descriptors, facts) {
        Ok(_) => {},
        Err(halt) => {
            return Err(halt);
        },
    }
    push_seccomp(&mut args, descriptors.seccomp);
    let ghost before = texts(args@);
    push_text(&mut args, "--chdir");
    push_text(&mut args, plan.cwd.as_str());
    push_text(&mut args, "--");
    assert(texts(args@) =~= before + seq!["--chdir"@, plan@.cwd, "--"@]);
    push_launcher(&mut args, &plan.network);
    let ghost before = texts(args@);
    let mut command = crate::text::copy_texts(&plan.command);
    let ghost copied = command@;
    let ghost args_before = args@;
    args.append(&mut command);
    assert(args@ == args_before + copied);
    assert(texts(args@) =~= before + texts(copied));
    assert(models(args@) =~= texts(args@));
    Ok(args)
}

/// A file or directory that has to be made before a launch.
#[derive(Debug)]
pub struct WriteTarget {
    pub path: String,
    /// The directory it is made in, which may have to be made first.
    pub parent: String,
    pub scope: PathScope,
}

/// A file or directory that has to be made before a launch.
pub struct MissingTarget {
    pub path: Seq<char>,
    pub parent: Seq<char>,
    pub scope: PathScope,
}

impl View for WriteTarget {
    type V = MissingTarget;

    open spec fn view(&self) -> MissingTarget {
        MissingTarget { path: self.path@, parent: self.parent@, scope: self.scope }
    }
}

/// What has to be made for a right to write, if anything.
pub open spec fn missing_target(host: Host, right: Right) -> Decision<Option<MissingTarget>> {
    match host.path(right.path) {
        Err(halt) => Err(halt),
        Ok(facts) => if facts.is_present() {
            Ok(None)
        } else {
            match parent_of(right.path) {
                None => refusal("missing write path has no parent: "@ + right.path),
                Some(parent) => Ok(
                    Some(MissingTarget { path: right.path, parent, scope: right.scope }),
                ),
            }
        },
    }
}

/// Decides what has to be made for a right to write, if anything.
///
/// # Errors
///
/// Refuses a missing path without a parent.
pub fn missing_write_target(right: &NormalizedRight, facts: &Facts) -> (result: Result<
    Option<WriteTarget>,
    Halt,
>)
    ensures
        match result {
            Ok(Some(target)) => missing_target(facts@, right@) == Ok::<
                Option<MissingTarget>,
                HaltModel,
            >(Some(target@)),
            Ok(None) => missing_target(facts@, right@) == Ok::<Option<MissingTarget>, HaltModel>(
                None,
            ),
            Err(halt) => missing_target(facts@, right@) == Err::<Option<MissingTarget>, HaltModel>(
                halt@,
            ),
        },
{
    let known = match facts.path(right.path.as_str()) {
        Ok(known) => known,
        Err(halt) => {
            return Err(halt);
        },
    };
    if known.is_present() {
        return Ok(None);
    }
    match path_parent(right.path.as_str()) {
        Some(parent) => Ok(
            Some(WriteTarget { path: right.path.clone(), parent, scope: right.scope }),
        ),
        None => Err(refused(joined("missing write path has no parent: ", right.path.as_str()))),
    }
}

/// What the sandbox must show of itself before commands are accepted: no new
/// privileges, no capabilities, a process namespace of its own, and a file
/// that cannot be read.
pub const SELF_TEST_SCRIPT: &'static str = "nnp=; permitted=; effective=; while read -r key value rest; do case \"$key\" in NoNewPrivs:) nnp=$value;; CapPrm:) permitted=$value;; CapEff:) effective=$value;; esac; done < /proc/self/status; [ \"$nnp\" = 1 ] && [ \"$permitted\" = 0000000000000000 ] && [ \"$effective\" = 0000000000000000 ] && [ \"$$\" -le 2 ] && [ ! -r /etc/passwd ]";

/// The arguments of Bubblewrap for the self-test.
pub open spec fn self_test_arguments(hidden_file: u32, seccomp: u32) -> Seq<Seq<char>> {
    base_arguments(true) + seq![
        "--perms"@,
        "000"@,
        "--ro-bind-data"@,
        decimal(hidden_file as nat),
        "/etc/passwd"@,
        "--seccomp"@,
        decimal(seccomp as nat),
        "--"@,
        "/bin/sh"@,
        "-c"@,
        SELF_TEST_SCRIPT@,
    ]
}

/// Builds the arguments of Bubblewrap for the self-test.
pub fn self_test_args(hidden_file: u32, seccomp: u32) -> (args: Vec<String>)
    ensures
        texts(args@) == self_test_arguments(hidden_file, seccomp),
{
    let mut args = base_args(true);
    push_text(&mut args, "--perms");
    push_text(&mut args, "000");
    push_text(&mut args, "--ro-bind-data");
    let number = decimal_text(hidden_file as u64);
    push_text(&mut args, number.as_str());
    push_text(&mut args, "/etc/passwd");
    push_text(&mut args, "--seccomp");
    let number = decimal_text(seccomp as u64);
    push_text(&mut args, number.as_str());
    push_text(&mut args, "--");
    push_text(&mut args, "/bin/sh");
    push_text(&mut args, "-c");
    push_text(&mut args, SELF_TEST_SCRIPT);
    assert(texts(args@) =~= self_test_arguments(hidden_file, seccomp));
    args
}

} // verus!
