//! What a command can read and write of the host, told from the arguments of its launch.

use vstd::prelude::*;

use crate::bubblewrap::{
    base_arguments, deny_mount, deny_mounts, launch_arguments, launch_mounts, launcher_arguments,
    mask_mounts, mount, proxy_mount, read_only_mounts, seccomp_arguments, self_test_arguments,
    write_mounts, Descriptors, SELF_TEST_SCRIPT,
};
use crate::facts::{FileKind, Host};
use crate::linux::{LaunchPlan, SANDBOX_LAUNCHER_PATH};
use crate::mounts::DeniedPath;
use crate::paths::{lies_under, parent_of};
use crate::protocol::DeniedAccess;
use crate::seatbelt::Right;
use crate::text::decimal;

verus! {

/// What an argument of Bubblewrap puts at a path.
#[derive(PartialEq, Eq, Structural)]
pub enum Kind {
    /// A part of the host, to be read and written.
    Bind,
    /// A part of the host, to be read.
    ReadOnlyBind,
    /// An empty directory of its own.
    Empty,
    /// A file of its own.
    Data,
    /// What is there already, from now on to be read only.
    Sealed,
    /// Devices.
    Devices,
    /// Processes.
    Processes,
    /// Something that is not known here.
    Unknown,
}

/// One step of making the filesystem of a sandbox.
pub struct Operation {
    pub kind: Kind,
    pub source: Seq<char>,
    pub target: Seq<char>,
    pub perms: Seq<char>,
}

/// How many arguments an option takes behind it.
pub open spec fn operands(option: Seq<char>) -> int {
    if option == "--bind"@ || option == "--ro-bind"@ || option == "--ro-bind-data"@ {
        2
    } else if option == "--tmpfs"@ || option == "--remount-ro"@ || option == "--dev"@ || option
        == "--proc"@ || option == "--perms"@ || option == "--cap-drop"@ || option == "--seccomp"@
        || option == "--chdir"@ {
        1
    } else {
        0
    }
}

/// What an option puts somewhere, if anything.
pub open spec fn kind_of(option: Seq<char>) -> Option<Kind> {
    if option == "--bind"@ {
        Some(Kind::Bind)
    } else if option == "--ro-bind"@ {
        Some(Kind::ReadOnlyBind)
    } else if option == "--ro-bind-data"@ {
        Some(Kind::Data)
    } else if option == "--tmpfs"@ {
        Some(Kind::Empty)
    } else if option == "--remount-ro"@ {
        Some(Kind::Sealed)
    } else if option == "--dev"@ {
        Some(Kind::Devices)
    } else if option == "--proc"@ {
        Some(Kind::Processes)
    } else {
        None
    }
}

/// Whether an option puts nothing anywhere: it cuts the sandbox off, takes something from
/// it, or says how it is entered.
pub open spec fn is_setting(option: Seq<char>) -> bool {
    ||| option == "--perms"@
    ||| option == "--cap-drop"@
    ||| option == "--seccomp"@
    ||| option == "--chdir"@
    ||| option == "--new-session"@
    ||| option == "--die-with-parent"@
    ||| option == "--unshare-user"@
    ||| option == "--unshare-pid"@
    ||| option == "--unshare-net"@
    ||| option == "--unshare-ipc"@
    ||| option == "--unshare-uts"@
}

/// The steps that arguments of Bubblewrap ask for, in order, up to the mark that ends
/// its options. Permissions are those of the next step. An option that is not known here
/// may change anything.
pub open spec fn operations(arguments: Seq<Seq<char>>, perms: Seq<char>) -> Seq<Operation>
    decreases arguments.len(),
{
    if arguments.len() == 0 || arguments[0] == "--"@ || arguments.len() <= operands(arguments[0]) {
        Seq::empty()
    } else {
        let n = operands(arguments[0]);
        let rest = arguments.skip(n + 1);
        match kind_of(arguments[0]) {
            Some(kind) => seq![
                Operation { kind, source: arguments[1], target: arguments[n], perms },
            ] + operations(rest, Seq::empty()),
            None => if is_setting(arguments[0]) {
                operations(
                    rest,
                    if arguments[0] == "--perms"@ {
                        arguments[1]
                    } else {
                        perms
                    },
                )
            } else {
                seq![
                    Operation {
                        kind: Kind::Unknown,
                        source: arguments[0],
                        target: seq!['/'],
                        perms,
                    },
                ] + operations(rest, Seq::empty())
            },
        }
    }
}

/// The place of the step that decides over a path: the last one that puts something at
/// the path or above it.
pub open spec fn deciding_at(steps: Seq<Operation>, path: Seq<char>) -> Option<int>
    decreases steps.len(),
{
    if steps.len() == 0 {
        None
    } else if steps.last().kind != Kind::Sealed && lies_under(path, steps.last().target) {
        Some(steps.len() - 1)
    } else {
        deciding_at(steps.drop_last(), path)
    }
}

/// The step that decides over a path.
pub open spec fn seen(arguments: Seq<Seq<char>>, path: Seq<char>) -> Option<Operation> {
    let steps = operations(arguments, Seq::empty());
    match deciding_at(steps, path) {
        Some(at) => Some(steps[at]),
        None => None,
    }
}

/// Whether a command can read what the host has at a path.
pub open spec fn can_be_read(arguments: Seq<Seq<char>>, path: Seq<char>) -> bool {
    seen(arguments, path) matches Some(step) && (step.kind == Kind::Bind || step.kind
        == Kind::ReadOnlyBind)
}

/// Whether a command can write what the host has at a path.
pub open spec fn can_be_written(arguments: Seq<Seq<char>>, path: Seq<char>) -> bool {
    seen(arguments, path) matches Some(step) && step.kind == Kind::Bind
}

/// Whether what decides over a path is sealed right away.
pub open spec fn is_sealed(arguments: Seq<Seq<char>>, path: Seq<char>) -> bool {
    let steps = operations(arguments, Seq::empty());
    deciding_at(steps, path) matches Some(at) && at + 1 < steps.len() && steps[at + 1].kind
        == Kind::Sealed && steps[at + 1].target == steps[at].target
}

/// One step, and what seals it.
pub open spec fn flat(blocks: Seq<Seq<Operation>>) -> Seq<Operation>
    decreases blocks.len(),
{
    if blocks.len() == 0 {
        Seq::empty()
    } else {
        flat(blocks.drop_last()) + blocks.last()
    }
}

/// Whether a block is nothing, one step, or one step and what seals it.
pub open spec fn is_block(block: Seq<Operation>) -> bool {
    ||| block.len() == 0
    ||| block.len() == 1 && block[0].kind != Kind::Sealed
    ||| block.len() == 2 && block[0].kind != Kind::Sealed && block[1].kind == Kind::Sealed
        && block[1].target == block[0].target
}

/// Whether a block decides over a path.
pub open spec fn block_covers(block: Seq<Operation>, path: Seq<char>) -> bool {
    block.len() > 0 && lies_under(path, block[0].target)
}

proof fn lemma_deciding_join(a: Seq<Operation>, b: Seq<Operation>, path: Seq<char>)
    ensures
        deciding_at(a + b, path) == (match deciding_at(b, path) {
            Some(at) => Some(a.len() + at),
            None => deciding_at(a, path),
        }),
    decreases b.len(),
{
    if b.len() == 0 {
        assert(a + b =~= a);
    } else {
        lemma_deciding_join(a, b.drop_last(), path);
        assert((a + b).drop_last() =~= a + b.drop_last());
    }
}

proof fn lemma_deciding_block(block: Seq<Operation>, path: Seq<char>)
    requires
        is_block(block),
    ensures
        deciding_at(block, path) == (if block_covers(block, path) {
            Some(0int)
        } else {
            None
        }),
{
    reveal_with_fuel(deciding_at, 3);
    if block.len() == 2 {
        assert(block.drop_last().len() == 1);
        assert(block.drop_last()[0] == block[0]);
    }
}

/// The place of the last block that decides over a path, and of its step.
proof fn lemma_deciding_flat(blocks: Seq<Seq<Operation>>, path: Seq<char>) -> (j: int)
    requires
        forall|i: int| 0 <= i < blocks.len() ==> is_block(#[trigger] blocks[i]),
    ensures
        (exists|i: int| 0 <= i < blocks.len() && block_covers(#[trigger] blocks[i], path)) ==> {
            &&& 0 <= j < blocks.len()
            &&& block_covers(blocks[j], path)
            &&& forall|i: int| j < i < blocks.len() ==> !block_covers(#[trigger] blocks[i], path)
            &&& deciding_at(flat(blocks), path) is Some
            &&& 0 <= deciding_at(flat(blocks), path)->0 < flat(blocks).len()
            &&& flat(blocks)[deciding_at(flat(blocks), path)->0] == blocks[j][0]
            &&& blocks[j].len() == 2 ==> {
                &&& deciding_at(flat(blocks), path)->0 + 1 < flat(blocks).len()
                &&& flat(blocks)[deciding_at(flat(blocks), path)->0 + 1] == blocks[j][1]
            }
        },
        (forall|i: int| 0 <= i < blocks.len() ==> !block_covers(#[trigger] blocks[i], path))
            ==> deciding_at(flat(blocks), path) is None,
    decreases blocks.len(),
{
    if blocks.len() == 0 {
        0
    } else {
        let front = blocks.drop_last();
        let last = blocks.last();
        let n = front.len() as int;
        assert forall|i: int| 0 <= i < front.len() implies is_block(#[trigger] front[i]) by {
            assert(front[i] == blocks[i]);
        }
        assert(blocks[n] == last);
        let j = lemma_deciding_flat(front, path);
        lemma_deciding_join(flat(front), last, path);
        lemma_deciding_block(last, path);
        assert forall|i: int| 0 <= i < n implies #[trigger] blocks[i] == front[i] by {}
        if block_covers(last, path) {
            assert(flat(blocks)[flat(front).len() as int] == last[0]);
            if last.len() == 2 {
                assert(flat(blocks)[flat(front).len() + 1int] == last[1]);
            }
            n
        } else {
            if exists|i: int| 0 <= i < blocks.len() && block_covers(#[trigger] blocks[i], path) {
                let i = choose|i: int|
                    0 <= i < blocks.len() && block_covers(#[trigger] blocks[i], path);
                assert(block_covers(front[i], path));
                let at = deciding_at(flat(front), path)->0;
                assert(flat(blocks)[at] == flat(front)[at]);
                assert forall|i: int| j < i < blocks.len() implies !block_covers(
                    #[trigger] blocks[i],
                    path,
                ) by {
                    if i < n {
                        assert(!block_covers(front[i], path));
                    }
                }
            } else {
                assert forall|i: int| 0 <= i < front.len() implies !block_covers(
                    #[trigger] front[i],
                    path,
                ) by {
                    assert(!block_covers(blocks[i], path));
                }
            }
            j
        }
    }
}

proof fn lemma_flat_join(a: Seq<Seq<Operation>>, b: Seq<Seq<Operation>>)
    ensures
        flat(a + b) == flat(a) + flat(b),
    decreases b.len(),
{
    if b.len() == 0 {
        assert(a + b =~= a);
        assert(flat(a) + flat(b) =~= flat(a));
    } else {
        lemma_flat_join(a, b.drop_last());
        assert((a + b).drop_last() =~= a + b.drop_last());
        assert(flat(a + b) =~= flat(a) + flat(b));
    }
}

proof fn lemma_flat_one(block: Seq<Operation>)
    ensures
        flat(seq![block]) == block,
{
    reveal_with_fuel(flat, 2);
    assert(seq![block].drop_last() =~= Seq::empty());
    assert(flat(seq![block]) =~= block);
}

/// Options are told apart by their length and by their third letter.
proof fn lemma_options()
    ensures
        "--"@.len() == 2,
        "--bind"@.len() == 6 && "--bind"@[2] == 'b',
        "--ro-bind"@.len() == 9 && "--ro-bind"@[2] == 'r',
        "--ro-bind-data"@.len() == 14 && "--ro-bind-data"@[2] == 'r',
        "--tmpfs"@.len() == 7 && "--tmpfs"@[2] == 't',
        "--remount-ro"@.len() == 12,
        "--dev"@.len() == 5,
        "--proc"@.len() == 6 && "--proc"@[2] == 'p',
        "--perms"@.len() == 7 && "--perms"@[2] == 'p',
        "--cap-drop"@.len() == 10,
        "--seccomp"@.len() == 9 && "--seccomp"@[2] == 's',
        "--chdir"@.len() == 7 && "--chdir"@[2] == 'c',
        "--new-session"@.len() == 13,
        "--die-with-parent"@.len() == 17,
        "--unshare-user"@.len() == 14 && "--unshare-user"@[2] == 'u',
        "--unshare-pid"@.len() == 13,
        "--unshare-net"@.len() == 13,
        "--unshare-ipc"@.len() == 13,
        "--unshare-uts"@.len() == 13,
{
    reveal_strlit("--");
    reveal_strlit("--bind");
    reveal_strlit("--ro-bind");
    reveal_strlit("--ro-bind-data");
    reveal_strlit("--tmpfs");
    reveal_strlit("--remount-ro");
    reveal_strlit("--dev");
    reveal_strlit("--proc");
    reveal_strlit("--perms");
    reveal_strlit("--cap-drop");
    reveal_strlit("--seccomp");
    reveal_strlit("--chdir");
    reveal_strlit("--new-session");
    reveal_strlit("--die-with-parent");
    reveal_strlit("--unshare-user");
    reveal_strlit("--unshare-pid");
    reveal_strlit("--unshare-net");
    reveal_strlit("--unshare-ipc");
    reveal_strlit("--unshare-uts");
}

proof fn lemma_flag(flag: Seq<char>, rest: Seq<Seq<char>>)
    requires
        is_setting(flag),
        flag.len() == 13 || flag.len() == 17 || flag == "--unshare-user"@,
    ensures
        operations(seq![flag] + rest, Seq::empty()) == operations(rest, Seq::empty()),
{
    lemma_options();
    let all = seq![flag] + rest;
    assert(all.skip(1) =~= rest);
}

proof fn lemma_setting(option: Seq<char>, value: Seq<char>, rest: Seq<Seq<char>>)
    requires
        option == "--cap-drop"@ || option == "--seccomp"@ || option == "--chdir"@,
    ensures
        operations(seq![option, value] + rest, Seq::empty()) == operations(rest, Seq::empty()),
{
    lemma_options();
    let all = seq![option, value] + rest;
    assert(all.skip(2) =~= rest);
}

proof fn lemma_step_one(
    option: Seq<char>,
    kind: Kind,
    target: Seq<char>,
    perms: Seq<char>,
    rest: Seq<Seq<char>>,
)
    requires
        option == "--tmpfs"@ && kind == Kind::Empty || option == "--remount-ro"@ && kind
            == Kind::Sealed || option == "--dev"@ && kind == Kind::Devices || option == "--proc"@
            && kind == Kind::Processes,
    ensures
        operations(seq![option, target] + rest, perms) == seq![
            Operation { kind, source: target, target, perms },
        ] + operations(rest, Seq::empty()),
{
    lemma_options();
    let all = seq![option, target] + rest;
    assert(all.skip(2) =~= rest);
}

proof fn lemma_step_two(
    option: Seq<char>,
    kind: Kind,
    source: Seq<char>,
    target: Seq<char>,
    perms: Seq<char>,
    rest: Seq<Seq<char>>,
)
    requires
        option == "--bind"@ && kind == Kind::Bind || option == "--ro-bind"@ && kind
            == Kind::ReadOnlyBind || option == "--ro-bind-data"@ && kind == Kind::Data,
    ensures
        operations(seq![option, source, target] + rest, perms) == seq![
            Operation { kind, source, target, perms },
        ] + operations(rest, Seq::empty()),
{
    lemma_options();
    let all = seq![option, source, target] + rest;
    assert(all.skip(3) =~= rest);
}

proof fn lemma_perms(perms: Seq<char>, rest: Seq<Seq<char>>)
    ensures
        operations(seq!["--perms"@, perms] + rest, Seq::empty()) == operations(rest, perms),
{
    lemma_options();
    let all = seq!["--perms"@, perms] + rest;
    assert(all.skip(2) =~= rest);
}

/// What a bind of a path to itself does.
pub open spec fn bound(kind: Kind, path: Seq<char>) -> Seq<Operation> {
    seq![Operation { kind, source: path, target: path, perms: Seq::empty() }]
}

/// What an empty directory that is sealed does.
pub open spec fn emptied(path: Seq<char>, perms: Seq<char>) -> Seq<Operation> {
    seq![
        Operation { kind: Kind::Empty, source: path, target: path, perms },
        Operation { kind: Kind::Sealed, source: path, target: path, perms: Seq::empty() },
    ]
}

/// What a denied path comes to.
pub open spec fn denied_block(host: Host, deny: DeniedPath, hidden: Option<u32>) -> Seq<Operation> {
    if host.paths[deny.path].target is Err {
        Seq::empty()
    } else if deny.access == DeniedAccess::Write {
        bound(Kind::ReadOnlyBind, deny.path)
    } else if host.paths[deny.path].is_dir() {
        emptied(deny.path, "000"@)
    } else {
        seq![
            Operation {
                kind: Kind::Data,
                source: decimal(hidden->0 as nat),
                target: deny.path,
                perms: "000"@,
            },
        ]
    }
}

proof fn lemma_emptied(path: Seq<char>, perms: Seq<char>, rest: Seq<Seq<char>>)
    ensures
        operations(
            seq!["--perms"@, perms, "--tmpfs"@, path, "--remount-ro"@, path] + rest,
            Seq::empty(),
        ) == emptied(path, perms) + operations(rest, Seq::empty()),
{
    let none = Seq::<char>::empty();
    let third = seq!["--remount-ro"@, path] + rest;
    let second = seq!["--tmpfs"@, path] + third;
    assert(seq!["--perms"@, perms, "--tmpfs"@, path, "--remount-ro"@, path] + rest =~= seq![
        "--perms"@,
        perms,
    ] + second);
    lemma_perms(perms, second);
    lemma_step_one("--tmpfs"@, Kind::Empty, path, perms, third);
    lemma_step_one("--remount-ro"@, Kind::Sealed, path, none, rest);
    assert(operations(second, perms) =~= emptied(path, perms) + operations(rest, none));
}

proof fn lemma_write_steps(rights: Seq<Right>, rest: Seq<Seq<char>>)
    ensures
        operations(write_mounts(rights) + rest, Seq::empty()) == flat(
            Seq::new(rights.len(), |i: int| bound(Kind::Bind, rights[i].path)),
        ) + operations(rest, Seq::empty()),
    decreases rights.len(),
{
    let none = Seq::<char>::empty();
    let blocks = Seq::new(rights.len(), |i: int| bound(Kind::Bind, rights[i].path));
    if rights.len() == 0 {
        assert(write_mounts(rights) + rest =~= rest);
        assert(flat(blocks) + operations(rest, none) =~= operations(rest, none));
    } else {
        let front = rights.drop_last();
        let path = rights.last().path;
        let behind = mount("--bind"@, path, path) + rest;
        lemma_write_steps(front, behind);
        assert(write_mounts(rights) + rest =~= write_mounts(front) + behind);
        lemma_step_two("--bind"@, Kind::Bind, path, path, none, rest);
        assert(blocks.drop_last() =~= Seq::new(
            front.len(),
            |i: int| bound(Kind::Bind, front[i].path),
        ));
        assert(blocks.last() == bound(Kind::Bind, path));
        assert(operations(write_mounts(rights) + rest, none) =~= flat(blocks) + operations(
            rest,
            none,
        ));
    }
}

proof fn lemma_read_only_steps(paths: Seq<Seq<char>>, rest: Seq<Seq<char>>)
    ensures
        operations(read_only_mounts(paths) + rest, Seq::empty()) == flat(
            Seq::new(paths.len(), |i: int| bound(Kind::ReadOnlyBind, paths[i])),
        ) + operations(rest, Seq::empty()),
    decreases paths.len(),
{
    let none = Seq::<char>::empty();
    let blocks = Seq::new(paths.len(), |i: int| bound(Kind::ReadOnlyBind, paths[i]));
    if paths.len() == 0 {
        assert(read_only_mounts(paths) + rest =~= rest);
        assert(flat(blocks) + operations(rest, none) =~= operations(rest, none));
    } else {
        let front = paths.drop_last();
        let path = paths.last();
        let behind = mount("--ro-bind"@, path, path) + rest;
        lemma_read_only_steps(front, behind);
        assert(read_only_mounts(paths) + rest =~= read_only_mounts(front) + behind);
        lemma_step_two("--ro-bind"@, Kind::ReadOnlyBind, path, path, none, rest);
        assert(blocks.drop_last() =~= Seq::new(
            front.len(),
            |i: int| bound(Kind::ReadOnlyBind, front[i]),
        ));
        assert(blocks.last() == bound(Kind::ReadOnlyBind, path));
        assert(operations(read_only_mounts(paths) + rest, none) =~= flat(blocks) + operations(
            rest,
            none,
        ));
    }
}

proof fn lemma_mask_steps(paths: Seq<Seq<char>>, rest: Seq<Seq<char>>)
    ensures
        operations(mask_mounts(paths) + rest, Seq::empty()) == flat(
            Seq::new(paths.len(), |i: int| emptied(paths[i], "555"@)),
        ) + operations(rest, Seq::empty()),
    decreases paths.len(),
{
    let none = Seq::<char>::empty();
    let blocks = Seq::new(paths.len(), |i: int| emptied(paths[i], "555"@));
    if paths.len() == 0 {
        assert(mask_mounts(paths) + rest =~= rest);
        assert(flat(blocks) + operations(rest, none) =~= operations(rest, none));
    } else {
        let front = paths.drop_last();
        let path = paths.last();
        let behind = seq!["--perms"@, "555"@, "--tmpfs"@, path, "--remount-ro"@, path] + rest;
        lemma_mask_steps(front, behind);
        assert(mask_mounts(paths) + rest =~= mask_mounts(front) + behind);
        lemma_emptied(path, "555"@, rest);
        assert(blocks.drop_last() =~= Seq::new(front.len(), |i: int| emptied(front[i], "555"@)));
        assert(blocks.last() == emptied(path, "555"@));
        assert(operations(mask_mounts(paths) + rest, none) =~= flat(blocks) + operations(
            rest,
            none,
        ));
    }
}

proof fn lemma_denied_step(
    host: Host,
    deny: DeniedPath,
    hidden: Option<u32>,
    rest: Seq<Seq<char>>,
)
    requires
        deny_mount(host, deny, hidden) is Ok,
    ensures
        operations(deny_mount(host, deny, hidden)->Ok_0 + rest, Seq::empty()) == denied_block(
            host,
            deny,
            hidden,
        ) + operations(rest, Seq::empty()),
{
    let none = Seq::<char>::empty();
    let mounts = deny_mount(host, deny, hidden)->Ok_0;
    let path = deny.path;
    if host.paths[path].target is Err {
        assert(mounts + rest =~= rest);
        assert(Seq::<Operation>::empty() + operations(rest, none) =~= operations(rest, none));
    } else if deny.access == DeniedAccess::Write {
        lemma_step_two("--ro-bind"@, Kind::ReadOnlyBind, path, path, none, rest);
    } else if host.paths[path].is_dir() {
        lemma_emptied(path, "000"@, rest);
    } else {
        let number = decimal(hidden->0 as nat);
        let behind = seq!["--ro-bind-data"@, number, path] + rest;
        assert(mounts + rest =~= seq!["--perms"@, "000"@] + behind);
        lemma_perms("000"@, behind);
        lemma_step_two("--ro-bind-data"@, Kind::Data, number, path, "000"@, rest);
    }
}

proof fn lemma_denied_steps(
    host: Host,
    denies: Seq<DeniedPath>,
    hidden: Option<u32>,
    rest: Seq<Seq<char>>,
)
    requires
        deny_mounts(host, denies, hidden) is Ok,
    ensures
        operations(deny_mounts(host, denies, hidden)->Ok_0 + rest, Seq::empty()) == flat(
            Seq::new(denies.len(), |i: int| denied_block(host, denies[i], hidden)),
        ) + operations(rest, Seq::empty()),
    decreases denies.len(),
{
    let none = Seq::<char>::empty();
    let blocks = Seq::new(denies.len(), |i: int| denied_block(host, denies[i], hidden));
    let mounts = deny_mounts(host, denies, hidden)->Ok_0;
    if denies.len() == 0 {
        assert(mounts + rest =~= rest);
        assert(flat(blocks) + operations(rest, none) =~= operations(rest, none));
    } else {
        let front = denies.drop_last();
        let before = deny_mounts(host, front, hidden)->Ok_0;
        let behind = deny_mount(host, denies.last(), hidden)->Ok_0 + rest;
        lemma_denied_steps(host, front, hidden, behind);
        assert(mounts + rest =~= before + behind);
        lemma_denied_step(host, denies.last(), hidden, rest);
        assert(blocks.drop_last() =~= Seq::new(
            front.len(),
            |i: int| denied_block(host, front[i], hidden),
        ));
        assert(blocks.last() == denied_block(host, denies.last(), hidden));
        assert(operations(mounts + rest, none) =~= flat(blocks) + operations(rest, none));
    }
}

/// What every sandbox starts with.
pub open spec fn base_blocks() -> Seq<Seq<Operation>> {
    seq![
        bound(Kind::ReadOnlyBind, "/"@),
        bound(Kind::Devices, "/dev"@),
        bound(Kind::Processes, "/proc"@),
    ]
}

proof fn lemma_base_steps(drop_capabilities: bool, rest: Seq<Seq<char>>)
    ensures
        operations(base_arguments(drop_capabilities) + rest, Seq::empty()) == flat(base_blocks())
            + operations(rest, Seq::empty()),
{
    let none = Seq::<char>::empty();
    lemma_options();
    let settings = if drop_capabilities {
        seq!["--cap-drop"@, "ALL"@]
    } else {
        Seq::empty()
    };
    let r0 = settings + rest;
    if drop_capabilities {
        lemma_setting("--cap-drop"@, "ALL"@, rest);
    } else {
        assert(r0 =~= rest);
    }
    let r1 = seq!["--proc"@, "/proc"@] + r0;
    lemma_step_one("--proc"@, Kind::Processes, "/proc"@, none, r0);
    let r2 = seq!["--dev"@, "/dev"@] + r1;
    lemma_step_one("--dev"@, Kind::Devices, "/dev"@, none, r1);
    let r3 = seq!["--ro-bind"@, "/"@, "/"@] + r2;
    lemma_step_two("--ro-bind"@, Kind::ReadOnlyBind, "/"@, "/"@, none, r2);
    let r4 = seq!["--unshare-uts"@] + r3;
    lemma_flag("--unshare-uts"@, r3);
    let r5 = seq!["--unshare-ipc"@] + r4;
    lemma_flag("--unshare-ipc"@, r4);
    let r6 = seq!["--unshare-net"@] + r5;
    lemma_flag("--unshare-net"@, r5);
    let r7 = seq!["--unshare-pid"@] + r6;
    lemma_flag("--unshare-pid"@, r6);
    let r8 = seq!["--unshare-user"@] + r7;
    lemma_flag("--unshare-user"@, r7);
    let r9 = seq!["--die-with-parent"@] + r8;
    lemma_flag("--die-with-parent"@, r8);
    let r10 = seq!["--new-session"@] + r9;
    lemma_flag("--new-session"@, r9);
    assert(base_arguments(drop_capabilities) + rest =~= r10);
    reveal_with_fuel(flat, 4);
    let blocks = base_blocks();
    assert(blocks.drop_last().drop_last() =~= seq![blocks[0]]);
    lemma_flat_one(blocks[0]);
    assert(flat(blocks) =~= blocks[0] + blocks[1] + blocks[2]);
    assert(operations(r10, none) =~= flat(blocks) + operations(rest, none));
}

/// What the directory of a proxy's socket comes to.
pub open spec fn proxy_blocks(socket: Option<Seq<char>>) -> Seq<Seq<Operation>> {
    match socket {
        Some(socket) => seq![bound(Kind::ReadOnlyBind, parent_of(socket)->0)],
        None => Seq::empty(),
    }
}

/// What the launcher comes to.
pub open spec fn launcher_block(descriptors: Descriptors) -> Seq<Operation> {
    seq![
        Operation {
            kind: Kind::Data,
            source: decimal(descriptors.launcher as nat),
            target: SANDBOX_LAUNCHER_PATH@,
            perms: Seq::empty(),
        },
    ]
}

/// All that a launch comes to.
pub open spec fn launch_blocks(host: Host, plan: LaunchPlan, descriptors: Descriptors) -> Seq<
    Seq<Operation>,
> {
    base_blocks() + Seq::new(
        plan.writable.len(),
        |i: int| bound(Kind::Bind, plan.writable[i].path),
    ) + Seq::new(plan.protected.len(), |i: int| bound(Kind::ReadOnlyBind, plan.protected[i]))
        + Seq::new(
        plan.synthetic_directories.len(),
        |i: int| emptied(plan.synthetic_directories[i], "555"@),
    ) + Seq::new(
        plan.denies.len(),
        |i: int| denied_block(host, plan.denies[i], descriptors.hidden_file),
    ) + proxy_blocks(plan.network.proxy_socket) + seq![launcher_block(descriptors)]
}

proof fn lemma_tail_steps(plan: LaunchPlan, descriptors: Descriptors)
    ensures
        operations(
            seq![
                "--ro-bind-data"@,
                decimal(descriptors.launcher as nat),
                SANDBOX_LAUNCHER_PATH@,
            ] + (seccomp_arguments(descriptors.seccomp) + (seq!["--chdir"@, plan.cwd] + (seq![
                "--"@,
            ] + launcher_arguments(plan.network) + plan.command))),
            Seq::empty(),
        ) == flat(seq![launcher_block(descriptors)]),
{
    let none = Seq::<char>::empty();
    let number = decimal(descriptors.launcher as nat);
    let ending = seq!["--"@] + launcher_arguments(plan.network) + plan.command;
    let r0 = seq!["--chdir"@, plan.cwd] + ending;
    lemma_setting("--chdir"@, plan.cwd, ending);
    assert(ending[0] == "--"@);
    assert(operations(ending, none) =~= Seq::empty());
    let r1 = seccomp_arguments(descriptors.seccomp) + r0;
    if descriptors.seccomp is Some {
        lemma_setting("--seccomp"@, decimal(descriptors.seccomp->0 as nat), r0);
    } else {
        assert(r1 =~= r0);
    }
    lemma_step_two("--ro-bind-data"@, Kind::Data, number, SANDBOX_LAUNCHER_PATH@, none, r1);
    lemma_flat_one(launcher_block(descriptors));
    assert(launcher_block(descriptors) + Seq::<Operation>::empty() =~= launcher_block(
        descriptors,
    ));
}

proof fn lemma_proxy_steps(socket: Option<Seq<char>>, rest: Seq<Seq<char>>)
    requires
        proxy_mount(socket) is Ok,
    ensures
        operations(proxy_mount(socket)->Ok_0 + rest, Seq::empty()) == flat(proxy_blocks(socket))
            + operations(rest, Seq::empty()),
{
    let none = Seq::<char>::empty();
    if let Some(socket) = socket {
        let directory = parent_of(socket)->0;
        lemma_step_two("--ro-bind"@, Kind::ReadOnlyBind, directory, directory, none, rest);
        lemma_flat_one(bound(Kind::ReadOnlyBind, directory));
    } else {
        assert(proxy_mount(socket)->Ok_0 + rest =~= rest);
        assert(flat(proxy_blocks(socket)) + operations(rest, none) =~= operations(rest, none));
    }
}

proof fn lemma_flat_seven(
    a: Seq<Seq<Operation>>,
    b: Seq<Seq<Operation>>,
    c: Seq<Seq<Operation>>,
    d: Seq<Seq<Operation>>,
    e: Seq<Seq<Operation>>,
    f: Seq<Seq<Operation>>,
    g: Seq<Seq<Operation>>,
)
    ensures
        flat(a + b + c + d + e + f + g) == flat(a) + (flat(b) + (flat(c) + (flat(d) + (flat(e) + (
        flat(f) + flat(g)))))),
{
    lemma_flat_join(a, b);
    lemma_flat_join(a + b, c);
    lemma_flat_join(a + b + c, d);
    lemma_flat_join(a + b + c + d, e);
    lemma_flat_join(a + b + c + d + e, f);
    lemma_flat_join(a + b + c + d + e + f, g);
    lemma_nested(flat(a), flat(b), flat(c), flat(d), flat(e), flat(f), flat(g));
}

proof fn lemma_regroup<A>(a: Seq<A>, b: Seq<A>, c: Seq<A>)
    ensures
        (a + b) + c == a + (b + c),
{
    assert((a + b) + c =~= a + (b + c));
}

proof fn lemma_nested<A>(
    a: Seq<A>,
    b: Seq<A>,
    c: Seq<A>,
    d: Seq<A>,
    e: Seq<A>,
    f: Seq<A>,
    rest: Seq<A>,
)
    ensures
        a + b + c + d + e + f + rest == a + (b + (c + (d + (e + (f + rest))))),
{
    lemma_regroup(a + b + c + d + e, f, rest);
    lemma_regroup(a + b + c + d, e, f + rest);
    lemma_regroup(a + b + c, d, e + (f + rest));
    lemma_regroup(a + b, c, d + (e + (f + rest)));
    lemma_regroup(a, b, c + (d + (e + (f + rest))));
}

proof fn lemma_launch_arguments(host: Host, plan: LaunchPlan, descriptors: Descriptors)
    requires
        launch_arguments(host, plan, descriptors) is Ok,
    ensures
        launch_arguments(host, plan, descriptors)->Ok_0 == base_arguments(!plan.network.enabled) + (
        write_mounts(plan.writable) + (read_only_mounts(plan.protected) + (mask_mounts(
            plan.synthetic_directories,
        ) + (deny_mounts(host, plan.denies, descriptors.hidden_file)->Ok_0 + (proxy_mount(
            plan.network.proxy_socket,
        )->Ok_0 + (seq![
            "--ro-bind-data"@,
            decimal(descriptors.launcher as nat),
            SANDBOX_LAUNCHER_PATH@,
        ] + (seccomp_arguments(descriptors.seccomp) + (seq!["--chdir"@, plan.cwd] + (seq!["--"@]
            + launcher_arguments(plan.network) + plan.command))))))))),
{
    let base = base_arguments(!plan.network.enabled);
    let mounts = launch_mounts(host, plan, descriptors)->Ok_0;
    let seccomp = seccomp_arguments(descriptors.seccomp);
    let directory = seq!["--chdir"@, plan.cwd];
    let mark = seq!["--"@];
    let settings = seq!["--chdir"@, plan.cwd, "--"@];
    let launcher = launcher_arguments(plan.network);
    let command = plan.command;
    assert(settings =~= directory + mark);
    lemma_regroup(directory, mark, launcher);
    lemma_regroup(directory, mark + launcher, command);
    let ending = directory + (mark + launcher + command);
    lemma_regroup(base + mounts + seccomp, settings, launcher);
    lemma_regroup(base + mounts + seccomp, settings + launcher, command);
    lemma_regroup(base + mounts, seccomp, ending);
    lemma_regroup(base, mounts, seccomp + ending);
    lemma_nested(
        write_mounts(plan.writable),
        read_only_mounts(plan.protected),
        mask_mounts(plan.synthetic_directories),
        deny_mounts(host, plan.denies, descriptors.hidden_file)->Ok_0,
        proxy_mount(plan.network.proxy_socket)->Ok_0,
        seq![
            "--ro-bind-data"@,
            decimal(descriptors.launcher as nat),
            SANDBOX_LAUNCHER_PATH@,
        ],
        seccomp + ending,
    );
}

proof fn lemma_launch_steps(host: Host, plan: LaunchPlan, descriptors: Descriptors)
    requires
        launch_arguments(host, plan, descriptors) is Ok,
    ensures
        operations(launch_arguments(host, plan, descriptors)->Ok_0, Seq::empty()) == flat(
            launch_blocks(host, plan, descriptors),
        ),
        forall|i: int|
            0 <= i < launch_blocks(host, plan, descriptors).len() ==> is_block(
                #[trigger] launch_blocks(host, plan, descriptors)[i],
            ),
{
    let arguments = launch_arguments(host, plan, descriptors)->Ok_0;
    let hidden = descriptors.hidden_file;
    let r2 = seq![
        "--ro-bind-data"@,
        decimal(descriptors.launcher as nat),
        SANDBOX_LAUNCHER_PATH@,
    ] + (seccomp_arguments(descriptors.seccomp) + (seq!["--chdir"@, plan.cwd] + (seq!["--"@]
        + launcher_arguments(plan.network) + plan.command)));
    let r3 = proxy_mount(plan.network.proxy_socket)->Ok_0 + r2;
    let r4 = deny_mounts(host, plan.denies, hidden)->Ok_0 + r3;
    let r5 = mask_mounts(plan.synthetic_directories) + r4;
    let r6 = read_only_mounts(plan.protected) + r5;
    let r7 = write_mounts(plan.writable) + r6;
    lemma_tail_steps(plan, descriptors);
    lemma_proxy_steps(plan.network.proxy_socket, r2);
    lemma_denied_steps(host, plan.denies, hidden, r3);
    lemma_mask_steps(plan.synthetic_directories, r4);
    lemma_read_only_steps(plan.protected, r5);
    lemma_write_steps(plan.writable, r6);
    lemma_base_steps(!plan.network.enabled, r7);
    lemma_launch_arguments(host, plan, descriptors);
    assert(arguments == base_arguments(!plan.network.enabled) + r7);
    lemma_flat_seven(
        base_blocks(),
        Seq::new(plan.writable.len(), |i: int| bound(Kind::Bind, plan.writable[i].path)),
        Seq::new(plan.protected.len(), |i: int| bound(Kind::ReadOnlyBind, plan.protected[i])),
        Seq::new(
            plan.synthetic_directories.len(),
            |i: int| emptied(plan.synthetic_directories[i], "555"@),
        ),
        Seq::new(plan.denies.len(), |i: int| denied_block(host, plan.denies[i], hidden)),
        proxy_blocks(plan.network.proxy_socket),
        seq![launcher_block(descriptors)],
    );
    let blocks = launch_blocks(host, plan, descriptors);
    assert forall|i: int| 0 <= i < blocks.len() implies is_block(#[trigger] blocks[i]) by {
        lemma_blocks(host, plan, descriptors, i);
    }
}

/// Where the parts of a launch start among all that it comes to.
pub open spec fn protected_at(plan: LaunchPlan) -> int {
    3int + plan.writable.len()
}

/// Where what is masked starts.
pub open spec fn masked_at(plan: LaunchPlan) -> int {
    protected_at(plan) + plan.protected.len()
}

/// Where what is denied starts.
pub open spec fn denied_at(plan: LaunchPlan) -> int {
    masked_at(plan) + plan.synthetic_directories.len()
}

/// Where the last steps start.
pub open spec fn ending_at(plan: LaunchPlan) -> int {
    denied_at(plan) + plan.denies.len()
}

proof fn lemma_blocks(host: Host, plan: LaunchPlan, descriptors: Descriptors, i: int)
    requires
        0 <= i < launch_blocks(host, plan, descriptors).len(),
    ensures
        launch_blocks(host, plan, descriptors).len() == ending_at(plan) + proxy_blocks(
            plan.network.proxy_socket,
        ).len() + 1,
        ({
            let block = launch_blocks(host, plan, descriptors)[i];
            if i < 3 {
                block == base_blocks()[i]
            } else if i < protected_at(plan) {
                block == bound(Kind::Bind, plan.writable[i - 3].path)
            } else if i < masked_at(plan) {
                block == bound(Kind::ReadOnlyBind, plan.protected[i - protected_at(plan)])
            } else if i < denied_at(plan) {
                block == emptied(plan.synthetic_directories[i - masked_at(plan)], "555"@)
            } else if i < ending_at(plan) {
                block == denied_block(
                    host,
                    plan.denies[i - denied_at(plan)],
                    descriptors.hidden_file,
                )
            } else if i == ending_at(plan) && plan.network.proxy_socket is Some {
                block == bound(Kind::ReadOnlyBind, parent_of(plan.network.proxy_socket->0)->0)
            } else {
                block == launcher_block(descriptors)
            }
        }),
{
}

/// Whether something that decides later than the denies is put over a path: the
/// directory of the proxy's socket, or the launcher.
pub open spec fn is_put_last(plan: LaunchPlan, path: Seq<char>) -> bool {
    ||| lies_under(path, SANDBOX_LAUNCHER_PATH@)
    ||| plan.network.proxy_socket matches Some(socket) && lies_under(path, parent_of(socket)->0)
}

/// What may not be read is not there to be read: at a path that a deny of reading names
/// and that exists, and at everything below it, a command finds nothing of the host, but
/// an empty directory or an empty file that nobody may open, and the directory stays as
/// it is. Only a later deny of writing alone, the proxy's directory and the launcher put
/// something else below it.
pub proof fn read_denied_paths_cannot_be_read(
    host: Host,
    plan: LaunchPlan,
    descriptors: Descriptors,
    k: int,
    path: Seq<char>,
)
    requires
        launch_arguments(host, plan, descriptors) is Ok,
        0 <= k < plan.denies.len(),
        plan.denies[k].access == DeniedAccess::Read || plan.denies[k].access
            == DeniedAccess::ReadWrite,
        host.paths[plan.denies[k].path].target is Ok,
        lies_under(path, plan.denies[k].path),
        !is_put_last(plan, path),
        forall|j: int|
            k < j < plan.denies.len() && (#[trigger] plan.denies[j]).access == DeniedAccess::Write
                && host.paths[plan.denies[j].path].target is Ok ==> !lies_under(
                path,
                plan.denies[j].path,
            ),
    ensures
        ({
            let arguments = launch_arguments(host, plan, descriptors)->Ok_0;
            &&& !can_be_read(arguments, path)
            &&& !can_be_written(arguments, path)
            &&& seen(arguments, path) is Some
            &&& seen(arguments, path)->0.perms == "000"@
            &&& seen(arguments, path)->0.kind == Kind::Empty <==> host.paths[seen(
                arguments,
                path,
            )->0.target].target->Ok_0.kind == FileKind::Directory
            &&& seen(arguments, path)->0.kind == Kind::Empty ==> is_sealed(arguments, path)
            &&& seen(arguments, path)->0.kind == Kind::Data ==> descriptors.hidden_file is Some
                && seen(arguments, path)->0.source == decimal(descriptors.hidden_file->0 as nat)
        }),
{
    let blocks = launch_blocks(host, plan, descriptors);
    lemma_launch_steps(host, plan, descriptors);
    let at = denied_at(plan) + k;
    lemma_blocks(host, plan, descriptors, 0);
    lemma_blocks(host, plan, descriptors, at);
    assert(block_covers(blocks[at], path));
    let j = lemma_deciding_flat(blocks, path);
    lemma_blocks(host, plan, descriptors, j);
    assert(j >= at);
    assert(j < ending_at(plan));
    let deny = plan.denies[j - denied_at(plan)];
    assert(deny.access != DeniedAccess::Write);
    if host.paths[deny.path].target is Ok && !host.paths[deny.path].is_dir() {
        lemma_hidden_file(host, plan.denies, descriptors.hidden_file, j - denied_at(plan));
    }
}

proof fn lemma_hidden_file(
    host: Host,
    denies: Seq<DeniedPath>,
    hidden: Option<u32>,
    i: int,
)
    requires
        deny_mounts(host, denies, hidden) is Ok,
        0 <= i < denies.len(),
        denies[i].access != DeniedAccess::Write,
        host.paths[denies[i].path].target is Ok,
        !host.paths[denies[i].path].is_dir(),
    ensures
        hidden is Some,
    decreases denies.len(),
{
    if i < denies.len() - 1 {
        lemma_hidden_file(host, denies.drop_last(), hidden, i);
    }
}

/// The launcher is at its place, as the given file and whatever else is there, and the
/// directory of the proxy's socket is there to be read, whatever is denied above it.
pub proof fn the_launcher_and_the_proxy_are_put_last(
    host: Host,
    plan: LaunchPlan,
    descriptors: Descriptors,
    path: Seq<char>,
)
    requires
        launch_arguments(host, plan, descriptors) is Ok,
        is_put_last(plan, path),
    ensures
        ({
            let arguments = launch_arguments(host, plan, descriptors)->Ok_0;
            &&& seen(arguments, path) is Some
            &&& lies_under(path, SANDBOX_LAUNCHER_PATH@) ==> seen(arguments, path)->0.kind
                == Kind::Data && seen(arguments, path)->0.source == decimal(
                descriptors.launcher as nat,
            )
            &&& !lies_under(path, SANDBOX_LAUNCHER_PATH@) ==> {
                let directory = parent_of(plan.network.proxy_socket->0)->0;
                &&& seen(arguments, path)->0.kind == Kind::ReadOnlyBind
                &&& seen(arguments, path)->0.source == directory
                &&& seen(arguments, path)->0.target == directory
            }
        }),
{
    let blocks = launch_blocks(host, plan, descriptors);
    lemma_launch_steps(host, plan, descriptors);
    lemma_blocks(host, plan, descriptors, 0);
    let n = blocks.len() - 1;
    lemma_blocks(host, plan, descriptors, n);
    if lies_under(path, SANDBOX_LAUNCHER_PATH@) {
        assert(block_covers(blocks[n], path));
    } else {
        lemma_blocks(host, plan, descriptors, n - 1);
        assert(block_covers(blocks[n - 1], path));
    }
    let j = lemma_deciding_flat(blocks, path);
    lemma_blocks(host, plan, descriptors, j);
}

/// What may not be written is not there to be written: at a path that a launch protects,
/// masks, or that one of its denies names and that exists, and at everything below it.
pub proof fn protected_paths_cannot_be_written_from_the_sandbox(
    host: Host,
    plan: LaunchPlan,
    descriptors: Descriptors,
    path: Seq<char>,
)
    requires
        launch_arguments(host, plan, descriptors) is Ok,
        ({
            ||| exists|i: int|
                0 <= i < plan.protected.len() && lies_under(path, #[trigger] plan.protected[i])
            ||| exists|i: int|
                0 <= i < plan.synthetic_directories.len() && lies_under(
                    path,
                    #[trigger] plan.synthetic_directories[i],
                )
            ||| exists|i: int|
                0 <= i < plan.denies.len() && lies_under(path, (#[trigger] plan.denies[i]).path)
                    && host.paths[plan.denies[i].path].target is Ok
        }),
    ensures
        !can_be_written(launch_arguments(host, plan, descriptors)->Ok_0, path),
{
    let blocks = launch_blocks(host, plan, descriptors);
    lemma_launch_steps(host, plan, descriptors);
    lemma_blocks(host, plan, descriptors, 0);
    let at = if exists|i: int|
        0 <= i < plan.protected.len() && lies_under(path, #[trigger] plan.protected[i]) {
        let i = choose|i: int|
            0 <= i < plan.protected.len() && lies_under(path, #[trigger] plan.protected[i]);
        protected_at(plan) + i
    } else if exists|i: int|
        0 <= i < plan.synthetic_directories.len() && lies_under(
            path,
            #[trigger] plan.synthetic_directories[i],
        ) {
        let i = choose|i: int|
            0 <= i < plan.synthetic_directories.len() && lies_under(
                path,
                #[trigger] plan.synthetic_directories[i],
            );
        masked_at(plan) + i
    } else {
        let i = choose|i: int|
            0 <= i < plan.denies.len() && lies_under(path, (#[trigger] plan.denies[i]).path)
                && host.paths[plan.denies[i].path].target is Ok;
        denied_at(plan) + i
    };
    lemma_blocks(host, plan, descriptors, at);
    assert(block_covers(blocks[at], path));
    let j = lemma_deciding_flat(blocks, path);
    lemma_blocks(host, plan, descriptors, j);
    assert(j >= at);
}

/// Only what a right to write names can be written, and it is the host's own at that
/// place.
pub proof fn only_rights_can_be_written_from_the_sandbox(
    host: Host,
    plan: LaunchPlan,
    descriptors: Descriptors,
    path: Seq<char>,
)
    requires
        launch_arguments(host, plan, descriptors) is Ok,
        can_be_written(launch_arguments(host, plan, descriptors)->Ok_0, path),
    ensures
        exists|i: int|
            {
                &&& 0 <= i < plan.writable.len()
                &&& lies_under(path, (#[trigger] plan.writable[i]).path)
                &&& seen(launch_arguments(host, plan, descriptors)->Ok_0, path)->0.target
                    == plan.writable[i].path
                &&& seen(launch_arguments(host, plan, descriptors)->Ok_0, path)->0.source
                    == plan.writable[i].path
            },
{
    let blocks = launch_blocks(host, plan, descriptors);
    lemma_launch_steps(host, plan, descriptors);
    lemma_blocks(host, plan, descriptors, 0);
    let j = lemma_deciding_flat(blocks, path);
    assert(exists|i: int| 0 <= i < blocks.len() && block_covers(#[trigger] blocks[i], path));
    lemma_blocks(host, plan, descriptors, j);
    assert(3 <= j < protected_at(plan));
    assert(lies_under(path, plan.writable[j - 3].path));
}

/// What a right to write names can be written, where nothing protects it: no protected
/// or masked path, no denied path that exists, and nothing that is put there last.
pub proof fn rights_can_be_written_from_the_sandbox(
    host: Host,
    plan: LaunchPlan,
    descriptors: Descriptors,
    i: int,
    path: Seq<char>,
)
    requires
        launch_arguments(host, plan, descriptors) is Ok,
        0 <= i < plan.writable.len(),
        lies_under(path, plan.writable[i].path),
        forall|k: int|
            0 <= k < plan.protected.len() ==> !lies_under(path, #[trigger] plan.protected[k]),
        forall|k: int|
            0 <= k < plan.synthetic_directories.len() ==> !lies_under(
                path,
                #[trigger] plan.synthetic_directories[k],
            ),
        forall|k: int|
            0 <= k < plan.denies.len() && lies_under(path, (#[trigger] plan.denies[k]).path)
                ==> host.paths[plan.denies[k].path].target is Err,
        !is_put_last(plan, path),
    ensures
        can_be_written(launch_arguments(host, plan, descriptors)->Ok_0, path),
        can_be_read(launch_arguments(host, plan, descriptors)->Ok_0, path),
{
    let blocks = launch_blocks(host, plan, descriptors);
    lemma_launch_steps(host, plan, descriptors);
    lemma_blocks(host, plan, descriptors, 0);
    lemma_blocks(host, plan, descriptors, 3 + i);
    assert(block_covers(blocks[3 + i], path));
    let j = lemma_deciding_flat(blocks, path);
    lemma_blocks(host, plan, descriptors, j);
    assert(j >= 3 + i);
    if j >= denied_at(plan) && j < ending_at(plan) {
        let deny = plan.denies[j - denied_at(plan)];
        assert(lies_under(path, deny.path));
    }
}

/// A command can read the host: every absolute path that no mask and no deny of reading
/// is over, and that is neither a device nor a process, is the host's own.
pub proof fn the_host_can_be_read_from_the_sandbox(
    host: Host,
    plan: LaunchPlan,
    descriptors: Descriptors,
    path: Seq<char>,
)
    requires
        launch_arguments(host, plan, descriptors) is Ok,
        lies_under(path, "/"@),
        !lies_under(path, "/dev"@),
        !lies_under(path, "/proc"@),
        !lies_under(path, SANDBOX_LAUNCHER_PATH@),
        forall|k: int|
            0 <= k < plan.synthetic_directories.len() ==> !lies_under(
                path,
                #[trigger] plan.synthetic_directories[k],
            ),
        forall|k: int|
            0 <= k < plan.denies.len() && lies_under(path, (#[trigger] plan.denies[k]).path)
                ==> plan.denies[k].access == DeniedAccess::Write,
    ensures
        can_be_read(launch_arguments(host, plan, descriptors)->Ok_0, path),
        seen(launch_arguments(host, plan, descriptors)->Ok_0, path)->0.source == seen(
            launch_arguments(host, plan, descriptors)->Ok_0,
            path,
        )->0.target,
{
    let blocks = launch_blocks(host, plan, descriptors);
    lemma_launch_steps(host, plan, descriptors);
    lemma_blocks(host, plan, descriptors, 0);
    assert(block_covers(blocks[0], path));
    let j = lemma_deciding_flat(blocks, path);
    lemma_blocks(host, plan, descriptors, j);
    if j >= denied_at(plan) && j < ending_at(plan) {
        let deny = plan.denies[j - denied_at(plan)];
        assert(lies_under(path, deny.path));
    }
}

/// Where nothing is denied below it, a masked path is an empty directory that anybody
/// may list and nobody may fill.
pub proof fn masked_paths_are_empty(
    host: Host,
    plan: LaunchPlan,
    descriptors: Descriptors,
    i: int,
    path: Seq<char>,
)
    requires
        launch_arguments(host, plan, descriptors) is Ok,
        0 <= i < plan.synthetic_directories.len(),
        lies_under(path, plan.synthetic_directories[i]),
        forall|k: int|
            0 <= k < plan.denies.len() && lies_under(path, (#[trigger] plan.denies[k]).path)
                ==> host.paths[plan.denies[k].path].target is Err,
        !is_put_last(plan, path),
    ensures
        ({
            let arguments = launch_arguments(host, plan, descriptors)->Ok_0;
            &&& seen(arguments, path) is Some
            &&& seen(arguments, path)->0.kind == Kind::Empty
            &&& seen(arguments, path)->0.perms == "555"@
            &&& is_sealed(arguments, path)
        }),
{
    let blocks = launch_blocks(host, plan, descriptors);
    lemma_launch_steps(host, plan, descriptors);
    lemma_blocks(host, plan, descriptors, 0);
    lemma_blocks(host, plan, descriptors, masked_at(plan) + i);
    assert(block_covers(blocks[masked_at(plan) + i], path));
    let j = lemma_deciding_flat(blocks, path);
    lemma_blocks(host, plan, descriptors, j);
    assert(j >= masked_at(plan) + i);
    if j >= denied_at(plan) && j < ending_at(plan) {
        let deny = plan.denies[j - denied_at(plan)];
        assert(lies_under(path, deny.path));
    }
}

/// The trial of a sandbox hides a file of the host from it, behind an empty one that
/// nobody may open, and shows it the rest of the host to be read.
pub proof fn trials_hide_a_file(hidden_file: u32, seccomp: u32, path: Seq<char>)
    requires
        lies_under(path, "/"@),
        !lies_under(path, "/dev"@),
        !lies_under(path, "/proc"@),
    ensures
        ({
            let arguments = self_test_arguments(hidden_file, seccomp);
            &&& !can_be_written(arguments, path)
            &&& can_be_read(arguments, path) <==> !lies_under(path, "/etc/passwd"@)
            &&& lies_under(path, "/etc/passwd"@) ==> seen(arguments, path) == Some(
                Operation {
                    kind: Kind::Data,
                    source: decimal(hidden_file as nat),
                    target: "/etc/passwd"@,
                    perms: "000"@,
                },
            )
        }),
{
    let none = Seq::<char>::empty();
    let arguments = self_test_arguments(hidden_file, seccomp);
    let number = decimal(hidden_file as nat);
    let filter = decimal(seccomp as nat);
    let ending = seq!["--"@, "/bin/sh"@, "-c"@, SELF_TEST_SCRIPT@];
    let r0 = seq!["--seccomp"@, filter] + ending;
    lemma_setting("--seccomp"@, filter, ending);
    assert(operations(ending, none) =~= Seq::empty());
    let r1 = seq!["--ro-bind-data"@, number, "/etc/passwd"@] + r0;
    lemma_step_two("--ro-bind-data"@, Kind::Data, number, "/etc/passwd"@, "000"@, r0);
    let r2 = seq!["--perms"@, "000"@] + r1;
    lemma_perms("000"@, r1);
    lemma_base_steps(true, r2);
    assert(arguments =~= base_arguments(true) + r2);
    let hidden = seq![
        Operation { kind: Kind::Data, source: number, target: "/etc/passwd"@, perms: "000"@ },
    ];
    let blocks = base_blocks() + seq![hidden];
    lemma_flat_join(base_blocks(), seq![hidden]);
    lemma_flat_one(hidden);
    assert(operations(arguments, none) =~= flat(blocks));
    assert(blocks[0] == base_blocks()[0] && blocks[1] == base_blocks()[1] && blocks[2]
        == base_blocks()[2] && blocks[3] == hidden);
    assert forall|i: int| 0 <= i < blocks.len() implies is_block(#[trigger] blocks[i]) by {}
    assert(block_covers(blocks[0], path));
    let j = lemma_deciding_flat(blocks, path);
    if lies_under(path, "/etc/passwd"@) {
        assert(block_covers(blocks[3], path));
    }
}

} // verus!
