//! What a command can still write once all is mounted.

use vstd::prelude::*;

use crate::bubblewrap::{
    deny_mount, deny_mounts, launch_mounts, mask_mounts, mount, proxy_mount, read_only_mounts,
    write_mounts, Descriptors,
};
use crate::facts::Host;
use crate::linux::{LaunchPlan, SANDBOX_LAUNCHER_PATH};
use crate::mounts::DeniedPath;
use crate::paths::lies_under;
use crate::seatbelt::Right;
use crate::text::decimal;

verus! {

/// One mount of a launch.
pub enum MountPoint {
    /// A path that may be written.
    Write(Seq<char>),
    /// A path that stays read-only.
    ReadOnly(Seq<char>),
    /// A missing path that is masked.
    Mask(Seq<char>),
    /// A path that a deny is enforced on.
    Denied(DeniedPath),
}

/// The arguments of a mount.
pub open spec fn point_arguments(host: Host, point: MountPoint, hidden_file: Option<u32>) -> Seq<
    Seq<char>,
> {
    match point {
        MountPoint::Write(path) => mount("--bind"@, path, path),
        MountPoint::ReadOnly(path) => mount("--ro-bind"@, path, path),
        MountPoint::Mask(path) => seq![
            "--perms"@,
            "555"@,
            "--tmpfs"@,
            path,
            "--remount-ro"@,
            path,
        ],
        MountPoint::Denied(deny) => deny_mount(host, deny, hidden_file)->Ok_0,
    }
}

/// The arguments of mounts, one behind the other.
pub open spec fn points_arguments(
    host: Host,
    points: Seq<MountPoint>,
    hidden_file: Option<u32>,
) -> Seq<Seq<char>>
    decreases points.len(),
{
    if points.len() == 0 {
        Seq::empty()
    } else {
        points_arguments(host, points.drop_last(), hidden_file) + point_arguments(
            host,
            points.last(),
            hidden_file,
        )
    }
}

/// The mounts of rights to write.
pub open spec fn write_points(rights: Seq<Right>) -> Seq<MountPoint> {
    Seq::new(rights.len(), |i: int| MountPoint::Write(rights[i].path))
}

/// The mounts of what a launch protects.
pub open spec fn protecting_points(plan: LaunchPlan) -> Seq<MountPoint> {
    Seq::new(plan.protected.len(), |i: int| MountPoint::ReadOnly(plan.protected[i])) + Seq::new(
        plan.synthetic_directories.len(),
        |i: int| MountPoint::Mask(plan.synthetic_directories[i]),
    ) + Seq::new(plan.denies.len(), |i: int| MountPoint::Denied(plan.denies[i]))
}

/// The mounts of a launch, in order.
pub open spec fn mount_points(plan: LaunchPlan) -> Seq<MountPoint> {
    write_points(plan.writable) + protecting_points(plan)
}

/// Whether a mount decides over a path: the path is the mounted one or below it. A
/// deny on a path that does not exist mounts nothing.
pub open spec fn reaches(host: Host, point: MountPoint, path: Seq<char>) -> bool {
    match point {
        MountPoint::Write(root) => lies_under(path, root),
        MountPoint::ReadOnly(root) => lies_under(path, root),
        MountPoint::Mask(root) => lies_under(path, root),
        MountPoint::Denied(deny) => lies_under(path, deny.path) && host.path(deny.path) is Ok
            && host.path(deny.path)->Ok_0.is_present(),
    }
}

/// The mount that decides over a path: the last one that reaches it.
pub open spec fn deciding(host: Host, points: Seq<MountPoint>, path: Seq<char>) -> Option<MountPoint>
    decreases points.len(),
{
    if points.len() == 0 {
        None
    } else if reaches(host, points.last(), path) {
        Some(points.last())
    } else {
        deciding(host, points.drop_last(), path)
    }
}

/// Whether a command can write a path. What no mount reaches lies in the root, which
/// is read-only.
pub open spec fn can_write(host: Host, plan: LaunchPlan, path: Seq<char>) -> bool {
    deciding(host, mount_points(plan), path) matches Some(MountPoint::Write(_))
}

proof fn lemma_points_join(
    host: Host,
    a: Seq<MountPoint>,
    b: Seq<MountPoint>,
    hidden_file: Option<u32>,
)
    ensures
        points_arguments(host, a + b, hidden_file) == points_arguments(host, a, hidden_file)
            + points_arguments(host, b, hidden_file),
    decreases b.len(),
{
    if b.len() == 0 {
        assert(a + b =~= a);
        assert(points_arguments(host, a, hidden_file) + points_arguments(host, b, hidden_file)
            =~= points_arguments(host, a, hidden_file));
    } else {
        lemma_points_join(host, a, b.drop_last(), hidden_file);
        assert((a + b).drop_last() =~= a + b.drop_last());
        assert(points_arguments(host, a + b, hidden_file) =~= points_arguments(host, a, hidden_file)
            + points_arguments(host, b, hidden_file));
    }
}

proof fn lemma_write_points(host: Host, rights: Seq<Right>, hidden_file: Option<u32>)
    ensures
        points_arguments(host, write_points(rights), hidden_file) == write_mounts(rights),
    decreases rights.len(),
{
    if rights.len() > 0 {
        lemma_write_points(host, rights.drop_last(), hidden_file);
        assert(write_points(rights).drop_last() =~= write_points(rights.drop_last()));
    }
}

proof fn lemma_read_only_points(host: Host, paths: Seq<Seq<char>>, hidden_file: Option<u32>)
    ensures
        points_arguments(
            host,
            Seq::new(paths.len(), |i: int| MountPoint::ReadOnly(paths[i])),
            hidden_file,
        ) == read_only_mounts(paths),
    decreases paths.len(),
{
    if paths.len() > 0 {
        let front = paths.drop_last();
        lemma_read_only_points(host, front, hidden_file);
        assert(Seq::new(paths.len(), |i: int| MountPoint::ReadOnly(paths[i])).drop_last()
            =~= Seq::new(front.len(), |i: int| MountPoint::ReadOnly(front[i])));
    }
}

proof fn lemma_mask_points(host: Host, paths: Seq<Seq<char>>, hidden_file: Option<u32>)
    ensures
        points_arguments(
            host,
            Seq::new(paths.len(), |i: int| MountPoint::Mask(paths[i])),
            hidden_file,
        ) == mask_mounts(paths),
    decreases paths.len(),
{
    if paths.len() > 0 {
        let front = paths.drop_last();
        lemma_mask_points(host, front, hidden_file);
        assert(Seq::new(paths.len(), |i: int| MountPoint::Mask(paths[i])).drop_last() =~= Seq::new(
            front.len(),
            |i: int| MountPoint::Mask(front[i]),
        ));
    }
}

proof fn lemma_denied_points(host: Host, denies: Seq<DeniedPath>, hidden_file: Option<u32>)
    requires
        deny_mounts(host, denies, hidden_file) is Ok,
    ensures
        points_arguments(
            host,
            Seq::new(denies.len(), |i: int| MountPoint::Denied(denies[i])),
            hidden_file,
        ) == deny_mounts(host, denies, hidden_file)->Ok_0,
    decreases denies.len(),
{
    if denies.len() > 0 {
        let front = denies.drop_last();
        lemma_denied_points(host, front, hidden_file);
        assert(Seq::new(denies.len(), |i: int| MountPoint::Denied(denies[i])).drop_last()
            =~= Seq::new(front.len(), |i: int| MountPoint::Denied(front[i])));
    }
}

/// The arguments of a launch are those of its mounts, in order, with the proxy's
/// read-only directory and the launcher behind them.
pub proof fn launch_arguments_are_those_of_the_mounts(
    host: Host,
    plan: LaunchPlan,
    descriptors: Descriptors,
)
    requires
        launch_mounts(host, plan, descriptors) is Ok,
    ensures
        launch_mounts(host, plan, descriptors)->Ok_0 == points_arguments(
            host,
            mount_points(plan),
            descriptors.hidden_file,
        ) + proxy_mount(plan.network.proxy_socket)->Ok_0 + seq![
            "--ro-bind-data"@,
            decimal(descriptors.launcher as nat),
            SANDBOX_LAUNCHER_PATH@,
        ],
{
    let hidden = descriptors.hidden_file;
    let read_only = Seq::new(
        plan.protected.len(),
        |i: int| MountPoint::ReadOnly(plan.protected[i]),
    );
    let masks = Seq::new(
        plan.synthetic_directories.len(),
        |i: int| MountPoint::Mask(plan.synthetic_directories[i]),
    );
    let denied = Seq::new(plan.denies.len(), |i: int| MountPoint::Denied(plan.denies[i]));
    lemma_write_points(host, plan.writable, hidden);
    lemma_read_only_points(host, plan.protected, hidden);
    lemma_mask_points(host, plan.synthetic_directories, hidden);
    lemma_denied_points(host, plan.denies, hidden);
    lemma_points_join(host, read_only, masks, hidden);
    lemma_points_join(host, read_only + masks, denied, hidden);
    lemma_points_join(host, write_points(plan.writable), protecting_points(plan), hidden);
    assert(launch_mounts(host, plan, descriptors)->Ok_0 =~= points_arguments(
        host,
        mount_points(plan),
        hidden,
    ) + proxy_mount(plan.network.proxy_socket)->Ok_0 + seq![
        "--ro-bind-data"@,
        decimal(descriptors.launcher as nat),
        SANDBOX_LAUNCHER_PATH@,
    ]);
}

proof fn lemma_deciding_behind(
    host: Host,
    front: Seq<MountPoint>,
    behind: Seq<MountPoint>,
    path: Seq<char>,
)
    ensures
        (exists|i: int| 0 <= i < behind.len() && reaches(host, #[trigger] behind[i], path)) ==> {
            &&& deciding(host, front + behind, path) is Some
            &&& behind.contains(deciding(host, front + behind, path)->0)
        },
        (forall|i: int| 0 <= i < behind.len() ==> !reaches(host, #[trigger] behind[i], path))
            ==> deciding(host, front + behind, path) == deciding(host, front, path),
    decreases behind.len(),
{
    if behind.len() == 0 {
        assert(front + behind =~= front);
    } else {
        let rest = behind.drop_last();
        lemma_deciding_behind(host, front, rest, path);
        assert((front + behind).drop_last() =~= front + rest);
        assert((front + behind).last() == behind.last());
        if reaches(host, behind.last(), path) {
            assert(behind[behind.len() - 1] == behind.last());
        } else {
            if exists|i: int| 0 <= i < behind.len() && reaches(host, #[trigger] behind[i], path) {
                let i = choose|i: int|
                    0 <= i < behind.len() && reaches(host, #[trigger] behind[i], path);
                assert(rest[i] == behind[i]);
                let found = deciding(host, front + rest, path)->0;
                let j = choose|j: int| 0 <= j < rest.len() && rest[j] == found;
                assert(behind[j] == found);
            } else {
                assert forall|i: int| 0 <= i < rest.len() implies !reaches(
                    host,
                    #[trigger] rest[i],
                    path,
                ) by {
                    assert(rest[i] == behind[i]);
                }
            }
        }
    }
}

proof fn lemma_deciding_write(host: Host, rights: Seq<Right>, path: Seq<char>)
    ensures
        deciding(host, write_points(rights), path) matches Some(MountPoint::Write(root)) ==> exists|
            i: int,
        |
            0 <= i < rights.len() && #[trigger] rights[i].path == root && lies_under(path, root),
    decreases rights.len(),
{
    if rights.len() > 0 {
        let front = rights.drop_last();
        lemma_deciding_write(host, front, path);
        assert(write_points(rights).drop_last() =~= write_points(front));
        if reaches(host, write_points(rights).last(), path) {
            assert(rights[rights.len() - 1].path == rights.last().path);
        } else if let Some(MountPoint::Write(root)) = deciding(host, write_points(front), path) {
            let i = choose|i: int|
                0 <= i < front.len() && #[trigger] front[i].path == root && lies_under(path, root);
            assert(rights[i].path == root);
        }
    }
}

/// What is protected cannot be written: neither a denied path that exists, nor a
/// control directory, nor a masked path, nor anything below one of them, whatever
/// rights to write there are.
pub proof fn protected_paths_cannot_be_written(host: Host, plan: LaunchPlan, path: Seq<char>)
    requires
        exists|i: int|
            0 <= i < protecting_points(plan).len() && reaches(
                host,
                #[trigger] protecting_points(plan)[i],
                path,
            ),
    ensures
        !can_write(host, plan, path),
{
    let behind = protecting_points(plan);
    lemma_deciding_behind(host, write_points(plan.writable), behind, path);
    let found = deciding(host, mount_points(plan), path)->0;
    let j = choose|j: int| 0 <= j < behind.len() && behind[j] == found;
    assert(!(behind[j] is Write));
}

/// A command can write only what a right to write names.
pub proof fn only_rights_can_be_written(host: Host, plan: LaunchPlan, path: Seq<char>)
    requires
        can_write(host, plan, path),
    ensures
        exists|i: int|
            0 <= i < plan.writable.len() && lies_under(path, #[trigger] plan.writable[i].path),
{
    let behind = protecting_points(plan);
    lemma_deciding_behind(host, write_points(plan.writable), behind, path);
    if exists|i: int| 0 <= i < behind.len() && reaches(host, #[trigger] behind[i], path) {
        protected_paths_cannot_be_written(host, plan, path);
    }
    lemma_deciding_write(host, plan.writable, path);
}

} // verus!
