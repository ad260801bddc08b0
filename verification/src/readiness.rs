//! Whether the broker can run commands at all.

use vstd::prelude::*;
use vstd::string::*;

use crate::command::Platform;
use crate::facts::models;
use crate::profile::{build_args, sandbox_arguments};
use crate::protocol::{Access, NetworkRequest, PathScope};
use crate::seatbelt::{HardPolicy, NormalizedRight, Right};
use crate::text::{joined3, joined4, texts};
use crate::words::{trim, trimmed};

verus! {

/// What a trial run of a sandbox came to.
#[derive(Debug)]
pub enum Trial {
    /// The sandbox's program is not where it has to be.
    Unavailable(String),
    /// The sandbox could not be started.
    NotStarted(String),
    /// The trial ended, with what it said of itself.
    Ended { success: bool, diagnostics: String },
}

/// What there is to say against a sandbox after a trial run.
pub open spec fn trial_problem(backend: Seq<char>, trial: Trial) -> Option<Seq<char>> {
    match trial {
        Trial::Unavailable(path) => Some("fixed "@ + backend + " path is unavailable: "@ + path@),
        Trial::NotStarted(error) => Some(
            "cannot start "@ + backend + " self-test: "@ + error@,
        ),
        Trial::Ended { success, diagnostics } => if success {
            None
        } else {
            Some(backend + " self-test failed: "@ + trimmed(diagnostics@))
        },
    }
}

/// Judges the trial run of a sandbox.
pub fn self_test(backend: &str, trial: &Trial) -> (result: Result<(), String>)
    ensures
        match result {
            Ok(_) => trial_problem(backend@, *trial) is None,
            Err(reason) => trial_problem(backend@, *trial) == Some(reason@),
        },
{
    match trial {
        Trial::Unavailable(path) => Err(
            joined4("fixed ", backend, " path is unavailable: ", path.as_str()),
        ),
        Trial::NotStarted(error) => Err(
            joined4("cannot start ", backend, " self-test: ", error.as_str()),
        ),
        Trial::Ended { success, diagnostics } => if *success {
            Ok(())
        } else {
            Err(joined3(backend, " self-test failed: ", trim(diagnostics.as_str()).as_str()))
        },
    }
}

/// The right that a trial run of the Seatbelt sandbox has.
pub open spec fn trial_right() -> Right {
    Right { access: Access::Read, path: "/"@, scope: PathScope::Tree, approved: false }
}

/// The arguments of a trial run of the Seatbelt sandbox: a program that does nothing,
/// with the right to read everything that is not denied.
pub fn seatbelt_trial_args(base_policy: &str, hard: &HardPolicy) -> (args: Result<
    Vec<String>,
    String,
>)
    ensures
        match args {
            Ok(args) => sandbox_arguments(
                base_policy@,
                seq!["/usr/bin/true"@],
                "/"@,
                seq![trial_right()],
                hard@,
                Seq::empty(),
                NetworkRequest::Blocked,
            ) == Ok::<Seq<Seq<char>>, Seq<char>>(texts(args@)),
            Err(reason) => sandbox_arguments(
                base_policy@,
                seq!["/usr/bin/true"@],
                "/"@,
                seq![trial_right()],
                hard@,
                Seq::empty(),
                NetworkRequest::Blocked,
            ) == Err::<Seq<Seq<char>>, Seq<char>>(reason@),
        },
{
    let command = vec!["/usr/bin/true".to_owned()];
    let rights = vec![
        NormalizedRight {
            access: Access::Read,
            path: "/".to_owned(),
            scope: PathScope::Tree,
            approved: false,
        },
    ];
    let sockets: Vec<String> = Vec::new();
    assert(texts(command@) =~= seq!["/usr/bin/true"@]);
    assert(models(rights@) =~= seq![trial_right()]);
    assert(texts(sockets@) =~= Seq::empty());
    build_args(base_policy, &command, "/", &rights, &hard.denies, &sockets)
}

/// Whether commands can be run: the fixed policy is known and the sandbox passed its
/// trial, and where denials are part of the sandbox, they are collected.
pub fn can_exec(platform: Platform, hard_policy: bool, trial: bool, collects_denials: bool) -> (can:
    bool)
    ensures
        can == match platform {
            Platform::Linux => hard_policy && trial,
            Platform::Macos => hard_policy && trial && collects_denials,
            Platform::Other => false,
        },
{
    match platform {
        Platform::Linux => hard_policy && trial,
        Platform::Macos => hard_policy && trial && collects_denials,
        Platform::Other => false,
    }
}

} // verus!
