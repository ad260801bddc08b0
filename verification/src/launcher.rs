//! The launchers that run inside a Bubblewrap sandbox, before the command.

use vstd::prelude::*;
use vstd::string::*;

use crate::facts::{decided, refusal, refused, Decision, Facts, Halt, Host};
use crate::paths::{is_absolute, path_is_absolute};
use crate::text::{same_text, texts};

verus! {

/// Two words each of effective, permitted and inheritable capabilities.
pub type CapabilitySets = [[u32; 3]; 2];

/// Whether no capability is effective or permitted.
pub open spec fn no_capabilities(sets: CapabilitySets) -> bool {
    &&& sets@[0]@[0] == 0
    &&& sets@[0]@[1] == 0
    &&& sets@[1]@[0] == 0
    &&& sets@[1]@[1] == 0
}

/// Whether no capability is effective or permitted.
pub fn capability_sets_are_empty(sets: CapabilitySets) -> (empty: bool)
    ensures
        empty == no_capabilities(sets),
{
    sets[0][0] == 0 && sets[0][1] == 0 && sets[1][0] == 0 && sets[1][1] == 0
}

/// Whether a launcher may go on with the capabilities that the kernel reports.
///
/// # Errors
///
/// Fails where they could not be read and where any is effective or permitted.
pub fn ensure_no_capabilities(sets: &Result<CapabilitySets, String>) -> (result: Result<(), String>)
    ensures
        match result {
            Ok(_) => *sets is Ok && no_capabilities(sets->Ok_0),
            Err(error) => match *sets {
                Ok(sets) => !no_capabilities(sets) && error@
                    == "Linux sandbox retained effective or permitted capabilities"@,
                Err(reason) => error@ == reason@,
            },
        },
{
    match sets {
        Ok(sets) => if capability_sets_are_empty(*sets) {
            Ok(())
        } else {
            Err("Linux sandbox retained effective or permitted capabilities".to_owned())
        },
        Err(reason) => Err(reason.clone()),
    }
}

/// The command behind the separator of a blocked launch.
pub open spec fn blocked_command(arguments: Seq<Seq<char>>) -> Option<Seq<Seq<char>>> {
    if arguments.len() >= 2 && arguments[0] == "--"@ {
        Some(arguments.skip(1))
    } else {
        None
    }
}

fn tail(arguments: &Vec<String>, from: usize) -> (rest: Vec<String>)
    requires
        from <= arguments@.len(),
    ensures
        texts(rest@) == texts(arguments@).skip(from as int),
{
    let ghost all = texts(arguments@);
    let mut rest: Vec<String> = Vec::new();
    let mut i: usize = from;
    assert(texts(rest@) =~= all.subrange(from as int, from as int));
    while i < arguments.len()
        invariant
            from <= i <= arguments@.len(),
            all == texts(arguments@),
            texts(rest@) == all.subrange(from as int, i as int),
        decreases arguments@.len() - i,
    {
        let ghost before = texts(rest@);
        rest.push(arguments[i].clone());
        i = i + 1;
        assert(texts(rest@) =~= before.push(all[i - 1]));
        assert(all.subrange(from as int, i as int) =~= before.push(all[i - 1]));
    }
    assert(all.subrange(from as int, i as int) =~= all.skip(from as int));
    rest
}

/// Decides which command a blocked launch runs: none before Bubblewrap's drop
/// of all capabilities has been verified.
///
/// # Errors
///
/// Fails for malformed arguments and for capabilities that were retained.
pub fn run_sandbox_launcher(
    arguments: &Vec<String>,
    capabilities: &Result<CapabilitySets, String>,
) -> (result: Result<Vec<String>, String>)
    ensures
        match result {
            Ok(command) => blocked_command(texts(arguments@)) == Some(texts(command@))
                && *capabilities is Ok && no_capabilities(capabilities->Ok_0),
            Err(error) => match blocked_command(texts(arguments@)) {
                None => error@ == "sandbox launcher arguments are invalid"@,
                Some(_) => match *capabilities {
                    Ok(sets) => !no_capabilities(sets) && error@
                        == "Linux sandbox retained effective or permitted capabilities"@,
                    Err(reason) => error@ == reason@,
                },
            },
        },
{
    assert(texts(arguments@).len() == arguments@.len());
    if arguments.len() < 2 || !same_text(arguments[0].as_str(), "--") {
        return Err("sandbox launcher arguments are invalid".to_owned());
    }
    match ensure_no_capabilities(capabilities) {
        Ok(_) => {},
        Err(error) => {
            return Err(error);
        },
    }
    Ok(tail(arguments, 1))
}

/// What a launcher with a network has to set up, and what it then runs.
#[derive(Debug)]
pub struct ProxyLaunch {
    /// The host proxy's socket that the bridge connects to, if there is a bridge.
    pub socket: Option<String>,
    pub allow_local_binding: bool,
    pub command: Vec<String>,
}

/// What a launcher with a network has to set up, and what it then runs.
pub struct ProxyPlan {
    pub socket: Option<Seq<char>>,
    pub allow_local_binding: bool,
    pub command: Seq<Seq<char>>,
}

impl View for ProxyLaunch {
    type V = ProxyPlan;

    open spec fn view(&self) -> ProxyPlan {
        ProxyPlan {
            socket: crate::protocol::text_option(self.socket),
            allow_local_binding: self.allow_local_binding,
            command: texts(self.command@),
        }
    }
}

/// The index of the first separator among arguments from `from` on.
pub open spec fn separator_at(arguments: Seq<Seq<char>>, from: int) -> Option<int>
    decreases arguments.len() - from,
{
    if from < 0 || from >= arguments.len() {
        None
    } else if arguments[from] == "--"@ {
        Some(from)
    } else {
        separator_at(arguments, from + 1)
    }
}

/// Whether a launcher may use a proxy socket: an absolute path to a socket.
pub open spec fn socket_usable(host: Host, socket: Seq<char>) -> Decision<bool> {
    if !is_absolute(socket) {
        Ok(false)
    } else {
        match host.path(socket) {
            Err(halt) => Err(halt),
            Ok(facts) => Ok(facts.is_socket()),
        }
    }
}

/// What the arguments of a launch with a network say, or why they are refused.
pub open spec fn proxy_plan(host: Host, arguments: Seq<Seq<char>>) -> Decision<ProxyPlan> {
    match separator_at(arguments, 0) {
        None => refusal("network launcher command separator is missing"@),
        Some(separator) => if separator != 2 || arguments.len() <= 3 {
            refusal("network launcher arguments are invalid"@)
        } else {
            let usable = if arguments[0] == "-"@ {
                Ok(true)
            } else {
                socket_usable(host, arguments[0])
            };
            match usable {
                Err(halt) => Err(halt),
                Ok(usable) => if !usable {
                    refusal("network launcher proxy socket is invalid"@)
                } else if arguments[1] != "allow-local-binding"@ && arguments[1]
                    != "deny-local-binding"@ {
                    refusal("network launcher local binding mode is invalid"@)
                } else if arguments[0] == "-"@ && arguments[1] != "allow-local-binding"@ {
                    refusal("network launcher needs a proxy or local binding"@)
                } else {
                    Ok(
                        ProxyPlan {
                            socket: if arguments[0] == "-"@ {
                                None
                            } else {
                                Some(arguments[0])
                            },
                            allow_local_binding: arguments[1] == "allow-local-binding"@,
                            command: arguments.skip(3),
                        },
                    )
                },
            }
        },
    }
}

/// Decides what a launcher with a network has to set up, and what it then runs.
/// Inside its network namespace, the bridge alone may connect to the one host
/// proxy socket; the command runs under a filter that blocks Unix sockets.
///
/// # Errors
///
/// Refuses malformed arguments and an unusable proxy socket, and asks for the
/// socket where it is not on record.
pub fn run_proxy_launcher(arguments: &Vec<String>, facts: &Facts) -> (result: Result<
    ProxyLaunch,
    Halt,
>)
    ensures
        decided(result) == proxy_plan(facts@, texts(arguments@)),
{
    let ghost all = texts(arguments@);
    assert(all.len() == arguments@.len());
    let mut separator: usize = 0;
    while separator < arguments.len() && !same_text(arguments[separator].as_str(), "--")
        invariant
            separator <= arguments@.len(),
            all == texts(arguments@),
            separator_at(all, 0) == separator_at(all, separator as int),
        decreases arguments@.len() - separator,
    {
        assert(all[separator as int] == arguments@[separator as int]@);
        separator = separator + 1;
    }
    if separator == arguments.len() {
        return Err(refused("network launcher command separator is missing".to_owned()));
    }
    assert(all[separator as int] == arguments@[separator as int]@);
    if separator != 2 || arguments.len() <= 3 {
        return Err(refused("network launcher arguments are invalid".to_owned()));
    }
    assert(all[0] == arguments@[0]@ && all[1] == arguments@[1]@);
    let socket = if same_text(arguments[0].as_str(), "-") {
        None
    } else {
        let path = arguments[0].clone();
        let usable = if path_is_absolute(path.as_str()) {
            match facts.path(path.as_str()) {
                Ok(known) => known.is_socket(),
                Err(halt) => {
                    return Err(halt);
                },
            }
        } else {
            false
        };
        if !usable {
            return Err(refused("network launcher proxy socket is invalid".to_owned()));
        }
        Some(path)
    };
    let allow_local_binding = if same_text(arguments[1].as_str(), "allow-local-binding") {
        true
    } else if same_text(arguments[1].as_str(), "deny-local-binding") {
        false
    } else {
        return Err(refused("network launcher local binding mode is invalid".to_owned()));
    };
    if socket.is_none() && !allow_local_binding {
        return Err(refused("network launcher needs a proxy or local binding".to_owned()));
    }
    Ok(ProxyLaunch { socket, allow_local_binding, command: tail(arguments, 3) })
}

/// The exit code that a launcher hands on: that of its command, or 128 and the
/// number of the signal that ended it.
pub fn launcher_exit_code(code: Option<i32>, signal: Option<i32>) -> (exit: i32)
    requires
        signal is Some ==> signal->Some_0 <= i32::MAX - 128,
    ensures
        exit == match code {
            Some(code) => code as int,
            None => 128 + match signal {
                Some(signal) => signal as int,
                None => 1,
            },
        },
{
    match code {
        Some(code) => code,
        None => match signal {
            Some(signal) => 128 + signal,
            None => 129,
        },
    }
}

} // verus!
