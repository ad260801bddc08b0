//! What a command is run with, and what its launcher makes of it.

use vstd::prelude::*;

use crate::bubblewrap::{
    base_arguments, launch_arguments, launch_mounts, launcher_arguments, seccomp_arguments,
    Descriptors,
};
use crate::command::{barrier_command, command_sees, http_names, proxy_names, Platform};
use crate::facts::{FileKind, HaltModel, Host};
use crate::launcher::{
    blocked_command, no_capabilities, proxy_plan, separator_at, CapabilitySets, ProxyPlan,
};
use crate::linux::{network_plan, LaunchPlan, SANDBOX_LAUNCHER_PATH};
use crate::protocol::NetworkRequest;
use crate::text::decimal;

verus! {

/// Whether a variable carries the address of a proxy for web requests.
pub open spec fn is_web_setting(name: Seq<char>) -> bool {
    ||| name == "HTTP_PROXY"@
    ||| name == "HTTPS_PROXY"@
    ||| name == "http_proxy"@
    ||| name == "https_proxy"@
    ||| name == "NPM_CONFIG_PROXY"@
    ||| name == "NPM_CONFIG_HTTP_PROXY"@
    ||| name == "NPM_CONFIG_HTTPS_PROXY"@
}

/// Whether a variable carries the address of a proxy for everything.
pub open spec fn is_general_setting(name: Seq<char>) -> bool {
    name == "ALL_PROXY"@ || name == "all_proxy"@
}

/// Whether a variable lists what is reached without a proxy.
pub open spec fn is_exception_setting(name: Seq<char>) -> bool {
    name == "NO_PROXY"@ || name == "no_proxy"@
}

/// Variables are told apart by their length and their first letter.
proof fn lemma_variables()
    ensures
        "PI_SANDBOX"@.len() == 10 && "PI_SANDBOX"@[0] == 'P',
        "IN_SANDBOX"@.len() == 10 && "IN_SANDBOX"@[0] == 'I',
        "HTTP_PROXY"@.len() == 10 && "HTTP_PROXY"@[0] == 'H',
        "HTTPS_PROXY"@.len() == 11 && "HTTPS_PROXY"@[0] == 'H',
        "ALL_PROXY"@.len() == 9 && "ALL_PROXY"@[0] == 'A',
        "NO_PROXY"@.len() == 8 && "NO_PROXY"@[0] == 'N',
        "http_proxy"@.len() == 10 && "http_proxy"@[0] == 'h',
        "https_proxy"@.len() == 11 && "https_proxy"@[0] == 'h',
        "all_proxy"@.len() == 9 && "all_proxy"@[0] == 'a',
        "no_proxy"@.len() == 8 && "no_proxy"@[0] == 'n',
        "NPM_CONFIG_PROXY"@.len() == 16,
        "NPM_CONFIG_HTTP_PROXY"@.len() == 21,
        "NPM_CONFIG_HTTPS_PROXY"@.len() == 22,
        "GIT_PROXY_COMMAND"@.len() == 17,
{
    reveal_strlit("PI_SANDBOX");
    reveal_strlit("IN_SANDBOX");
    reveal_strlit("HTTP_PROXY");
    reveal_strlit("HTTPS_PROXY");
    reveal_strlit("ALL_PROXY");
    reveal_strlit("NO_PROXY");
    reveal_strlit("http_proxy");
    reveal_strlit("https_proxy");
    reveal_strlit("all_proxy");
    reveal_strlit("no_proxy");
    reveal_strlit("NPM_CONFIG_PROXY");
    reveal_strlit("NPM_CONFIG_HTTP_PROXY");
    reveal_strlit("NPM_CONFIG_HTTPS_PROXY");
    reveal_strlit("GIT_PROXY_COMMAND");
}

proof fn lemma_names(name: Seq<char>)
    ensures
        http_names().contains(name) <==> is_web_setting(name),
        proxy_names().contains(name) <==> is_web_setting(name) || is_general_setting(name)
            || is_exception_setting(name) || name == "GIT_PROXY_COMMAND"@,
{
    let h = http_names();
    assert(h[0] == "HTTP_PROXY"@ && h[1] == "HTTPS_PROXY"@ && h[2] == "http_proxy"@ && h[3]
        == "https_proxy"@ && h[4] == "NPM_CONFIG_PROXY"@ && h[5] == "NPM_CONFIG_HTTP_PROXY"@
        && h[6] == "NPM_CONFIG_HTTPS_PROXY"@);
    let p = proxy_names();
    assert(p[0] == "HTTP_PROXY"@ && p[1] == "HTTPS_PROXY"@ && p[2] == "ALL_PROXY"@ && p[3]
        == "NO_PROXY"@ && p[4] == "http_proxy"@ && p[5] == "https_proxy"@ && p[6] == "all_proxy"@
        && p[7] == "no_proxy"@ && p[8] == "NPM_CONFIG_PROXY"@ && p[9] == "NPM_CONFIG_HTTP_PROXY"@
        && p[10] == "NPM_CONFIG_HTTPS_PROXY"@ && p[11] == "GIT_PROXY_COMMAND"@);
}

/// A command sees the variables of its request, but for those that steer programs to a
/// proxy: these say where its own proxy is, on the port of the platform, and are not
/// there at all without one. And it sees that it is in a sandbox, and in which.
pub proof fn commands_see_what_they_are_given(
    platform: Platform,
    marker: Seq<char>,
    network: NetworkRequest,
    env: Seq<(Seq<char>, Seq<char>)>,
    name: Seq<char>,
    value: Seq<char>,
)
    ensures
        ({
            let sees = command_sees(platform, marker, network, env, name, value);
            let port = match network {
                NetworkRequest::Proxy { tcp_port, .. } => if platform == Platform::Linux {
                    31_128nat
                } else {
                    tcp_port as nat
                },
                _ => 0nat,
            };
            if name == "PI_SANDBOX"@ {
                sees <==> value == marker
            } else if name == "IN_SANDBOX"@ {
                sees <==> value == "1"@
            } else if name == "GIT_PROXY_COMMAND"@ {
                !sees
            } else if is_web_setting(name) {
                sees <==> network is Proxy && value == "http://127.0.0.1:"@ + decimal(port)
            } else if is_general_setting(name) {
                sees <==> network is Proxy && value == "socks5h://127.0.0.1:"@ + decimal(port)
            } else if is_exception_setting(name) {
                sees <==> network is Proxy && value == (if network->allow_local_binding {
                    "localhost,127.0.0.1,::1"@
                } else {
                    ""@
                })
            } else {
                sees <==> env.contains((name, value))
            }
        }),
{
    lemma_variables();
    lemma_names(name);
}

/// Behind the launch barrier runs the program of the command with its arguments, and
/// the shell before it reads its script from the command line.
pub proof fn the_barrier_runs_the_command(program: Seq<char>, args: Seq<Seq<char>>)
    ensures
        barrier_command(program, args).len() == 5 + args.len(),
        barrier_command(program, args)[0] == "/bin/sh"@,
        barrier_command(program, args)[1] == "-c"@,
        barrier_command(program, args)[4] == program,
        barrier_command(program, args).skip(5) == args,
{
    assert(barrier_command(program, args).skip(5) =~= args);
}

/// What a sandbox without network is told to run, its launcher runs.
pub proof fn blocked_launches_are_read_back(plan: LaunchPlan)
    requires
        !plan.network.enabled,
        plan.command.len() > 0,
    ensures
        ({
            let inside = launcher_arguments(plan.network) + plan.command;
            &&& inside[0] == SANDBOX_LAUNCHER_PATH@
            &&& inside[1] == "__linux_sandbox_launch"@
            &&& blocked_command(inside.skip(2)) == Some(plan.command)
        }),
{
    let inside = launcher_arguments(plan.network) + plan.command;
    assert(inside.skip(2)[0] == "--"@);
    assert(inside.skip(2).skip(1) =~= plan.command);
}

/// What a sandbox with a network is told of its proxy, of binding and of its command,
/// its launcher reads back as it is.
pub proof fn network_launches_are_read_back(host: Host, network: NetworkRequest, plan: LaunchPlan)
    requires
        plan.network == network_plan(network),
        plan.command.len() > 0,
        match network {
            NetworkRequest::Blocked => false,
            NetworkRequest::Loopback => true,
            NetworkRequest::Proxy { unix_socket, .. } => {
                &&& unix_socket.len() > 0
                &&& unix_socket[0] == '/'
                &&& host.paths.contains_key(unix_socket)
                &&& host.paths[unix_socket].target is Ok
                &&& host.paths[unix_socket].target->Ok_0.kind == FileKind::Socket
            },
        },
    ensures
        ({
            let inside = launcher_arguments(plan.network) + plan.command;
            &&& inside[0] == SANDBOX_LAUNCHER_PATH@
            &&& inside[1] == "__linux_proxy_launch"@
            &&& proxy_plan(host, inside.skip(2)) == Ok::<ProxyPlan, HaltModel>(
                ProxyPlan {
                    socket: match network {
                        NetworkRequest::Proxy { unix_socket, .. } => Some(unix_socket),
                        _ => None,
                    },
                    allow_local_binding: match network {
                        NetworkRequest::Proxy { allow_local_binding, .. } => allow_local_binding,
                        _ => true,
                    },
                    command: plan.command,
                },
            )
        }),
{
    let inside = launcher_arguments(plan.network) + plan.command;
    let arguments = inside.skip(2);
    reveal_strlit("--");
    reveal_strlit("-");
    reveal_strlit("allow-local-binding");
    reveal_strlit("deny-local-binding");
    assert(arguments[0] != "--"@) by {
        if let NetworkRequest::Proxy { unix_socket, .. } = network {
            assert(arguments[0] == unix_socket);
            assert("--"@[0] == '-');
        } else {
            assert("-"@.len() != "--"@.len());
        }
    }
    if let NetworkRequest::Proxy { unix_socket, .. } = network {
        assert("-"@[0] == '-');
        assert(arguments[0] != "-"@);
    }
    assert(arguments[1] != "--"@) by {
        assert(arguments[1].len() > 2);
    }
    assert("allow-local-binding"@ != "deny-local-binding"@) by {
        assert("allow-local-binding"@.len() != "deny-local-binding"@.len());
    }
    assert(arguments[2] == "--"@);
    reveal_with_fuel(separator_at, 4);
    assert(separator_at(arguments, 0) == Some(2int));
    assert(arguments.skip(3) =~= plan.command);
}

/// A launcher takes only what says all that it needs: a proxy's socket or none, whether
/// others may connect, the mark, and a command; the socket is one, by an absolute path,
/// and without a proxy others may connect.
pub proof fn launchers_take_only_what_is_whole(host: Host, arguments: Seq<Seq<char>>)
    ensures
        proxy_plan(host, arguments) matches Ok(plan) ==> {
            &&& plan.command.len() > 0
            &&& arguments.len() == 3 + plan.command.len()
            &&& arguments.skip(3) == plan.command
            &&& arguments[2] == "--"@
            &&& arguments[1] == (if plan.allow_local_binding {
                "allow-local-binding"@
            } else {
                "deny-local-binding"@
            })
            &&& match plan.socket {
                None => arguments[0] == "-"@ && plan.allow_local_binding,
                Some(socket) => {
                    &&& arguments[0] == socket
                    &&& socket.len() > 0 && socket[0] == '/'
                    &&& host.paths[socket].target is Ok
                    &&& host.paths[socket].target->Ok_0.kind == FileKind::Socket
                },
            }
        },
{
    reveal_with_fuel(separator_at, 4);
    if proxy_plan(host, arguments) is Ok {
        lemma_separator(arguments, 0);
    }
}

proof fn lemma_separator(arguments: Seq<Seq<char>>, from: int)
    requires
        0 <= from,
    ensures
        separator_at(arguments, from) matches Some(at) ==> from <= at < arguments.len()
            && arguments[at] == "--"@,
    decreases arguments.len() - from,
{
    if from < arguments.len() && arguments[from] != "--"@ {
        lemma_separator(arguments, from + 1);
    }
}

/// Every launch is cut off from the rest of the host: from its session, its users, its
/// processes, its network and what it shares with others, and it ends with the broker;
/// without network it has no capability either.
pub proof fn launches_are_cut_off(host: Host, plan: LaunchPlan, descriptors: Descriptors)
    requires
        launch_arguments(host, plan, descriptors) is Ok,
    ensures
        ({
            let arguments = launch_arguments(host, plan, descriptors)->Ok_0;
            &&& arguments.take(14) == seq![
                "--new-session"@,
                "--die-with-parent"@,
                "--unshare-user"@,
                "--unshare-pid"@,
                "--unshare-net"@,
                "--unshare-ipc"@,
                "--unshare-uts"@,
                "--ro-bind"@,
                "/"@,
                "/"@,
                "--dev"@,
                "/dev"@,
                "--proc"@,
                "/proc"@,
            ]
            &&& !plan.network.enabled ==> arguments[14] == "--cap-drop"@ && arguments[15]
                == "ALL"@
        }),
{
    let arguments = launch_arguments(host, plan, descriptors)->Ok_0;
    let base = base_arguments(!plan.network.enabled);
    let mounts = launch_mounts(host, plan, descriptors)->Ok_0;
    let front = base + mounts;
    assert forall|i: int| 0 <= i < base.len() implies arguments[i] == #[trigger] base[i] by {
        assert(front[i] == base[i]);
    }
    assert(arguments.take(14) =~= base.take(14));
    assert(base.take(14) =~= seq![
        "--new-session"@,
        "--die-with-parent"@,
        "--unshare-user"@,
        "--unshare-pid"@,
        "--unshare-net"@,
        "--unshare-ipc"@,
        "--unshare-uts"@,
        "--ro-bind"@,
        "/"@,
        "/"@,
        "--dev"@,
        "/dev"@,
        "--proc"@,
        "/proc"@,
    ]);
    if !plan.network.enabled {
        assert(base[14] == "--cap-drop"@ && base[15] == "ALL"@);
    }
}

/// A launch ends in its directory, the mark, the launcher and the command; and a command
/// without network, and no other, has a seccomp program just before.
pub proof fn launches_end_in_the_command(host: Host, plan: LaunchPlan, descriptors: Descriptors)
    requires
        launch_arguments(host, plan, descriptors) is Ok,
    ensures
        ({
            let arguments = launch_arguments(host, plan, descriptors)->Ok_0;
            let inside = launcher_arguments(plan.network) + plan.command;
            let mark = arguments.len() - inside.len() - 1;
            &&& descriptors.seccomp is Some <==> !plan.network.enabled
            &&& mark >= 4
            &&& arguments[mark] == "--"@
            &&& arguments[mark - 1] == plan.cwd
            &&& arguments[mark - 2] == "--chdir"@
            &&& arguments.skip(mark + 1) == inside
            &&& !plan.network.enabled ==> arguments[mark - 3] == decimal(
                descriptors.seccomp->0 as nat,
            ) && arguments[mark - 4] == "--seccomp"@
        }),
{
    let arguments = launch_arguments(host, plan, descriptors)->Ok_0;
    let base = base_arguments(!plan.network.enabled);
    let mounts = launch_mounts(host, plan, descriptors)->Ok_0;
    let filter = seccomp_arguments(descriptors.seccomp);
    let settings = seq!["--chdir"@, plan.cwd, "--"@];
    let launcher = launcher_arguments(plan.network);
    let inside = launcher + plan.command;
    let front = base + mounts;
    let ahead = front + filter;
    assert(arguments =~= ahead + settings + inside);
    let mark = arguments.len() - inside.len() - 1;
    assert(mark == ahead.len() + 2);
    assert(arguments[mark] == settings[2]);
    assert(arguments[mark - 1] == settings[1]);
    assert(arguments[mark - 2] == settings[0]);
    assert(arguments.skip(mark + 1) =~= inside);
    if !plan.network.enabled {
        assert(arguments[mark - 3] == filter[1]);
        assert(arguments[mark - 4] == filter[0]);
    }
}

/// A process has no capability exactly where no word of its effective and of its
/// permitted ones holds any.
pub proof fn capabilities_are_looked_for_in_every_word(sets: CapabilitySets)
    ensures
        no_capabilities(sets) <==> forall|word: int, kind: int|
            0 <= word < 2 && 0 <= kind < 2 ==> #[trigger] sets@[word]@[kind] == 0,
{
    if forall|word: int, kind: int|
        0 <= word < 2 && 0 <= kind < 2 ==> #[trigger] sets@[word]@[kind] == 0 {
        assert(sets@[0]@[0] == 0 && sets@[0]@[1] == 0 && sets@[1]@[0] == 0 && sets@[1]@[1] == 0);
    }
}

} // verus!
