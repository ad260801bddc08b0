//! The arguments and filters of a launch on Linux.

use pi_sandbox_broker::bubblewrap::{base_args, self_test_args};
use pi_sandbox_broker::command::{
    command_environment, strip_proxy_environment, Platform, LAUNCH_SCRIPT,
};
use pi_sandbox_broker::environment::Environment;
use pi_sandbox_broker::launcher::{
    capability_sets_are_empty, ensure_no_capabilities, launcher_exit_code, run_sandbox_launcher,
};
use pi_sandbox_broker::paths::{
    path_components, path_file_name, path_front, path_has_dots, path_join, path_parent,
    path_starts_with, paths_equal,
};
use pi_sandbox_broker::profile::build_args;
use pi_sandbox_broker::protocol::{Access, PathScope};
use pi_sandbox_broker::readiness::{can_exec, seatbelt_trial_args, self_test, Trial};
use pi_sandbox_broker::seatbelt::{HardPolicy, NormalizedRight};
use pi_sandbox_broker::seccomp::{
    blocked_filter, proxied_filter, seccomp_program, Architecture, FilterInstruction,
    SyscallNumbers, BPF_JMP_JEQ_K, BPF_JMP_JGE_K, BPF_LD_W_ABS, BPF_RET_K, DENY_WITH_EPERM,
    SECCOMP_DATA_ARCH_OFFSET, SECCOMP_RET_ALLOW, SECCOMP_RET_KILL_PROCESS,
};
use pi_sandbox_broker::validation::{is_env_name, ValidatedNetworkPolicy};

#[test]
fn base_args_request_all_release_namespaces() {
    let args = base_args(true);
    for required in [
        "--unshare-user",
        "--unshare-pid",
        "--unshare-net",
        "--unshare-ipc",
        "--unshare-uts",
        "--proc",
        "--dev",
    ] {
        assert!(args.iter().any(|argument| argument == required));
    }
}

#[test]
fn blocked_commands_drop_all_capabilities_with_bubblewrap() {
    let has_cap_drop = |args: &[String]| {
        args.windows(2).any(|pair| pair[0] == "--cap-drop" && pair[1] == "ALL")
    };
    assert!(has_cap_drop(&base_args(true)));
    assert!(!has_cap_drop(&base_args(false)));
}

#[test]
fn effective_or_permitted_capabilities_are_rejected() {
    assert!(capability_sets_are_empty([[0, 0, u32::MAX], [0, 0, 0]]));
    assert!(!capability_sets_are_empty([[1, 0, 0], [0, 0, 0]]));
    assert!(!capability_sets_are_empty([[0, 1, 0], [0, 0, 0]]));
    assert!(!capability_sets_are_empty([[0, 0, 0], [1, 0, 0]]));
    assert!(!capability_sets_are_empty([[0, 0, 0], [0, 1, 0]]));
}

#[test]
fn sandbox_launcher_rejects_malformed_arguments_before_exec() {
    assert!(run_sandbox_launcher(&vec![], &Ok([[0; 3]; 2])).is_err());
}

#[test]
fn the_launcher_runs_a_command_without_capabilities() {
    let arguments = vec!["--".to_owned(), "/bin/sh".to_owned(), "-c".to_owned()];
    assert_eq!(
        run_sandbox_launcher(&arguments, &Ok([[0; 3]; 2])),
        Ok(vec!["/bin/sh".to_owned(), "-c".to_owned()])
    );
    assert_eq!(
        run_sandbox_launcher(&arguments, &Ok([[1, 0, 0], [0, 0, 0]])),
        Err("Linux sandbox retained effective or permitted capabilities".to_owned())
    );
    assert_eq!(
        ensure_no_capabilities(&Err("cannot read".to_owned())),
        Err("cannot read".to_owned())
    );
    assert_eq!(launcher_exit_code(Some(4), None), 4);
    assert_eq!(launcher_exit_code(None, Some(9)), 137);
}

fn numbers() -> SyscallNumbers {
    SyscallNumbers {
        ptrace: 101,
        process_vm_readv: 310,
        process_vm_writev: 311,
        io_uring_setup: 425,
        io_uring_enter: 426,
        io_uring_register: 427,
        connect: 42,
        accept: 43,
        accept4: 288,
        bind: 49,
        listen: 50,
        getpeername: 52,
        getsockname: 51,
        shutdown: 48,
        sendto: 44,
        sendmmsg: 307,
        recvmmsg: 299,
        getsockopt: 55,
        setsockopt: 54,
        socket: 41,
        socketpair: 53,
    }
}

#[test]
fn seccomp_program_checks_arch_and_ends_in_allow() {
    let bytes = seccomp_program(Architecture::X86_64, &numbers());
    assert_eq!(bytes.len() % 8, 0);
    assert_eq!(&bytes[4..8], &SECCOMP_DATA_ARCH_OFFSET.to_ne_bytes());
    assert_eq!(&bytes[bytes.len() - 4..], &SECCOMP_RET_ALLOW.to_ne_bytes());
}

fn judge(program: &[FilterInstruction], number: u32, arch: u32, argument: u32) -> u32 {
    let mut at = 0;
    let mut word = 0;
    loop {
        let instruction = &program[at];
        at += 1;
        match instruction.code {
            BPF_RET_K => return instruction.value,
            BPF_LD_W_ABS => {
                word = match instruction.value {
                    0 => number,
                    4 => arch,
                    16 => argument,
                    other => panic!("no word at {other}"),
                }
            }
            BPF_JMP_JEQ_K => {
                at += usize::from(if word == instruction.value {
                    instruction.jump_true
                } else {
                    instruction.jump_false
                })
            }
            BPF_JMP_JGE_K => {
                at += usize::from(if word >= instruction.value {
                    instruction.jump_true
                } else {
                    instruction.jump_false
                })
            }
            other => panic!("no instruction {other}"),
        }
    }
}

#[test]
fn blocked_commands_open_no_sockets_but_pairs() {
    let arch = Architecture::X86_64.audit_arch();
    let program = blocked_filter(Architecture::X86_64, &numbers());
    assert_eq!(judge(&program, 0, arch, 0), SECCOMP_RET_ALLOW);
    assert_eq!(judge(&program, 0, arch + 1, 0), SECCOMP_RET_KILL_PROCESS);
    assert_eq!(judge(&program, 42, arch, 0), DENY_WITH_EPERM);
    assert_eq!(judge(&program, 101, arch, 0), DENY_WITH_EPERM);
    assert_eq!(judge(&program, 41, arch, 2), DENY_WITH_EPERM);
    assert_eq!(judge(&program, 53, arch, 1), SECCOMP_RET_ALLOW);
    let aarch = blocked_filter(Architecture::Aarch64, &numbers());
    assert_eq!(judge(&aarch, 0, Architecture::Aarch64.audit_arch(), 0), SECCOMP_RET_ALLOW);
}

#[test]
fn proxied_commands_open_no_unix_sockets() {
    let arch = Architecture::X86_64.audit_arch();
    let closed = proxied_filter(Architecture::X86_64, &numbers(), false);
    let open = proxied_filter(Architecture::X86_64, &numbers(), true);
    assert_eq!(judge(&closed, 41, arch, 1), DENY_WITH_EPERM);
    assert_eq!(judge(&open, 41, arch, 1), DENY_WITH_EPERM);
    assert_eq!(judge(&closed, 41, arch, 2), SECCOMP_RET_ALLOW);
    assert_eq!(judge(&closed, 49, arch, 0), DENY_WITH_EPERM);
    assert_eq!(judge(&open, 49, arch, 0), SECCOMP_RET_ALLOW);
    assert_eq!(judge(&open, 42, arch, 0), SECCOMP_RET_ALLOW);
}

#[test]
fn environment_names_are_narrow() {
    assert!(is_env_name("PATH"));
    assert!(is_env_name("LC_ALL"));
    assert!(!is_env_name("bad-name"));
    assert!(!is_env_name("1BAD"));
    assert!(!is_env_name(""));
}

fn environment(entries: &[(&str, &str)]) -> Environment {
    let mut environment = Environment::new();
    for (name, value) in entries {
        environment.insert((*name).to_owned(), (*value).to_owned());
    }
    environment
}

#[test]
fn environments_hold_each_name_once() {
    let env = environment(&[("B", "1"), ("A", "2"), ("B", "3")]);
    assert_eq!(env.len(), 2);
    assert_eq!((env.name(0), env.value(0)), ("A", "2"));
    assert_eq!(env.get("B"), Some("3"));
    assert_eq!(env.get("C"), None);
}

#[test]
fn proxy_settings_are_replaced() {
    let given = environment(&[("PATH", "/bin"), ("https_proxy", "http://evil"), ("NO_PROXY", "*")]);
    let stripped = strip_proxy_environment(&given);
    assert_eq!(stripped.len(), 1);
    let blocked = command_environment(
        &given,
        &ValidatedNetworkPolicy::Blocked,
        Platform::Linux,
        "bubblewrap-broker",
    );
    assert_eq!(blocked.get("https_proxy"), None);
    assert_eq!(blocked.get("IN_SANDBOX"), Some("1"));
    assert_eq!(blocked.get("PI_SANDBOX"), Some("bubblewrap-broker"));
    let proxy = ValidatedNetworkPolicy::Proxy {
        tcp_port: 43_127,
        unix_socket: "/tmp/proxy.sock".to_owned(),
        allow_local_binding: true,
    };
    let linux = command_environment(&given, &proxy, Platform::Linux, "bubblewrap-broker");
    assert_eq!(linux.get("HTTPS_PROXY"), Some("http://127.0.0.1:31128"));
    assert_eq!(linux.get("no_proxy"), Some("localhost,127.0.0.1,::1"));
    let macos = command_environment(&given, &proxy, Platform::Macos, "seatbelt-broker");
    assert_eq!(macos.get("ALL_PROXY"), Some("socks5h://127.0.0.1:43127"));
    assert_eq!(macos.get("PATH"), Some("/bin"));
}

#[test]
fn the_barrier_waits_for_a_line() {
    assert_eq!(LAUNCH_SCRIPT, "IFS= read -r _ || exit 125; exec \"$@\"");
}

#[test]
fn the_self_test_drops_what_a_command_may_not_have() {
    let args = self_test_args(5, 6);
    assert_eq!(args[..base_args(true).len()], base_args(true)[..]);
    assert!(args.windows(2).any(|pair| pair[0] == "--seccomp" && pair[1] == "6"));
}

#[test]
fn failed_trials_say_why() {
    let ended = |success| Trial::Ended { success, diagnostics: " no namespaces\n".to_owned() };
    assert_eq!(self_test("Bubblewrap", &ended(true)), Ok(()));
    assert_eq!(
        self_test("Bubblewrap", &ended(false)),
        Err("Bubblewrap self-test failed: no namespaces".to_owned())
    );
    assert_eq!(
        self_test("Seatbelt", &Trial::NotStarted("not found".to_owned())),
        Err("cannot start Seatbelt self-test: not found".to_owned())
    );
    assert_eq!(
        self_test("Bubblewrap", &Trial::Unavailable("/usr/bin/bwrap".to_owned())),
        Err("fixed Bubblewrap path is unavailable: /usr/bin/bwrap".to_owned())
    );
}

#[test]
fn commands_run_where_the_sandbox_works() {
    assert!(can_exec(Platform::Linux, true, true, false));
    assert!(!can_exec(Platform::Linux, false, true, true));
    assert!(!can_exec(Platform::Linux, true, false, true));
    assert!(can_exec(Platform::Macos, true, true, true));
    assert!(!can_exec(Platform::Macos, true, true, false));
    assert!(!can_exec(Platform::Other, true, true, true));
}

#[test]
fn the_seatbelt_trial_may_read_everything() {
    let base = "(version 1)";
    let hard = HardPolicy { denies: vec![] };
    let rights = vec![NormalizedRight {
        access: Access::Read,
        path: "/".to_owned(),
        scope: PathScope::Tree,
        approved: false,
    }];
    assert_eq!(
        seatbelt_trial_args(base, &hard),
        build_args(base, &vec!["/usr/bin/true".to_owned()], "/", &rights, &vec![], &vec![])
    );
}

#[test]
fn paths_are_read_by_their_components() {
    assert_eq!(path_components("/a//b/./c/"), ["/", "a", "b", "c"]);
    assert!(paths_equal("/a/b", "/a//b/"));
    assert!(path_starts_with("/work/x", "/work"));
    assert!(!path_starts_with("/workspace", "/work"));
    assert_eq!(path_file_name("/a/b/"), Some("b".to_owned()));
    assert_eq!(path_file_name("/"), None);
    assert_eq!(path_join("/a", "b"), "/a/b");
    assert_eq!(path_parent("/a/b"), Some("/a".to_owned()));
    assert_eq!(path_parent("/"), None);
    assert_eq!(path_parent("/a//b//c.sock"), Some("/a//b".to_owned()));
    assert_eq!(path_parent("///ab"), Some("/".to_owned()));
    assert_eq!(path_parent("/ab/./cd/."), Some("/ab".to_owned()));
    assert_eq!(path_parent("ab"), Some(String::new()));
    assert_eq!(path_front("/ab//cd//ef", 2), "/ab");
    assert_eq!(path_front("/ab//cd//ef", 3), "/ab//cd");
    assert!(path_has_dots("/a/../b"));
    assert!(!path_has_dots("/a/b"));
}
