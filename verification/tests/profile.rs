//! The profile of the Seatbelt sandbox.

use pi_sandbox_broker::globs::{glob_regex, seatbelt_regex_for_glob, translate_glob};
use pi_sandbox_broker::hard_policy::glob_deny;
use pi_sandbox_broker::profile::{
    build_args, build_args_with_network, build_explicit_deny_policy, escape_sbpl,
    protected_name_regex,
};
use pi_sandbox_broker::protocol::{Access, DeniedAccess, DenyScope, PathScope};
use pi_sandbox_broker::seatbelt::{deny_matches_right, NormalizedDeny, NormalizedRight};
use pi_sandbox_broker::validation::ValidatedNetworkPolicy;

const BASE: &str = "(version 1)\n(deny default)";

fn right(access: Access, path: &str, scope: PathScope, approved: bool) -> NormalizedRight {
    NormalizedRight { access, path: path.to_owned(), scope, approved }
}

fn writes(path: &str) -> Vec<NormalizedRight> {
    vec![right(Access::Write, path, PathScope::Tree, false)]
}

fn command() -> Vec<String> {
    vec!["/usr/bin/true".to_owned()]
}

fn deny(access: DeniedAccess, path: &str, scope: DenyScope) -> NormalizedDeny {
    NormalizedDeny {
        access,
        pattern: path.to_owned(),
        scope,
        path: Some(path.to_owned()),
        exempt_roots: Vec::new(),
    }
}

#[test]
fn file_and_tree_rights_use_distinct_filters() {
    let rights = vec![
        right(Access::Read, "/input.txt", PathScope::File, false),
        right(Access::Write, "/work", PathScope::Tree, false),
    ];
    let args =
        build_args(BASE, &command(), "/work", &rights, &vec![], &vec![]).expect("policy");
    let policy = &args[1];
    assert!(policy.contains("(literal (param \"READABLE_ROOT_0\"))"));
    assert!(policy.contains("(literal (param \"WRITABLE_ROOT_0\"))"));
    assert!(policy.contains("(subpath (param \"WRITABLE_ROOT_0\"))"));
}

#[test]
fn unix_socket_roots_add_only_exact_path_socket_rules() {
    let sockets = vec!["/nix/var/nix/daemon-socket/socket".to_owned()];
    let args = build_args(BASE, &command(), "/work", &vec![], &vec![], &sockets).expect("policy");
    let policy = &args[1];
    assert!(policy.contains("(allow system-socket (socket-domain AF_UNIX))"));
    assert!(policy.contains(
        "(allow network-outbound (remote unix-socket (literal (param \"UNIX_SOCKET_PATH_0\"))))"
    ));
    assert!(!policy.contains("(subpath (param \"UNIX_SOCKET_PATH_0\"))"));
    assert!(!policy.contains("\n(allow network-outbound)\n"));
    assert!(args
        .iter()
        .any(|arg| arg == "-DUNIX_SOCKET_PATH_0=/nix/var/nix/daemon-socket/socket"));
}

#[test]
fn proxy_network_allows_only_one_loopback_port() {
    let args = build_args_with_network(
        BASE,
        &command(),
        "/work",
        &writes("/work"),
        &vec![],
        &vec![],
        &ValidatedNetworkPolicy::Proxy {
            tcp_port: 43_127,
            unix_socket: "/tmp/proxy.sock".to_owned(),
            allow_local_binding: false,
        },
    )
    .expect("policy");
    let policy = &args[1];
    assert!(policy.contains("(allow network-outbound (remote ip \"localhost:43127\"))"));
    assert!(!policy.contains("(remote ip \"localhost:*\")"));
    assert!(!policy.contains("LOCAL_UNIX_SOCKET_ROOT"));
    assert!(!policy.contains("\n(allow network-outbound)\n"));
}

#[test]
fn proxy_with_local_binding_keeps_scoped_unix_bind_rules() {
    let args = build_args_with_network(
        BASE,
        &command(),
        "/work",
        &writes("/work"),
        &vec![],
        &vec![],
        &ValidatedNetworkPolicy::Proxy {
            tcp_port: 43_127,
            unix_socket: "/tmp/proxy.sock".to_owned(),
            allow_local_binding: true,
        },
    )
    .expect("policy");
    let policy = &args[1];
    assert!(policy.contains("(remote ip \"localhost:43127\")"));
    assert!(policy.contains("(remote ip \"localhost:*\")"));
    assert!(policy.contains("(allow network-bind (local unix-socket"));
    assert!(!policy.contains("(remote unix-socket"));
    assert!(args.iter().any(|arg| arg == "-DLOCAL_UNIX_SOCKET_ROOT_0=/work"));
}

#[test]
fn loopback_network_allows_local_servers_without_broad_outbound_access() {
    let rights = vec![
        right(Access::Write, "/work", PathScope::Tree, false),
        right(Access::Write, "/work/exact.sock", PathScope::File, true),
    ];
    let denies = vec![
        deny(DeniedAccess::Write, "/work/blocked.sock", DenyScope::File),
        NormalizedDeny {
            access: DeniedAccess::Write,
            pattern: "/work/**/*.secret".to_owned(),
            scope: DenyScope::Glob,
            path: None,
            exempt_roots: Vec::new(),
        },
    ];
    let args = build_args_with_network(
        BASE,
        &command(),
        "/work",
        &rights,
        &denies,
        &vec![],
        &ValidatedNetworkPolicy::Loopback,
    )
    .expect("policy");
    let policy = &args[1];
    assert!(policy.contains("(allow network-bind (local ip \"localhost:*\"))"));
    assert!(policy.contains("(allow network-inbound (local ip \"localhost:*\"))"));
    assert!(policy.contains("(allow network-outbound (remote ip \"localhost:*\"))"));
    assert!(policy.contains("(allow system-socket (socket-domain AF_UNIX))"));
    assert!(policy.contains("(allow network-bind (local unix-socket"));
    assert!(!policy.contains("(network-inbound (local unix-socket"));
    assert!(!policy.contains("(remote unix-socket"));
    assert!(args.iter().any(|arg| arg == "-DLOCAL_UNIX_SOCKET_ROOT_0=/work"));
    assert!(args
        .iter()
        .any(|arg| arg == "-DLOCAL_UNIX_SOCKET_ROOT_0_EXCLUDED_0=/work/blocked.sock"));
    assert!(!args.iter().any(|arg| arg.starts_with("-DLOCAL_UNIX_SOCKET_ROOT_1=")));
    let unix_bind = policy
        .lines()
        .find(|line| line.contains("(allow network-bind (local unix-socket"))
        .expect("Unix bind policy");
    assert!(unix_bind.contains("LOCAL_UNIX_SOCKET_ROOT_0_EXCLUDED_0"));
    assert!(unix_bind.contains("^/work/(.*/)?\\.pi(/.*)?$"));
    assert!(unix_bind.contains("\\.secret$"));
    assert!(!policy.contains("(remote ip \"*:*\")"));
    assert!(!policy.contains("\n(allow network-outbound)\n"));
}

#[test]
fn broad_writes_protect_control_names_only_below_the_workspace() {
    let args =
        build_args(BASE, &command(), "/work", &writes("/"), &vec![], &vec![]).expect("policy");
    let policy = &args[1];
    assert!(policy.contains("^/work/(.*/)?\\.git(/.*)?$"));
    assert!(policy.contains("^/work/(.*/)?\\.pi(/.*)?$"));
    assert!(!policy.contains("^/(.*/)?\\.git(/.*)?$"));
}

#[test]
fn cache_roots_do_not_block_package_manager_git_metadata() {
    let rights = writes("/home/user/.cargo/git");
    let args = build_args(BASE, &command(), "/work", &rights, &vec![], &vec![]).expect("policy");
    assert!(!args[1].contains("^/home/user/\\.cargo/git/(.*/)?\\.git"));
    assert!(!args[1].contains("^/home/user/\\.cargo/git/(.*/)?\\.pi"));
}

#[test]
fn cache_root_inside_workspace_keeps_workspace_control_carveouts() {
    let rights = writes("/work/.cache/package-manager");
    let args = build_args(BASE, &command(), "/work", &rights, &vec![], &vec![]).expect("policy");
    assert!(args[1].contains("^/work/(.*/)?\\.git(/.*)?$"));
    assert!(args[1].contains("^/work/(.*/)?\\.pi(/.*)?$"));
}

#[test]
fn exact_control_grant_drops_metadata_carveout() {
    let rights = vec![right(Access::Write, "/work/.git", PathScope::Tree, true)];
    let args = build_args(BASE, &command(), "/work", &rights, &vec![], &vec![]).expect("policy");
    assert!(!args[1].contains("^/work/\\.git/\\.git"));
}

#[test]
fn approved_parent_tree_keeps_denied_children_carved_out() {
    let tree_deny = deny(DeniedAccess::ReadWrite, "/home/user/.ssh", DenyScope::Tree);
    let file_deny = deny(DeniedAccess::ReadWrite, "/home/user/auth.json", DenyScope::File);
    let glob_deny = glob_deny(DeniedAccess::ReadWrite, "/**/*.key");
    let parent = right(Access::Write, "/home/user", PathScope::Tree, true);
    let child = right(Access::Write, "/home/user/.ssh/config", PathScope::Tree, true);
    assert!(!deny_matches_right(&tree_deny, &parent));
    assert!(!deny_matches_right(&file_deny, &parent));
    assert!(!deny_matches_right(&glob_deny, &parent));
    assert!(deny_matches_right(&tree_deny, &child));

    let args = build_args(
        BASE,
        &command(),
        "/work",
        &vec![parent],
        &vec![tree_deny, file_deny, glob_deny],
        &vec![],
    )
    .expect("policy");
    assert!(args[1].contains("WRITABLE_ROOT_0_EXCLUDED_0"));
    assert!(args[1].contains("WRITABLE_ROOT_0_EXCLUDED_1"));
    assert!(args[1].contains("(deny file-write* (regex"));
}

#[test]
fn tree_denies_cover_the_root_and_descendants() {
    let denies = vec![deny(DeniedAccess::ReadWrite, "/secret", DenyScope::Tree)];
    let policy = build_explicit_deny_policy(&denies).expect("deny policy");
    assert!(policy.contains("(deny file-read* (literal \"/secret\"))"));
    assert!(policy.contains("(deny file-read* (subpath \"/secret\"))"));
    assert!(policy.contains("(deny file-write* (literal \"/secret\"))"));
    assert!(policy.contains("(deny file-write* (subpath \"/secret\"))"));
}

#[test]
fn globstar_slash_matches_zero_or_more_folders() {
    let regex = seatbelt_regex_for_glob("/**/*.env").expect("glob");
    let regex = regex_lite::Regex::new(&regex).expect("regex");
    assert!(regex.is_match("/.env"));
    assert!(regex.is_match("/repo/nested/.env"));
    assert!(!regex.is_match("/repo/.environment"));
}

#[test]
fn a_profile_holds_its_parts_in_order() {
    let rights = vec![
        right(Access::Read, "/", PathScope::Tree, false),
        right(Access::Write, "/work/out.txt", PathScope::File, true),
    ];
    let denies = vec![deny(DeniedAccess::Write, "/work/lock", DenyScope::File)];
    let args =
        build_args(BASE, &command(), "/elsewhere", &rights, &denies, &vec![]).expect("policy");
    assert_eq!(args[0], "-p");
    let read = args[1].find("(allow file-read*").expect("read rule");
    let write = args[1].find("(allow file-write*").expect("write rule");
    let denied = args[1].find("(deny file-write* (literal \"/work/lock\"))").expect("deny rule");
    assert!(args[1].starts_with(BASE));
    assert!(read < write && write < denied);
    assert_eq!(args[args.len() - 2..], ["--".to_owned(), "/usr/bin/true".to_owned()]);
    assert!(args.contains(&"-DWRITABLE_ROOT_0=/work/out.txt".to_owned()));
}

#[test]
fn no_grant_opens_the_pi_directory() {
    let rights = vec![right(Access::Write, "/work/.pi", PathScope::Tree, true)];
    let args = build_args(BASE, &command(), "/work", &rights, &vec![], &vec![]).expect("policy");
    assert!(args[1].contains("^/work/(.*/)?\\.pi(/.*)?$"));
}

const KEEPS_GIT_OUT: &str = "(require-not (regex #\"^/work/(.*/)?\\.git(/.*)?$\"))";
const KEEPS_PI_OUT: &str = "(require-not (regex #\"^/work/(.*/)?\\.pi(/.*)?$\"))";

fn profile_of(cwd: &str, rights: Vec<NormalizedRight>) -> String {
    let mut args =
        build_args(BASE, &command(), cwd, &rights, &vec![], &vec![]).expect("policy");
    args.swap_remove(1)
}

#[test]
fn a_granted_git_directory_lifts_its_own_protection_alone() {
    let granted = profile_of(
        "/work",
        vec![right(Access::Write, "/work/.git", PathScope::Tree, true)],
    );
    assert!(!granted.contains(KEEPS_GIT_OUT));
    assert!(granted.contains(KEEPS_PI_OUT));
    let around = profile_of(
        "/x/.git/work",
        vec![right(Access::Write, "/x/.git", PathScope::Tree, true)],
    );
    assert!(around.contains("^/x/\\.git/work/(.*/)?\\.pi(/.*)?$"));
}

#[test]
fn files_in_control_directories_stay_protected() {
    let file = |path, approved| {
        profile_of("/work", vec![right(Access::Write, path, PathScope::File, approved)])
    };
    let literal = "(literal (param \"WRITABLE_ROOT_0\"))";
    for approved in [false, true] {
        assert!(file("/work/.pi/settings.json", approved)
            .contains(&format!("(require-all {literal} {KEEPS_PI_OUT})")));
        assert!(!file("/work/notes.txt", approved).contains("require-all"));
        assert!(!file("/elsewhere/.pi/settings.json", approved).contains("require-all"));
    }
    assert!(file("/work/sub/.git/config", false)
        .contains(&format!("(require-all {literal} {KEEPS_GIT_OUT})")));
    assert!(!file("/work/sub/.git/config", true).contains("require-all"));
}

#[test]
fn an_empty_command_has_no_profile() {
    assert_eq!(
        build_args(BASE, &vec![], "/work", &vec![], &vec![], &vec![]),
        Err("command is empty".to_owned())
    );
}

#[test]
fn a_deny_glob_must_compile() {
    let denies = vec![glob_deny(DeniedAccess::Read, "/work/[z-a]")];
    assert!(build_explicit_deny_policy(&denies).is_err());
}

#[test]
fn globs_become_anchored_expressions() {
    assert_eq!(translate_glob("/a?b"), Some("^/a[^/]b$".to_owned()));
    assert_eq!(seatbelt_regex_for_glob("/w/*.rs"), Ok("^/w/[^/]*\\.rs$".to_owned()));
    assert_eq!(seatbelt_regex_for_glob("/w/**"), Ok("^/w/.*$".to_owned()));
    let compiled = regex_lite::Regex::new(&glob_regex("/w/?.txt").expect("glob")).expect("regex");
    assert!(compiled.is_match("/w/a.txt"));
    assert!(!compiled.is_match("/w/ab.txt"));
    assert_eq!(glob_regex("/w/[ab].txt"), Err("glob character classes are unsupported".to_owned()));
}

#[test]
fn profile_texts_are_escaped() {
    assert_eq!(escape_sbpl("/a\"b\\c"), "/a\\\"b\\\\c");
    assert_eq!(protected_name_regex("/w.x/", ".git"), "^/w\\.x/(.*/)?\\.git(/.*)?$");
}
