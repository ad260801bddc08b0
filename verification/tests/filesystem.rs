//! Decisions on a host whose filesystem is held in memory.

use std::collections::BTreeMap;

use pi_sandbox_broker::broker::{handle_request, Answer};
use pi_sandbox_broker::bubblewrap::{
    append_deny, base_args, ensure_existing_type, launch_args, missing_write_target, push_mount,
    Descriptors,
};
use pi_sandbox_broker::command::launch_command;
use pi_sandbox_broker::environment::Environment;
use pi_sandbox_broker::executor::Runtime;
use pi_sandbox_broker::expansion::{expand_globs, glob_scan_roots, protected_workspace_paths};
use pi_sandbox_broker::facts::{
    EntryFacts, EntryKind, Facts, FileKind, Halt, Listing, PathFacts, Probe, ScanKind, Target,
};
use pi_sandbox_broker::hard_policy::{
    glob_deny, normalize_development_cache_root, push_path_denies, HostEnvironment,
};
use pi_sandbox_broker::launcher::run_proxy_launcher;
use pi_sandbox_broker::linux::{
    missing_workspace_control_paths, prepare, reject_writable_symlink_crossings,
};
use pi_sandbox_broker::mounts::{concrete_denies, reject_missing_concrete_denies, ConcreteDeny};
use pi_sandbox_broker::profile::glob_deny_matcher;
use pi_sandbox_broker::protocol::{
    Access, ClientRequest, CommandSpec, DeniedAccess, DenyScope, ErrorCode, ExecRequest,
    FilesystemDeny, FilesystemRight, MissingPathBehavior, NetworkPolicy, PathScope, SandboxPolicy,
    ServerEvent,
};
use pi_sandbox_broker::scan::{
    immutable_store_directory_symlink, walk, Scan, ScanBudget, Visitor,
};
use pi_sandbox_broker::seatbelt::{
    deny_matches_right, normalize_deny, normalize_existing, normalize_path, normalize_policy,
    HardPolicy, NormalizedDeny, NormalizedRight,
};
use pi_sandbox_broker::validation::{
    canonical_existing_socket, normalize_unix_socket_roots, validate_exec, ValidatedExec,
    ValidatedNetworkPolicy,
};

enum Node {
    Directory,
    File,
    Socket,
    Link(String),
}

struct FakeHost {
    nodes: BTreeMap<String, Node>,
    deadline: u64,
}

impl FakeHost {
    fn new() -> FakeHost {
        let mut host = FakeHost { nodes: BTreeMap::new(), deadline: 30_000 };
        host.nodes.insert("/".to_owned(), Node::Directory);
        host.directory("/tmp");
        host
    }

    fn directory(&mut self, path: &str) {
        let mut parent = String::new();
        for part in path.split('/').filter(|part| !part.is_empty()) {
            parent = format!("{parent}/{part}");
            self.nodes.entry(parent.clone()).or_insert(Node::Directory);
        }
    }

    fn file(&mut self, path: &str) {
        self.nodes.insert(path.to_owned(), Node::File);
    }

    fn socket(&mut self, path: &str) {
        self.nodes.insert(path.to_owned(), Node::Socket);
    }

    fn link(&mut self, target: &str, path: &str) {
        self.nodes.insert(path.to_owned(), Node::Link(target.to_owned()));
    }

    fn resolve(&self, path: &str) -> Option<String> {
        let mut resolved = "/".to_owned();
        for part in path.split('/').filter(|part| !part.is_empty()) {
            let next = if resolved == "/" {
                format!("/{part}")
            } else {
                format!("{resolved}/{part}")
            };
            resolved = match self.nodes.get(&next)? {
                Node::Link(target) => self.resolve(target)?,
                _ => next,
            };
        }
        Some(resolved)
    }

    fn facts(&self, path: &str) -> PathFacts {
        let missing = "No such file or directory (os error 2)".to_owned();
        let link = match path.rsplit_once('/') {
            Some((parent, name)) => self.resolve(parent).and_then(|parent| {
                let own = format!("{}/{name}", parent.trim_end_matches('/'));
                self.nodes.get(&own).map(|node| matches!(node, Node::Link(_)))
            }),
            None => None,
        };
        match self.resolve(path) {
            Some(resolved) => {
                let inode = self.nodes.keys().position(|key| *key == resolved).unwrap_or(0) as u64;
                let kind = match self.nodes[&resolved] {
                    Node::Directory => FileKind::Directory,
                    Node::File => FileKind::File,
                    Node::Socket => FileKind::Socket,
                    Node::Link(_) => FileKind::Other,
                };
                PathFacts {
                    target: Ok(Target { kind, device: 7, inode }),
                    canonical: Ok(resolved),
                    link,
                }
            }
            None => PathFacts { target: Err(missing.clone()), canonical: Err(missing), link },
        }
    }

    fn listing(&self, path: &str) -> Listing {
        let Some(resolved) = self.resolve(path) else {
            return Err("No such file or directory (os error 2)".to_owned());
        };
        let prefix = if resolved == "/" { "/".to_owned() } else { format!("{resolved}/") };
        let mut entries = Vec::new();
        for (key, node) in &self.nodes {
            let Some(name) = key.strip_prefix(&prefix) else {
                continue;
            };
            if name.is_empty() || name.contains('/') {
                continue;
            }
            entries.push(EntryFacts::Entry {
                name: name.to_owned(),
                kind: Ok(match node {
                    Node::Directory => EntryKind::Directory,
                    Node::File => EntryKind::File,
                    Node::Socket => EntryKind::Other,
                    Node::Link(_) => EntryKind::Symlink,
                }),
            });
        }
        Ok(entries)
    }

    fn answer(&self, facts: &mut Facts, probes: Vec<Probe>) {
        for probe in probes {
            match probe {
                Probe::Path(path) => {
                    let known = self.facts(&path);
                    facts.record_path(path, known);
                }
                Probe::Listing(path) => {
                    let listing = self.listing(&path);
                    facts.record_listing(path, listing);
                }
                Probe::Deadline(kind) => facts.record_deadline(kind, self.deadline),
            }
        }
    }

    fn settle<T>(&self, decide: impl Fn(&Facts) -> Result<T, Halt>) -> Result<T, String> {
        let mut facts = Facts::new();
        for _ in 0..1_000 {
            match decide(&facts) {
                Ok(value) => return Ok(value),
                Err(Halt::Refused(reason)) => return Err(reason),
                Err(Halt::Probe(probes)) => self.answer(&mut facts, probes),
            }
        }
        panic!("the decision is never reached");
    }
}

fn hard(denies: Vec<NormalizedDeny>) -> HardPolicy {
    HardPolicy { denies }
}

fn tree(access: Access, path: &str) -> NormalizedRight {
    NormalizedRight { access, path: path.to_owned(), scope: PathScope::Tree, approved: false }
}

fn requested(access: Access, path: &str, scope: PathScope) -> FilesystemRight {
    FilesystemRight {
        access,
        path: path.to_owned(),
        scope,
        missing_path: MissingPathBehavior::Reject,
    }
}

fn policy(base_rights: Vec<FilesystemRight>, grants: Vec<FilesystemRight>) -> SandboxPolicy {
    SandboxPolicy {
        base_rights,
        grants,
        denies: vec![],
        network: NetworkPolicy::Blocked,
        unix_socket_roots: vec![],
        output_limit_bytes: 1_024,
    }
}

fn path_deny(access: DeniedAccess, path: &str, scope: DenyScope) -> NormalizedDeny {
    NormalizedDeny {
        access,
        pattern: path.to_owned(),
        scope,
        path: Some(path.to_owned()),
        exempt_roots: Vec::new(),
    }
}

fn strings(items: &[&str]) -> Vec<String> {
    items.iter().map(|item| (*item).to_owned()).collect()
}

#[test]
fn hard_policy_scopes_key_reads_to_home_but_blocks_all_key_writes() {
    let mut host = FakeHost::new();
    let home = "/tmp/pi-broker-hard-policy-home";
    host.directory(home);
    host.file("/tmp/broker");
    let hard = host
        .settle(|facts| HardPolicy::base_for_paths(home, "/tmp/broker", None, facts))
        .expect("hard policy");
    assert!(hard.denies.iter().any(|deny| {
        deny.access == DeniedAccess::Read && deny.pattern == format!("{home}/**/*.key")
    }));
    assert!(hard
        .denies
        .iter()
        .any(|deny| deny.access == DeniedAccess::Write && deny.pattern == "/**/*.key"));
    assert!(!hard
        .denies
        .iter()
        .any(|deny| deny.access == DeniedAccess::ReadWrite && deny.pattern == "/**/*.key"));
}

#[test]
fn hard_env_denies_exempt_only_the_validated_development_cache() {
    let mut host = FakeHost::new();
    let home = "/tmp/pi-broker-cache-exemption-home";
    let cache = format!("{home}/.cache/pi-sandbox");
    host.directory(&cache);
    host.file("/tmp/broker");
    let cache = host
        .settle(|facts| normalize_development_cache_root(&cache, home, facts))
        .expect("valid cache root");
    let hard = host
        .settle(|facts| {
            HardPolicy::base_for_paths(home, "/tmp/broker", Some(cache.as_str()), facts)
        })
        .expect("hard policy");
    let env_denies = hard
        .denies
        .iter()
        .filter(|deny| deny.pattern == "/**/*.env" || deny.pattern == "/**/.env.*")
        .collect::<Vec<_>>();
    assert_eq!(env_denies.len(), 2);
    assert!(env_denies.iter().all(|deny| deny.exempt_roots == [cache.clone()]));
    let matcher = glob_deny_matcher(env_denies[0]).expect("cache-aware matcher");
    assert!(matcher.contains("require-all"));
    assert!(matcher.contains(&format!("(require-not (subpath \"{cache}\"))")));
    let cached_env = NormalizedRight {
        access: Access::Write,
        path: format!("{cache}/checkout/.env.toml"),
        scope: PathScope::File,
        approved: false,
    };
    let sibling_env = NormalizedRight {
        access: Access::Write,
        path: format!("{home}/.cache/pi-sandbox-other/.env.toml"),
        scope: PathScope::File,
        approved: false,
    };
    assert!(!deny_matches_right(env_denies[1], &cached_env));
    assert!(deny_matches_right(env_denies[1], &sibling_env));
    assert!(hard
        .denies
        .iter()
        .filter(|deny| deny.pattern.ends_with("*.key") || deny.pattern.ends_with("*.pem"))
        .all(|deny| deny.exempt_roots.is_empty()));
    assert!(host
        .settle(|facts| normalize_development_cache_root(home, home, facts))
        .is_err());
    assert!(host
        .settle(|facts| normalize_development_cache_root("/", home, facts))
        .is_err());
}

#[test]
fn approved_missing_path_replaced_by_symlink_is_rejected() {
    let mut host = FakeHost::new();
    let root = "/tmp/pi-broker-approved-symlink-race";
    let approved_path = format!("{root}/approved-missing");
    host.directory(&format!("{root}/target"));
    assert!(host.resolve(&approved_path).is_none());
    host.link(&format!("{root}/target"), &approved_path);
    let policy = policy(
        vec![],
        vec![FilesystemRight {
            access: Access::Write,
            path: approved_path,
            scope: PathScope::Tree,
            missing_path: MissingPathBehavior::CreateTree,
        }],
    );
    let error = host
        .settle(|facts| normalize_policy(&policy, &hard(vec![]), facts))
        .expect_err("broker must reject a changed approved path");
    assert!(error.contains("approved right changed during broker normalization"));
}

#[test]
fn approved_device_rights_are_rejected() {
    let mut host = FakeHost::new();
    host.directory("/dev");
    host.file("/dev/null");
    let policy = policy(
        vec![requested(Access::Read, "/dev/null", PathScope::File)],
        vec![requested(Access::Write, "/dev/null", PathScope::File)],
    );
    assert!(host
        .settle(|facts| normalize_policy(&policy, &hard(vec![]), facts))
        .expect_err("device grant must fail")
        .contains("device paths"));
}

#[test]
fn dotted_deny_globs_are_rejected() {
    let deny = FilesystemDeny {
        access: DeniedAccess::ReadWrite,
        pattern: "/work/dir/../*.secret".to_owned(),
        scope: DenyScope::Glob,
    };
    assert!(FakeHost::new().settle(|facts| normalize_deny(&deny, facts)).is_err());
}

#[test]
fn hard_deny_keeps_the_target_of_a_symlink_alias() {
    let mut host = FakeHost::new();
    let root = "/tmp/pi-broker-hard-alias";
    let alias = format!("{root}/home/.ssh");
    let target = format!("{root}/secret-target");
    host.directory(&format!("{root}/home"));
    host.directory(&target);
    host.link(&target, &alias);
    let denies = host
        .settle(|facts| {
            let mut denies = Vec::new();
            push_path_denies(
                &mut denies,
                DeniedAccess::ReadWrite,
                &alias,
                DenyScope::Tree,
                facts,
            )?;
            Ok(denies)
        })
        .expect("denies");
    let policy = policy(vec![], vec![requested(Access::Write, &target, PathScope::Tree)]);
    let hard = hard(denies);
    assert!(host.settle(|facts| normalize_policy(&policy, &hard, facts)).is_err());
}

#[test]
fn unix_socket_roots_are_absolute_narrow_and_deduplicated() {
    let host = FakeHost::new();
    let socket = "/tmp/pi-sandbox-validation.sock";
    let paths = strings(&[socket, socket]);
    assert_eq!(
        host.settle(|facts| normalize_unix_socket_roots(&paths, facts))
            .expect("valid socket roots"),
        vec![socket.to_owned()]
    );
    let relative = strings(&["relative.sock"]);
    assert!(host.settle(|facts| normalize_unix_socket_roots(&relative, facts)).is_err());
}

#[test]
fn refusals_name_paths_as_they_are_written() {
    let mut host = FakeHost::new();
    assert_eq!(
        host.settle(|facts| {
            normalize_unix_socket_roots(&strings(&["/gone//deep//agent.sock"]), facts)
        }),
        Err("cannot canonicalize Unix socket parent /gone//deep: \
             No such file or directory (os error 2)"
            .to_owned())
    );
    host.directory("/work/deep");
    let facts_of = |path: &str| {
        let mut known = host.facts(path);
        if path == "/work//deep" {
            known.canonical = Err("permission denied".to_owned());
        }
        known
    };
    let mut facts = Facts::new();
    for path in ["/work//deep//gone//file", "/work//deep//gone", "/work//deep"] {
        facts.record_path(path.to_owned(), facts_of(path));
    }
    assert_eq!(
        normalize_path("/work//deep//gone//file", MissingPathBehavior::CreateFile, &facts),
        Err(Halt::Refused("cannot canonicalize /work//deep: permission denied".to_owned()))
    );
}

#[test]
fn resolved_paths_resolve_to_themselves() {
    let mut host = FakeHost::new();
    host.directory("/data/store");
    host.link("/data/store", "/alias");
    let resolve = |path: &str, missing| host.settle(|facts| normalize_path(path, missing, facts));
    for (path, missing, resolved) in [
        ("/alias", MissingPathBehavior::Reject, "/data/store"),
        ("/alias//new//deep/", MissingPathBehavior::CreateTree, "/data/store/new/deep"),
        ("/fresh", MissingPathBehavior::CreateFile, "/fresh"),
    ] {
        assert_eq!(resolve(path, missing), Ok(resolved.to_owned()));
        assert_eq!(resolve(resolved, missing), Ok(resolved.to_owned()));
    }
}

#[test]
fn network_proxy_requires_an_existing_unix_socket() {
    let mut host = FakeHost::new();
    let regular = "/tmp/pi-sandbox-validation-regular-1";
    host.file(regular);
    assert!(host.settle(|facts| canonical_existing_socket(regular, facts)).is_err());
    let socket = "/tmp/pi-sandbox-validation-socket-1";
    host.socket(socket);
    assert_eq!(
        host.settle(|facts| canonical_existing_socket(socket, facts)).expect("valid socket"),
        socket
    );
}

#[test]
fn root_globs_scan_only_the_active_workspace() {
    let cwd = "/work";
    let root = glob_scan_roots("/**/*.env", cwd).expect("roots");
    assert_eq!(root, cwd);
    assert_ne!(root, "/");
}

fn search(host: &FakeHost, root: &str, max_directories: usize) -> Result<Scan, String> {
    let visitor = Visitor::Globs { regexes: strings(&[".*"]), patterns: strings(&["/**"]) };
    let mut facts = Facts::new();
    for _ in 0..100 {
        let mut scan = Scan {
            budget: ScanBudget::with_directory_limit(1_000, max_directories),
            visited: std::collections::HashSet::new(),
            found: vec![Vec::new()],
            link: None,
            wanted: Vec::new(),
        };
        walk(root, 0, 0, &visitor, &facts, &mut scan)?;
        if scan.wanted.is_empty() {
            return Ok(scan);
        }
        host.answer(&mut facts, scan.wanted);
    }
    panic!("the scan never ends");
}

#[test]
fn flat_files_do_not_exhaust_the_directory_scan_budget() {
    let mut host = FakeHost::new();
    let root = "/tmp/pi-linux-flat-scan-test-1";
    host.directory(root);
    for index in 0..16 {
        host.file(&format!("{root}/file-{index}"));
    }
    let scan = search(&host, root, 1).expect("flat files must not consume the directory budget");
    assert_eq!(scan.found[0].len(), 16);
    assert_eq!(scan.budget.inspected_entries, 16);
    assert_eq!(scan.budget.visited_directories, 1);

    host.directory(&format!("{root}/nested"));
    let error = match search(&host, root, 1) {
        Ok(_) => panic!("nested directory must consume the directory budget"),
        Err(error) => error,
    };
    assert!(error.contains("exceeds 1 directories"));
}

#[test]
fn expired_scan_budget_fails_closed() {
    let budget = ScanBudget {
        deadline: 1_000,
        inspected_entries: 0,
        visited_directories: 0,
        max_directories: 1,
    };
    assert!(budget.check_deadline(2_000).is_err());
    assert!(budget.check_deadline(1_000).is_ok());
}

#[test]
fn deny_globs_sharing_a_root_preserve_matches_for_each_pattern() {
    let mut host = FakeHost::new();
    let root = "/tmp/pi-linux-combined-glob-test-1";
    host.directory(&format!("{root}/nested"));
    let environment = format!("{root}/nested/.env");
    let key = format!("{root}/nested/identity.key");
    host.file(&environment);
    host.file(&key);
    let patterns = vec![format!("{root}/**/.env"), format!("{root}/**/*.key")];
    let matches = host
        .settle(|facts| expand_globs(&patterns, root, facts, 0))
        .expect("combined glob expansion");
    assert_eq!(matches.len(), 2);
    assert!(matches[0].contains(&environment));
    assert!(!matches[0].contains(&key));
    assert!(matches[1].contains(&key));
    assert!(!matches[1].contains(&environment));
}

#[test]
fn alias_specific_globs_scan_each_distinct_root() {
    let mut host = FakeHost::new();
    let root = "/tmp/pi-linux-glob-alias-test-1";
    let target = format!("{root}/target");
    let secret = format!("{target}/secret.env");
    let first_alias = format!("{root}/first-alias");
    let second_alias = format!("{root}/second-alias");
    host.directory(&target);
    host.file(&secret);
    host.link(&target, &first_alias);
    host.link(&target, &second_alias);
    let patterns = vec![format!("{first_alias}/**/*.env"), format!("{second_alias}/**/*.env")];
    let matches = host
        .settle(|facts| expand_globs(&patterns, root, facts, 0))
        .expect("alias glob expansion");
    assert!(matches[0].contains(&format!("{first_alias}/secret.env")));
    assert!(matches[0].contains(&secret));
    assert!(matches[1].contains(&format!("{second_alias}/secret.env")));
    assert!(matches[1].contains(&secret));
}

#[test]
fn protected_control_paths_are_found_after_ordinary_files() {
    let mut host = FakeHost::new();
    let root = "/tmp/pi-linux-protected-scan-test-1";
    let git = format!("{root}/nested-repository/.git");
    host.directory(&git);
    for index in 0..16 {
        host.file(&format!("{root}/ordinary-{index}"));
    }
    let protected = host
        .settle(|facts| protected_workspace_paths(root, &Vec::new(), facts, 0))
        .expect("protected path scan");
    assert_eq!(protected, vec![git]);
}

#[test]
fn env_glob_exemptions_skip_only_managed_cache_descendants() {
    let mut host = FakeHost::new();
    let root = "/tmp/pi-linux-cache-exemption-test-1";
    let cache = format!("{root}/pi-sandbox");
    let sibling = format!("{root}/pi-sandbox-other");
    host.directory(&cache);
    host.directory(&sibling);
    host.file(&format!("{cache}/.env.toml"));
    host.file(&format!("{sibling}/.env.toml"));
    let denies = vec![NormalizedDeny {
        access: DeniedAccess::ReadWrite,
        pattern: format!("{root}/**/.env.*"),
        scope: DenyScope::Glob,
        path: None,
        exempt_roots: vec![cache],
    }];
    let concrete = host
        .settle(|facts| concrete_denies(&denies, root, facts, 0))
        .expect("concrete denies");
    assert_eq!(concrete.len(), 1);
    assert_eq!(concrete[0].path, format!("{sibling}/.env.toml"));
}

#[test]
fn duplicate_concrete_denies_merge_to_one_strongest_mount() {
    let mut host = FakeHost::new();
    let path = "/tmp/pi-linux-duplicate-deny-test-1";
    host.file(path);
    let denies = vec![
        path_deny(DeniedAccess::Read, path, DenyScope::File),
        path_deny(DeniedAccess::ReadWrite, path, DenyScope::File),
    ];
    let concrete = host
        .settle(|facts| concrete_denies(&denies, "/", facts, 0))
        .expect("concrete denies");
    assert_eq!(concrete.len(), 1);
    assert_eq!(concrete[0].path, path);
    assert_eq!(concrete[0].access, DeniedAccess::ReadWrite);
}

#[test]
fn concrete_deny_mounts_the_target_of_a_symlink() {
    let mut host = FakeHost::new();
    let root = "/tmp/pi-linux-deny-symlink-test-1";
    host.directory(root);
    let target = format!("{root}/target");
    let link = format!("{root}/link");
    host.file(&target);
    host.link(&target, &link);
    let denies = vec![path_deny(DeniedAccess::Read, &link, DenyScope::File)];
    let concrete = host
        .settle(|facts| concrete_denies(&denies, root, facts, 0))
        .expect("concrete denies");
    assert_eq!(concrete.len(), 1);
    assert_eq!(concrete[0].path, target);
}

#[test]
fn nix_store_directory_symlinks_are_immutable_scan_boundaries() {
    let mut host = FakeHost::new();
    let root = "/tmp/pi-linux-store-symlink-test-1";
    host.directory(root);
    host.directory("/nix/store");
    let store_link = format!("{root}/result");
    host.link("/nix/store", &store_link);
    let ordinary_link = format!("{root}/ordinary-link");
    host.directory(&format!("{root}/ordinary-target"));
    host.link(&format!("{root}/ordinary-target"), &ordinary_link);
    let mut facts = Facts::new();
    facts.record_path(store_link.clone(), host.facts(&store_link));
    facts.record_path(ordinary_link.clone(), host.facts(&ordinary_link));
    assert!(immutable_store_directory_symlink(&store_link, EntryKind::Symlink, &facts));
    assert!(!immutable_store_directory_symlink(&ordinary_link, EntryKind::Symlink, &facts));
}

#[test]
fn glob_scan_follows_directory_symlinks_and_records_the_target() {
    let mut host = FakeHost::new();
    let root = "/tmp/pi-linux-glob-symlink-test-1";
    let workspace = format!("{root}/workspace");
    let target = format!("{root}/target");
    host.directory(&workspace);
    host.directory(&target);
    let secret = format!("{target}/secret.env");
    host.file(&secret);
    host.link(&target, &format!("{workspace}/linked"));
    let patterns = vec![format!("{workspace}/**/*.env")];
    let matches = host
        .settle(|facts| expand_globs(&patterns, &workspace, facts, 0))
        .expect("expand glob");
    assert!(matches[0].contains(&secret));
}

#[test]
fn writable_symlink_crossing_is_rejected() {
    let mut host = FakeHost::new();
    let root = "/tmp/pi-linux-symlink-test-1";
    let writable_root = format!("{root}/writable");
    let target = format!("{root}/target");
    host.directory(&writable_root);
    host.directory(&target);
    let link = format!("{writable_root}/secret");
    host.link(&target, &link);
    let denies = vec![ConcreteDeny { access: DeniedAccess::ReadWrite, path: link }];
    let writable = vec![NormalizedRight {
        access: Access::Write,
        path: writable_root,
        scope: PathScope::Tree,
        approved: true,
    }];
    assert!(host
        .settle(|facts| reject_writable_symlink_crossings(&denies, &writable, facts))
        .is_err());
}

#[test]
fn missing_concrete_deny_rejects_a_broad_write() {
    let host = FakeHost::new();
    let writable = vec![NormalizedRight {
        access: Access::Write,
        path: "/work".to_owned(),
        scope: PathScope::Tree,
        approved: true,
    }];
    let denies =
        vec![path_deny(DeniedAccess::ReadWrite, "/work/missing-secret", DenyScope::Tree)];
    assert!(host
        .settle(|facts| reject_missing_concrete_denies(&denies, &writable, facts))
        .is_err());
}

#[test]
fn deny_mounts_follow_write_mounts() {
    let host = FakeHost::new();
    let path = "/tmp";
    let args = host
        .settle(|facts| {
            let mut args = base_args(true);
            push_mount(&mut args, "--bind", path, path);
            append_deny(
                &mut args,
                &ConcreteDeny { access: DeniedAccess::Write, path: path.to_owned() },
                None,
                facts,
            )?;
            Ok(args)
        })
        .expect("deny");
    let write = args.iter().position(|arg| arg == "--bind").expect("write");
    let deny = args.iter().rposition(|arg| arg == "--ro-bind").expect("deny");
    assert!(deny > write);
}

fn workspace_host() -> FakeHost {
    let mut host = FakeHost::new();
    host.directory("/bin");
    host.file("/bin/bash");
    host.directory("/work/src");
    host.directory("/home/user/.ssh");
    host.link("/bin", "/usr-bin");
    host
}

fn request() -> ExecRequest {
    let mut env = Environment::new();
    env.insert("PATH".to_owned(), "/usr/bin:/bin".to_owned());
    ExecRequest {
        id: "command-1".to_owned(),
        command: CommandSpec {
            program: "/usr-bin/bash".to_owned(),
            args: strings(&["-c", "printf hello"]),
        },
        cwd: "/work".to_owned(),
        env,
        timeout_ms: Some(5_000),
        interactive: false,
        policy: policy(
            vec![
                requested(Access::Read, "/", PathScope::Tree),
                requested(Access::Write, "/work", PathScope::Tree),
            ],
            vec![],
        ),
    }
}

fn validate(host: &FakeHost, request: &ExecRequest) -> Result<ValidatedExec, String> {
    host.settle(|facts| validate_exec(request, &hard(vec![]), facts))
}

fn refusal(change: impl Fn(&mut ExecRequest)) -> String {
    let mut request = request();
    change(&mut request);
    match validate(&workspace_host(), &request) {
        Ok(_) => panic!("the request is accepted"),
        Err(reason) => reason,
    }
}

#[test]
fn accepted_requests_are_resolved() {
    let mut request = request();
    request.policy.denies.push(FilesystemDeny {
        access: DeniedAccess::ReadWrite,
        pattern: "/home/user/.ssh".to_owned(),
        scope: DenyScope::Tree,
    });
    let hard_deny = glob_deny(DeniedAccess::Read, "/**/*.key");
    let host = workspace_host();
    let hard = hard(vec![hard_deny]);
    let accepted =
        host.settle(|facts| validate_exec(&request, &hard, facts)).expect("accepted request");
    assert_eq!(accepted.id, "command-1");
    assert_eq!(accepted.program, "/bin/bash");
    assert_eq!(accepted.args, strings(&["-c", "printf hello"]));
    assert_eq!(accepted.cwd, "/work");
    assert_eq!(accepted.timeout_ms, Some(5_000));
    assert_eq!(accepted.rights.len(), 2);
    assert!(accepted.rights.iter().all(|right| !right.approved));
    assert_eq!(accepted.denies[0].pattern, "/**/*.key");
    assert_eq!(accepted.denies[1].path.as_deref(), Some("/home/user/.ssh"));
    assert!(matches!(accepted.network, ValidatedNetworkPolicy::Blocked));
    assert_eq!(
        launch_command(&accepted),
        strings(&[
            "/bin/sh",
            "-c",
            "IFS= read -r _ || exit 125; exec \"$@\"",
            "pi-sandbox-launch",
            "/bin/bash",
            "-c",
            "printf hello"
        ])
    );
}

#[test]
fn malformed_requests_are_refused() {
    assert_eq!(refusal(|request| request.id = "  ".to_owned()), "command ID is empty");
    assert_eq!(refusal(|request| request.id = "x".repeat(257)), "command ID is too large");
    assert_eq!(refusal(|request| request.id = "a\0".to_owned()), "command ID contains NUL");
    assert_eq!(
        refusal(|request| request.command.args = vec![String::new(); 4_097]),
        "command has too many arguments"
    );
    assert_eq!(
        refusal(|request| request.command.program = "bash".to_owned()),
        "program must be absolute"
    );
    assert_eq!(
        refusal(|request| request.command.program = "/work".to_owned()),
        "program is not a file: /work"
    );
    assert_eq!(
        refusal(|request| request.cwd = "/bin/bash".to_owned()),
        "cwd is not a directory: /bin/bash"
    );
    assert!(refusal(|request| request.cwd = "/gone".to_owned())
        .starts_with("cannot canonicalize cwd /gone: "));
    assert_eq!(
        refusal(|request| request.command.args[0] = "\0".to_owned()),
        "argument contains NUL"
    );
    assert_eq!(
        refusal(|request| request.env.insert("1X".to_owned(), String::new())),
        "invalid environment name: 1X"
    );
    assert_eq!(
        refusal(|request| request.env.insert("X".to_owned(), "\0".to_owned())),
        "environment value contains NUL"
    );
    assert_eq!(
        refusal(|request| request.command.args = vec!["x".repeat(300_000); 2]),
        "command arguments and environment are too large"
    );
    assert_eq!(
        refusal(|request| request.policy.output_limit_bytes = 0),
        "output limit must be between 1 and 10485760 bytes"
    );
    assert_eq!(refusal(|request| request.timeout_ms = Some(0)), "timeout must be positive");
    assert_eq!(
        refusal(|request| request.timeout_ms = Some(86_400_001)),
        "timeout exceeds 24 hours"
    );
    assert_eq!(
        refusal(|request| request.policy.unix_socket_roots = vec!["/s".to_owned(); 17]),
        "Unix socket policy has too many entries"
    );
    assert_eq!(
        refusal(|request| {
            request.policy.network = NetworkPolicy::Proxy {
                tcp_port: 0,
                unix_socket: "/tmp/proxy.sock".to_owned(),
                allow_local_binding: false,
            }
        }),
        "network proxy port must be positive"
    );
    assert_eq!(
        refusal(|request| {
            request.policy.network = NetworkPolicy::Proxy {
                tcp_port: 1,
                unix_socket: "/tmp/proxy.sock".to_owned(),
                allow_local_binding: false,
            }
        }),
        "network proxy socket is unavailable: /tmp/proxy.sock"
    );
}

#[test]
fn rights_must_fit_what_they_name() {
    let host = workspace_host();
    let resolve = |right: &FilesystemRight| {
        let policy = policy(vec![], vec![right.clone()]);
        host.settle(|facts| normalize_policy(&policy, &hard(vec![]), facts))
            .map(|(rights, _)| rights[0].path.clone())
    };
    let mut right = requested(Access::Read, "/work", PathScope::Tree);
    right.missing_path = MissingPathBehavior::CreateTree;
    assert_eq!(resolve(&right), Err("read rights cannot create a missing path".to_owned()));
    let mut right = requested(Access::Write, "/work/new", PathScope::File);
    right.missing_path = MissingPathBehavior::CreateTree;
    assert_eq!(
        resolve(&right),
        Err("missing path behavior does not match right scope".to_owned())
    );
    right.missing_path = MissingPathBehavior::CreateFile;
    assert_eq!(resolve(&right), Ok("/work/new".to_owned()));
    assert_eq!(
        resolve(&requested(Access::Write, "/work/new", PathScope::File)),
        Err("path does not exist: /work/new".to_owned())
    );
    assert_eq!(
        resolve(&requested(Access::Write, "/work", PathScope::File)),
        Err("file right is a directory: /work".to_owned())
    );
    assert_eq!(
        resolve(&requested(Access::Read, "/bin/bash", PathScope::Tree)),
        Err("tree right is not a directory: /bin/bash".to_owned())
    );
    assert_eq!(
        resolve(&requested(Access::Read, "work", PathScope::Tree)),
        Err("path must be absolute: work".to_owned())
    );
    assert_eq!(
        resolve(&requested(Access::Read, "/work/../bin", PathScope::Tree)),
        Err("path must not contain . or ..: /work/../bin".to_owned())
    );
    assert_eq!(
        host.settle(|facts| normalize_path(
            "/usr-bin/new/deep",
            MissingPathBehavior::CreateTree,
            facts
        )),
        Ok("/bin/new/deep".to_owned())
    );
    assert_eq!(
        host.settle(|facts| normalize_existing("/usr-bin/bash", facts)),
        Ok("/bin/bash".to_owned())
    );
}

#[test]
fn denies_win_over_grants() {
    let host = workspace_host();
    let grants = policy(vec![], vec![requested(Access::Write, "/work/src", PathScope::Tree)]);
    let denied = hard(vec![path_deny(DeniedAccess::Write, "/work", DenyScope::Tree)]);
    assert_eq!(
        host.settle(|facts| normalize_policy(&grants, &denied, facts)).map(|_| ()),
        Err("approved right conflicts with a deny: /work/src".to_owned())
    );
    let read_only = hard(vec![path_deny(DeniedAccess::Read, "/work", DenyScope::Tree)]);
    assert!(host.settle(|facts| normalize_policy(&grants, &read_only, facts)).is_ok());
    let many = policy(
        vec![],
        (0..129).map(|_| requested(Access::Read, "/work", PathScope::Tree)).collect(),
    );
    assert_eq!(
        host.settle(|facts| normalize_policy(&many, &hard(vec![]), facts)).map(|_| ()),
        Err("filesystem policy has too many entries".to_owned())
    );
}

#[test]
fn later_facts_change_no_decision() {
    let host = workspace_host();
    let mut request = request();
    request.cwd = "/bin/bash".to_owned();
    let mut facts = Facts::new();
    let mut reason = None;
    while reason.is_none() {
        match validate_exec(&request, &hard(vec![]), &facts) {
            Ok(_) => panic!("the request is accepted"),
            Err(Halt::Refused(text)) => reason = Some(text),
            Err(Halt::Probe(probes)) => host.answer(&mut facts, probes),
        }
    }
    facts.record_path("/work".to_owned(), host.facts("/work"));
    assert_eq!(
        validate_exec(&request, &hard(vec![]), &facts).map(|_| ()),
        Err(Halt::Refused("cwd is not a directory: /bin/bash".to_owned()))
    );
}

fn accepted(host: &FakeHost, change: impl Fn(&mut ExecRequest)) -> ValidatedExec {
    let mut request = request();
    change(&mut request);
    validate(host, &request).expect("accepted request")
}

fn launch(host: &FakeHost, request: &ValidatedExec) -> Result<Vec<String>, String> {
    let command = launch_command(request);
    let plan = host.settle(|facts| prepare(request, &command, facts, 0))?;
    let descriptors = Descriptors {
        hidden_file: if plan.needs_hidden_file { Some(4) } else { None },
        seccomp: if plan.network.enabled { None } else { Some(5) },
        launcher: 6,
    };
    host.settle(|facts| launch_args(&plan, &descriptors, facts))
}

#[test]
fn a_launch_protects_what_it_must() {
    let mut host = workspace_host();
    host.directory("/work/lib/.git");
    host.file("/work/.env");
    let request = accepted(&host, |request| {
        request.policy.denies.push(FilesystemDeny {
            access: DeniedAccess::ReadWrite,
            pattern: "/**/.env".to_owned(),
            scope: DenyScope::Glob,
        });
        request.policy.denies.push(FilesystemDeny {
            access: DeniedAccess::Write,
            pattern: "/work/src".to_owned(),
            scope: DenyScope::Tree,
        });
    });
    let args = launch(&host, &request).expect("launch");
    let base = base_args(true);
    assert_eq!(args[..base.len()], base[..]);
    let expected = strings(&[
        "--bind",
        "/work",
        "/work",
        "--ro-bind",
        "/work/lib/.git",
        "/work/lib/.git",
        "--perms",
        "555",
        "--tmpfs",
        "/work/.git",
        "--remount-ro",
        "/work/.git",
        "--perms",
        "555",
        "--tmpfs",
        "/work/.pi",
        "--remount-ro",
        "/work/.pi",
        "--perms",
        "000",
        "--ro-bind-data",
        "4",
        "/work/.env",
        "--ro-bind",
        "/work/src",
        "/work/src",
        "--ro-bind-data",
        "6",
        "/tmp/.pi-sandbox-launcher",
        "--seccomp",
        "5",
        "--chdir",
        "/work",
        "--",
        "/tmp/.pi-sandbox-launcher",
        "__linux_sandbox_launch",
        "--",
        "/bin/sh",
    ]);
    assert_eq!(args[base.len()..base.len() + expected.len()], expected[..]);
}

#[test]
fn every_deny_of_an_existing_path_is_part_of_a_launch() {
    let mut host = workspace_host();
    host.directory("/work/keys");
    host.directory("/work/vault");
    host.link("/work/vault", "/work-link");
    host.file("/work/keys/site.env");
    let request = accepted(&host, |request| {
        for (access, pattern, scope) in [
            (DeniedAccess::Write, "/work/keys", DenyScope::Tree),
            (DeniedAccess::Read, "/work/keys", DenyScope::Tree),
            (DeniedAccess::ReadWrite, "/work-link", DenyScope::Tree),
            (DeniedAccess::Write, "/**/*.env", DenyScope::Glob),
        ] {
            request.policy.denies.push(FilesystemDeny {
                access,
                pattern: pattern.to_owned(),
                scope,
            });
        }
    });
    let plan = host
        .settle(|facts| prepare(&request, &launch_command(&request), facts, 0))
        .expect("launch");
    let denied: Vec<(&str, DeniedAccess)> =
        plan.denies.iter().map(|deny| (deny.path.as_str(), deny.access)).collect();
    assert_eq!(
        denied,
        [
            ("/work/keys", DeniedAccess::ReadWrite),
            ("/work/vault", DeniedAccess::ReadWrite),
            ("/work/keys/site.env", DeniedAccess::Write),
        ]
    );
}

#[test]
fn later_facts_change_no_launch() {
    let mut host = workspace_host();
    let request = accepted(&host, |_| {});
    let command = launch_command(&request);
    let mut facts = Facts::new();
    let plan = loop {
        match prepare(&request, &command, &facts, 0) {
            Ok(plan) => break plan,
            Err(Halt::Refused(reason)) => panic!("{reason}"),
            Err(Halt::Probe(probes)) => host.answer(&mut facts, probes),
        }
    };
    host.file("/work/late.env");
    facts.record_path("/work/late.env".to_owned(), host.facts("/work/late.env"));
    let again = prepare(&request, &command, &facts, 0).expect("launch");
    assert_eq!(plan.protected, again.protected);
    assert_eq!(plan.synthetic_directories.len(), again.synthetic_directories.len());
    assert_eq!(plan.denies.len(), again.denies.len());
    assert_eq!(plan.command, again.command);
}

#[test]
fn a_launch_with_a_proxy_keeps_its_socket_out_of_reach() {
    let mut host = workspace_host();
    host.directory("/tmp/pi-proxy");
    host.socket("/tmp/pi-proxy/proxy.sock");
    let request = accepted(&host, |request| {
        request.policy.network = NetworkPolicy::Proxy {
            tcp_port: 43_127,
            unix_socket: "/tmp/pi-proxy/proxy.sock".to_owned(),
            allow_local_binding: false,
        };
    });
    let args = launch(&host, &request).expect("launch");
    assert!(!args.iter().any(|arg| arg == "--cap-drop" || arg == "--seccomp"));
    let proxy = strings(&["--ro-bind", "/tmp/pi-proxy", "/tmp/pi-proxy"]);
    assert!(args.windows(3).any(|window| window == proxy));
    let launcher = strings(&[
        "__linux_proxy_launch",
        "/tmp/pi-proxy/proxy.sock",
        "deny-local-binding",
        "--",
        "/bin/sh",
    ]);
    assert!(args.windows(5).any(|window| window == launcher));
}

#[test]
fn only_commands_without_network_have_a_seccomp_program() {
    let host = workspace_host();
    for (network, seccomp, refusal) in [
        (NetworkPolicy::Blocked, None, "seccomp program is unavailable"),
        (
            NetworkPolicy::Loopback,
            Some(5),
            "seccomp program is not for a command with a network",
        ),
    ] {
        let mut request = request();
        request.policy.network = network;
        let request = validate(&host, &request).expect("accepted request");
        let plan = host
            .settle(|facts| prepare(&request, &launch_command(&request), facts, 0))
            .expect("plan");
        let descriptors = Descriptors { hidden_file: Some(4), seccomp, launcher: 6 };
        assert_eq!(
            host.settle(|facts| launch_args(&plan, &descriptors, facts)),
            Err(refusal.to_owned())
        );
        let has_filter = |args: Vec<String>| args.iter().any(|argument| argument == "--seccomp");
        assert_eq!(has_filter(launch(&host, &request).expect("launch")), seccomp.is_none());
    }
}

#[test]
fn launches_that_cannot_be_carried_out_are_refused() {
    let host = workspace_host();
    let unreadable = accepted(&host, |request| {
        request.policy.base_rights.remove(0);
    });
    assert_eq!(
        launch(&host, &unreadable),
        Err("Linux protocol v4 requires an explicit read right for /".to_owned())
    );
    let sockets = accepted(&host, |request| {
        request.policy.unix_socket_roots.push("/tmp/agent.sock".to_owned());
    });
    assert_eq!(
        launch(&host, &sockets),
        Err("Unix socket roots are only supported by the macOS Seatbelt backend".to_owned())
    );
    let missing = accepted(&host, |request| {
        request.policy.denies.push(FilesystemDeny {
            access: DeniedAccess::Read,
            pattern: "/work/gone".to_owned(),
            scope: DenyScope::File,
        });
    });
    assert_eq!(
        launch(&host, &missing),
        Err("cannot enforce missing deny below writable root: /work/gone".to_owned())
    );
    let request = accepted(&host, |_| {});
    assert_eq!(
        host.settle(|facts| prepare(&request, &vec![], facts, 0)).map(|_| ()),
        Err("command is empty".to_owned())
    );
    assert_eq!(
        host.settle(|facts| prepare(&request, &strings(&["/bin/sh"]), facts, 30_001)).map(|_| ()),
        Err("filesystem policy scan exceeds 30 seconds".to_owned())
    );
}

#[test]
fn control_links_are_refused() {
    let mut host = workspace_host();
    host.directory("/elsewhere");
    host.link("/elsewhere", "/work/.git");
    let error = host
        .settle(|facts| protected_workspace_paths("/work", &Vec::new(), facts, 0))
        .expect_err("a linked control directory");
    assert!(error.contains("/work/.git"));
}

#[test]
fn grants_open_git_and_never_pi() {
    let mut host = workspace_host();
    host.directory("/work/.git");
    host.directory("/work/.pi");
    let request = accepted(&host, |request| {
        request.policy.grants.push(requested(Access::Write, "/work/.git", PathScope::Tree));
        request.policy.grants.push(requested(Access::Write, "/work/.pi", PathScope::Tree));
    });
    let plan = host
        .settle(|facts| prepare(&request, &strings(&["/bin/sh"]), facts, 0))
        .expect("launch");
    assert_eq!(plan.protected, strings(&["/work/.pi"]));
    host.directory("/x/.git/work/.pi");
    host.directory("/x/.git/work/sub/.git");
    let around = accepted(&host, |request| {
        request.cwd = "/x/.git/work".to_owned();
        request.policy.grants.push(requested(Access::Write, "/x/.git", PathScope::Tree));
    });
    let plan = host
        .settle(|facts| prepare(&around, &strings(&["/bin/sh"]), facts, 0))
        .expect("launch");
    assert_eq!(plan.protected, strings(&["/x/.git/work/.pi"]));
    let masked = host
        .settle(|facts| missing_workspace_control_paths("/elsewhere", &Vec::new(), facts))
        .expect("masked paths");
    assert_eq!(masked.len(), 2);
    assert_eq!(masked[0].path(), "/elsewhere/.git");
    assert!(masked[0].is_removable(&Ok(vec![])));
    assert!(!masked[0].is_removable(&Err("busy".to_owned())));
}

#[test]
fn missing_targets_are_made_where_they_belong() {
    let host = workspace_host();
    let new = tree(Access::Write, "/work/new/deep");
    let target = host
        .settle(|facts| missing_write_target(&new, facts))
        .expect("target")
        .expect("missing target");
    assert_eq!((target.path.as_str(), target.parent.as_str()), ("/work/new/deep", "/work/new"));
    assert!(host
        .settle(|facts| missing_write_target(&tree(Access::Write, "/work"), facts))
        .expect("target")
        .is_none());
    assert_eq!(
        host.settle(|facts| ensure_existing_type(&tree(Access::Write, "/bin/bash"), facts)),
        Err("tree write root is not a directory: /bin/bash".to_owned())
    );
}

#[test]
fn the_proxy_launcher_checks_its_arguments() {
    let mut host = FakeHost::new();
    host.socket("/tmp/proxy.sock");
    host.file("/tmp/file");
    let launch = |arguments: &[&str]| {
        let arguments = strings(arguments);
        host.settle(|facts| run_proxy_launcher(&arguments, facts))
    };
    let plan = launch(&["/tmp/proxy.sock", "deny-local-binding", "--", "/bin/sh"]).expect("plan");
    assert_eq!(plan.socket.as_deref(), Some("/tmp/proxy.sock"));
    assert!(!plan.allow_local_binding);
    assert_eq!(plan.command, strings(&["/bin/sh"]));
    let reason = |arguments: &[&str]| launch(arguments).map(|_| ()).expect_err("refusal");
    assert_eq!(reason(&["-"]), "network launcher command separator is missing");
    assert_eq!(reason(&["-", "--", "/bin/sh"]), "network launcher arguments are invalid");
    assert_eq!(
        reason(&["/tmp/file", "deny-local-binding", "--", "/bin/sh"]),
        "network launcher proxy socket is invalid"
    );
    assert_eq!(
        reason(&["-", "maybe", "--", "/bin/sh"]),
        "network launcher local binding mode is invalid"
    );
    assert_eq!(
        reason(&["-", "deny-local-binding", "--", "/bin/sh"]),
        "network launcher needs a proxy or local binding"
    );
}

#[test]
fn hard_policies_need_a_home_and_a_broker() {
    let mut host = FakeHost::new();
    host.directory("/home/user");
    host.file("/opt-broker");
    let settings = |home: Option<&str>, helpers| HostEnvironment {
        home: home.map(str::to_owned),
        executable: Ok("/opt-broker".to_owned()),
        development_cache: None,
        helpers,
    };
    let policy = |settings: HostEnvironment| {
        host.settle(|facts| HardPolicy::from_host(&settings, facts))
    };
    assert_eq!(
        policy(settings(None, Ok(vec![]))).map(|_| ()),
        Err("broker HOME is missing".to_owned())
    );
    let hard = policy(settings(Some("/home/user"), Ok(strings(&["/opt-broker"])))).expect("policy");
    assert!(hard.denies.iter().any(|deny| deny.path.as_deref() == Some("/home/user/.ssh")));
    assert!(hard.denies.iter().any(|deny| deny.path.as_deref() == Some("/opt-broker")));
    assert!(policy(settings(Some("/home/user"), Err("no helper".to_owned()))).is_err());
}

fn answered(runtime: &mut Runtime, request: &ClientRequest, can_exec: bool) -> Answer {
    let host = workspace_host();
    let mut facts = Facts::new();
    loop {
        match handle_request(request, runtime, can_exec, "bubblewrap", &hard(vec![]), &facts) {
            Answer::Probe(probes) => host.answer(&mut facts, probes),
            answer => return answer,
        }
    }
}

fn reply(answer: Answer) -> (ErrorCode, String) {
    match answer {
        Answer::Reply(ServerEvent::Error { code, message, .. }) => (code, message),
        _ => panic!("the answer is no error"),
    }
}

#[test]
fn requests_are_answered() {
    let mut runtime = Runtime::new();
    let exec = ClientRequest::Exec(request());
    assert_eq!(
        reply(answered(&mut runtime, &exec, false)),
        (
            ErrorCode::BackendUnavailable,
            "the bubblewrap backend is unavailable; command blocked".to_owned()
        )
    );
    let Answer::Run { request: accepted, token } = answered(&mut runtime, &exec, true) else {
        panic!("the command does not run");
    };
    assert_eq!((accepted.id.as_str(), token), ("command-1", 0));
    assert_eq!(
        reply(answered(&mut runtime, &exec, true)).0,
        ErrorCode::DuplicateCommandId
    );
    let write = ClientRequest::WriteStdin {
        id: "command-1".to_owned(),
        data_base64: "aGVsbG8K".to_owned(),
    };
    assert_eq!(reply(answered(&mut runtime, &write, true)).0, ErrorCode::InvalidRequest);
    runtime.open_stdin(token);
    assert!(matches!(
        answered(&mut runtime, &write, true),
        Answer::Write { data, .. } if data == b"hello\n"
    ));
    let broken = ClientRequest::WriteStdin {
        id: "command-1".to_owned(),
        data_base64: "a*".to_owned(),
    };
    assert!(reply(answered(&mut runtime, &broken, true)).1.starts_with("invalid stdin base64: "));
    let cancel = ClientRequest::Cancel { id: "command-1".to_owned() };
    assert!(matches!(answered(&mut runtime, &cancel, true), Answer::Cancel { signal: true }));
    let other = ClientRequest::Cancel { id: "command-2".to_owned() };
    assert_eq!(reply(answered(&mut runtime, &other, true)).0, ErrorCode::NotFound);
    let mut refused = request();
    refused.timeout_ms = Some(0);
    assert_eq!(
        reply(answered(&mut runtime, &ClientRequest::Exec(refused), true)),
        (ErrorCode::InvalidRequest, "timeout must be positive".to_owned())
    );
    assert!(matches!(
        answered(&mut runtime, &ClientRequest::Shutdown, true),
        Answer::Shutdown
    ));
}

#[test]
fn deadlines_are_recorded_for_each_scan() {
    let mut facts = Facts::new();
    assert_eq!(
        facts.deadline(ScanKind::Globs),
        Err(Halt::Probe(vec![Probe::Deadline(ScanKind::Globs)]))
    );
    facts.record_deadline(ScanKind::Globs, 9);
    assert_eq!(facts.deadline(ScanKind::Globs), Ok(9));
    assert!(facts.deadline(ScanKind::Controls).is_err());
    assert!(facts.listing("/work").is_none());
}
