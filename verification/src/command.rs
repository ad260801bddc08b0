//! The command line and the environment that a command is started with.

use vstd::prelude::*;
use vstd::string::*;

use crate::environment::{has_entry, names_of, ordered_by_name, Environment};
use crate::linux::PROXY_LOOPBACK_PORT;
use crate::protocol::NetworkRequest;
use crate::text::{copy_texts, decimal, decimal_text, joined, same_text, texts};
use crate::validation::{ValidatedExec, ValidatedNetworkPolicy};

verus! {

/// Waits until the broker lets the command go, then becomes the command.
pub const LAUNCH_SCRIPT: &'static str = "IFS= read -r _ || exit 125; exec \"$@\"";

/// A host platform.
#[derive(Clone, Copy, Debug, PartialEq, Eq, Structural)]
pub enum Platform {
    Linux,
    Macos,
    Other,
}

/// The command line behind the launch barrier.
pub open spec fn barrier_command(program: Seq<char>, args: Seq<Seq<char>>) -> Seq<Seq<char>> {
    seq!["/bin/sh"@, "-c"@, LAUNCH_SCRIPT@, "pi-sandbox-launch"@, program] + args
}

/// The command line of a request behind the launch barrier.
pub fn launch_command(request: &ValidatedExec) -> (command: Vec<String>)
    ensures
        texts(command@) == barrier_command(request@.program, request@.args),
{
    let mut command: Vec<String> = Vec::new();
    command.push("/bin/sh".to_owned());
    command.push("-c".to_owned());
    command.push(LAUNCH_SCRIPT.to_owned());
    command.push("pi-sandbox-launch".to_owned());
    command.push(request.program.clone());
    let ghost start = texts(command@);
    assert(start =~= seq![
        "/bin/sh"@,
        "-c"@,
        LAUNCH_SCRIPT@,
        "pi-sandbox-launch"@,
        request.program@,
    ]);
    let ghost before = command@;
    let mut args = copy_texts(&request.args);
    let ghost copied = args@;
    command.append(&mut args);
    assert(command@ == before + copied);
    assert(texts(command@) =~= start + texts(copied));
    command
}

/// The variables that steer programs to a proxy. None of them is inherited.
pub open spec fn proxy_names() -> Seq<Seq<char>> {
    seq![
        "HTTP_PROXY"@,
        "HTTPS_PROXY"@,
        "ALL_PROXY"@,
        "NO_PROXY"@,
        "http_proxy"@,
        "https_proxy"@,
        "all_proxy"@,
        "no_proxy"@,
        "NPM_CONFIG_PROXY"@,
        "NPM_CONFIG_HTTP_PROXY"@,
        "NPM_CONFIG_HTTPS_PROXY"@,
        "GIT_PROXY_COMMAND"@,
    ]
}

fn contains_text(list: &Vec<String>, text: &str) -> (found: bool)
    ensures
        found == texts(list@).contains(text@),
{
    let mut i: usize = 0;
    while i < list.len()
        invariant
            i <= list@.len(),
            forall|j: int| 0 <= j < i ==> #[trigger] texts(list@)[j] != text@,
        decreases list@.len() - i,
    {
        assert(texts(list@)[i as int] == list@[i as int]@);
        if same_text(list[i].as_str(), text) {
            return true;
        }
        i = i + 1;
    }
    false
}

fn proxy_name_list() -> (names: Vec<String>)
    ensures
        texts(names@) == proxy_names(),
{
    let mut names: Vec<String> = Vec::new();
    names.push("HTTP_PROXY".to_owned());
    names.push("HTTPS_PROXY".to_owned());
    names.push("ALL_PROXY".to_owned());
    names.push("NO_PROXY".to_owned());
    names.push("http_proxy".to_owned());
    names.push("https_proxy".to_owned());
    names.push("all_proxy".to_owned());
    names.push("no_proxy".to_owned());
    names.push("NPM_CONFIG_PROXY".to_owned());
    names.push("NPM_CONFIG_HTTP_PROXY".to_owned());
    names.push("NPM_CONFIG_HTTPS_PROXY".to_owned());
    names.push("GIT_PROXY_COMMAND".to_owned());
    assert(texts(names@) =~= proxy_names());
    names
}

/// The environment without the variables that steer programs to a proxy.
pub fn strip_proxy_environment(environment: &Environment) -> (stripped: Environment)
    ensures
        ordered_by_name(stripped@),
        forall|n: Seq<char>, v: Seq<char>| #[trigger]
            has_entry(stripped@, n, v) <==> has_entry(environment@, n, v)
                && !proxy_names().contains(n),
{
    let names = proxy_name_list();
    let mut stripped = Environment::new();
    let n = environment.len();
    let ghost all = environment@;
    let mut i: usize = 0;
    assert(ordered_by_name(stripped@));
    while i < n
        invariant
            i <= n == environment@.len(),
            all == environment@,
            ordered_by_name(all),
            texts(names@) == proxy_names(),
            ordered_by_name(stripped@),
            forall|n: Seq<char>, v: Seq<char>| #[trigger]
                has_entry(stripped@, n, v) <==> has_entry(all.take(i as int), n, v)
                    && !proxy_names().contains(n),
        decreases n - i,
    {
        let name = environment.name(i);
        let ghost before = stripped@;
        let ghost value = all[i as int].1;
        if !contains_text(&names, name) {
            stripped.insert(name.to_owned(), environment.value(i).to_owned());
        }
        i = i + 1;
        assert forall|n: Seq<char>, v: Seq<char>| #[trigger]
            has_entry(stripped@, n, v) <==> has_entry(all.take(i as int), n, v)
                && !proxy_names().contains(n) by {
            lemma_one_more(all, i - 1, n, v);
            assert(has_entry(before, n, v) <==> has_entry(all.take(i - 1), n, v)
                && !proxy_names().contains(n));
        }
    }
    assert(all.take(i as int) =~= all);
    stripped
}

proof fn lemma_one_more(
    entries: Seq<(Seq<char>, Seq<char>)>,
    i: int,
    n: Seq<char>,
    v: Seq<char>,
)
    requires
        ordered_by_name(entries),
        0 <= i < entries.len(),
    ensures
        has_entry(entries.take(i + 1), n, v) <==> has_entry(entries.take(i), n, v) || entries[i]
            == (n, v),
        n == entries[i].0 ==> !has_entry(entries.take(i), n, v),
{
    let longer = entries.take(i + 1);
    let shorter = entries.take(i);
    if has_entry(longer, n, v) {
        let k = choose|k: int| 0 <= k < longer.len() && longer[k] == (n, v);
        if k < i {
            assert(shorter[k] == (n, v));
        }
    }
    if has_entry(shorter, n, v) {
        let k = choose|k: int| 0 <= k < shorter.len() && shorter[k] == (n, v);
        assert(longer[k] == (n, v));
        if n == entries[i].0 {
            let names = names_of(entries);
            assert(names[k] == n && names[i] == n);
            assert(crate::order::item_less(crate::order::Order::Text, names[k], names[i]));
            crate::order::order_is_total(crate::order::Order::Text, names[k], names[i]);
        }
    }
    if entries[i] == (n, v) {
        assert(longer[i] == (n, v));
    }
}

/// The variables that carry the address of an HTTP proxy.
pub open spec fn http_names() -> Seq<Seq<char>> {
    seq![
        "HTTP_PROXY"@,
        "HTTPS_PROXY"@,
        "http_proxy"@,
        "https_proxy"@,
        "NPM_CONFIG_PROXY"@,
        "NPM_CONFIG_HTTP_PROXY"@,
        "NPM_CONFIG_HTTPS_PROXY"@,
    ]
}

/// The port on which a command finds its proxy: that of the bridge in its own
/// network on Linux, that of the proxy itself elsewhere.
pub open spec fn proxy_port(platform: Platform, tcp_port: u16) -> u16 {
    if platform == Platform::Linux {
        PROXY_LOOPBACK_PORT
    } else {
        tcp_port
    }
}

/// The value that the broker itself gives a variable, if it gives it one.
pub open spec fn broker_value(
    platform: Platform,
    marker: Seq<char>,
    network: NetworkRequest,
    name: Seq<char>,
) -> Option<Seq<char>> {
    if name == "PI_SANDBOX"@ {
        Some(marker)
    } else if name == "IN_SANDBOX"@ {
        Some("1"@)
    } else {
        match network {
            NetworkRequest::Proxy { tcp_port, unix_socket, allow_local_binding } => {
                let port = decimal(proxy_port(platform, tcp_port) as nat);
                if name == "no_proxy"@ || name == "NO_PROXY"@ {
                    if allow_local_binding {
                        Some("localhost,127.0.0.1,::1"@)
                    } else {
                        Some(""@)
                    }
                } else if name == "all_proxy"@ || name == "ALL_PROXY"@ {
                    Some("socks5h://127.0.0.1:"@ + port)
                } else if http_names().contains(name) {
                    Some("http://127.0.0.1:"@ + port)
                } else {
                    None
                }
            },
            _ => None,
        }
    }
}

/// Whether a command sees `name` with the value `value`.
pub open spec fn command_sees(
    platform: Platform,
    marker: Seq<char>,
    network: NetworkRequest,
    env: Seq<(Seq<char>, Seq<char>)>,
    name: Seq<char>,
    value: Seq<char>,
) -> bool {
    match broker_value(platform, marker, network, name) {
        Some(given) => value == given,
        None => has_entry(env, name, value) && !proxy_names().contains(name),
    }
}

fn insert_all(environment: &mut Environment, names: &Vec<String>, value: &str)
    ensures
        ordered_by_name(old(environment)@) ==> ordered_by_name(final(environment)@),
        forall|n: Seq<char>, v: Seq<char>| #[trigger]
            has_entry(final(environment)@, n, v) <==> if texts(names@).contains(n) {
                v == value@
            } else {
                has_entry(old(environment)@, n, v)
            },
{
    let ghost start = environment@;
    let ghost all = texts(names@);
    let mut i: usize = 0;
    assert(all.take(0) =~= Seq::empty());
    while i < names.len()
        invariant
            i <= names@.len(),
            start == old(environment)@,
            all == texts(names@),
            ordered_by_name(start) ==> ordered_by_name(environment@),
            forall|n: Seq<char>, v: Seq<char>| #[trigger]
                has_entry(environment@, n, v) <==> if all.take(i as int).contains(n) {
                    v == value@
                } else {
                    has_entry(start, n, v)
                },
        decreases names@.len() - i,
    {
        let ghost before = environment@;
        environment.insert(names[i].clone(), value.to_owned());
        i = i + 1;
        assert(all.take(i as int) =~= all.take(i - 1).push(names@[i - 1]@));
        assert forall|n: Seq<char>, v: Seq<char>| #[trigger]
            has_entry(environment@, n, v) <==> if all.take(i as int).contains(n) {
                v == value@
            } else {
                has_entry(start, n, v)
            } by {
            let earlier = all.take(i - 1);
            let later = all.take(i as int);
            if earlier.contains(n) {
                let k = choose|k: int| 0 <= k < earlier.len() && earlier[k] == n;
                assert(later[k] == n);
            }
            if later.contains(n) && n != names@[i - 1]@ {
                let k = choose|k: int| 0 <= k < later.len() && later[k] == n;
                assert(earlier[k] == n);
            }
            if n == names@[i - 1]@ {
                assert(later[i - 1] == n);
            }
            assert(has_entry(before, n, v) <==> if earlier.contains(n) {
                v == value@
            } else {
                has_entry(start, n, v)
            });
        }
    }
    assert(all.take(i as int) =~= all);
}

/// The environment of a command: the requested one without proxy variables,
/// the broker's own marks, and the variables of its proxy, if it has one.
pub fn command_environment(
    environment: &Environment,
    network: &ValidatedNetworkPolicy,
    platform: Platform,
    marker: &str,
) -> (out: Environment)
    ensures
        ordered_by_name(out@),
        forall|n: Seq<char>, v: Seq<char>| #[trigger]
            has_entry(out@, n, v) <==> command_sees(
                platform,
                marker@,
                network@,
                environment@,
                n,
                v,
            ),
{
    let mut out = strip_proxy_environment(environment);
    if let ValidatedNetworkPolicy::Proxy { tcp_port, unix_socket: _, allow_local_binding } =
        network {
        let port = if platform == Platform::Linux {
            PROXY_LOOPBACK_PORT
        } else {
            *tcp_port
        };
        let number = decimal_text(port as u64);
        let http_proxy = joined("http://127.0.0.1:", number.as_str());
        let socks_proxy = joined("socks5h://127.0.0.1:", number.as_str());
        let mut names: Vec<String> = Vec::new();
        names.push("HTTP_PROXY".to_owned());
        names.push("HTTPS_PROXY".to_owned());
        names.push("http_proxy".to_owned());
        names.push("https_proxy".to_owned());
        names.push("NPM_CONFIG_PROXY".to_owned());
        names.push("NPM_CONFIG_HTTP_PROXY".to_owned());
        names.push("NPM_CONFIG_HTTPS_PROXY".to_owned());
        assert(texts(names@) =~= http_names());
        insert_all(&mut out, &names, http_proxy.as_str());
        out.insert("ALL_PROXY".to_owned(), socks_proxy.clone());
        out.insert("all_proxy".to_owned(), socks_proxy);
        let no_proxy = if *allow_local_binding {
            "localhost,127.0.0.1,::1"
        } else {
            ""
        };
        out.insert("NO_PROXY".to_owned(), no_proxy.to_owned());
        out.insert("no_proxy".to_owned(), no_proxy.to_owned());
    }
    out.insert("IN_SANDBOX".to_owned(), "1".to_owned());
    out.insert("PI_SANDBOX".to_owned(), marker.to_owned());
    out
}

/// No proxy setting of the client reaches a command: what a command sees of the
/// proxy variables is what the broker gives it, and nothing without a proxy.
pub proof fn proxy_settings_are_replaced(
    platform: Platform,
    marker: Seq<char>,
    network: NetworkRequest,
    env: Seq<(Seq<char>, Seq<char>)>,
    name: Seq<char>,
    value: Seq<char>,
)
    requires
        proxy_names().contains(name),
        command_sees(platform, marker, network, env, name, value),
    ensures
        broker_value(platform, marker, network, name) == Some(value),
        network is Proxy,
{
    reveal_strlit("PI_SANDBOX");
    reveal_strlit("IN_SANDBOX");
    reveal_strlit("HTTP_PROXY");
    reveal_strlit("HTTPS_PROXY");
    reveal_strlit("ALL_PROXY");
    reveal_strlit("NO_PROXY");
    reveal_strlit("http_proxy");
    reveal_strlit("https_proxy");
    reveal_strlit("all_proxy");
    reveal_strlit("no_proxy");
    reveal_strlit("NPM_CONFIG_PROXY");
    reveal_strlit("NPM_CONFIG_HTTP_PROXY");
    reveal_strlit("NPM_CONFIG_HTTPS_PROXY");
    reveal_strlit("GIT_PROXY_COMMAND");
    let i = choose|i: int| 0 <= i < proxy_names().len() && proxy_names()[i] == name;
    assert(name[0] != 'P' && name[0] != 'I');
}

} // verus!
