//! What the host denies to every command.

use vstd::prelude::*;

use crate::facts::{Decision, HaltModel, Host};
use crate::hard_policy::{
    denies_for_paths, fixed_denies, host_denies, name_denies, path_deny, spellings, with_helpers,
    with_path, HostSettings,
};
use crate::order::{collected_is_a_set, holds, item_same, Order};
use crate::paths::{components, lies_under, pushed};
use crate::protocol::{DeniedAccess, DenyScope};
use crate::seatbelt::Deny;

verus! {

/// A path that is denied to every command.
pub struct Entry {
    pub access: DeniedAccess,
    pub path: Seq<char>,
    pub scope: DenyScope,
}

/// What is denied to every command below the home directory, and the broker itself:
/// keys and credentials altogether, the sandbox's settings to be read, and the
/// directories of the agents to be written.
pub open spec fn fixed_entries(home: Seq<char>, broker: Seq<char>) -> Seq<Entry> {
    let both = DeniedAccess::ReadWrite;
    let tree = DenyScope::Tree;
    let file = DenyScope::File;
    seq![
        Entry { access: both, path: pushed(home, ".ssh"@), scope: tree },
        Entry { access: both, path: pushed(home, ".aws"@), scope: tree },
        Entry { access: both, path: pushed(home, ".gnupg"@), scope: tree },
        Entry { access: both, path: pushed(home, ".pi/agent/auth.json"@), scope: file },
        Entry { access: both, path: pushed(home, ".codex/auth.json"@), scope: file },
        Entry {
            access: DeniedAccess::Read,
            path: pushed(home, ".pi/agent/extensions/sandbox.json"@),
            scope: file,
        },
        Entry { access: DeniedAccess::Write, path: pushed(home, ".pi"@), scope: tree },
        Entry { access: DeniedAccess::Write, path: pushed(home, ".codex"@), scope: tree },
        Entry { access: both, path: broker, scope: file },
    ]
}

/// The helper files, which no command may write.
pub open spec fn helper_entries(helpers: Seq<Seq<char>>) -> Seq<Entry> {
    Seq::new(
        helpers.len(),
        |i: int|
            Entry { access: DeniedAccess::Write, path: helpers[i], scope: DenyScope::File },
    )
}

/// Whether a deny is that of an entry, at the given path.
pub open spec fn is_deny_of(deny: Deny, entry: Entry, path: Seq<char>) -> bool {
    &&& deny.access == entry.access
    &&& deny.scope == entry.scope
    &&& deny.path == Some(deny.pattern)
    &&& components(deny.pattern) == components(path)
    &&& deny.exempt_roots.len() == 0
}

/// Whether denies keep an entry at the given path.
pub open spec fn keeps(denies: Seq<Deny>, entry: Entry, path: Seq<char>) -> bool {
    exists|k: int| 0 <= k < denies.len() && is_deny_of(#[trigger] denies[k], entry, path)
}

/// Whether a deny comes from one of several entries, as it is written or as the host
/// resolves it.
pub open spec fn comes_from(host: Host, deny: Deny, entries: Seq<Entry>) -> bool {
    exists|e: int|
        0 <= e < entries.len() && (is_deny_of(deny, #[trigger] entries[e], entries[e].path) || (
        host.paths[entries[e].path].canonical is Ok && is_deny_of(
            deny,
            entries[e],
            host.paths[entries[e].path].canonical->Ok_0,
        )))
}

/// `denies` with those of several entries behind them.
pub open spec fn with_entries(
    host: Host,
    denies: Decision<Seq<Deny>>,
    entries: Seq<Entry>,
) -> Decision<Seq<Deny>>
    decreases entries.len(),
{
    if entries.len() == 0 {
        denies
    } else {
        let last = entries.last();
        with_path(
            host,
            with_entries(host, denies, entries.drop_last()),
            last.access,
            last.path,
            last.scope,
        )
    }
}

proof fn lemma_with_path(host: Host, denies: Seq<Deny>, entry: Entry)
    requires
        with_path(
            host,
            Ok::<Seq<Deny>, HaltModel>(denies),
            entry.access,
            entry.path,
            entry.scope,
        ) is Ok,
    ensures
        ({
            let all = with_path(
                host,
                Ok::<Seq<Deny>, HaltModel>(denies),
                entry.access,
                entry.path,
                entry.scope,
            )->Ok_0;
            &&& all.len() >= denies.len()
            &&& all.take(denies.len() as int) == denies
            &&& keeps(all, entry, entry.path)
            &&& host.paths[entry.path].canonical is Ok ==> keeps(
                all,
                entry,
                host.paths[entry.path].canonical->Ok_0,
            )
            &&& forall|k: int|
                denies.len() <= k < all.len() ==> comes_from(
                    host,
                    #[trigger] all[k],
                    seq![entry],
                )
        }),
{
    let facts = host.paths[entry.path];
    let found = spellings(entry.path, facts);
    let more = found.map_values(
        |spelling: Seq<char>| path_deny(entry.access, spelling, entry.scope),
    );
    let all = denies + more;
    let items = match facts.canonical {
        Ok(canonical) => seq![entry.path, canonical],
        Err(_) => seq![entry.path],
    };
    collected_is_a_set(Order::Path, items);
    assert(all.take(denies.len() as int) =~= denies);
    assert forall|path: Seq<char>| holds(Order::Path, items, path) implies #[trigger] keeps(
        all,
        entry,
        path,
    ) by {
        assert(holds(Order::Path, found, path));
        let i = choose|i: int|
            0 <= i < found.len() && item_same(Order::Path, #[trigger] found[i], path);
        assert(is_deny_of(all[denies.len() + i], entry, path));
    }
    assert(item_same(Order::Path, items[0], entry.path));
    assert(holds(Order::Path, items, entry.path));
    if let Ok(canonical) = facts.canonical {
        assert(item_same(Order::Path, items[1], canonical));
        assert(holds(Order::Path, items, canonical));
    }
    assert forall|k: int| denies.len() <= k < all.len() implies comes_from(
        host,
        #[trigger] all[k],
        seq![entry],
    ) by {
        let i = k - denies.len();
        assert(all[k] == path_deny(entry.access, found[i], entry.scope));
        assert(item_same(Order::Path, found[i], found[i]));
        assert(holds(Order::Path, found, found[i]));
        assert(holds(Order::Path, items, found[i]));
        let m = choose|m: int|
            0 <= m < items.len() && item_same(Order::Path, #[trigger] items[m], found[i]);
        assert(seq![entry][0] == entry);
        if m == 0 {
            assert(is_deny_of(all[k], seq![entry][0], entry.path));
        } else {
            assert(is_deny_of(all[k], seq![entry][0], facts.canonical->Ok_0));
        }
    }
}

proof fn lemma_keeps_more(early: Seq<Deny>, late: Seq<Deny>, entry: Entry, path: Seq<char>)
    requires
        keeps(early, entry, path),
        early.len() <= late.len(),
        late.take(early.len() as int) == early,
    ensures
        keeps(late, entry, path),
{
    let k = choose|k: int| 0 <= k < early.len() && is_deny_of(#[trigger] early[k], entry, path);
    assert(late.take(early.len() as int)[k] == late[k]);
    assert(is_deny_of(late[k], entry, path));
}

proof fn lemma_with_entries(host: Host, denies: Seq<Deny>, entries: Seq<Entry>)
    requires
        with_entries(host, Ok::<Seq<Deny>, HaltModel>(denies), entries) is Ok,
    ensures
        ({
            let all = with_entries(host, Ok::<Seq<Deny>, HaltModel>(denies), entries)->Ok_0;
            &&& all.len() >= denies.len()
            &&& all.take(denies.len() as int) == denies
            &&& forall|e: int|
                0 <= e < entries.len() ==> {
                    &&& keeps(all, #[trigger] entries[e], entries[e].path)
                    &&& host.paths[entries[e].path].canonical is Ok ==> keeps(
                        all,
                        entries[e],
                        host.paths[entries[e].path].canonical->Ok_0,
                    )
                }
            &&& forall|k: int|
                denies.len() <= k < all.len() ==> comes_from(host, #[trigger] all[k], entries)
        }),
    decreases entries.len(),
{
    let start = Ok::<Seq<Deny>, HaltModel>(denies);
    if entries.len() == 0 {
        assert(denies.take(denies.len() as int) =~= denies);
    } else {
        let front = entries.drop_last();
        let last = entries.last();
        let n = front.len() as int;
        lemma_with_entries(host, denies, front);
        let before = with_entries(host, start, front)->Ok_0;
        lemma_with_path(host, before, last);
        let all = with_entries(host, start, entries)->Ok_0;
        assert(all.take(denies.len() as int) =~= denies) by {
            assert(all.take(before.len() as int).take(denies.len() as int) =~= all.take(
                denies.len() as int,
            ));
        }
        assert forall|e: int| 0 <= e < entries.len() implies {
            &&& keeps(all, #[trigger] entries[e], entries[e].path)
            &&& host.paths[entries[e].path].canonical is Ok ==> keeps(
                all,
                entries[e],
                host.paths[entries[e].path].canonical->Ok_0,
            )
        } by {
            if e < n {
                assert(front[e] == entries[e]);
                lemma_keeps_more(before, all, entries[e], entries[e].path);
                if host.paths[entries[e].path].canonical is Ok {
                    lemma_keeps_more(
                        before,
                        all,
                        entries[e],
                        host.paths[entries[e].path].canonical->Ok_0,
                    );
                }
            }
        }
        assert forall|k: int| denies.len() <= k < all.len() implies comes_from(
            host,
            #[trigger] all[k],
            entries,
        ) by {
            if k < before.len() {
                assert(all.take(before.len() as int)[k] == all[k]);
                assert(comes_from(host, before[k], front));
                let e = choose|e: int|
                    0 <= e < front.len() && (is_deny_of(
                        before[k],
                        #[trigger] front[e],
                        front[e].path,
                    ) || (host.paths[front[e].path].canonical is Ok && is_deny_of(
                        before[k],
                        front[e],
                        host.paths[front[e].path].canonical->Ok_0,
                    )));
                assert(entries[e] == front[e]);
            } else {
                assert(comes_from(host, all[k], seq![last]));
                assert(seq![last][0] == entries[n]);
            }
        }
    }
}

proof fn lemma_fixed(host: Host, home: Seq<char>, broker: Seq<char>)
    ensures
        fixed_denies(host, home, broker) == with_entries(
            host,
            Ok::<Seq<Deny>, HaltModel>(Seq::empty()),
            fixed_entries(home, broker),
        ),
{
    reveal_with_fuel(with_entries, 10);
    let entries = fixed_entries(home, broker);
    let e8 = entries.drop_last();
    let e7 = e8.drop_last();
    let e6 = e7.drop_last();
    let e5 = e6.drop_last();
    let e4 = e5.drop_last();
    let e3 = e4.drop_last();
    let e2 = e3.drop_last();
    let e1 = e2.drop_last();
    assert(e1.drop_last().len() == 0);
}

proof fn lemma_helpers(host: Host, denies: Decision<Seq<Deny>>, helpers: Seq<Seq<char>>)
    ensures
        with_helpers(host, denies, helpers) == with_entries(host, denies, helper_entries(helpers)),
    decreases helpers.len(),
{
    if helpers.len() > 0 {
        lemma_helpers(host, denies, helpers.drop_last());
        assert(helper_entries(helpers).drop_last() =~= helper_entries(helpers.drop_last()));
    }
}

/// Whether a deny is a glob on the given pattern, with the given exempt roots.
pub open spec fn is_glob(
    deny: Deny,
    access: DeniedAccess,
    pattern: Seq<char>,
    exempt: Seq<Seq<char>>,
) -> bool {
    deny == Deny {
        access,
        pattern,
        scope: DenyScope::Glob,
        path: None,
        exempt_roots: exempt,
    }
}

/// Whether a deny is one of the globs that hold everywhere: environment files but for
/// the development cache, keys to be read below the home directory, and keys and
/// certificates to be written.
pub open spec fn is_name_glob(deny: Deny, home: Seq<char>, exempt: Seq<Seq<char>>) -> bool {
    ||| is_glob(deny, DeniedAccess::ReadWrite, "/**/*.env"@, exempt)
    ||| is_glob(deny, DeniedAccess::ReadWrite, "/**/.env.*"@, exempt)
    ||| is_glob(deny, DeniedAccess::Read, home + "/**/*.key"@, Seq::empty())
    ||| is_glob(deny, DeniedAccess::Write, "/**/*.key"@, Seq::empty())
    ||| is_glob(deny, DeniedAccess::Write, "/**/*.pem"@, Seq::empty())
}

/// Whether denies keep each of several entries, as it is written and as the host resolves
/// it.
#[verifier::opaque]
pub open spec fn keeps_all(host: Host, denies: Seq<Deny>, entries: Seq<Entry>) -> bool {
    forall|e: int|
        0 <= e < entries.len() ==> {
            &&& keeps(denies, #[trigger] entries[e], entries[e].path)
            &&& host.paths[entries[e].path].canonical is Ok ==> keeps(
                denies,
                entries[e],
                host.paths[entries[e].path].canonical->Ok_0,
            )
        }
}

/// Whether denies hold the globs on names.
#[verifier::opaque]
pub open spec fn holds_globs(denies: Seq<Deny>, home: Seq<char>, exempt: Seq<Seq<char>>) -> bool {
    forall|deny: Deny| #[trigger] is_name_glob(deny, home, exempt) ==> denies.contains(deny)
}

/// Whether each deny comes from an entry or is a glob on names.
#[verifier::opaque]
pub open spec fn holds_only(
    host: Host,
    denies: Seq<Deny>,
    fixed: Seq<Entry>,
    files: Seq<Entry>,
    home: Seq<char>,
    exempt: Seq<Seq<char>>,
) -> bool {
    forall|k: int|
        0 <= k < denies.len() ==> comes_from(host, #[trigger] denies[k], fixed) || comes_from(
            host,
            denies[k],
            files,
        ) || is_name_glob(denies[k], home, exempt)
}

/// What the globs on environment files leave out.
pub open spec fn exempt_of(cache: Option<Seq<char>>) -> Seq<Seq<char>> {
    match cache {
        Some(root) => seq![root],
        None => Seq::empty(),
    }
}

proof fn lemma_keeps_all_more(host: Host, early: Seq<Deny>, late: Seq<Deny>, entries: Seq<Entry>)
    requires
        keeps_all(host, early, entries),
        early.len() <= late.len(),
        late.take(early.len() as int) == early,
    ensures
        keeps_all(host, late, entries),
{
    reveal(keeps_all);
    assert forall|e: int| 0 <= e < entries.len() implies {
        &&& keeps(late, #[trigger] entries[e], entries[e].path)
        &&& host.paths[entries[e].path].canonical is Ok ==> keeps(
            late,
            entries[e],
            host.paths[entries[e].path].canonical->Ok_0,
        )
    } by {
        lemma_keeps_more(early, late, entries[e], entries[e].path);
        if host.paths[entries[e].path].canonical is Ok {
            lemma_keeps_more(
                early,
                late,
                entries[e],
                host.paths[entries[e].path].canonical->Ok_0,
            );
        }
    }
}

proof fn lemma_globs(
    first: Seq<Deny>,
    denies: Seq<Deny>,
    home: Seq<char>,
    cache: Option<Seq<char>>,
)
    requires
        first.len() + 5 <= denies.len(),
        denies.take(first.len() + 5int) == first + name_denies(home, cache),
    ensures
        holds_globs(denies, home, exempt_of(cache)),
        forall|k: int|
            first.len() <= k < first.len() + 5 ==> is_name_glob(
                #[trigger] denies[k],
                home,
                exempt_of(cache),
            ),
{
    reveal(holds_globs);
    let names = name_denies(home, cache);
    let n = first.len() as int;
    assert forall|i: int| 0 <= i < 5 implies denies[n + i] == #[trigger] names[i] by {
        assert(denies.take(n + 5)[n + i] == (first + names)[n + i]);
    }
    assert forall|deny: Deny| #[trigger]
        is_name_glob(deny, home, exempt_of(cache)) implies denies.contains(deny) by {
        assert(denies[n] == names[0]);
        assert(denies[n + 1] == names[1]);
        assert(denies[n + 2] == names[2]);
        assert(denies[n + 3] == names[3]);
        assert(denies[n + 4] == names[4]);
    }
    assert forall|k: int| n <= k < n + 5 implies is_name_glob(
        #[trigger] denies[k],
        home,
        exempt_of(cache),
    ) by {
        assert(denies[n + (k - n)] == names[k - n]);
    }
}

proof fn lemma_fixed_kept(host: Host, home: Seq<char>, broker: Seq<char>)
    requires
        fixed_denies(host, home, broker) is Ok,
    ensures
        keeps_all(host, fixed_denies(host, home, broker)->Ok_0, fixed_entries(home, broker)),
        all_from(host, fixed_denies(host, home, broker)->Ok_0, fixed_entries(home, broker)),
{
    lemma_fixed(host, home, broker);
    lemma_entries_kept(host, fixed_entries(home, broker));
}

/// Whether each deny comes from an entry.
#[verifier::opaque]
pub open spec fn all_from(host: Host, denies: Seq<Deny>, entries: Seq<Entry>) -> bool {
    forall|k: int| 0 <= k < denies.len() ==> comes_from(host, #[trigger] denies[k], entries)
}

proof fn lemma_entries_kept(host: Host, entries: Seq<Entry>)
    requires
        with_entries(host, Ok::<Seq<Deny>, HaltModel>(Seq::empty()), entries) is Ok,
    ensures
        ({
            let all = with_entries(host, Ok::<Seq<Deny>, HaltModel>(Seq::empty()), entries)->Ok_0;
            keeps_all(host, all, entries) && all_from(host, all, entries)
        }),
{
    reveal(keeps_all);
    reveal(all_from);
    lemma_with_entries(host, Seq::empty(), entries);
}

proof fn lemma_rest(
    host: Host,
    first: Seq<Deny>,
    fixed: Seq<Entry>,
    home: Seq<char>,
    cache: Option<Seq<char>>,
    helpers: Seq<Seq<char>>,
)
    requires
        keeps_all(host, first, fixed),
        all_from(host, first, fixed),
        with_helpers(
            host,
            Ok::<Seq<Deny>, HaltModel>(first + name_denies(home, cache)),
            helpers,
        ) is Ok,
    ensures
        ({
            let denies = with_helpers(
                host,
                Ok::<Seq<Deny>, HaltModel>(first + name_denies(home, cache)),
                helpers,
            )->Ok_0;
            let files = helper_entries(helpers);
            &&& keeps_all(host, denies, fixed)
            &&& keeps_all(host, denies, files)
            &&& holds_globs(denies, home, exempt_of(cache))
            &&& holds_only(host, denies, fixed, files, home, exempt_of(cache))
        }),
{
    let files = helper_entries(helpers);
    let base = first + name_denies(home, cache);
    let denies = with_helpers(host, Ok::<Seq<Deny>, HaltModel>(base), helpers)->Ok_0;
    lemma_helpers(host, Ok::<Seq<Deny>, HaltModel>(base), helpers);
    lemma_with_entries(host, base, files);
    assert(keeps_all(host, denies, files)) by {
        reveal(keeps_all);
    }
    lemma_globs(first, denies, home, cache);
    assert(denies.take(first.len() as int) =~= first) by {
        assert(denies.take(base.len() as int).take(first.len() as int) =~= denies.take(
            first.len() as int,
        ));
        assert(base.take(first.len() as int) =~= first);
    }
    lemma_keeps_all_more(host, first, denies, fixed);
    assert(holds_only(host, denies, fixed, files, home, exempt_of(cache))) by {
        reveal(holds_only);
        reveal(all_from);
        assert forall|k: int| 0 <= k < denies.len() implies comes_from(
            host,
            #[trigger] denies[k],
            fixed,
        ) || comes_from(host, denies[k], files) || is_name_glob(
            denies[k],
            home,
            exempt_of(cache),
        ) by {
            if k < first.len() {
                assert(denies.take(first.len() as int)[k] == denies[k]);
                assert(comes_from(host, first[k], fixed));
            }
        }
    }
}

proof fn lemma_for_paths(
    host: Host,
    home: Seq<char>,
    broker: Seq<char>,
    cache: Option<Seq<char>>,
    helpers: Seq<Seq<char>>,
)
    requires
        denies_for_paths(
            host,
            home,
            broker,
            cache,
            Ok::<Seq<Seq<char>>, Seq<char>>(helpers),
        ) is Ok,
    ensures
        ({
            let denies = denies_for_paths(
                host,
                home,
                broker,
                cache,
                Ok::<Seq<Seq<char>>, Seq<char>>(helpers),
            )->Ok_0;
            let fixed = fixed_entries(home, broker);
            let files = helper_entries(helpers);
            &&& keeps_all(host, denies, fixed)
            &&& keeps_all(host, denies, files)
            &&& holds_globs(denies, home, exempt_of(cache))
            &&& holds_only(host, denies, fixed, files, home, exempt_of(cache))
        }),
{
    lemma_fixed_kept(host, home, broker);
    lemma_rest(
        host,
        fixed_denies(host, home, broker)->Ok_0,
        fixed_entries(home, broker),
        home,
        cache,
        helpers,
    );
}

/// The host denies to every command exactly what is listed: each fixed path below the
/// home directory, the broker, and each helper file, both as they are written and as the
/// host resolves them, and the globs on names; and nothing else.
pub proof fn the_host_denies_what_is_listed(host: Host, settings: HostSettings)
    requires
        host_denies(host, settings) is Ok,
    ensures
        settings.home is Some,
        settings.executable is Ok,
        settings.helpers is Ok,
        host.paths[settings.home->0].canonical is Ok,
        host.paths[settings.executable->Ok_0].canonical is Ok,
        ({
            let denies = host_denies(host, settings)->Ok_0;
            let home = host.paths[settings.home->0].canonical->Ok_0;
            let broker = host.paths[settings.executable->Ok_0].canonical->Ok_0;
            let cache = resolved_cache(host, settings);
            let fixed = fixed_entries(home, broker);
            let files = helper_entries(settings.helpers->Ok_0);
            &&& cache is Some ==> lies_under(cache->0, home) && components(cache->0) != components(
                home,
            )
            &&& keeps_all(host, denies, fixed)
            &&& keeps_all(host, denies, files)
            &&& holds_globs(denies, home, exempt_of(cache))
            &&& holds_only(host, denies, fixed, files, home, exempt_of(cache))
        }),
{
    let home = host.paths[settings.home->0].canonical->Ok_0;
    let broker = host.paths[settings.executable->Ok_0].canonical->Ok_0;
    let cache = resolved_cache(host, settings);
    assert(host_denies(host, settings) == denies_for_paths(
        host,
        home,
        broker,
        cache,
        settings.helpers,
    ));
    lemma_for_paths(host, home, broker, cache, settings.helpers->Ok_0);
}

/// The development cache, where one is set, as the host resolves it.
pub open spec fn resolved_cache(host: Host, settings: HostSettings) -> Option<Seq<char>> {
    match settings.development_cache {
        Some(cache) => Some(host.paths[cache].canonical->Ok_0),
        None => None,
    }
}

} // verus!
