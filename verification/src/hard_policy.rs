//! The denies that the broker imposes on every command.

use vstd::prelude::*;
use vstd::string::*;

use crate::facts::{
    decided, models, refusal, refused, Decision, Facts, Halt, HaltModel, Host, PathModel,
};
use crate::order::{collected, insert_item, Order};
use crate::paths::{lies_under, path_join, path_starts_with, paths_equal, pushed, same_path};
use crate::protocol::{DeniedAccess, DenyScope};
use crate::seatbelt::{
    existing_path, normalize_existing, Deny, HardPolicy, NormalizedDeny,
};
use crate::text::{copy_texts, joined, texts};

verus! {

/// The deny of one path.
pub open spec fn path_deny(access: DeniedAccess, path: Seq<char>, scope: DenyScope) -> Deny {
    Deny { access, pattern: path, scope, path: Some(path), exempt_roots: Seq::empty() }
}

/// The deny of every path that a glob matches outside `exempt_roots`.
pub open spec fn pattern_deny(
    access: DeniedAccess,
    pattern: Seq<char>,
    exempt_roots: Seq<Seq<char>>,
) -> Deny {
    Deny { access, pattern, scope: DenyScope::Glob, path: None, exempt_roots }
}

/// A path as it is written and as the host resolves it, in order.
pub open spec fn spellings(path: Seq<char>, facts: PathModel) -> Seq<Seq<char>> {
    match facts.canonical {
        Ok(canonical) => collected(Order::Path, seq![path, canonical]),
        Err(_) => collected(Order::Path, seq![path]),
    }
}

/// `denies` with those of one path behind them, under each of its spellings.
pub open spec fn with_path(
    host: Host,
    denies: Decision<Seq<Deny>>,
    access: DeniedAccess,
    path: Seq<char>,
    scope: DenyScope,
) -> Decision<Seq<Deny>> {
    match denies {
        Err(halt) => Err(halt),
        Ok(denies) => match host.path(path) {
            Err(halt) => Err(halt),
            Ok(facts) => Ok(
                denies + spellings(path, facts).map_values(
                    |spelling: Seq<char>| path_deny(access, spelling, scope),
                ),
            ),
        },
    }
}

/// `denies` with a write deny for each of several helper files behind them.
pub open spec fn with_helpers(
    host: Host,
    denies: Decision<Seq<Deny>>,
    helpers: Seq<Seq<char>>,
) -> Decision<Seq<Deny>>
    decreases helpers.len(),
{
    if helpers.len() == 0 {
        denies
    } else {
        with_path(
            host,
            with_helpers(host, denies, helpers.drop_last()),
            DeniedAccess::Write,
            helpers.last(),
            DenyScope::File,
        )
    }
}

/// The denies on fixed paths below the home directory and on the broker itself.
pub open spec fn fixed_denies(host: Host, home: Seq<char>, broker: Seq<char>) -> Decision<
    Seq<Deny>,
> {
    let start = Ok(Seq::<Deny>::empty());
    let both = DeniedAccess::ReadWrite;
    let tree = DenyScope::Tree;
    let file = DenyScope::File;
    let ssh = with_path(host, start, both, pushed(home, ".ssh"@), tree);
    let aws = with_path(host, ssh, both, pushed(home, ".aws"@), tree);
    let gnupg = with_path(host, aws, both, pushed(home, ".gnupg"@), tree);
    let auth = with_path(host, gnupg, both, pushed(home, ".pi/agent/auth.json"@), file);
    let codex_auth = with_path(host, auth, both, pushed(home, ".codex/auth.json"@), file);
    let config = with_path(
        host,
        codex_auth,
        DeniedAccess::Read,
        pushed(home, ".pi/agent/extensions/sandbox.json"@),
        file,
    );
    let control = with_path(host, config, DeniedAccess::Write, pushed(home, ".pi"@), tree);
    let codex = with_path(host, control, DeniedAccess::Write, pushed(home, ".codex"@), tree);
    with_path(host, codex, both, broker, file)
}

/// The denies on names anywhere, environment files inside the development cache
/// excepted, and on keys below the home directory.
pub open spec fn name_denies(home: Seq<char>, cache: Option<Seq<char>>) -> Seq<Deny> {
    let exempt = match cache {
        Some(root) => seq![root],
        None => Seq::empty(),
    };
    seq![
        pattern_deny(DeniedAccess::ReadWrite, "/**/*.env"@, exempt),
        pattern_deny(DeniedAccess::ReadWrite, "/**/.env.*"@, exempt),
        pattern_deny(DeniedAccess::Read, home + "/**/*.key"@, Seq::empty()),
        pattern_deny(DeniedAccess::Write, "/**/*.key"@, Seq::empty()),
        pattern_deny(DeniedAccess::Write, "/**/*.pem"@, Seq::empty()),
    ]
}

/// The host's denies, before those on helper files.
pub open spec fn base_denies(
    host: Host,
    home: Seq<char>,
    broker: Seq<char>,
    cache: Option<Seq<char>>,
) -> Decision<Seq<Deny>> {
    match fixed_denies(host, home, broker) {
        Err(halt) => Err(halt),
        Ok(fixed) => Ok(fixed + name_denies(home, cache)),
    }
}

/// Appends the denies of one path, under each of its spellings.
///
/// # Errors
///
/// Asks for the path where it is not on record.
pub fn push_path_denies(
    denies: &mut Vec<NormalizedDeny>,
    access: DeniedAccess,
    path: &str,
    scope: DenyScope,
    facts: &Facts,
) -> (result: Result<(), Halt>)
    ensures
        match result {
            Ok(_) => with_path(facts@, Ok(models(old(denies)@)), access, path@, scope) == Ok::<
                Seq<Deny>,
                HaltModel,
            >(models(final(denies)@)),
            Err(halt) => with_path(facts@, Ok(models(old(denies)@)), access, path@, scope)
                == Err::<Seq<Deny>, HaltModel>(halt@) && final(denies)@ == old(denies)@,
        },
{
    let known = match facts.path(path) {
        Ok(known) => known,
        Err(halt) => {
            return Err(halt);
        },
    };
    let ghost start = models(denies@);
    let mut paths: Vec<String> = Vec::new();
    assert(texts(paths@) =~= Seq::empty());
    insert_item(Order::Path, &mut paths, path.to_owned());
    assert(seq![path@].drop_last() =~= Seq::<Seq<char>>::empty());
    assert(texts(paths@) == collected(Order::Path, seq![path@])) by {
        reveal_with_fuel(collected, 2);
    }
    match &known.canonical {
        Ok(canonical) => {
            insert_item(Order::Path, &mut paths, canonical.clone());
            assert(seq![path@, canonical@].drop_last() =~= seq![path@]);
        },
        Err(_) => {},
    }
    let ghost all = spellings(path@, known@);
    assert(texts(paths@) == all);
    let ghost mapped = all.map_values(|spelling: Seq<char>| path_deny(access, spelling, scope));
    let mut i: usize = 0;
    assert(start + mapped.take(0) =~= start);
    while i < paths.len()
        invariant
            i <= paths@.len(),
            texts(paths@) == all,
            mapped == all.map_values(|spelling: Seq<char>| path_deny(access, spelling, scope)),
            models(denies@) == start + mapped.take(i as int),
        decreases paths@.len() - i,
    {
        let spelling = paths[i].clone();
        let ghost before = models(denies@);
        let deny = NormalizedDeny {
            access,
            pattern: spelling.clone(),
            scope,
            path: Some(spelling),
            exempt_roots: Vec::new(),
        };
        assert(texts(deny.exempt_roots@) =~= Seq::empty());
        assert(all[i as int] == spelling@);
        denies.push(deny);
        i = i + 1;
        assert(models(denies@) =~= before.push(deny@));
        assert(mapped[i - 1] == deny@);
        assert(start + mapped.take(i as int) =~= (start + mapped.take(i - 1)).push(mapped[i - 1]));
    }
    assert(texts(paths@).len() == paths@.len());
    assert(mapped.take(i as int) =~= mapped);
    Ok(())
}

/// The deny of every path that a glob matches.
pub fn glob_deny(access: DeniedAccess, pattern: &str) -> (deny: NormalizedDeny)
    ensures
        deny@ == pattern_deny(access, pattern@, Seq::empty()),
{
    let none: Vec<String> = Vec::new();
    assert(texts(none@) =~= Seq::empty());
    glob_deny_with_exemptions(access, pattern, none)
}

/// The deny of every path that a glob matches outside `exempt_roots`.
pub fn glob_deny_with_exemptions(
    access: DeniedAccess,
    pattern: &str,
    exempt_roots: Vec<String>,
) -> (deny: NormalizedDeny)
    ensures
        deny@ == pattern_deny(access, pattern@, texts(exempt_roots@)),
{
    NormalizedDeny {
        access,
        pattern: pattern.to_owned(),
        scope: DenyScope::Glob,
        path: None,
        exempt_roots,
    }
}

/// A development cache root, resolved: a directory strictly below the home
/// directory.
pub open spec fn cache_root(host: Host, path: Seq<char>, home: Seq<char>) -> Decision<Seq<char>> {
    match existing_path(host, path) {
        Err(halt) => Err(halt),
        Ok(root) => if same_path(root, home) || !lies_under(root, home) {
            refusal("development cache root must be beneath broker HOME: "@ + root)
        } else {
            Ok(root)
        },
    }
}

/// Resolves a development cache root.
///
/// # Errors
///
/// Refuses a root that cannot be resolved or that is not strictly below the
/// home directory.
pub fn normalize_development_cache_root(path: &str, home: &str, facts: &Facts) -> (result: Result<
    String,
    Halt,
>)
    ensures
        decided(result) == cache_root(facts@, path@, home@),
{
    let root = match normalize_existing(path, facts) {
        Ok(root) => root,
        Err(halt) => {
            return Err(halt);
        },
    };
    if paths_equal(root.as_str(), home) || !path_starts_with(root.as_str(), home) {
        return Err(
            refused(joined("development cache root must be beneath broker HOME: ", root.as_str())),
        );
    }
    Ok(root)
}

/// What the broker was started with.
pub struct HostEnvironment {
    /// The home directory, where there is one.
    pub home: Option<String>,
    /// The broker's own executable, or why it cannot be located.
    pub executable: Result<String, String>,
    /// The development cache root, where one is set.
    pub development_cache: Option<String>,
    /// The helper files that commands may not write, or why they cannot be
    /// located.
    pub helpers: Result<Vec<String>, String>,
}

/// What the broker was started with.
pub struct HostSettings {
    pub home: Option<Seq<char>>,
    pub executable: Result<Seq<char>, Seq<char>>,
    pub development_cache: Option<Seq<char>>,
    pub helpers: Result<Seq<Seq<char>>, Seq<char>>,
}

impl View for HostEnvironment {
    type V = HostSettings;

    open spec fn view(&self) -> HostSettings {
        HostSettings {
            home: crate::protocol::text_option(self.home),
            executable: crate::facts::text_result(self.executable),
            development_cache: crate::protocol::text_option(self.development_cache),
            helpers: match self.helpers {
                Ok(helpers) => Ok(texts(helpers@)),
                Err(error) => Err(error@),
            },
        }
    }
}

impl View for HardPolicy {
    type V = Seq<Deny>;

    open spec fn view(&self) -> Seq<Deny> {
        models(self.denies@)
    }
}

/// The host's denies for given paths.
pub open spec fn denies_for_paths(
    host: Host,
    home: Seq<char>,
    broker: Seq<char>,
    cache: Option<Seq<char>>,
    helpers: Result<Seq<Seq<char>>, Seq<char>>,
) -> Decision<Seq<Deny>> {
    match base_denies(host, home, broker, cache) {
        Err(halt) => Err(halt),
        Ok(base) => match helpers {
            Err(error) => refusal(error),
            Ok(helpers) => with_helpers(host, Ok(base), helpers),
        },
    }
}

/// The host's denies.
pub open spec fn host_denies(host: Host, settings: HostSettings) -> Decision<Seq<Deny>> {
    match settings.home {
        None => refusal("broker HOME is missing"@),
        Some(home) => match existing_path(host, home) {
            Err(halt) => Err(halt),
            Ok(home) => match settings.executable {
                Err(error) => refusal("cannot locate broker executable: "@ + error),
                Ok(executable) => match existing_path(host, executable) {
                    Err(halt) => Err(halt),
                    Ok(broker) => match settings.development_cache {
                        None => denies_for_paths(host, home, broker, None, settings.helpers),
                        Some(cache) => match cache_root(host, cache, home) {
                            Err(halt) => Err(halt),
                            Ok(root) => denies_for_paths(
                                host,
                                home,
                                broker,
                                Some(root),
                                settings.helpers,
                            ),
                        },
                    },
                },
            },
        },
    }
}

proof fn lemma_helpers_stay(
    host: Host,
    denies: Decision<Seq<Deny>>,
    helpers: Seq<Seq<char>>,
    i: int,
)
    requires
        0 <= i <= helpers.len(),
        with_helpers(host, denies, helpers.take(i)) is Err,
    ensures
        with_helpers(host, denies, helpers) == with_helpers(host, denies, helpers.take(i)),
    decreases helpers.len(),
{
    if i == helpers.len() {
        assert(helpers.take(i) =~= helpers);
    } else {
        let shorter = helpers.drop_last();
        assert(shorter.take(i) =~= helpers.take(i));
        lemma_helpers_stay(host, denies, shorter, i);
    }
}

impl HardPolicy {
    /// The fixed policy for given paths, before the denies on helper files.
    ///
    /// # Errors
    ///
    /// Asks for the paths that are not on record.
    pub fn base_for_paths(
        home: &str,
        broker: &str,
        development_cache: Option<&str>,
        facts: &Facts,
    ) -> (result: Result<HardPolicy, Halt>)
        ensures
            decided(result) == base_denies(
                facts@,
                home@,
                broker@,
                match development_cache {
                    Some(root) => Some(root@),
                    None => None,
                },
            ),
    {
        let mut denies: Vec<NormalizedDeny> = Vec::new();
        assert(models(denies@) =~= Seq::empty());
        match push_path_denies(
            &mut denies,
            DeniedAccess::ReadWrite,
            path_join(home, ".ssh").as_str(),
            DenyScope::Tree,
            facts,
        ) {
            Ok(_) => {},
            Err(halt) => {
                return Err(halt);
            },
        }
        match push_path_denies(
            &mut denies,
            DeniedAccess::ReadWrite,
            path_join(home, ".aws").as_str(),
            DenyScope::Tree,
            facts,
        ) {
            Ok(_) => {},
            Err(halt) => {
                return Err(halt);
            },
        }
        match push_path_denies(
            &mut denies,
            DeniedAccess::ReadWrite,
            path_join(home, ".gnupg").as_str(),
            DenyScope::Tree,
            facts,
        ) {
            Ok(_) => {},
            Err(halt) => {
                return Err(halt);
            },
        }
        match push_path_denies(
            &mut denies,
            DeniedAccess::ReadWrite,
            path_join(home, ".pi/agent/auth.json").as_str(),
            DenyScope::File,
            facts,
        ) {
            Ok(_) => {},
            Err(halt) => {
                return Err(halt);
            },
        }
        match push_path_denies(
            &mut denies,
            DeniedAccess::ReadWrite,
            path_join(home, ".codex/auth.json").as_str(),
            DenyScope::File,
            facts,
        ) {
            Ok(_) => {},
            Err(halt) => {
                return Err(halt);
            },
        }
        match push_path_denies(
            &mut denies,
            DeniedAccess::Read,
            path_join(home, ".pi/agent/extensions/sandbox.json").as_str(),
            DenyScope::File,
            facts,
        ) {
            Ok(_) => {},
            Err(halt) => {
                return Err(halt);
            },
        }
        match push_path_denies(
            &mut denies,
            DeniedAccess::Write,
            path_join(home, ".pi").as_str(),
            DenyScope::Tree,
            facts,
        ) {
            Ok(_) => {},
            Err(halt) => {
                return Err(halt);
            },
        }
        match push_path_denies(
            &mut denies,
            DeniedAccess::Write,
            path_join(home, ".codex").as_str(),
            DenyScope::Tree,
            facts,
        ) {
            Ok(_) => {},
            Err(halt) => {
                return Err(halt);
            },
        }
        match push_path_denies(&mut denies, DeniedAccess::ReadWrite, broker, DenyScope::File, facts) {
            Ok(_) => {},
            Err(halt) => {
                return Err(halt);
            },
        }
        let ghost fixed = models(denies@);
        assert(fixed_denies(facts@, home@, broker@) == Ok::<Seq<Deny>, HaltModel>(fixed));
        let mut exempt: Vec<String> = Vec::new();
        match development_cache {
            Some(root) => {
                exempt.push(root.to_owned());
                assert(texts(exempt@) =~= seq![root@]);
            },
            None => {
                assert(texts(exempt@) =~= Seq::empty());
            },
        }
        denies.push(
            glob_deny_with_exemptions(DeniedAccess::ReadWrite, "/**/*.env", copy_texts(&exempt)),
        );
        denies.push(glob_deny_with_exemptions(DeniedAccess::ReadWrite, "/**/.env.*", exempt));
        denies.push(glob_deny(DeniedAccess::Read, joined(home, "/**/*.key").as_str()));
        denies.push(glob_deny(DeniedAccess::Write, "/**/*.key"));
        denies.push(glob_deny(DeniedAccess::Write, "/**/*.pem"));
        let ghost cache = match development_cache {
            Some(root) => Some(root@),
            None => None,
        };
        assert(models(denies@) =~= fixed + name_denies(home@, cache));
        Ok(HardPolicy { denies })
    }

    /// The fixed policy for given paths.
    ///
    /// # Errors
    ///
    /// Fails where the helper files cannot be located.
    pub fn from_paths(
        home: &str,
        broker: &str,
        development_cache: Option<&str>,
        helpers: &Result<Vec<String>, String>,
        facts: &Facts,
    ) -> (result: Result<HardPolicy, Halt>)
        ensures
            decided(result) == denies_for_paths(
                facts@,
                home@,
                broker@,
                match development_cache {
                    Some(root) => Some(root@),
                    None => None,
                },
                match *helpers {
                    Ok(helpers) => Ok(texts(helpers@)),
                    Err(error) => Err(error@),
                },
            ),
    {
        let mut policy = match HardPolicy::base_for_paths(home, broker, development_cache, facts) {
            Ok(policy) => policy,
            Err(halt) => {
                return Err(halt);
            },
        };
        let files = match helpers {
            Ok(files) => files,
            Err(error) => {
                return Err(refused(error.clone()));
            },
        };
        let ghost base = Ok::<Seq<Deny>, HaltModel>(policy@);
        let ghost names = texts(files@);
        let mut i: usize = 0;
        assert(names.take(0) =~= Seq::empty());
        let mut denies = policy.denies;
        while i < files.len()
            invariant
                i <= files@.len(),
                names == texts(files@),
                with_helpers(facts@, base, names.take(i as int)) == Ok::<Seq<Deny>, HaltModel>(
                    models(denies@),
                ),
                base is Ok,
                *helpers is Ok && texts(helpers->Ok_0@) == names,
                base_denies(
                    facts@,
                    home@,
                    broker@,
                    match development_cache {
                        Some(root) => Some(root@),
                        None => None,
                    },
                ) == base,
            decreases files@.len() - i,
        {
            let pushed = push_path_denies(
                &mut denies,
                DeniedAccess::Write,
                files[i].as_str(),
                DenyScope::File,
                facts,
            );
            i = i + 1;
            assert(names.take(i as int).drop_last() =~= names.take(i - 1));
            assert(names.take(i as int).last() == files@[i - 1]@);
            match pushed {
                Ok(_) => {},
                Err(halt) => {
                    proof {
                        lemma_helpers_stay(facts@, base, names, i as int);
                    }
                    return Err(halt);
                },
            }
        }
        assert(names.take(i as int) =~= names);
        Ok(HardPolicy { denies })
    }

    /// The fixed policy, from what the broker was started with.
    ///
    /// # Errors
    ///
    /// Fails where the home directory, the broker's executable or the cache root
    /// cannot be resolved, or where the cache root is not below the home directory.
    pub fn from_host(environment: &HostEnvironment, facts: &Facts) -> (result: Result<
        HardPolicy,
        Halt,
    >)
        ensures
            decided(result) == host_denies(facts@, environment@),
    {
        let home = match &environment.home {
            Some(home) => home,
            None => {
                return Err(refused("broker HOME is missing".to_owned()));
            },
        };
        let home = match normalize_existing(home.as_str(), facts) {
            Ok(home) => home,
            Err(halt) => {
                return Err(halt);
            },
        };
        let executable = match &environment.executable {
            Ok(executable) => executable,
            Err(error) => {
                return Err(refused(joined("cannot locate broker executable: ", error.as_str())));
            },
        };
        let broker = match normalize_existing(executable.as_str(), facts) {
            Ok(broker) => broker,
            Err(halt) => {
                return Err(halt);
            },
        };
        match &environment.development_cache {
            None => HardPolicy::from_paths(
                home.as_str(),
                broker.as_str(),
                None,
                &environment.helpers,
                facts,
            ),
            Some(cache) => match normalize_development_cache_root(
                cache.as_str(),
                home.as_str(),
                facts,
            ) {
                Ok(root) => HardPolicy::from_paths(
                    home.as_str(),
                    broker.as_str(),
                    Some(root.as_str()),
                    &environment.helpers,
                    facts,
                ),
                Err(halt) => Err(halt),
            },
        }
    }
}

} // verus!
