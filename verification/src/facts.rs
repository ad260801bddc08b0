//! What is known of the host's filesystem.
//!
//! The decisions of this crate read the filesystem through `Facts`, a record of
//! what the host has been asked so far. Where a decision needs a fact that is
//! not on record it stops with `Halt::Probe` and names the fact; the caller
//! looks it up, records it and asks again.

use vstd::hash_map::StringHashMap;
use vstd::prelude::*;
use vstd::string::*;

verus! {

/// What a path leads to.
#[derive(Clone, Copy, Debug, PartialEq, Eq, Structural)]
pub enum FileKind {
    File,
    Directory,
    Socket,
    Other,
}

/// The file that a path leads to, symbolic links followed.
#[derive(Clone, Copy, Debug, PartialEq, Eq, Structural)]
pub struct Target {
    pub kind: FileKind,
    pub device: u64,
    pub inode: u64,
}

/// What the host says of one path.
#[derive(Debug)]
pub struct PathFacts {
    /// The file behind the path, or why it cannot be inspected.
    pub target: Result<Target, String>,
    /// The path with every symbolic link resolved, or why there is none.
    pub canonical: Result<String, String>,
    /// Whether the path itself is a symbolic link; `None` where even that
    /// cannot be told.
    pub link: Option<bool>,
}

/// What a path was found to be.
pub struct PathModel {
    pub target: Result<Target, Seq<char>>,
    pub canonical: Result<Seq<char>, Seq<char>>,
    pub link: Option<bool>,
}

/// The text of a failure.
pub open spec fn failure<T>(result: Result<T, String>) -> Result<T, Seq<char>> {
    match result {
        Ok(value) => Ok(value),
        Err(error) => Err(error@),
    }
}

/// The text of a result.
pub open spec fn text_result(result: Result<String, String>) -> Result<Seq<char>, Seq<char>> {
    match result {
        Ok(value) => Ok(value@),
        Err(error) => Err(error@),
    }
}

impl View for PathFacts {
    type V = PathModel;

    open spec fn view(&self) -> PathModel {
        PathModel {
            target: failure(self.target),
            canonical: text_result(self.canonical),
            link: self.link,
        }
    }
}

impl PathModel {
    pub open spec fn is_present(self) -> bool {
        self.target is Ok
    }

    pub open spec fn is_dir(self) -> bool {
        self.target is Ok && self.target->Ok_0.kind == FileKind::Directory
    }

    pub open spec fn is_file(self) -> bool {
        self.target is Ok && self.target->Ok_0.kind == FileKind::File
    }

    pub open spec fn is_socket(self) -> bool {
        self.target is Ok && self.target->Ok_0.kind == FileKind::Socket
    }

    pub open spec fn is_link(self) -> bool {
        self.link == Some(true)
    }
}

impl PathFacts {
    pub fn is_present(&self) -> (present: bool)
        ensures
            present == self@.is_present(),
    {
        self.target.is_ok()
    }

    pub fn is_dir(&self) -> (dir: bool)
        ensures
            dir == self@.is_dir(),
    {
        match &self.target {
            Ok(target) => target.kind == FileKind::Directory,
            Err(_) => false,
        }
    }

    pub fn is_file(&self) -> (file: bool)
        ensures
            file == self@.is_file(),
    {
        match &self.target {
            Ok(target) => target.kind == FileKind::File,
            Err(_) => false,
        }
    }

    pub fn is_socket(&self) -> (socket: bool)
        ensures
            socket == self@.is_socket(),
    {
        match &self.target {
            Ok(target) => target.kind == FileKind::Socket,
            Err(_) => false,
        }
    }

    pub fn is_link(&self) -> (link: bool)
        ensures
            link == self@.is_link(),
    {
        match self.link {
            Some(link) => link,
            None => false,
        }
    }
}

/// What a directory entry is, symbolic links not followed.
#[derive(Clone, Copy, Debug, PartialEq, Eq, Structural)]
pub enum EntryKind {
    File,
    Directory,
    Symlink,
    Other,
}

/// One item of a directory listing.
#[derive(Debug)]
pub enum EntryFacts {
    /// Reading the next entry failed.
    Unreadable(String),
    /// An entry, and what it is or why that cannot be told.
    Entry { name: String, kind: Result<EntryKind, String> },
}

/// One item of a directory listing.
pub enum EntryModel {
    Unreadable(Seq<char>),
    Entry { name: Seq<char>, kind: Result<EntryKind, Seq<char>> },
}

impl View for EntryFacts {
    type V = EntryModel;

    open spec fn view(&self) -> EntryModel {
        match *self {
            EntryFacts::Unreadable(error) => EntryModel::Unreadable(error@),
            EntryFacts::Entry { name, kind } => EntryModel::Entry { name: name@, kind: failure(kind) },
        }
    }
}

/// The views of a sequence of values.
pub open spec fn models<T: View>(items: Seq<T>) -> Seq<T::V> {
    Seq::new(items.len(), |i: int| items[i]@)
}

/// What the host says of the contents of one directory, in the order in which
/// it lists them.
pub type Listing = Result<Vec<EntryFacts>, String>;

/// What a directory was found to hold.
pub type ListingModel = Result<Seq<EntryModel>, Seq<char>>;

/// The model of a listing.
pub open spec fn listing_model(listing: Listing) -> ListingModel {
    match listing {
        Ok(entries) => Ok(models(entries@)),
        Err(error) => Err(error@),
    }
}

/// A scan of the filesystem that runs against a deadline.
#[derive(Clone, Copy, Debug, PartialEq, Eq, Structural)]
pub enum ScanKind {
    /// The search for control directories in the workspace.
    Controls,
    /// The expansion of deny globs.
    Globs,
}

/// A fact that a decision needs.
#[derive(Debug, PartialEq, Eq)]
pub enum Probe {
    /// What a path leads to.
    Path(String),
    /// What a directory holds.
    Listing(String),
    /// The deadline of a scan that starts now.
    Deadline(ScanKind),
}

/// A fact that a decision needs.
pub enum ProbeModel {
    Path(Seq<char>),
    Listing(Seq<char>),
    Deadline(ScanKind),
}

impl View for Probe {
    type V = ProbeModel;

    open spec fn view(&self) -> ProbeModel {
        match *self {
            Probe::Path(path) => ProbeModel::Path(path@),
            Probe::Listing(path) => ProbeModel::Listing(path@),
            Probe::Deadline(kind) => ProbeModel::Deadline(kind),
        }
    }
}

/// Why a decision was not reached.
#[derive(Debug, PartialEq, Eq)]
pub enum Halt {
    /// The request is refused, with the reason.
    Refused(String),
    /// Facts are missing.
    Probe(Vec<Probe>),
}

/// Why a decision was not reached.
pub enum HaltModel {
    Refused(Seq<char>),
    Probe(Seq<ProbeModel>),
}

impl View for Halt {
    type V = HaltModel;

    open spec fn view(&self) -> HaltModel {
        match *self {
            Halt::Refused(reason) => HaltModel::Refused(reason@),
            Halt::Probe(probes) => HaltModel::Probe(models(probes@)),
        }
    }
}

/// A decision, with its value and its reason as models.
pub type Decision<T> = Result<T, HaltModel>;

/// The model of a decision.
pub open spec fn decided<T: View>(result: Result<T, Halt>) -> Decision<T::V> {
    match result {
        Ok(value) => Ok(value@),
        Err(halt) => Err(halt@),
    }
}

/// The model of a decision on several values.
pub open spec fn decided_all<T: View>(result: Result<Vec<T>, Halt>) -> Decision<Seq<T::V>> {
    match result {
        Ok(values) => Ok(models(values@)),
        Err(halt) => Err(halt@),
    }
}

/// The decision to refuse for the given reason.
pub open spec fn refusal<T>(reason: Seq<char>) -> Decision<T> {
    Err(HaltModel::Refused(reason))
}

/// The decision to ask what `path` leads to.
pub open spec fn path_probe<T>(path: Seq<char>) -> Decision<T> {
    Err(HaltModel::Probe(seq![ProbeModel::Path(path)]))
}

/// The refusal for the given reason.
pub fn refused(reason: String) -> (halt: Halt)
    ensures
        halt@ == HaltModel::Refused(reason@),
{
    Halt::Refused(reason)
}

/// What is known of the host's filesystem.
pub struct Facts {
    paths: StringHashMap<PathFacts>,
    listings: StringHashMap<Listing>,
    control_deadline: Option<u64>,
    glob_deadline: Option<u64>,
}

/// What is known of the host's filesystem.
pub struct Host {
    pub paths: Map<Seq<char>, PathModel>,
    pub listings: Map<Seq<char>, ListingModel>,
    pub control_deadline: Option<u64>,
    pub glob_deadline: Option<u64>,
}

impl View for Facts {
    type V = Host;

    closed spec fn view(&self) -> Host {
        Host {
            paths: self.paths@.map_values(|facts: PathFacts| facts@),
            listings: self.listings@.map_values(|listing: Listing| listing_model(listing)),
            control_deadline: self.control_deadline,
            glob_deadline: self.glob_deadline,
        }
    }
}

impl Host {
    /// What is known of `path`, or the probe that would tell.
    pub open spec fn path(self, path: Seq<char>) -> Decision<PathModel> {
        if self.paths.contains_key(path) {
            Ok(self.paths[path])
        } else {
            path_probe(path)
        }
    }

    /// When the scan must be over, or the probe that would tell.
    pub open spec fn deadline(self, kind: ScanKind) -> Decision<u64> {
        let deadline = match kind {
            ScanKind::Controls => self.control_deadline,
            ScanKind::Globs => self.glob_deadline,
        };
        match deadline {
            Some(deadline) => Ok(deadline),
            None => Err(HaltModel::Probe(seq![ProbeModel::Deadline(kind)])),
        }
    }

    /// Whether `later` knows all that is known here.
    pub open spec fn extended_by(self, later: Host) -> bool {
        &&& forall|path: Seq<char>| #[trigger]
            self.paths.contains_key(path) ==> later.paths.contains_key(path)
                && later.paths[path] == self.paths[path]
        &&& forall|path: Seq<char>| #[trigger]
            self.listings.contains_key(path) ==> later.listings.contains_key(path)
                && later.listings[path] == self.listings[path]
        &&& self.control_deadline is Some ==> later.control_deadline == self.control_deadline
        &&& self.glob_deadline is Some ==> later.glob_deadline == self.glob_deadline
    }
}

impl Facts {
    /// Nothing is known yet.
    pub fn new() -> (facts: Facts)
        ensures
            facts@.paths == Map::<Seq<char>, PathModel>::empty(),
            facts@.listings == Map::<Seq<char>, ListingModel>::empty(),
            facts@.control_deadline is None,
            facts@.glob_deadline is None,
    {
        let facts = Facts {
            paths: StringHashMap::new(),
            listings: StringHashMap::new(),
            control_deadline: None,
            glob_deadline: None,
        };
        assert(facts@.paths =~= Map::<Seq<char>, PathModel>::empty());
        assert(facts@.listings =~= Map::<Seq<char>, ListingModel>::empty());
        facts
    }

    /// Records what a path leads to.
    pub fn record_path(&mut self, path: String, facts: PathFacts)
        ensures
            final(self)@ == (Host { paths: old(self)@.paths.insert(path@, facts@), ..old(self)@ }),
    {
        self.paths.insert(path, facts);
        assert(self@.paths =~= old(self)@.paths.insert(path@, facts@));
    }

    /// Records what a directory holds.
    pub fn record_listing(&mut self, path: String, listing: Listing)
        ensures
            final(self)@ == (Host {
                listings: old(self)@.listings.insert(path@, listing_model(listing)),
                ..old(self)@
            }),
    {
        self.listings.insert(path, listing);
        assert(self@.listings =~= old(self)@.listings.insert(path@, listing_model(listing)));
    }

    /// Records when a scan must be over.
    pub fn record_deadline(&mut self, kind: ScanKind, deadline: u64)
        ensures
            final(self)@ == (match kind {
                ScanKind::Controls => Host { control_deadline: Some(deadline), ..old(self)@ },
                ScanKind::Globs => Host { glob_deadline: Some(deadline), ..old(self)@ },
            }),
    {
        match kind {
            ScanKind::Controls => {
                self.control_deadline = Some(deadline);
            },
            ScanKind::Globs => {
                self.glob_deadline = Some(deadline);
            },
        }
    }

    /// What is known of `path`, or the probe that would tell.
    pub fn path(&self, path: &str) -> (known: Result<&PathFacts, Halt>)
        ensures
            match known {
                Ok(facts) => self@.path(path@) == Ok::<PathModel, HaltModel>(facts@),
                Err(halt) => self@.path(path@) == Err::<PathModel, HaltModel>(halt@),
            },
    {
        match self.paths.get(path) {
            Some(facts) => Ok(facts),
            None => {
                let mut probes: Vec<Probe> = Vec::new();
                probes.push(Probe::Path(path.to_owned()));
                assert(models(probes@) =~= seq![ProbeModel::Path(path@)]);
                Err(Halt::Probe(probes))
            },
        }
    }

    /// What is known of the contents of the directory at `path`.
    pub fn listing(&self, path: &str) -> (known: Option<&Listing>)
        ensures
            match known {
                Some(listing) => self@.listings.contains_key(path@) && self@.listings[path@]
                    == listing_model(*listing),
                None => !self@.listings.contains_key(path@),
            },
    {
        self.listings.get(path)
    }

    /// When the scan must be over, or the probe that would tell.
    pub fn deadline(&self, kind: ScanKind) -> (known: Result<u64, Halt>)
        ensures
            decided(known) == self@.deadline(kind),
    {
        let deadline = match kind {
            ScanKind::Controls => self.control_deadline,
            ScanKind::Globs => self.glob_deadline,
        };
        match deadline {
            Some(deadline) => Ok(deadline),
            None => {
                let mut probes: Vec<Probe> = Vec::new();
                probes.push(Probe::Deadline(kind));
                assert(models(probes@) =~= seq![ProbeModel::Deadline(kind)]);
                Err(Halt::Probe(probes))
            },
        }
    }
}

/// The decisions on each of `items` in turn, up to the first that is not reached.
pub open spec fn each<A, B>(items: Seq<A>, step: spec_fn(A) -> Decision<B>) -> Decision<Seq<B>>
    decreases items.len(),
{
    if items.len() == 0 {
        Ok(Seq::empty())
    } else {
        match each(items.drop_last(), step) {
            Ok(done) => match step(items.last()) {
                Ok(value) => Ok(done.push(value)),
                Err(halt) => Err(halt),
            },
            Err(halt) => Err(halt),
        }
    }
}

/// One more decision.
pub proof fn lemma_each_step<A, B>(items: Seq<A>, step: spec_fn(A) -> Decision<B>, i: int)
    requires
        0 <= i < items.len(),
        each(items.take(i), step) is Ok,
    ensures
        each(items.take(i + 1), step) == (match step(items[i]) {
            Ok(value) => Ok(each(items.take(i), step)->Ok_0.push(value)),
            Err(halt) => Err(halt),
        }),
        step(items[i]) is Err ==> each(items, step) == Err::<Seq<B>, HaltModel>(
            step(items[i])->Err_0,
        ),
{
    assert(items.take(i + 1).drop_last() =~= items.take(i));
    if step(items[i]) is Err {
        lemma_each_stays(items, step, i + 1, items.len() as int);
        assert(items.take(items.len() as int) =~= items);
    }
}

proof fn lemma_each_stays<A, B>(
    items: Seq<A>,
    step: spec_fn(A) -> Decision<B>,
    from: int,
    to: int,
)
    requires
        0 <= from <= to <= items.len(),
        each(items.take(from), step) is Err,
    ensures
        each(items.take(to), step) == each(items.take(from), step),
    decreases to - from,
{
    if from < to {
        lemma_each_stays(items, step, from, to - 1);
        assert(items.take(to).drop_last() =~= items.take(to - 1));
    }
}

} // verus!
