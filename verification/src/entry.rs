use vstd::prelude::*;

use crate::relpath::RelPath;
use crate::ProjectEntryId;

verus! {

/// A filesystem modification time: seconds and nanoseconds since an epoch.
/// Totally ordered and equality-comparable, as the snapshot model requires.
#[derive(Clone, Copy, Debug, PartialEq, Eq, Structural)]
pub struct Mtime {
    pub seconds: u64,
    pub nanos: u32,
}

/// What kind of node an entry stands for. `UnloadedDir` is a directory known
/// to exist whose contents were deliberately not read; `PendingDir` is a
/// directory whose scan has been scheduled but has not finished.
#[derive(Clone, Copy, Debug, PartialEq, Eq, Structural)]
pub enum EntryKind {
    UnloadedDir,
    PendingDir,
    Dir,
    File,
}

impl EntryKind {
    pub fn is_dir(&self) -> (r: bool)
        ensures
            r == (*self is UnloadedDir || *self is PendingDir || *self is Dir),
    {
        matches!(self, EntryKind::UnloadedDir | EntryKind::PendingDir | EntryKind::Dir)
    }

    pub fn is_unloaded(&self) -> (r: bool)
        ensures
            r == (*self is UnloadedDir),
    {
        matches!(self, EntryKind::UnloadedDir)
    }

    pub fn is_file(&self) -> (r: bool)
        ensures
            r == (*self is File),
    {
        matches!(self, EntryKind::File)
    }
}

/// How one path changed between two snapshots.
#[derive(Clone, Copy, Debug, PartialEq, Eq, Structural)]
pub enum PathChange {
    /// A filesystem entry was created.
    Added,
    /// A filesystem entry was removed.
    Removed,
    /// A filesystem entry was updated.
    Updated,
    /// Either updated or added: the path had not been loaded before the
    /// event, so the two cannot be told apart.
    AddedOrUpdated,
    /// Found during the initial scan, or while expanding an unloaded
    /// directory.
    Loaded,
}

/// One tracked node of the worktree.
#[derive(Debug)]
pub struct Entry {
    pub id: ProjectEntryId,
    pub kind: EntryKind,
    pub path: RelPath,
    pub inode: u64,
    pub mtime: Option<Mtime>,
    /// For symlinks: where the link resolves to, as raw bytes of an
    /// absolute path.
    pub canonical_path: Option<Vec<u8>>,
    /// Ignored by an applicable ignore file.
    pub is_ignored: bool,
    /// Matches a user inclusion pattern, overriding `is_ignored` for
    /// visibility.
    pub is_always_included: bool,
    /// The canonical path escapes the worktree root (symlink target
    /// outside).
    pub is_external: bool,
    /// Matches a user privacy pattern.
    pub is_private: bool,
    pub is_fifo: bool,
    /// Size on disk, in bytes.
    pub size: u64,
}

/// The mathematical value of an `Entry`.
pub struct EntryV {
    pub id: u64,
    pub kind: EntryKind,
    pub path: Seq<Seq<u8>>,
    pub inode: u64,
    pub mtime: Option<Mtime>,
    pub canonical_path: Option<Seq<u8>>,
    pub is_ignored: bool,
    pub is_always_included: bool,
    pub is_external: bool,
    pub is_private: bool,
    pub is_fifo: bool,
    pub size: u64,
}

impl View for Entry {
    type V = EntryV;

    open spec fn view(&self) -> EntryV {
        EntryV {
            id: self.id.0,
            kind: self.kind,
            path: self.path@,
            inode: self.inode,
            mtime: self.mtime,
            canonical_path: match self.canonical_path {
                Some(ref c) => Some(c@),
                None => None,
            },
            is_ignored: self.is_ignored,
            is_always_included: self.is_always_included,
            is_external: self.is_external,
            is_private: self.is_private,
            is_fifo: self.is_fifo,
            size: self.size,
        }
    }
}

impl EntryV {
    pub open spec fn is_dir(&self) -> bool {
        self.kind is UnloadedDir || self.kind is PendingDir || self.kind is Dir
    }

    pub open spec fn is_file(&self) -> bool {
        self.kind is File
    }

    /// Counts toward the non-ignored dimensions of the tree.
    pub open spec fn is_visible(&self) -> bool {
        (!self.is_ignored && !self.is_external) || self.is_always_included
    }
}

impl Entry {
    pub fn is_created(&self) -> (r: bool)
        ensures
            r == (self@.mtime is Some),
    {
        self.mtime.is_some()
    }

    pub fn is_dir(&self) -> (r: bool)
        ensures
            r == self@.is_dir(),
    {
        self.kind.is_dir()
    }

    pub fn is_file(&self) -> (r: bool)
        ensures
            r == self@.is_file(),
    {
        self.kind.is_file()
    }

    pub fn is_visible(&self) -> (r: bool)
        ensures
            r == self@.is_visible(),
    {
        (!self.is_ignored && !self.is_external) || self.is_always_included
    }

    pub fn clone_entry(&self) -> (r: Entry)
        ensures
            r@ == self@,
    {
        let canonical_path = match &self.canonical_path {
            Some(c) => Some(crate::relpath::clone_bytes(c)),
            None => None,
        };
        let r = Entry {
            id: self.id,
            kind: self.kind,
            path: self.path.clone_path(),
            inode: self.inode,
            mtime: self.mtime,
            canonical_path,
            is_ignored: self.is_ignored,
            is_always_included: self.is_always_included,
            is_external: self.is_external,
            is_private: self.is_private,
            is_fifo: self.is_fifo,
            size: self.size,
        };
        proof {
            assert(r@.path =~~= self@.path);
            assert(match (r@.canonical_path, self@.canonical_path) {
                (Some(a), Some(b)) => a =~= b,
                (None, None) => true,
                _ => false,
            });
            assert(r@ == self@);
        }
        r
    }
}

/// One row of the identity index: where an entry id currently lives.
#[derive(Debug)]
pub struct PathEntry {
    pub id: ProjectEntryId,
    pub path: RelPath,
    pub is_ignored: bool,
    pub scan_id: u64,
}

/// The mathematical value of a `PathEntry`.
pub struct PathEntryV {
    pub id: u64,
    pub path: Seq<Seq<u8>>,
    pub is_ignored: bool,
    pub scan_id: u64,
}

impl View for PathEntry {
    type V = PathEntryV;

    open spec fn view(&self) -> PathEntryV {
        PathEntryV { id: self.id.0, path: self.path@, is_ignored: self.is_ignored, scan_id: self.scan_id }
    }
}

impl PathEntry {
    pub fn clone_path_entry(&self) -> (r: PathEntry)
        ensures
            r@ == self@,
    {
        let r = PathEntry {
            id: self.id,
            path: self.path.clone_path(),
            is_ignored: self.is_ignored,
            scan_id: self.scan_id,
        };
        proof {
            assert(r@.path =~~= self@.path);
            assert(r@ == self@);
        }
        r
    }
}

/// A path used as an ordered key.
#[derive(Debug)]
pub struct PathKey(pub RelPath);

/// The identity of a repository's work directory.
#[derive(Clone, Copy, Debug, PartialEq, Eq, Structural)]
pub struct WorkDirectoryEntry(pub ProjectEntryId);

impl WorkDirectoryEntry {
    pub fn from_id(value: ProjectEntryId) -> (r: WorkDirectoryEntry)
        ensures
            r.0 == value,
    {
        WorkDirectoryEntry(value)
    }
}


/// The aggregate of a run of path-keyed items: the greatest path seen and
/// the accumulated item summary.
#[derive(Debug)]
pub struct PathSummary<S> {
    pub max_path: RelPath,
    pub item_summary: S,
}

/// Aggregate dimensions of a run of entries: how many entries in all, how
/// many are visible, and the same two counts restricted to files.
#[derive(Clone, Copy, Debug, PartialEq, Eq, Structural)]
pub struct EntrySummary {
    pub count: usize,
    pub non_ignored_count: usize,
    pub file_count: usize,
    pub non_ignored_file_count: usize,
}

/// Whether an entry counts toward a dimension selected by the three
/// traversal filters.
pub open spec fn counts_toward(e: EntryV, include_files: bool, include_dirs: bool, include_ignored: bool) -> bool {
    &&& (include_files || !e.is_file())
    &&& (include_dirs || !e.is_dir())
    &&& (include_ignored || e.is_visible())
}

/// The number of entries of `s` that count toward the selected dimension.
pub open spec fn dimension_count(s: Seq<EntryV>, include_files: bool, include_dirs: bool, include_ignored: bool) -> int
    decreases s.len(),
{
    if s.len() == 0 {
        0
    } else {
        dimension_count(s.skip(1), include_files, include_dirs, include_ignored) + if counts_toward(
            s[0],
            include_files,
            include_dirs,
            include_ignored,
        ) {
            1int
        } else {
            0int
        }
    }
}

pub proof fn lemma_dimension_count_bound(s: Seq<EntryV>, f: bool, d: bool, g: bool)
    ensures
        0 <= dimension_count(s, f, d, g) <= s.len(),
    decreases s.len(),
{
    if s.len() > 0 {
        lemma_dimension_count_bound(s.skip(1), f, d, g);
    }
}

pub proof fn lemma_dimension_count_push(s: Seq<EntryV>, e: EntryV, f: bool, d: bool, g: bool)
    ensures
        dimension_count(s.push(e), f, d, g) == dimension_count(s, f, d, g) + if counts_toward(
            e,
            f,
            d,
            g,
        ) {
            1int
        } else {
            0int
        },
    decreases s.len(),
{
    if s.len() == 0 {
        assert(s.push(e).skip(1) =~= Seq::<EntryV>::empty());
        assert(s.push(e)[0] == e);
        assert(s.push(e).len() == 1);
        assert(dimension_count(s.push(e).skip(1), f, d, g) == 0);
        assert(dimension_count(s.push(e), f, d, g) == (if counts_toward(e, f, d, g) { 1int } else { 0int }));
        assert(dimension_count(s, f, d, g) == 0);
    } else {
        assert(s.push(e)[0] == s[0]);
        assert(s.push(e).skip(1) =~= s.skip(1).push(e));
        lemma_dimension_count_push(s.skip(1), e, f, d, g);
        assert(dimension_count(s.push(e), f, d, g) == dimension_count(s.skip(1).push(e), f, d, g)
            + if counts_toward(s[0], f, d, g) { 1int } else { 0int });
    }
}

impl EntrySummary {
    pub fn zero() -> (r: EntrySummary)
        ensures
            r.count == 0,
            r.non_ignored_count == 0,
            r.file_count == 0,
            r.non_ignored_file_count == 0,
    {
        EntrySummary { count: 0, non_ignored_count: 0, file_count: 0, non_ignored_file_count: 0 }
    }
}

/// Sums the four dimensions over a run of entries.
pub fn summarize(entries: &Vec<Entry>) -> (r: EntrySummary)
    ensures
        r.count == entries@.len(),
        r.non_ignored_count == dimension_count(
            entries@.map(|_i: int, e: Entry| e@),
            true,
            true,
            false,
        ),
        r.file_count == dimension_count(entries@.map(|_i: int, e: Entry| e@), true, false, true),
        r.non_ignored_file_count == dimension_count(
            entries@.map(|_i: int, e: Entry| e@),
            true,
            false,
            false,
        ),
{
    let ghost all = entries@.map(|_i: int, e: Entry| e@);
    let n = entries.len();
    let mut r = EntrySummary::zero();
    let mut i: usize = 0;
    proof {
        assert(all.subrange(0, 0) =~= Seq::<EntryV>::empty());
    }
    while i < entries.len()
        invariant
            i <= entries@.len(),
            entries@.len() == n,
            all == entries@.map(|_i: int, e: Entry| e@),
            all.len() == entries@.len(),
            r.count == i,
            r.non_ignored_count == dimension_count(all.subrange(0, i as int), true, true, false),
            r.file_count == dimension_count(all.subrange(0, i as int), true, false, true),
            r.non_ignored_file_count == dimension_count(
                all.subrange(0, i as int),
                true,
                false,
                false,
            ),
        decreases entries@.len() - i,
    {
        proof {
            lemma_dimension_count_bound(all.subrange(0, i as int), true, true, false);
            lemma_dimension_count_bound(all.subrange(0, i as int), true, false, true);
            lemma_dimension_count_bound(all.subrange(0, i as int), true, false, false);
            assert(all.subrange(0, i + 1) =~= all.subrange(0, i as int).push(all[i as int]));
            lemma_dimension_count_push(all.subrange(0, i as int), all[i as int], true, true, false);
            lemma_dimension_count_push(all.subrange(0, i as int), all[i as int], true, false, true);
            lemma_dimension_count_push(all.subrange(0, i as int), all[i as int], true, false, false);
        }
        let e = &entries[i];
        r.count = r.count + 1;
        if e.is_visible() {
            r.non_ignored_count = r.non_ignored_count + 1;
        }
        if e.is_file() {
            r.file_count = r.file_count + 1;
            if e.is_visible() {
                r.non_ignored_file_count = r.non_ignored_file_count + 1;
            }
        }
        i = i + 1;
    }
    proof {
        assert(all.subrange(0, all.len() as int) =~= all);
    }
    r
}

} // verus!
