use vstd::prelude::*;

use crate::entry::{counts_toward, dimension_count, Entry, EntryV, PathEntry, PathEntryV};
use crate::relpath::{
    lemma_path_lt_trans, lemma_path_lt_trichotomy, path_is_prefix, path_lt, Order, RelPath,
};
use crate::repository::{RepositoryEntry, RepositoryEntryV};
use crate::status::FileStatus;

verus! {

/// Entries sorted strictly by path: the tree order.
pub open spec fn entries_sorted(s: Seq<EntryV>) -> bool {
    forall|i: int, j: int|
        0 <= i < j < s.len() ==> path_lt(#[trigger] s[i].path, #[trigger] s[j].path)
}

pub open spec fn entries_contain_path(s: Seq<EntryV>, p: Seq<Seq<u8>>) -> bool {
    exists|i: int| 0 <= i < s.len() && #[trigger] s[i].path =~~= p
}

/// The entry recorded at `p`; meaningful when `p` is present and the list
/// is sorted, which makes the position unique.
pub open spec fn entry_at(s: Seq<EntryV>, p: Seq<Seq<u8>>) -> EntryV {
    s[choose|i: int| 0 <= i < s.len() && #[trigger] s[i].path =~~= p]
}

/// Identity rows sorted strictly by id.
pub open spec fn ids_sorted(s: Seq<PathEntryV>) -> bool {
    forall|i: int, j: int| 0 <= i < j < s.len() ==> #[trigger] s[i].id < #[trigger] s[j].id
}

pub open spec fn ids_contain(s: Seq<PathEntryV>, id: u64) -> bool {
    exists|i: int| 0 <= i < s.len() && #[trigger] s[i].id == id
}

/// The identity row for `id`; meaningful when present and sorted.
pub open spec fn id_at(s: Seq<PathEntryV>, id: u64) -> PathEntryV {
    s[choose|i: int| 0 <= i < s.len() && #[trigger] s[i].id == id]
}

/// Repositories sorted strictly by work-directory path.
pub open spec fn repos_sorted(s: Seq<RepositoryEntryV>) -> bool {
    forall|i: int, j: int|
        0 <= i < j < s.len() ==> path_lt(
            #[trigger] s[i].work_directory.path,
            #[trigger] s[j].work_directory.path,
        )
}

pub open spec fn repos_contain_path(s: Seq<RepositoryEntryV>, p: Seq<Seq<u8>>) -> bool {
    exists|i: int| 0 <= i < s.len() && #[trigger] s[i].work_directory.path =~~= p
}

/// The repository whose work directory is `p`; meaningful when present and
/// sorted.
pub open spec fn repo_at(s: Seq<RepositoryEntryV>, p: Seq<Seq<u8>>) -> RepositoryEntryV {
    s[choose|i: int| 0 <= i < s.len() && #[trigger] s[i].work_directory.path =~~= p]
}

/// The path tree and the identity index describe the same set of
/// `(path, id)` pairs, with matching ignore flags.
pub open spec fn indices_agree(entries: Seq<EntryV>, by_id: Seq<PathEntryV>) -> bool {
    &&& forall|i: int|
        0 <= i < entries.len() ==> ids_contain(by_id, #[trigger] entries[i].id) && id_at(
            by_id,
            entries[i].id,
        ).path =~~= entries[i].path
    &&& forall|j: int|
        0 <= j < by_id.len() ==> entries_contain_path(entries, #[trigger] by_id[j].path)
            && entry_at(entries, by_id[j].path).id == by_id[j].id
}

/// An immutable view of the whole worktree state at one scan generation.
#[derive(Debug)]
pub struct Snapshot {
    pub id: u64,
    /// The absolute path of the worktree root, as raw bytes.
    pub abs_path: Vec<u8>,
    pub root_name: Vec<u8>,
    /// All entries, sorted by path.
    pub entries_by_path: Vec<Entry>,
    /// All entries again, keyed and sorted by id.
    pub entries_by_id: Vec<PathEntry>,
    /// All repositories, sorted by work-directory path.
    pub repositories: Vec<RepositoryEntry>,
    pub scan_id: u64,
    pub completed_scan_id: u64,
}

/// The mathematical value of a `Snapshot`.
pub struct SnapshotV {
    pub id: u64,
    pub abs_path: Seq<u8>,
    pub root_name: Seq<u8>,
    pub entries: Seq<EntryV>,
    pub by_id: Seq<PathEntryV>,
    pub repos: Seq<RepositoryEntryV>,
    pub scan_id: u64,
    pub completed_scan_id: u64,
}

impl View for Snapshot {
    type V = SnapshotV;

    open spec fn view(&self) -> SnapshotV {
        SnapshotV {
            id: self.id,
            abs_path: self.abs_path@,
            root_name: self.root_name@,
            entries: self.entries_by_path@.map(|_i: int, e: Entry| e@),
            by_id: self.entries_by_id@.map(|_i: int, e: PathEntry| e@),
            repos: self.repositories@.map(|_i: int, e: RepositoryEntry| e@),
            scan_id: self.scan_id,
            completed_scan_id: self.completed_scan_id,
        }
    }
}

impl Snapshot {
    /// Every structural invariant of a snapshot: both indices sorted and
    /// agreeing on the `(path, id)` pairs, repositories sorted with sorted
    /// statuses, and the completed generation never ahead of the started
    /// one.
    pub open spec fn wf(&self) -> bool {
        &&& entries_sorted(self@.entries)
        &&& ids_sorted(self@.by_id)
        &&& indices_agree(self@.entries, self@.by_id)
        &&& repos_sorted(self@.repos)
        &&& (forall|i: int|
            0 <= i < self@.repos.len() ==> crate::repository::statuses_sorted(
                #[trigger] self@.repos[i].statuses,
            ))
        &&& self@.completed_scan_id <= self@.scan_id
    }

    /// A fresh, empty snapshot at the first scan generation.
    pub fn new(id: u64, root_name: Vec<u8>, abs_path: Vec<u8>) -> (r: Snapshot)
        ensures
            r.wf(),
            r@.id == id,
            r@.root_name == root_name@,
            r@.abs_path == abs_path@,
            r@.entries.len() == 0,
            r@.by_id.len() == 0,
            r@.repos.len() == 0,
            r@.scan_id == 1,
            r@.completed_scan_id == 0,
    {
        Snapshot {
            id,
            abs_path,
            root_name,
            entries_by_path: Vec::new(),
            entries_by_id: Vec::new(),
            repositories: Vec::new(),
            scan_id: 1,
            completed_scan_id: 0,
        }
    }

    pub fn scan_id(&self) -> (r: u64)
        ensures
            r == self@.scan_id,
    {
        self.scan_id
    }

    pub fn completed_scan_id(&self) -> (r: u64)
        ensures
            r == self@.completed_scan_id,
    {
        self.completed_scan_id
    }

    pub fn worktree_id(&self) -> (r: u64)
        ensures
            r == self@.id,
    {
        self.id
    }

    pub fn root_name(&self) -> (r: &Vec<u8>)
        ensures
            r@ == self@.root_name,
    {
        &self.root_name
    }

    pub fn abs_path(&self) -> (r: &Vec<u8>)
        ensures
            r@ == self@.abs_path,
    {
        &self.abs_path
    }

    /// Point lookup in the path tree.
    pub fn entry_for_path(&self, path: &RelPath) -> (r: Option<&Entry>)
        requires
            self.wf(),
        ensures
            entries_contain_path(self@.entries, path@) ==> (r matches Some(e) && e@ == entry_at(
                self@.entries,
                path@,
            ) && e@.path =~~= path@),
            !entries_contain_path(self@.entries, path@) ==> r is None,
    {
        let (i, found) = entry_lower_bound(&self.entries_by_path, path);
        if found {
            let e = &self.entries_by_path[i];
            proof {
                lemma_unique_entry(self@.entries, path@, i as int);
            }
            Some(e)
        } else {
            proof {
                lemma_lower_bound_absent(self@.entries, path@, i as int);
            }
            None
        }
    }

    /// The root entry, when the root itself has been scanned.
    pub fn root_entry(&self) -> (r: Option<&Entry>)
        requires
            self.wf(),
        ensures
            entries_contain_path(self@.entries, Seq::<Seq<u8>>::empty()) ==> (r matches Some(e)
                && e@ == entry_at(self@.entries, Seq::<Seq<u8>>::empty())),
            !entries_contain_path(self@.entries, Seq::<Seq<u8>>::empty()) ==> r is None,
    {
        let root = RelPath::root();
        let r = self.entry_for_path(&root);
        r
    }

    /// Point lookup in the identity index, resolved to the full entry.
    pub fn entry_for_id(&self, id: u64) -> (r: Option<&Entry>)
        requires
            self.wf(),
        ensures
            ids_contain(self@.by_id, id) ==> (r matches Some(e) && e@.id == id && e@.path =~~= id_at(
                self@.by_id,
                id,
            ).path && e@ == entry_at(self@.entries, id_at(self@.by_id, id).path)),
            !ids_contain(self@.by_id, id) ==> r is None,
    {
        let (i, found) = id_lower_bound(&self.entries_by_id, id);
        if found {
            proof {
                lemma_unique_id(self@.by_id, id, i as int);
            }
            let row = &self.entries_by_id[i];
            let r = self.entry_for_path(&row.path);
            proof {
                assert(entries_contain_path(self@.entries, row.path@));
                assert(entry_at(self@.entries, row.path@).id == id);
            }
            r
        } else {
            proof {
                if ids_contain(self@.by_id, id) {
                    let w = choose|k: int|
                        0 <= k < self@.by_id.len() && #[trigger] self@.by_id[k].id == id;
                    if w < i as int {
                        assert(self@.by_id[w].id < id);
                    } else {
                        assert(id < self@.by_id[i as int].id);
                        if w > i as int {
                            assert(self@.by_id[i as int].id < self@.by_id[w].id);
                        }
                    }
                }
            }
            None
        }
    }

    /// Whether an entry with this id is tracked.
    pub fn contains_entry(&self, id: u64) -> (r: bool)
        requires
            self.wf(),
        ensures
            r <==> ids_contain(self@.by_id, id),
    {
        let (i, found) = id_lower_bound(&self.entries_by_id, id);
        proof {
            if found {
                assert(self@.by_id[i as int].id == id);
            }
        }
        found
    }

    /// The inode recorded for a path.
    pub fn inode_for_path(&self, path: &RelPath) -> (r: Option<u64>)
        requires
            self.wf(),
        ensures
            entries_contain_path(self@.entries, path@) ==> r == Some(
                entry_at(self@.entries, path@).inode,
            ),
            !entries_contain_path(self@.entries, path@) ==> r is None,
    {
        match self.entry_for_path(path) {
            Some(e) => Some(e.inode),
            None => None,
        }
    }

    pub fn entry_count(&self) -> (r: usize)
        ensures
            r == self@.entries.len(),
    {
        self.entries_by_path.len()
    }

    /// The four aggregate dimensions of the whole tree.
    pub fn summary(&self) -> (r: crate::entry::EntrySummary)
        ensures
            r.count == self@.entries.len(),
            r.non_ignored_count == dimension_count(self@.entries, true, true, false),
            r.file_count == dimension_count(self@.entries, true, false, true),
            r.non_ignored_file_count == dimension_count(self@.entries, true, false, false),
    {
        crate::entry::summarize(&self.entries_by_path)
    }

    pub fn visible_entry_count(&self) -> (r: usize)
        ensures
            r == dimension_count(self@.entries, true, true, false),
    {
        self.summary().non_ignored_count
    }

    pub fn file_count(&self) -> (r: usize)
        ensures
            r == dimension_count(self@.entries, true, false, true),
    {
        self.summary().file_count
    }

    pub fn visible_file_count(&self) -> (r: usize)
        ensures
            r == dimension_count(self@.entries, true, false, false),
    {
        self.summary().non_ignored_file_count
    }

    pub fn dir_count(&self) -> (r: usize)
        ensures
            r == self@.entries.len() - dimension_count(self@.entries, true, false, true),
    {
        let s = self.summary();
        proof {
            crate::entry::lemma_dimension_count_bound(self@.entries, true, false, true);
        }
        s.count - s.file_count
    }

    pub fn visible_dir_count(&self) -> (r: usize)
        ensures
            r == dimension_count(self@.entries, true, true, false) - dimension_count(
                self@.entries,
                true,
                false,
                false,
            ),
    {
        let s = self.summary();
        proof {
            lemma_dimension_le(self@.entries);
        }
        s.non_ignored_count - s.non_ignored_file_count
    }
}

/// Visible files are no more numerous than visible entries.
proof fn lemma_dimension_le(s: Seq<EntryV>)
    ensures
        dimension_count(s, true, false, false) <= dimension_count(s, true, true, false),
    decreases s.len(),
{
    if s.len() > 0 {
        lemma_dimension_le(s.skip(1));
    }
}

/// The position where `path` stands or would be inserted in the sorted
/// entry list, and whether it is already there.
pub fn entry_lower_bound(s: &Vec<Entry>, path: &RelPath) -> (r: (usize, bool))
    requires
        entries_sorted(s@.map(|_i: int, e: Entry| e@)),
    ensures
        r.0 <= s@.len(),
        forall|j: int| 0 <= j < r.0 ==> path_lt(#[trigger] s@[j]@.path, path@),
        r.1 ==> r.0 < s@.len() && s@[r.0 as int]@.path =~~= path@,
        !r.1 && r.0 < s@.len() ==> path_lt(path@, s@[r.0 as int]@.path),
{
    let ghost sv = s@.map(|_i: int, e: Entry| e@);
    let mut i: usize = 0;
    while i < s.len()
        invariant
            i <= sv.len(),
            sv == s@.map(|_i: int, e: Entry| e@),
            sv.len() == s@.len(),
            forall|j: int| 0 <= j < i ==> path_lt(#[trigger] s@[j]@.path, path@),
        decreases sv.len() - i,
    {
        match s[i].path.cmp(path) {
            Order::Less => {
                i = i + 1;
            },
            Order::Equal => {
                return (i, true);
            },
            Order::Greater => {
                return (i, false);
            },
        }
    }
    (i, false)
}

/// The position where `id` stands or would be inserted in the sorted
/// identity index, and whether it is already there.
pub fn id_lower_bound(s: &Vec<PathEntry>, id: u64) -> (r: (usize, bool))
    requires
        ids_sorted(s@.map(|_i: int, e: PathEntry| e@)),
    ensures
        r.0 <= s@.len(),
        forall|j: int| 0 <= j < r.0 ==> #[trigger] s@[j]@.id < id,
        r.1 ==> r.0 < s@.len() && s@[r.0 as int]@.id == id,
        !r.1 && r.0 < s@.len() ==> id < s@[r.0 as int]@.id,
        !r.1 ==> !ids_contain(s@.map(|_i: int, e: PathEntry| e@), id),
{
    let ghost sv = s@.map(|_i: int, e: PathEntry| e@);
    let mut i: usize = 0;
    while i < s.len()
        invariant
            i <= sv.len(),
            sv == s@.map(|_i: int, e: PathEntry| e@),
            sv.len() == s@.len(),
            ids_sorted(sv),
            forall|j: int| 0 <= j < i ==> #[trigger] s@[j]@.id < id,
        decreases sv.len() - i,
    {
        let row_id = s[i].id.0;
        if row_id < id {
            i = i + 1;
        } else if row_id == id {
            return (i, true);
        } else {
            proof {
                lemma_id_lower_bound_absent(sv, id, i as int);
            }
            return (i, false);
        }
    }
    proof {
        lemma_id_lower_bound_absent(sv, id, i as int);
    }
    (i, false)
}

proof fn lemma_id_lower_bound_absent(s: Seq<PathEntryV>, id: u64, i: int)
    requires
        ids_sorted(s),
        0 <= i <= s.len(),
        forall|j: int| 0 <= j < i ==> #[trigger] s[j].id < id,
        i < s.len() ==> id < s[i].id,
    ensures
        !ids_contain(s, id),
{
    if ids_contain(s, id) {
        let w = choose|k: int| 0 <= k < s.len() && #[trigger] s[k].id == id;
        if w < i {
        } else {
            assert(id < s[i].id);
            if w > i {
                assert(s[i].id < s[w].id);
            }
        }
    }
}

/// In a sorted entry list, a path occurs at one position only, so the
/// chosen witness of `entry_at` is that position.
pub proof fn lemma_unique_entry(s: Seq<EntryV>, p: Seq<Seq<u8>>, i: int)
    requires
        entries_sorted(s),
        0 <= i < s.len(),
        s[i].path =~~= p,
    ensures
        entries_contain_path(s, p),
        entry_at(s, p) == s[i],
        forall|j: int| 0 <= j < s.len() && #[trigger] s[j].path =~~= p ==> j == i,
{
    assert(entries_contain_path(s, p));
    assert forall|j: int| 0 <= j < s.len() && #[trigger] s[j].path =~~= p implies j == i by {
        if j != i {
            lemma_path_lt_trichotomy(s[j].path, s[i].path);
            if j < i {
                assert(path_lt(s[j].path, s[i].path));
            } else {
                assert(path_lt(s[i].path, s[j].path));
            }
        }
    }
    let w = choose|k: int| 0 <= k < s.len() && #[trigger] s[k].path =~~= p;
    assert(w == i);
}

/// After a failed lower-bound search, the path is nowhere in the list.
pub proof fn lemma_lower_bound_absent(s: Seq<EntryV>, p: Seq<Seq<u8>>, i: int)
    requires
        entries_sorted(s),
        0 <= i <= s.len(),
        forall|j: int| 0 <= j < i ==> path_lt(#[trigger] s[j].path, p),
        i < s.len() ==> path_lt(p, s[i].path),
    ensures
        !entries_contain_path(s, p),
{
    if entries_contain_path(s, p) {
        let w = choose|k: int| 0 <= k < s.len() && #[trigger] s[k].path =~~= p;
        if w < i {
            assert(path_lt(s[w].path, p));
            lemma_path_lt_trichotomy(s[w].path, p);
        } else if w == i {
            lemma_path_lt_trichotomy(p, s[w].path);
        } else {
            assert(path_lt(s[i].path, s[w].path));
            lemma_path_lt_trans(p, s[i].path, s[w].path);
            lemma_path_lt_trichotomy(p, s[w].path);
        }
    }
}

/// In a sorted identity index, an id occurs at one position only, so the
/// chosen witness of `id_at` is that position.
pub proof fn lemma_unique_id(s: Seq<PathEntryV>, id: u64, i: int)
    requires
        ids_sorted(s),
        0 <= i < s.len(),
        s[i].id == id,
    ensures
        ids_contain(s, id),
        id_at(s, id) == s[i],
        forall|j: int| 0 <= j < s.len() && #[trigger] s[j].id == id ==> j == i,
{
    assert(ids_contain(s, id));
    assert forall|j: int| 0 <= j < s.len() && #[trigger] s[j].id == id implies j == i by {
        if j < i {
            assert(s[j].id < s[i].id);
        } else if j > i {
            assert(s[i].id < s[j].id);
        }
    }
    let w = choose|k: int| 0 <= k < s.len() && #[trigger] s[k].id == id;
    assert(w == i);
}

/// In a sorted repository list, a work directory occurs at one position
/// only, so the chosen witness of `repo_at` is that position.
pub proof fn lemma_unique_repo(s: Seq<RepositoryEntryV>, p: Seq<Seq<u8>>, i: int)
    requires
        repos_sorted(s),
        0 <= i < s.len(),
        s[i].work_directory.path =~~= p,
    ensures
        repos_contain_path(s, p),
        repo_at(s, p) == s[i],
        forall|j: int| 0 <= j < s.len() && #[trigger] s[j].work_directory.path =~~= p ==> j == i,
{
    assert(repos_contain_path(s, p));
    assert forall|j: int|
        0 <= j < s.len() && #[trigger] s[j].work_directory.path =~~= p implies j == i by {
        if j != i {
            lemma_path_lt_trichotomy(s[j].work_directory.path, s[i].work_directory.path);
            if j < i {
                assert(path_lt(s[j].work_directory.path, s[i].work_directory.path));
            } else {
                assert(path_lt(s[i].work_directory.path, s[j].work_directory.path));
            }
        }
    }
    let w = choose|k: int| 0 <= k < s.len() && #[trigger] s[k].work_directory.path =~~= p;
    assert(w == i);
}


/// The subsequence of entries that count toward the selected dimension,
/// in tree order.
pub open spec fn filtered_entries(s: Seq<EntryV>, include_files: bool, include_dirs: bool, include_ignored: bool) -> Seq<EntryV>
    decreases s.len(),
{
    if s.len() == 0 {
        Seq::empty()
    } else if counts_toward(s[0], include_files, include_dirs, include_ignored) {
        seq![s[0]] + filtered_entries(s.skip(1), include_files, include_dirs, include_ignored)
    } else {
        filtered_entries(s.skip(1), include_files, include_dirs, include_ignored)
    }
}

/// Counted traversal and ordered traversal agree: the dimension count is
/// the length of the filtered sequence.
pub proof fn lemma_traversal_counts_agree(s: Seq<EntryV>, f: bool, d: bool, g: bool)
    ensures
        filtered_entries(s, f, d, g).len() == dimension_count(s, f, d, g),
    decreases s.len(),
{
    if s.len() > 0 {
        lemma_traversal_counts_agree(s.skip(1), f, d, g);
    }
}

proof fn lemma_filtered_push(s: Seq<EntryV>, e: EntryV, f: bool, d: bool, g: bool)
    ensures
        counts_toward(e, f, d, g) ==> filtered_entries(s.push(e), f, d, g) =~= filtered_entries(
            s,
            f,
            d,
            g,
        ).push(e),
        !counts_toward(e, f, d, g) ==> filtered_entries(s.push(e), f, d, g) =~= filtered_entries(
            s,
            f,
            d,
            g,
        ),
    decreases s.len(),
{
    if s.len() == 0 {
        assert(s.push(e).skip(1) =~= Seq::<EntryV>::empty());
        assert(s.push(e)[0] == e);
        assert(filtered_entries(Seq::<EntryV>::empty(), f, d, g) =~= Seq::<EntryV>::empty());
        if counts_toward(e, f, d, g) {
            assert(filtered_entries(s.push(e), f, d, g) =~= seq![e]);
            assert(filtered_entries(s, f, d, g).push(e) =~= seq![e]);
        } else {
            assert(filtered_entries(s.push(e), f, d, g) =~= Seq::<EntryV>::empty());
        }
    } else {
        assert(s.push(e)[0] == s[0]);
        assert(s.push(e).skip(1) =~= s.skip(1).push(e));
        lemma_filtered_push(s.skip(1), e, f, d, g);
        if counts_toward(s[0], f, d, g) {
            assert(filtered_entries(s.push(e), f, d, g) =~= seq![s[0]] + filtered_entries(
                s.skip(1).push(e),
                f,
                d,
                g,
            ));
            assert(filtered_entries(s, f, d, g) =~= seq![s[0]] + filtered_entries(
                s.skip(1),
                f,
                d,
                g,
            ));
            if counts_toward(e, f, d, g) {
                assert(filtered_entries(s.skip(1).push(e), f, d, g) =~= filtered_entries(
                    s.skip(1),
                    f,
                    d,
                    g,
                ).push(e));
                assert(seq![s[0]] + filtered_entries(s.skip(1), f, d, g).push(e)
                    =~= (seq![s[0]] + filtered_entries(s.skip(1), f, d, g)).push(e));
            }
        } else {
            assert(filtered_entries(s.push(e), f, d, g) =~= filtered_entries(
                s.skip(1).push(e),
                f,
                d,
                g,
            ));
            assert(filtered_entries(s, f, d, g) =~= filtered_entries(s.skip(1), f, d, g));
        }
    }
}

impl Snapshot {
    /// Starts a new scan generation.
    pub fn begin_scan(&mut self)
        requires
            old(self).wf(),
            old(self)@.scan_id < u64::MAX,
        ensures
            final (self).wf(),
            final (self)@.scan_id == old(self)@.scan_id + 1,
            final (self)@.completed_scan_id == old(self)@.completed_scan_id,
            final (self)@.entries == old(self)@.entries,
            final (self)@.by_id == old(self)@.by_id,
            final (self)@.repos == old(self)@.repos,
            final (self)@.id == old(self)@.id,
            final (self)@.abs_path == old(self)@.abs_path,
            final (self)@.root_name == old(self)@.root_name,
    {
        self.scan_id = self.scan_id + 1;
    }

    /// Marks the current scan generation complete. The completed
    /// generation never decreases and never passes the started one.
    pub fn complete_scan(&mut self)
        requires
            old(self).wf(),
        ensures
            final (self).wf(),
            final (self)@.scan_id == old(self)@.scan_id,
            final (self)@.completed_scan_id == old(self)@.scan_id,
            final (self)@.completed_scan_id >= old(self)@.completed_scan_id,
            final (self)@.entries == old(self)@.entries,
            final (self)@.by_id == old(self)@.by_id,
            final (self)@.repos == old(self)@.repos,
            final (self)@.id == old(self)@.id,
            final (self)@.abs_path == old(self)@.abs_path,
            final (self)@.root_name == old(self)@.root_name,
    {
        self.completed_scan_id = self.scan_id;
    }

    /// Ordered traversal under the three filters, starting at the given
    /// offset into the filtered sequence.
    pub fn traverse(
        &self,
        include_files: bool,
        include_dirs: bool,
        include_ignored: bool,
        start: usize,
    ) -> (r: Vec<Entry>)
        ensures
            r@.map(|_i: int, e: Entry| e@) =~~= filtered_entries(
                self@.entries,
                include_files,
                include_dirs,
                include_ignored,
            ).skip(
                if start <= filtered_entries(
                    self@.entries,
                    include_files,
                    include_dirs,
                    include_ignored,
                ).len() {
                    start as int
                } else {
                    filtered_entries(
                        self@.entries,
                        include_files,
                        include_dirs,
                        include_ignored,
                    ).len() as int
                },
            ),
    {
        let ghost all = self@.entries;
        let mut out: Vec<Entry> = Vec::new();
        let mut seen: usize = 0;
        let mut i: usize = 0;
        proof {
            assert(all.subrange(0, 0) =~= Seq::<EntryV>::empty());
        }
        while i < self.entries_by_path.len()
            invariant
                i <= self.entries_by_path@.len(),
                all == self@.entries,
                all.len() == self.entries_by_path@.len(),
                seen <= filtered_entries(
                    all.subrange(0, i as int),
                    include_files,
                    include_dirs,
                    include_ignored,
                ).len(),
                seen <= start,
                seen == if start <= filtered_entries(
                    all.subrange(0, i as int),
                    include_files,
                    include_dirs,
                    include_ignored,
                ).len() {
                    start as int
                } else {
                    filtered_entries(
                        all.subrange(0, i as int),
                        include_files,
                        include_dirs,
                        include_ignored,
                    ).len() as int
                },
                out@.map(|_i: int, e: Entry| e@) =~~= filtered_entries(
                    all.subrange(0, i as int),
                    include_files,
                    include_dirs,
                    include_ignored,
                ).skip(seen as int),
            decreases self.entries_by_path@.len() - i,
        {
            let ghost pre_f = filtered_entries(
                all.subrange(0, i as int),
                include_files,
                include_dirs,
                include_ignored,
            );
            proof {
                assert(all.subrange(0, i + 1) =~= all.subrange(0, i as int).push(all[i as int]));
                lemma_filtered_push(
                    all.subrange(0, i as int),
                    all[i as int],
                    include_files,
                    include_dirs,
                    include_ignored,
                );
            }
            let e = &self.entries_by_path[i];
            let ghost om = out@.map(|_i: int, e: Entry| e@);
            let matches_filter = (include_files || !e.is_file()) && (include_dirs || !e.is_dir())
                && (include_ignored || e.is_visible());
            if matches_filter {
                if seen < start {
                    proof {
                        assert(seen == pre_f.len());
                    }
                    seen = seen + 1;
                } else {
                    out.push(e.clone_entry());
                    proof {
                        assert(out@.map(|_i: int, e: Entry| e@) =~~= om.push(all[i as int]));
                    }
                }
                proof {
                    let post_f = filtered_entries(
                        all.subrange(0, i + 1),
                        include_files,
                        include_dirs,
                        include_ignored,
                    );
                    assert(post_f =~= pre_f.push(all[i as int]));
                    assert(post_f.skip(seen as int) =~= (if seen <= pre_f.len() {
                        pre_f.skip(seen as int).push(all[i as int])
                    } else {
                        Seq::<EntryV>::empty()
                    }));
                    assert(out@.map(|_i: int, e: Entry| e@) =~~= post_f.skip(seen as int));
                }
            } else {
                proof {
                    assert(filtered_entries(
                        all.subrange(0, i + 1),
                        include_files,
                        include_dirs,
                        include_ignored,
                    ) =~= pre_f);
                }
            }
            i = i + 1;
        }
        proof {
            assert(all.subrange(0, all.len() as int) =~= all);
        }
        out
    }

    /// All entries in tree order, optionally with the ignored ones.
    pub fn entries(&self, include_ignored: bool, start: usize) -> (r: Vec<Entry>)
        ensures
            r@.map(|_i: int, e: Entry| e@) =~~= filtered_entries(
                self@.entries,
                true,
                true,
                include_ignored,
            ).skip(
                if start <= filtered_entries(self@.entries, true, true, include_ignored).len() {
                    start as int
                } else {
                    filtered_entries(self@.entries, true, true, include_ignored).len() as int
                },
            ),
    {
        self.traverse(true, true, include_ignored, start)
    }

    /// The files in tree order, optionally with the ignored ones.
    pub fn files(&self, include_ignored: bool, start: usize) -> (r: Vec<Entry>)
        ensures
            r@.map(|_i: int, e: Entry| e@) =~~= filtered_entries(
                self@.entries,
                true,
                false,
                include_ignored,
            ).skip(
                if start <= filtered_entries(self@.entries, true, false, include_ignored).len() {
                    start as int
                } else {
                    filtered_entries(self@.entries, true, false, include_ignored).len() as int
                },
            ),
    {
        self.traverse(true, false, include_ignored, start)
    }

    /// The directories in tree order, optionally with the ignored ones.
    pub fn directories(&self, include_ignored: bool, start: usize) -> (r: Vec<Entry>)
        ensures
            r@.map(|_i: int, e: Entry| e@) =~~= filtered_entries(
                self@.entries,
                false,
                true,
                include_ignored,
            ).skip(
                if start <= filtered_entries(self@.entries, false, true, include_ignored).len() {
                    start as int
                } else {
                    filtered_entries(self@.entries, false, true, include_ignored).len() as int
                },
            ),
    {
        self.traverse(false, true, include_ignored, start)
    }

    /// The direct children of a directory, in tree order.
    pub fn child_entries(&self, parent: &RelPath) -> (r: Vec<Entry>)
        requires
            self.wf(),
        ensures
            forall|a: int, b: int|
                0 <= a < b < r@.len() ==> path_lt(#[trigger] r@[a]@.path, #[trigger] r@[b]@.path),
            forall|j: int|
                0 <= j < r@.len() ==> path_is_prefix(parent@, #[trigger] r@[j]@.path)
                    && r@[j]@.path.len() == parent@.len() + 1,
            forall|j: int|
                0 <= j < r@.len() ==> entries_contain_path(self@.entries, #[trigger] r@[j]@.path)
                    && entry_at(self@.entries, r@[j]@.path) == r@[j]@,
            forall|i: int|
                0 <= i < self@.entries.len() && path_is_prefix(
                    parent@,
                    #[trigger] self@.entries[i].path,
                ) && self@.entries[i].path.len() == parent@.len() + 1 ==> (exists|j: int|
                    0 <= j < r@.len() && #[trigger] r@[j]@ == self@.entries[i]),
    {
        let mut out: Vec<Entry> = Vec::new();
        let ghost mut last_src: int = -1;
        let mut i: usize = 0;
        while i < self.entries_by_path.len()
            invariant
                self.wf(),
                i <= self.entries_by_path@.len(),
                self@.entries.len() == self.entries_by_path@.len(),
                -1 <= last_src < i as int,
                (out@.len() == 0) <==> (last_src == -1),
                out@.len() > 0 ==> 0 <= last_src && out@[out@.len() - 1]@ == self@.entries[last_src],
                forall|a: int, b: int|
                    0 <= a < b < out@.len() ==> path_lt(
                        #[trigger] out@[a]@.path,
                        #[trigger] out@[b]@.path,
                    ),
                forall|j: int|
                    0 <= j < out@.len() ==> path_is_prefix(parent@, #[trigger] out@[j]@.path)
                        && out@[j]@.path.len() == parent@.len() + 1,
                forall|j: int|
                    0 <= j < out@.len() ==> entries_contain_path(
                        self@.entries,
                        #[trigger] out@[j]@.path,
                    ) && entry_at(self@.entries, out@[j]@.path) == out@[j]@,
                forall|x: int|
                    0 <= x < i && path_is_prefix(parent@, #[trigger] self@.entries[x].path)
                        && self@.entries[x].path.len() == parent@.len() + 1 ==> (exists|j: int|
                        0 <= j < out@.len() && #[trigger] out@[j]@ == self@.entries[x]),
            decreases self.entries_by_path@.len() - i,
        {
            let ghost out_before = out@;
            let e = &self.entries_by_path[i];
            let is_child = e.path.starts_with(parent) && e.path.components.len()
                - parent.components.len() == 1;
            if is_child {
                proof {
                    lemma_unique_entry(self@.entries, self@.entries[i as int].path, i as int);
                }
                out.push(e.clone_entry());
                proof {
                    assert(forall|j: int|
                        0 <= j < out_before.len() ==> out@[j] == out_before[j]);
                    assert(out@[out@.len() - 1]@ == self@.entries[i as int]);
                    assert forall|a: int, b: int| 0 <= a < b < out@.len() implies path_lt(
                        #[trigger] out@[a]@.path,
                        #[trigger] out@[b]@.path,
                    ) by {
                        if b < out@.len() - 1 {
                            assert(path_lt(out_before[a]@.path, out_before[b]@.path));
                        } else {
                            assert(out@[b]@ == self@.entries[i as int]);
                            if a == out@.len() - 2 {
                                assert(out@[a]@ == self@.entries[last_src]);
                                assert(path_lt(
                                    self@.entries[last_src].path,
                                    self@.entries[i as int].path,
                                ));
                            } else if out_before.len() > 0 {
                                assert(path_lt(
                                    out_before[a]@.path,
                                    out_before[out_before.len() - 1]@.path,
                                ));
                                assert(out_before[out_before.len() - 1]@
                                    == self@.entries[last_src]);
                                assert(path_lt(
                                    self@.entries[last_src].path,
                                    self@.entries[i as int].path,
                                ));
                                crate::relpath::lemma_path_lt_trans(
                                    out_before[a]@.path,
                                    self@.entries[last_src].path,
                                    self@.entries[i as int].path,
                                );
                            }
                        }
                    }
                    assert forall|x: int|
                        0 <= x < i + 1 && path_is_prefix(
                            parent@,
                            #[trigger] self@.entries[x].path,
                        ) && self@.entries[x].path.len() == parent@.len() + 1 implies (exists|
                        j: int,
                    |
                        0 <= j < out@.len() && #[trigger] out@[j]@ == self@.entries[x]) by {
                        if x < i {
                            let j = choose|j: int|
                                0 <= j < out_before.len() && #[trigger] out_before[j]@
                                    == self@.entries[x];
                            assert(out@[j]@ == self@.entries[x]);
                        } else {
                            assert(out@[out@.len() - 1]@ == self@.entries[x]);
                        }
                    }
                    last_src = i as int;
                }
            } else {
                proof {
                    assert forall|x: int|
                        0 <= x < i + 1 && path_is_prefix(
                            parent@,
                            #[trigger] self@.entries[x].path,
                        ) && self@.entries[x].path.len() == parent@.len() + 1 implies (exists|
                        j: int,
                    |
                        0 <= j < out@.len() && #[trigger] out@[j]@ == self@.entries[x]) by {
                        assert(x < i);
                    }
                }
            }
            i = i + 1;
        }
        out
    }
}


/// Some repository's work directory lies on the path from the root to
/// `p`.
pub open spec fn repo_containing(repos: Seq<RepositoryEntryV>, p: Seq<Seq<u8>>) -> bool {
    exists|i: int|
        0 <= i < repos.len() && path_is_prefix(#[trigger] repos[i].work_directory.path, p)
}

/// The deepest repository whose work directory contains `p`: the one
/// with the longest such work-directory path.
pub open spec fn deepest_repo(repos: Seq<RepositoryEntryV>, p: Seq<Seq<u8>>) -> int {
    choose|i: int|
        0 <= i < repos.len() && path_is_prefix(#[trigger] repos[i].work_directory.path, p) && (
        forall|j: int|
            0 <= j < repos.len() && path_is_prefix(#[trigger] repos[j].work_directory.path, p)
                ==> repos[j].work_directory.path.len() <= repos[i].work_directory.path.len())
}

/// Looking up a file's status: relativize against the repository, then
/// read the recorded status.
pub open spec fn spec_status_lookup(rep: RepositoryEntryV, p: Seq<Seq<u8>>) -> Option<FileStatus> {
    match crate::repository::spec_relativize(rep.work_directory, p) {
        Some(rp) => if crate::repository::statuses_contain_path(rep.statuses, rp) {
            Some(crate::repository::status_at(rep.statuses, rp))
        } else {
            None
        },
        None => None,
    }
}

impl Snapshot {
    /// The deepest repository whose work directory contains the path,
    /// if any: repositories sort by path, so deeper ones come later.
    pub fn repository_for_path(&self, path: &RelPath) -> (r: Option<&RepositoryEntry>)
        requires
            self.wf(),
        ensures
            !repo_containing(self@.repos, path@) ==> r is None,
            repo_containing(self@.repos, path@) ==> (r matches Some(rep) && 0 <= deepest_repo(
                self@.repos,
                path@,
            ) < self@.repos.len() && rep@ == self@.repos[deepest_repo(self@.repos, path@)]),
    {
        let mut best: Option<usize> = None;
        let mut i: usize = 0;
        while i < self.repositories.len()
            invariant
                self.wf(),
                i <= self.repositories@.len(),
                self@.repos.len() == self.repositories@.len(),
                best matches Some(b) ==> 0 <= b < i && path_is_prefix(
                    self@.repos[b as int].work_directory.path,
                    path@,
                ) && (forall|j: int|
                    0 <= j < i && path_is_prefix(
                        #[trigger] self@.repos[j].work_directory.path,
                        path@,
                    ) ==> self@.repos[j].work_directory.path.len()
                        <= self@.repos[b as int].work_directory.path.len()),
                best is None ==> (forall|j: int|
                    0 <= j < i ==> !path_is_prefix(
                        #[trigger] self@.repos[j].work_directory.path,
                        path@,
                    )),
            decreases self.repositories@.len() - i,
        {
            let rep = &self.repositories[i];
            if path.starts_with(&rep.work_directory.path) {
                match best {
                    Some(b) => {
                        if rep.work_directory.path.components.len()
                            >= self.repositories[b].work_directory.path.components.len() {
                            best = Some(i);
                        }
                    },
                    None => {
                        best = Some(i);
                    },
                }
            }
            i = i + 1;
        }
        match best {
            Some(b) => {
                proof {
                    let ghost bi = b as int;
                    assert(path_is_prefix(self@.repos[bi].work_directory.path, path@) && (
                    forall|j: int|
                        0 <= j < self@.repos.len() && path_is_prefix(
                            #[trigger] self@.repos[j].work_directory.path,
                            path@,
                        ) ==> self@.repos[j].work_directory.path.len()
                            <= self@.repos[bi].work_directory.path.len()));
                    let d = deepest_repo(self@.repos, path@);
                    assert(0 <= d < self@.repos.len() && path_is_prefix(
                        self@.repos[d].work_directory.path,
                        path@,
                    ));
                    // Two deepest candidates share a work-directory path, so
                    // they are the same repository.
                    assert(self@.repos[d].work_directory.path.len()
                        == self@.repos[bi].work_directory.path.len());
                    if d != bi {
                        assert(self@.repos[d].work_directory.path
                            =~~= self@.repos[bi].work_directory.path) by {
                            assert(forall|x: int|
                                0 <= x < self@.repos[d].work_directory.path.len()
                                    ==> #[trigger] self@.repos[d].work_directory.path[x]
                                    =~= path@[x]);
                            assert(forall|x: int|
                                0 <= x < self@.repos[bi].work_directory.path.len()
                                    ==> #[trigger] self@.repos[bi].work_directory.path[x]
                                    =~= path@[x]);
                        }
                        if d < bi {
                            assert(path_lt(
                                self@.repos[d].work_directory.path,
                                self@.repos[bi].work_directory.path,
                            ));
                            crate::relpath::lemma_path_lt_trichotomy(
                                self@.repos[d].work_directory.path,
                                self@.repos[bi].work_directory.path,
                            );
                        } else {
                            assert(path_lt(
                                self@.repos[bi].work_directory.path,
                                self@.repos[d].work_directory.path,
                            ));
                            crate::relpath::lemma_path_lt_trichotomy(
                                self@.repos[bi].work_directory.path,
                                self@.repos[d].work_directory.path,
                            );
                        }
                        assert(false);
                    }
                }
                Some(&self.repositories[b])
            },
            None => {
                proof {
                    if repo_containing(self@.repos, path@) {
                        let w = choose|i: int|
                            0 <= i < self@.repos.len() && path_is_prefix(
                                #[trigger] self@.repos[i].work_directory.path,
                                path@,
                            );
                    }
                }
                None
            },
        }
    }

    /// The recorded Git status of the file at `path`, resolved through
    /// the deepest containing repository.
    pub fn status_for_file(&self, path: &RelPath) -> (r: Option<FileStatus>)
        requires
            self.wf(),
        ensures
            !repo_containing(self@.repos, path@) ==> r is None,
            repo_containing(self@.repos, path@) ==> r == spec_status_lookup(
                self@.repos[deepest_repo(self@.repos, path@)],
                path@,
            ),
    {
        match self.repository_for_path(path) {
            Some(rep) => {
                match rep.work_directory.relativize(path) {
                    Some(rp) => {
                        match rep.status_for_path(&rp) {
                            Some(se) => Some(se.status),
                            None => None,
                        }
                    },
                    None => None,
                }
            },
            None => None,
        }
    }
}


/// An absolute path: the root joined with each component behind a
/// separator.
pub open spec fn abs_joined(base: Seq<u8>, p: Seq<Seq<u8>>) -> Seq<u8>
    decreases p.len(),
{
    if p.len() == 0 {
        base
    } else {
        abs_joined(base + seq![47u8] + p[0], p.skip(1))
    }
}

proof fn lemma_abs_joined_step(base: Seq<u8>, p: Seq<Seq<u8>>, i: int)
    requires
        0 <= i < p.len(),
    ensures
        abs_joined(base, p.subrange(0, i + 1)) == abs_joined(base, p.subrange(0, i)) + seq![
            47u8,
        ] + p[i],
    decreases i,
{
    if i == 0 {
        reveal_with_fuel(abs_joined, 2);
        assert(p.subrange(0, 1) =~= seq![p[0]]);
        assert(p.subrange(0, 0) =~= Seq::<Seq<u8>>::empty());
        assert(seq![p[0]].skip(1) =~= Seq::<Seq<u8>>::empty());
        assert(abs_joined(base, seq![p[0]]) == base + seq![47u8] + p[0]);
    } else {
        let base2 = base + seq![47u8] + p[0];
        let q = p.skip(1);
        assert(p.subrange(0, i + 1).skip(1) =~= q.subrange(0, i));
        assert(p.subrange(0, i).skip(1) =~= q.subrange(0, i - 1));
        assert(p.subrange(0, i + 1)[0] == p[0]);
        assert(p.subrange(0, i)[0] == p[0]);
        lemma_abs_joined_step(base2, q, i - 1);
        assert(abs_joined(base, p.subrange(0, i + 1)) == abs_joined(
            base2,
            p.subrange(0, i + 1).skip(1),
        ));
        assert(abs_joined(base, p.subrange(0, i)) == abs_joined(base2, p.subrange(0, i).skip(1)));
        assert(q[i - 1] == p[i]);
    }
}

impl Snapshot {
    /// The absolute form of a worktree-relative path: the root itself
    /// for the empty path, else the root joined with every component.
    pub fn absolutize(&self, path: &RelPath) -> (r: Vec<u8>)
        ensures
            r@ == abs_joined(self@.abs_path, path@),
    {
        let ghost pv = path@;
        let mut acc = crate::relpath::clone_bytes(&self.abs_path);
        let mut i: usize = 0;
        proof {
            assert(pv.subrange(0, 0) =~= Seq::<Seq<u8>>::empty());
        }
        while i < path.components.len()
            invariant
                i <= pv.len(),
                pv == path@,
                pv.len() == path.components@.len(),
                acc@ == abs_joined(self@.abs_path, pv.subrange(0, i as int)),
            decreases pv.len() - i,
        {
            proof {
                lemma_abs_joined_step(self@.abs_path, pv, i as int);
            }
            acc.push(47u8);
            let comp = &path.components[i];
            let mut k: usize = 0;
            let ghost mid = acc@;
            while k < comp.len()
                invariant
                    k <= comp@.len(),
                    acc@ =~= mid + comp@.subrange(0, k as int),
                decreases comp@.len() - k,
            {
                acc.push(comp[k]);
                k = k + 1;
            }
            proof {
                assert(acc@ =~= mid + comp@);
                assert(acc@ =~= abs_joined(self@.abs_path, pv.subrange(0, i + 1)));
            }
            i = i + 1;
        }
        proof {
            assert(pv.subrange(0, pv.len() as int) =~= pv);
        }
        acc
    }

    /// Whether a snapshot at this completed generation satisfies a
    /// subscriber waiting for the given scan generation.
    pub fn observed_snapshot(&self, scan_id: u64) -> (r: bool)
        ensures
            r == (self@.completed_scan_id >= scan_id),
    {
        self.completed_scan_id >= scan_id
    }
}


impl Snapshot {
    /// The longest tracked ancestor of a path (the path itself included):
    /// where a refresh of a newly created path starts. Falls back to the
    /// root when no ancestor is tracked.
    pub fn lowest_ancestor(&self, path: &RelPath) -> (r: RelPath)
        requires
            self.wf(),
        ensures
            r@.len() <= path@.len(),
            r@ =~~= path@.subrange(0, r@.len() as int),
            r@.len() > 0 ==> entries_contain_path(self@.entries, r@),
            forall|k: int|
                r@.len() < k <= path@.len() ==> !entries_contain_path(
                    self@.entries,
                    #[trigger] path@.subrange(0, k),
                ),
    {
        let mut k: usize = path.components.len();
        while k > 0
            invariant
                k <= path@.len(),
                path@.len() == path.components@.len(),
                self.wf(),
                forall|m: int|
                    k < m <= path@.len() ==> !entries_contain_path(
                        self@.entries,
                        #[trigger] path@.subrange(0, m),
                    ),
            decreases k,
        {
            let candidate = path.prefix_path(k);
            match self.entry_for_path(&candidate) {
                Some(_) => {
                    proof {
                        assert(entries_contain_path(self@.entries, candidate@));
                    }
                    return candidate;
                },
                None => {
                    proof {
                        assert(!entries_contain_path(self@.entries, path@.subrange(0, k as int)));
                    }
                },
            }
            k = k - 1;
        }
        let r = RelPath::root();
        proof {
            assert(r@ =~~= path@.subrange(0, 0));
        }
        r
    }
}

} // verus!




