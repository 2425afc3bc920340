use vstd::prelude::*;

use crate::entry::{Entry, EntryKind, EntryV, Mtime, PathEntryV};
use crate::relpath::{path_is_prefix, RelPath};
use crate::snapshot::{
    entries_contain_path, entry_at, id_at, ids_contain, Snapshot, SnapshotV,
};
use crate::status::WireStatusVariant;
use crate::ProjectEntryId;

verus! {

/// One entry as carried by an `UpdateWorktree` message. The kind collapses
/// to a directory bit, and locally computed flags (always-included,
/// private) do not travel: the receiver recomputes them.
#[derive(Debug)]
pub struct WireEntry {
    pub id: u64,
    pub is_dir: bool,
    pub path: RelPath,
    pub inode: u64,
    pub mtime: Option<Mtime>,
    pub is_ignored: bool,
    pub is_external: bool,
    pub is_fifo: bool,
    pub size: u64,
    pub canonical_path: Option<Vec<u8>>,
}

/// The mathematical value of a `WireEntry`.
pub struct WireEntryV {
    pub id: u64,
    pub is_dir: bool,
    pub path: Seq<Seq<u8>>,
    pub inode: u64,
    pub mtime: Option<Mtime>,
    pub is_ignored: bool,
    pub is_external: bool,
    pub is_fifo: bool,
    pub size: u64,
    pub canonical_path: Option<Seq<u8>>,
}

impl View for WireEntry {
    type V = WireEntryV;

    open spec fn view(&self) -> WireEntryV {
        WireEntryV {
            id: self.id,
            is_dir: self.is_dir,
            path: self.path@,
            inode: self.inode,
            mtime: self.mtime,
            is_ignored: self.is_ignored,
            is_external: self.is_external,
            is_fifo: self.is_fifo,
            size: self.size,
            canonical_path: match self.canonical_path {
                Some(ref c) => Some(c@),
                None => None,
            },
        }
    }
}

/// One status record on the wire: a coarse fallback code beside the full
/// variant.
#[derive(Debug)]
pub struct WireStatusEntry {
    pub repo_path: RelPath,
    pub simple_status: i32,
    pub status: Option<WireStatusVariant>,
}


/// The mathematical value of a `WireStatusEntry`.
pub struct WireStatusEntryV {
    pub repo_path: Seq<Seq<u8>>,
    pub simple_status: i32,
    pub status: Option<WireStatusVariant>,
}

impl View for WireStatusEntry {
    type V = WireStatusEntryV;

    open spec fn view(&self) -> WireStatusEntryV {
        WireStatusEntryV {
            repo_path: self.repo_path@,
            simple_status: self.simple_status,
            status: self.status,
        }
    }
}
/// One repository delta on the wire.
#[derive(Debug)]
pub struct WireRepositoryEntry {
    pub work_directory_id: u64,
    pub branch: Option<Vec<u8>>,
    pub updated_statuses: Vec<WireStatusEntry>,
    pub removed_statuses: Vec<RelPath>,
}


/// The mathematical value of a `WireRepositoryEntry`.
pub struct WireRepositoryEntryV {
    pub work_directory_id: u64,
    pub branch: Option<Seq<u8>>,
    pub updated_statuses: Seq<WireStatusEntryV>,
    pub removed_statuses: Seq<Seq<Seq<u8>>>,
}

impl View for WireRepositoryEntry {
    type V = WireRepositoryEntryV;

    open spec fn view(&self) -> WireRepositoryEntryV {
        WireRepositoryEntryV {
            work_directory_id: self.work_directory_id,
            branch: match self.branch {
                Some(ref b) => Some(b@),
                None => None,
            },
            updated_statuses: self.updated_statuses@.map(|_i: int, e: WireStatusEntry| e@),
            removed_statuses: self.removed_statuses@.map(|_i: int, p: RelPath| p@),
        }
    }
}
/// A complete worktree delta, as produced by the local side and applied by
/// the remote side.
#[derive(Debug)]
pub struct UpdateWorktree {
    pub project_id: u64,
    pub worktree_id: u64,
    pub abs_path: Vec<u8>,
    pub root_name: Vec<u8>,
    pub updated_entries: Vec<WireEntry>,
    pub removed_entries: Vec<u64>,
    pub scan_id: u64,
    pub is_last_update: bool,
    pub updated_repositories: Vec<WireRepositoryEntry>,
    pub removed_repositories: Vec<u64>,
}


/// The mathematical value of an `UpdateWorktree`.
pub struct UpdateWorktreeV {
    pub project_id: u64,
    pub worktree_id: u64,
    pub abs_path: Seq<u8>,
    pub root_name: Seq<u8>,
    pub updated_entries: Seq<WireEntryV>,
    pub removed_entries: Seq<u64>,
    pub scan_id: u64,
    pub is_last_update: bool,
    pub updated_repositories: Seq<WireRepositoryEntryV>,
    pub removed_repositories: Seq<u64>,
}

impl View for UpdateWorktree {
    type V = UpdateWorktreeV;

    open spec fn view(&self) -> UpdateWorktreeV {
        UpdateWorktreeV {
            project_id: self.project_id,
            worktree_id: self.worktree_id,
            abs_path: self.abs_path@,
            root_name: self.root_name@,
            updated_entries: self.updated_entries@.map(|_i: int, e: WireEntry| e@),
            removed_entries: self.removed_entries@,
            scan_id: self.scan_id,
            is_last_update: self.is_last_update,
            updated_repositories: self.updated_repositories@.map(
                |_i: int, e: WireRepositoryEntry| e@,
            ),
            removed_repositories: self.removed_repositories@,
        }
    }
}
/// Whether a path matches the user's always-include set: it lies at or
/// below one of the listed paths.
pub open spec fn spec_matches_always(always: Seq<Seq<Seq<u8>>>, path: Seq<Seq<u8>>) -> bool {
    exists|i: int| 0 <= i < always.len() && path_is_prefix(#[trigger] always[i], path)
}

pub fn matches_always(always: &Vec<RelPath>, path: &RelPath) -> (r: bool)
    ensures
        r == spec_matches_always(always@.map(|_i: int, p: RelPath| p@), path@),
{
    let ghost av = always@.map(|_i: int, p: RelPath| p@);
    let mut i: usize = 0;
    while i < always.len()
        invariant
            i <= av.len(),
            av == always@.map(|_i: int, p: RelPath| p@),
            av.len() == always@.len(),
            forall|j: int| 0 <= j < i ==> !path_is_prefix(#[trigger] av[j], path@),
        decreases av.len() - i,
    {
        if path.starts_with(&always[i]) {
            proof {
                assert(path_is_prefix(av[i as int], path@));
            }
            return true;
        }
        i = i + 1;
    }
    false
}

/// What an entry looks like after the trip onto the wire and back: the
/// kind collapsed to file-or-directory, the private flag dropped, and the
/// always-include flag recomputed against the receiver's set.
pub open spec fn spec_entry_of_wire(w: WireEntryV, always: Seq<Seq<Seq<u8>>>) -> EntryV {
    EntryV {
        id: w.id,
        kind: if w.is_dir {
            EntryKind::Dir
        } else {
            EntryKind::File
        },
        path: w.path,
        inode: w.inode,
        mtime: w.mtime,
        canonical_path: w.canonical_path,
        is_ignored: w.is_ignored,
        is_always_included: spec_matches_always(always, w.path),
        is_external: w.is_external,
        is_private: false,
        is_fifo: w.is_fifo,
        size: w.size,
    }
}

pub open spec fn spec_wire_of_entry(e: EntryV) -> WireEntryV {
    WireEntryV {
        id: e.id,
        is_dir: e.is_dir(),
        path: e.path,
        inode: e.inode,
        mtime: e.mtime,
        is_ignored: e.is_ignored,
        is_external: e.is_external,
        is_fifo: e.is_fifo,
        size: e.size,
        canonical_path: e.canonical_path,
    }
}

pub fn entry_of_wire(w: &WireEntry, always: &Vec<RelPath>) -> (r: Entry)
    ensures
        r@ == spec_entry_of_wire(w@, always@.map(|_i: int, p: RelPath| p@)),
{
    let is_always = matches_always(always, &w.path);
    let canonical_path = match &w.canonical_path {
        Some(c) => Some(crate::relpath::clone_bytes(c)),
        None => None,
    };
    let r = Entry {
        id: ProjectEntryId(w.id),
        kind: if w.is_dir {
            EntryKind::Dir
        } else {
            EntryKind::File
        },
        path: w.path.clone_path(),
        inode: w.inode,
        mtime: w.mtime,
        canonical_path,
        is_ignored: w.is_ignored,
        is_always_included: is_always,
        is_external: w.is_external,
        is_private: false,
        is_fifo: w.is_fifo,
        size: w.size,
    };
    proof {
        assert(r@.path =~~= w@.path);
        assert(match (r@.canonical_path, w@.canonical_path) {
            (Some(a), Some(b)) => a =~= b,
            (None, None) => true,
            _ => false,
        });
        assert(r@ == spec_entry_of_wire(w@, always@.map(|_i: int, p: RelPath| p@)));
    }
    r
}

pub fn wire_of_entry(e: &Entry) -> (r: WireEntry)
    ensures
        r@ == spec_wire_of_entry(e@),
{
    let canonical_path = match &e.canonical_path {
        Some(c) => Some(crate::relpath::clone_bytes(c)),
        None => None,
    };
    let r = WireEntry {
        id: e.id.0,
        is_dir: e.is_dir(),
        path: e.path.clone_path(),
        inode: e.inode,
        mtime: e.mtime,
        is_ignored: e.is_ignored,
        is_external: e.is_external,
        is_fifo: e.is_fifo,
        size: e.size,
        canonical_path,
    };
    proof {
        assert(r@.path =~~= e@.path);
        assert(match (r@.canonical_path, e@.canonical_path) {
            (Some(a), Some(b)) => a =~= b,
            (None, None) => true,
            _ => false,
        });
        assert(r@ == spec_wire_of_entry(e@));
    }
    r
}

/// Whether `k` stands among the first `t` ids of the list.
pub open spec fn id_among(ids: Seq<u64>, t: int, k: u64) -> bool {
    exists|s: int| 0 <= s < t && ids[s] == k
}

/// Whether `q` is the recorded path of one of the first `t` listed ids.
pub open spec fn cleared_path(by_id: Seq<PathEntryV>, ids: Seq<u64>, t: int, q: Seq<Seq<u8>>) -> bool {
    exists|s: int|
        0 <= s < t && ids_contain(by_id, ids[s]) && id_at(by_id, #[trigger] ids[s]).path =~~= q
}

impl Snapshot {
    /// Removes every listed id and its path from both indices.
    pub fn apply_removals(&mut self, ids: &Vec<u64>)
        requires
            old(self).wf(),
        ensures
            final (self).wf(),
            final (self)@.id == old(self)@.id,
            final (self)@.abs_path == old(self)@.abs_path,
            final (self)@.root_name == old(self)@.root_name,
            final (self)@.repos == old(self)@.repos,
            final (self)@.scan_id == old(self)@.scan_id,
            final (self)@.completed_scan_id == old(self)@.completed_scan_id,
            forall|k: u64|
                #[trigger] ids_contain(final (self)@.by_id, k) <==> (ids_contain(
                    old(self)@.by_id,
                    k,
                ) && !id_among(ids@, ids@.len() as int, k)),
            forall|k: u64|
                ids_contain(final (self)@.by_id, k) ==> #[trigger] id_at(final (self)@.by_id, k)
                    == id_at(old(self)@.by_id, k),
            forall|q: Seq<Seq<u8>>|
                #[trigger] entries_contain_path(final (self)@.entries, q) <==> (
                entries_contain_path(old(self)@.entries, q) && !cleared_path(
                    old(self)@.by_id,
                    ids@,
                    ids@.len() as int,
                    q,
                )),
            forall|q: Seq<Seq<u8>>|
                entries_contain_path(final (self)@.entries, q) ==> #[trigger] entry_at(
                    final (self)@.entries,
                    q,
                ) == entry_at(old(self)@.entries, q),
    {
        let ghost o = old(self)@;
        let mut t: usize = 0;
        while t < ids.len()
            invariant
                self.wf(),
                0 <= t <= ids@.len(),
                o.completed_scan_id <= o.scan_id,
                self@.id == o.id,
                self@.abs_path == o.abs_path,
                self@.root_name == o.root_name,
                self@.repos == o.repos,
                self@.scan_id == o.scan_id,
                self@.completed_scan_id == o.completed_scan_id,
                forall|k: u64|
                    #[trigger] ids_contain(self@.by_id, k) <==> (ids_contain(o.by_id, k)
                        && !id_among(ids@, t as int, k)),
                forall|k: u64|
                    ids_contain(self@.by_id, k) ==> #[trigger] id_at(self@.by_id, k) == id_at(
                        o.by_id,
                        k,
                    ),
                forall|q: Seq<Seq<u8>>|
                    #[trigger] entries_contain_path(self@.entries, q) <==> (entries_contain_path(
                        o.entries,
                        q,
                    ) && !cleared_path(o.by_id, ids@, t as int, q)),
                forall|q: Seq<Seq<u8>>|
                    entries_contain_path(self@.entries, q) ==> #[trigger] entry_at(
                        self@.entries,
                        q,
                    ) == entry_at(o.entries, q),
            decreases ids@.len() - t,
        {
            let ghost pre = self@;
            let k = ids[t];
            self.remove_entry_by_id(k);
            proof {
                assert forall|k2: u64| #[trigger] ids_contain(self@.by_id, k2) implies (
                ids_contain(o.by_id, k2) && !id_among(ids@, t + 1, k2)) by {
                    assert(ids_contain(pre.by_id, k2) && k2 != k);
                    if id_among(ids@, t + 1, k2) {
                        let s = choose|s: int| 0 <= s < t + 1 && ids@[s] == k2;
                        assert(s < t);
                        assert(id_among(ids@, t as int, k2));
                    }
                }
                assert forall|k2: u64|
                    ids_contain(o.by_id, k2) && !id_among(ids@, t + 1, k2) implies
                    #[trigger] ids_contain(self@.by_id, k2) by {
                    assert(!id_among(ids@, t as int, k2)) by {
                        if id_among(ids@, t as int, k2) {
                            let s = choose|s: int| 0 <= s < t && ids@[s] == k2;
                            assert(0 <= s < t + 1 && ids@[s] == k2);
                        }
                    }
                    assert(ids_contain(pre.by_id, k2));
                    assert(k2 != k) by {
                        if k2 == k {
                            assert(ids@[t as int] == k2);
                        }
                    }
                }
                assert forall|q: Seq<Seq<u8>>|
                    #[trigger] entries_contain_path(self@.entries, q) implies (
                entries_contain_path(o.entries, q) && !cleared_path(
                    o.by_id,
                    ids@,
                    t + 1,
                    q,
                )) by {
                    assert(entries_contain_path(pre.entries, q));
                    if cleared_path(o.by_id, ids@, t + 1, q) {
                        let s = choose|s: int|
                            0 <= s < t + 1 && ids_contain(o.by_id, ids@[s]) && id_at(
                                o.by_id,
                                #[trigger] ids@[s],
                            ).path =~~= q;
                        if s < t {
                            assert(cleared_path(o.by_id, ids@, t as int, q));
                            assert(false);
                        } else {
                            assert(ids@[s] == k);
                            assert(ids_contain(o.by_id, k) && id_at(o.by_id, k).path =~~= q);
                            if ids_contain(pre.by_id, k) {
                                assert(id_at(pre.by_id, k) == id_at(o.by_id, k));
                                assert(!entries_contain_path(self@.entries, q));
                                assert(false);
                            } else {
                                assert(id_among(ids@, t as int, k));
                                let s2 = choose|s2: int| 0 <= s2 < t && ids@[s2] == k;
                                assert(cleared_path(o.by_id, ids@, t as int, q));
                                assert(false);
                            }
                        }
                    }
                }
                assert forall|q: Seq<Seq<u8>>|
                    entries_contain_path(o.entries, q) && !cleared_path(
                        o.by_id,
                        ids@,
                        t + 1,
                        q,
                    ) implies #[trigger] entries_contain_path(self@.entries, q) by {
                    assert(!cleared_path(o.by_id, ids@, t as int, q)) by {
                        if cleared_path(o.by_id, ids@, t as int, q) {
                            let s = choose|s: int|
                                0 <= s < t && ids_contain(o.by_id, ids@[s]) && id_at(
                                    o.by_id,
                                    #[trigger] ids@[s],
                                ).path =~~= q;
                            assert(0 <= s < t + 1);
                            assert(cleared_path(o.by_id, ids@, t + 1, q));
                        }
                    }
                    assert(entries_contain_path(pre.entries, q));
                    if ids_contain(pre.by_id, k) {
                        if q =~~= id_at(pre.by_id, k).path {
                            assert(id_at(pre.by_id, k) == id_at(o.by_id, k));
                            assert(ids@[t as int] == k);
                            assert(cleared_path(o.by_id, ids@, t + 1, q));
                            assert(false);
                        }
                    }
                }
            }
            t = t + 1;
        }
    }
}


/// Whether `q` stands among the paths of the first `t` wire entries.
pub open spec fn u_path_among(u: Seq<WireEntryV>, t: int, q: Seq<Seq<u8>>) -> bool {
    exists|s: int| 0 <= s < t && #[trigger] u[s].path =~~= q
}

/// Whether `k` stands among the ids of the first `t` wire entries.
pub open spec fn u_id_among(u: Seq<WireEntryV>, t: int, k: u64) -> bool {
    exists|s: int| 0 <= s < t && #[trigger] u[s].id == k
}

/// Whether `k` is the id of the entry occupying one of the first `t` wire
/// entries' paths in the given tree.
pub open spec fn occupant_id_among(entries: Seq<EntryV>, u: Seq<WireEntryV>, t: int, k: u64) -> bool {
    exists|s: int|
        0 <= s < t && entries_contain_path(entries, #[trigger] u[s].path) && entry_at(
            entries,
            u[s].path,
        ).id == k
}

/// The wire entry among the first `t` whose path is `q`.
pub open spec fn u_entry_with_path(u: Seq<WireEntryV>, t: int, q: Seq<Seq<u8>>) -> WireEntryV {
    u[choose|s: int| 0 <= s < t && #[trigger] u[s].path =~~= q]
}

/// The wire entry among the first `t` whose id is `k`.
pub open spec fn u_entry_with_id(u: Seq<WireEntryV>, t: int, k: u64) -> WireEntryV {
    u[choose|s: int| 0 <= s < t && #[trigger] u[s].id == k]
}

/// All listed entries carry pairwise distinct ids and pairwise distinct
/// paths, as any delta built from one coherent snapshot does.
pub open spec fn u_distinct(u: Seq<WireEntryV>) -> bool {
    &&& forall|a: int, b: int| 0 <= a < b < u.len() ==> #[trigger] u[a].id != #[trigger] u[b].id
    &&& forall|a: int, b: int| 0 <= a < b < u.len() ==> !(#[trigger] u[a].path =~~= #[trigger] u[b].path)
}

pub open spec fn uview(u: Seq<WireEntry>) -> Seq<WireEntryV> {
    u.map(|_i: int, e: WireEntry| e@)
}

impl Snapshot {
    /// Clears the identity rows (and their tree slots) of whatever entries
    /// currently occupy the listed target paths.
    pub fn apply_occupant_removals(&mut self, updated: &Vec<WireEntry>)
        requires
            old(self).wf(),
        ensures
            final (self).wf(),
            final (self)@.id == old(self)@.id,
            final (self)@.abs_path == old(self)@.abs_path,
            final (self)@.root_name == old(self)@.root_name,
            final (self)@.repos == old(self)@.repos,
            final (self)@.scan_id == old(self)@.scan_id,
            final (self)@.completed_scan_id == old(self)@.completed_scan_id,
            forall|q: Seq<Seq<u8>>|
                #[trigger] entries_contain_path(final (self)@.entries, q) <==> (
                entries_contain_path(old(self)@.entries, q) && !u_path_among(
                    uview(updated@),
                    updated@.len() as int,
                    q,
                )),
            forall|q: Seq<Seq<u8>>|
                entries_contain_path(final (self)@.entries, q) ==> #[trigger] entry_at(
                    final (self)@.entries,
                    q,
                ) == entry_at(old(self)@.entries, q),
            forall|k: u64|
                #[trigger] ids_contain(final (self)@.by_id, k) <==> (ids_contain(
                    old(self)@.by_id,
                    k,
                ) && !occupant_id_among(
                    old(self)@.entries,
                    uview(updated@),
                    updated@.len() as int,
                    k,
                )),
            forall|k: u64|
                ids_contain(final (self)@.by_id, k) ==> #[trigger] id_at(final (self)@.by_id, k)
                    == id_at(old(self)@.by_id, k),
    {
        let ghost o = old(self)@;
        let ghost uv = uview(updated@);
        let mut t: usize = 0;
        while t < updated.len()
            invariant
                self.wf(),
                0 <= t <= uv.len(),
                uv == uview(updated@),
                uv.len() == updated@.len(),
                o.completed_scan_id <= o.scan_id,
                self@.id == o.id,
                self@.abs_path == o.abs_path,
                self@.root_name == o.root_name,
                self@.repos == o.repos,
                self@.scan_id == o.scan_id,
                self@.completed_scan_id == o.completed_scan_id,
                forall|q: Seq<Seq<u8>>|
                    #[trigger] entries_contain_path(self@.entries, q) <==> (entries_contain_path(
                        o.entries,
                        q,
                    ) && !u_path_among(uv, t as int, q)),
                forall|q: Seq<Seq<u8>>|
                    entries_contain_path(self@.entries, q) ==> #[trigger] entry_at(
                        self@.entries,
                        q,
                    ) == entry_at(o.entries, q),
                forall|k: u64|
                    #[trigger] ids_contain(self@.by_id, k) <==> (ids_contain(o.by_id, k)
                        && !occupant_id_among(o.entries, uv, t as int, k)),
                forall|k: u64|
                    ids_contain(self@.by_id, k) ==> #[trigger] id_at(self@.by_id, k) == id_at(
                        o.by_id,
                        k,
                    ),
            decreases uv.len() - t,
        {
            let ghost pre = self@;
            let target = &updated[t];
            let occ: Option<u64> = match self.entry_for_path(&target.path) {
                Some(e) => Some(e.id.0),
                None => None,
            };
            match occ {
                Some(k) => {
                    proof {
                        assert(entries_contain_path(pre.entries, uv[t as int].path));
                        assert(entry_at(pre.entries, uv[t as int].path).id == k);
                        assert(entries_contain_path(o.entries, uv[t as int].path));
                        assert(entry_at(o.entries, uv[t as int].path).id == k);
                        assert(ids_contain(pre.by_id, k)) by {
                            let w = choose|m: int|
                                0 <= m < pre.entries.len() && #[trigger] pre.entries[m].path
                                    =~~= uv[t as int].path;
                            assert(ids_contain(pre.by_id, pre.entries[w].id));
                        }
                        assert(id_at(pre.by_id, k).path =~~= uv[t as int].path) by {
                            let w = choose|m: int|
                                0 <= m < pre.entries.len() && #[trigger] pre.entries[m].path
                                    =~~= uv[t as int].path;
                            crate::snapshot::lemma_unique_entry(
                                pre.entries,
                                uv[t as int].path,
                                w,
                            );
                            assert(id_at(pre.by_id, pre.entries[w].id).path
                                =~~= pre.entries[w].path);
                        }
                    }
                    self.remove_entry_by_id(k);
                    proof {
                        assert forall|q: Seq<Seq<u8>>|
                            #[trigger] entries_contain_path(self@.entries, q) implies (
                        entries_contain_path(o.entries, q) && !u_path_among(uv, t + 1, q)) by {
                            assert(entries_contain_path(pre.entries, q));
                            if u_path_among(uv, t + 1, q) {
                                let s = choose|s: int| 0 <= s < t + 1 && #[trigger] uv[s].path =~~= q;
                                if s < t {
                                    assert(u_path_among(uv, t as int, q));
                                    assert(false);
                                } else {
                                    assert(q =~~= id_at(pre.by_id, k).path);
                                    assert(false);
                                }
                            }
                        }
                        assert forall|q: Seq<Seq<u8>>|
                            entries_contain_path(o.entries, q) && !u_path_among(
                                uv,
                                t + 1,
                                q,
                            ) implies #[trigger] entries_contain_path(self@.entries, q) by {
                            assert(!u_path_among(uv, t as int, q)) by {
                                if u_path_among(uv, t as int, q) {
                                    let s = choose|s: int|
                                        0 <= s < t && #[trigger] uv[s].path =~~= q;
                                    assert(u_path_among(uv, t + 1, q));
                                }
                            }
                            assert(entries_contain_path(pre.entries, q));
                            assert(!(q =~~= uv[t as int].path)) by {
                                if q =~~= uv[t as int].path {
                                    assert(u_path_among(uv, t + 1, q));
                                }
                            }
                            assert(!(q =~~= id_at(pre.by_id, k).path));
                        }
                        assert forall|k2: u64| #[trigger] ids_contain(self@.by_id, k2) implies (
                        ids_contain(o.by_id, k2) && !occupant_id_among(
                            o.entries,
                            uv,
                            t + 1,
                            k2,
                        )) by {
                            assert(ids_contain(pre.by_id, k2) && k2 != k);
                            if occupant_id_among(o.entries, uv, t + 1, k2) {
                                let s = choose|s: int|
                                    0 <= s < t + 1 && entries_contain_path(
                                        o.entries,
                                        #[trigger] uv[s].path,
                                    ) && entry_at(o.entries, uv[s].path).id == k2;
                                if s < t {
                                    assert(occupant_id_among(o.entries, uv, t as int, k2));
                                    assert(false);
                                } else {
                                    assert(entry_at(o.entries, uv[t as int].path).id == k2);
                                    assert(k2 == k);
                                    assert(false);
                                }
                            }
                        }
                        assert forall|k2: u64|
                            ids_contain(o.by_id, k2) && !occupant_id_among(
                                o.entries,
                                uv,
                                t + 1,
                                k2,
                            ) implies #[trigger] ids_contain(self@.by_id, k2) by {
                            assert(!occupant_id_among(o.entries, uv, t as int, k2)) by {
                                if occupant_id_among(o.entries, uv, t as int, k2) {
                                    let s = choose|s: int|
                                        0 <= s < t && entries_contain_path(
                                            o.entries,
                                            #[trigger] uv[s].path,
                                        ) && entry_at(o.entries, uv[s].path).id == k2;
                                    assert(occupant_id_among(o.entries, uv, t + 1, k2));
                                }
                            }
                            assert(ids_contain(pre.by_id, k2));
                            assert(k2 != k) by {
                                if k2 == k {
                                    assert(entries_contain_path(o.entries, uv[t as int].path)
                                        && entry_at(o.entries, uv[t as int].path).id == k2);
                                    assert(occupant_id_among(o.entries, uv, t + 1, k2));
                                }
                            }
                        }
                    }
                },
                None => {
                    proof {
                        assert(!entries_contain_path(pre.entries, uv[t as int].path));
                        assert forall|q: Seq<Seq<u8>>|
                            #[trigger] entries_contain_path(self@.entries, q) implies (
                        entries_contain_path(o.entries, q) && !u_path_among(uv, t + 1, q)) by {
                            if u_path_among(uv, t + 1, q) {
                                let s = choose|s: int| 0 <= s < t + 1 && #[trigger] uv[s].path =~~= q;
                                if s < t {
                                    assert(u_path_among(uv, t as int, q));
                                } else {
                                    assert(entries_contain_path(pre.entries, uv[t as int].path));
                                }
                                assert(false);
                            }
                        }
                        assert forall|q: Seq<Seq<u8>>|
                            entries_contain_path(o.entries, q) && !u_path_among(
                                uv,
                                t + 1,
                                q,
                            ) implies #[trigger] entries_contain_path(self@.entries, q) by {
                            assert(!u_path_among(uv, t as int, q)) by {
                                if u_path_among(uv, t as int, q) {
                                    let s = choose|s: int|
                                        0 <= s < t && #[trigger] uv[s].path =~~= q;
                                    assert(u_path_among(uv, t + 1, q));
                                }
                            }
                        }
                        assert forall|k2: u64| #[trigger] ids_contain(self@.by_id, k2) implies (
                        ids_contain(o.by_id, k2) && !occupant_id_among(
                            o.entries,
                            uv,
                            t + 1,
                            k2,
                        )) by {
                            if occupant_id_among(o.entries, uv, t + 1, k2) {
                                let s = choose|s: int|
                                    0 <= s < t + 1 && entries_contain_path(
                                        o.entries,
                                        #[trigger] uv[s].path,
                                    ) && entry_at(o.entries, uv[s].path).id == k2;
                                if s < t {
                                    assert(occupant_id_among(o.entries, uv, t as int, k2));
                                    assert(false);
                                } else {
                                    assert(entries_contain_path(o.entries, uv[t as int].path));
                                    assert(!u_path_among(uv, t as int, uv[t as int].path));
                                    assert(entries_contain_path(pre.entries, uv[t as int].path));
                                    assert(false);
                                }
                            }
                        }
                        assert forall|k2: u64|
                            ids_contain(o.by_id, k2) && !occupant_id_among(
                                o.entries,
                                uv,
                                t + 1,
                                k2,
                            ) implies #[trigger] ids_contain(self@.by_id, k2) by {
                            assert(!occupant_id_among(o.entries, uv, t as int, k2)) by {
                                if occupant_id_among(o.entries, uv, t as int, k2) {
                                    let s = choose|s: int|
                                        0 <= s < t && entries_contain_path(
                                            o.entries,
                                            #[trigger] uv[s].path,
                                        ) && entry_at(o.entries, uv[s].path).id == k2;
                                    assert(occupant_id_among(o.entries, uv, t + 1, k2));
                                }
                            }
                        }
                    }
                },
            }
            t = t + 1;
        }
    }
}


impl Snapshot {
    /// Installs the listed entries, whose ids and paths must be fresh and
    /// pairwise distinct: the two clearing phases make them so.
    pub fn apply_insertions(&mut self, updated: &Vec<WireEntry>, always: &Vec<RelPath>)
        requires
            old(self).wf(),
            u_distinct(uview(updated@)),
            forall|s: int|
                0 <= s < updated@.len() ==> !ids_contain(
                    old(self)@.by_id,
                    #[trigger] uview(updated@)[s].id,
                ) && !entries_contain_path(old(self)@.entries, uview(updated@)[s].path),
        ensures
            final (self).wf(),
            final (self)@.id == old(self)@.id,
            final (self)@.abs_path == old(self)@.abs_path,
            final (self)@.root_name == old(self)@.root_name,
            final (self)@.repos == old(self)@.repos,
            final (self)@.scan_id == old(self)@.scan_id,
            final (self)@.completed_scan_id == old(self)@.completed_scan_id,
            forall|q: Seq<Seq<u8>>|
                u_path_among(uview(updated@), updated@.len() as int, q)
                    ==> #[trigger] entries_contain_path(final (self)@.entries, q),
            forall|q: Seq<Seq<u8>>|
                u_path_among(uview(updated@), updated@.len() as int, q) ==> #[trigger] entry_at(
                    final (self)@.entries,
                    q,
                ) == spec_entry_of_wire(
                    u_entry_with_path(uview(updated@), updated@.len() as int, q),
                    always@.map(|_i: int, p: RelPath| p@),
                ),
            forall|q: Seq<Seq<u8>>|
                !u_path_among(uview(updated@), updated@.len() as int, q) ==> (
                #[trigger] entries_contain_path(final (self)@.entries, q) <==> entries_contain_path(
                    old(self)@.entries,
                    q,
                )),
            forall|q: Seq<Seq<u8>>|
                !u_path_among(uview(updated@), updated@.len() as int, q) && entries_contain_path(
                    old(self)@.entries,
                    q,
                ) ==> #[trigger] entry_at(final (self)@.entries, q) == entry_at(
                    old(self)@.entries,
                    q,
                ),
            forall|k: u64|
                u_id_among(uview(updated@), updated@.len() as int, k) ==> #[trigger] ids_contain(
                    final (self)@.by_id,
                    k,
                ),
            forall|k: u64|
                u_id_among(uview(updated@), updated@.len() as int, k) ==> #[trigger] id_at(
                    final (self)@.by_id,
                    k,
                ) == (PathEntryV {
                    id: k,
                    path: u_entry_with_id(uview(updated@), updated@.len() as int, k).path,
                    is_ignored: u_entry_with_id(
                        uview(updated@),
                        updated@.len() as int,
                        k,
                    ).is_ignored,
                    scan_id: 0,
                }),
            forall|k: u64|
                !u_id_among(uview(updated@), updated@.len() as int, k) ==> (
                #[trigger] ids_contain(final (self)@.by_id, k) <==> ids_contain(
                    old(self)@.by_id,
                    k,
                )),
            forall|k: u64|
                !u_id_among(uview(updated@), updated@.len() as int, k) && ids_contain(
                    old(self)@.by_id,
                    k,
                ) ==> #[trigger] id_at(final (self)@.by_id, k) == id_at(old(self)@.by_id, k),
    {
        let ghost o = old(self)@;
        let ghost uv = uview(updated@);
        let ghost av = always@.map(|_i: int, p: RelPath| p@);
        let mut t: usize = 0;
        while t < updated.len()
            invariant
                self.wf(),
                0 <= t <= uv.len(),
                uv == uview(updated@),
                uv.len() == updated@.len(),
                av == always@.map(|_i: int, p: RelPath| p@),
                u_distinct(uv),
                o.completed_scan_id <= o.scan_id,
                forall|s: int|
                    0 <= s < uv.len() ==> !ids_contain(o.by_id, #[trigger] uv[s].id)
                        && !entries_contain_path(o.entries, uv[s].path),
                self@.id == o.id,
                self@.abs_path == o.abs_path,
                self@.root_name == o.root_name,
                self@.repos == o.repos,
                self@.scan_id == o.scan_id,
                self@.completed_scan_id == o.completed_scan_id,
                forall|q: Seq<Seq<u8>>|
                    u_path_among(uv, t as int, q) ==> #[trigger] entries_contain_path(
                        self@.entries,
                        q,
                    ),
                forall|q: Seq<Seq<u8>>|
                    u_path_among(uv, t as int, q) ==> #[trigger] entry_at(self@.entries, q)
                        == spec_entry_of_wire(u_entry_with_path(uv, t as int, q), av),
                forall|q: Seq<Seq<u8>>|
                    !u_path_among(uv, t as int, q) ==> (#[trigger] entries_contain_path(
                        self@.entries,
                        q,
                    ) <==> entries_contain_path(o.entries, q)),
                forall|q: Seq<Seq<u8>>|
                    !u_path_among(uv, t as int, q) && entries_contain_path(o.entries, q)
                        ==> #[trigger] entry_at(self@.entries, q) == entry_at(o.entries, q),
                forall|k: u64|
                    u_id_among(uv, t as int, k) ==> #[trigger] ids_contain(self@.by_id, k),
                forall|k: u64|
                    u_id_among(uv, t as int, k) ==> #[trigger] id_at(self@.by_id, k)
                        == (PathEntryV {
                        id: k,
                        path: u_entry_with_id(uv, t as int, k).path,
                        is_ignored: u_entry_with_id(uv, t as int, k).is_ignored,
                        scan_id: 0,
                    }),
                forall|k: u64|
                    !u_id_among(uv, t as int, k) ==> (#[trigger] ids_contain(self@.by_id, k)
                        <==> ids_contain(o.by_id, k)),
                forall|k: u64|
                    !u_id_among(uv, t as int, k) && ids_contain(o.by_id, k)
                        ==> #[trigger] id_at(self@.by_id, k) == id_at(o.by_id, k),
            decreases uv.len() - t,
        {
            let ghost pre = self@;
            let e = entry_of_wire(&updated[t], always);
            let ghost evv = e@;
            proof {
                assert(evv == spec_entry_of_wire(uv[t as int], av));
                assert(evv.id == uv[t as int].id && evv.path == uv[t as int].path);
                // The id and path are fresh at this step.
                assert(!ids_contain(pre.by_id, evv.id)) by {
                    if u_id_among(uv, t as int, evv.id) {
                        let s = choose|s: int| 0 <= s < t && #[trigger] uv[s].id == evv.id;
                        assert(uv[s].id != uv[t as int].id);
                    }
                }
                assert(!entries_contain_path(pre.entries, evv.path)) by {
                    if u_path_among(uv, t as int, evv.path) {
                        let s = choose|s: int| 0 <= s < t && #[trigger] uv[s].path =~~= evv.path;
                        assert(!(uv[s].path =~~= uv[t as int].path));
                    }
                }
                assert(crate::ops::displaced_path(pre, evv) is None);
                assert(crate::ops::displaced_id(pre, evv) is None);
            }
            self.insert_entry(e, 0);
            proof {
                assert forall|q: Seq<Seq<u8>>|
                    u_path_among(uv, t + 1, q) implies #[trigger] entries_contain_path(
                    self@.entries,
                    q,
                ) && entry_at(self@.entries, q) == spec_entry_of_wire(
                    u_entry_with_path(uv, t + 1, q),
                    av,
                ) by {
                    let s = choose|s: int| 0 <= s < t + 1 && #[trigger] uv[s].path =~~= q;
                    assert forall|s2: int|
                        0 <= s2 < t + 1 && #[trigger] uv[s2].path =~~= q implies s2 == s by {
                        if s2 != s {
                            if s2 < s {
                                assert(!(uv[s2].path =~~= uv[s].path));
                            } else {
                                assert(!(uv[s].path =~~= uv[s2].path));
                            }
                        }
                    }
                    assert(u_entry_with_path(uv, t + 1, q) == uv[s]);
                    if s == t {
                        assert(q =~~= evv.path);
                        assert(entries_contain_path(self@.entries, evv.path));
                        assert(entry_at(self@.entries, evv.path) == evv);
                        assert(u_entry_with_path(uv, t + 1, q) == uv[t as int]);
                    } else {
                        assert(u_path_among(uv, t as int, q));
                        let s0 = choose|s0: int| 0 <= s0 < t && #[trigger] uv[s0].path =~~= q;
                        assert forall|s2: int|
                            0 <= s2 < t && #[trigger] uv[s2].path =~~= q implies s2 == s0 by {
                            if s2 != s0 {
                                if s2 < s0 {
                                    assert(!(uv[s2].path =~~= uv[s0].path));
                                } else {
                                    assert(!(uv[s0].path =~~= uv[s2].path));
                                }
                            }
                        }
                        assert(u_entry_with_path(uv, t as int, q) == uv[s0]);
                        assert(s0 == s);
                        assert(!(q =~~= evv.path)) by {
                            if q =~~= evv.path {
                                assert(!(uv[s0].path =~~= uv[t as int].path));
                            }
                        }
                        assert(entries_contain_path(pre.entries, q));
                        assert(entry_at(self@.entries, q) == entry_at(pre.entries, q));
                    }
                }
                assert forall|q: Seq<Seq<u8>>|
                    !u_path_among(uv, t + 1, q) implies (#[trigger] entries_contain_path(
                    self@.entries,
                    q,
                ) <==> entries_contain_path(o.entries, q)) by {
                    assert(!u_path_among(uv, t as int, q)) by {
                        if u_path_among(uv, t as int, q) {
                            let s = choose|s: int| 0 <= s < t && #[trigger] uv[s].path =~~= q;
                            assert(u_path_among(uv, t + 1, q));
                        }
                    }
                    assert(!(q =~~= evv.path)) by {
                        if q =~~= evv.path {
                            assert(uv[t as int].path =~~= q);
                            assert(u_path_among(uv, t + 1, q));
                        }
                    }
                    assert(entries_contain_path(self@.entries, q) <==> entries_contain_path(
                        pre.entries,
                        q,
                    ));
                }
                assert forall|q: Seq<Seq<u8>>|
                    !u_path_among(uv, t + 1, q) && entries_contain_path(
                        o.entries,
                        q,
                    ) implies #[trigger] entry_at(self@.entries, q) == entry_at(o.entries, q) by {
                    assert(!u_path_among(uv, t as int, q)) by {
                        if u_path_among(uv, t as int, q) {
                            let s = choose|s: int| 0 <= s < t && #[trigger] uv[s].path =~~= q;
                            assert(u_path_among(uv, t + 1, q));
                        }
                    }
                    assert(!(q =~~= evv.path)) by {
                        if q =~~= evv.path {
                            assert(uv[t as int].path =~~= q);
                            assert(u_path_among(uv, t + 1, q));
                        }
                    }
                    assert(entry_at(self@.entries, q) == entry_at(pre.entries, q));
                }
                assert forall|k: u64| u_id_among(uv, t + 1, k) implies #[trigger] ids_contain(
                    self@.by_id,
                    k,
                ) && id_at(self@.by_id, k) == (PathEntryV {
                    id: k,
                    path: u_entry_with_id(uv, t + 1, k).path,
                    is_ignored: u_entry_with_id(uv, t + 1, k).is_ignored,
                    scan_id: 0,
                }) by {
                    let s = choose|s: int| 0 <= s < t + 1 && #[trigger] uv[s].id == k;
                    assert forall|s2: int|
                        0 <= s2 < t + 1 && #[trigger] uv[s2].id == k implies s2 == s by {
                        if s2 != s {
                            if s2 < s {
                                assert(uv[s2].id != uv[s].id);
                            } else {
                                assert(uv[s].id != uv[s2].id);
                            }
                        }
                    }
                    assert(u_entry_with_id(uv, t + 1, k) == uv[s]);
                    if s == t {
                        assert(k == evv.id);
                        assert(ids_contain(self@.by_id, evv.id));
                        assert(u_entry_with_id(uv, t + 1, k) == uv[t as int]);
                    } else {
                        assert(u_id_among(uv, t as int, k));
                        let s0 = choose|s0: int| 0 <= s0 < t && #[trigger] uv[s0].id == k;
                        assert forall|s2: int|
                            0 <= s2 < t && #[trigger] uv[s2].id == k implies s2 == s0 by {
                            if s2 != s0 {
                                if s2 < s0 {
                                    assert(uv[s2].id != uv[s0].id);
                                } else {
                                    assert(uv[s0].id != uv[s2].id);
                                }
                            }
                        }
                        assert(u_entry_with_id(uv, t as int, k) == uv[s0]);
                        assert(s0 == s);
                        assert(k != evv.id) by {
                            if k == evv.id {
                                assert(uv[s0].id != uv[t as int].id);
                            }
                        }
                        assert(ids_contain(pre.by_id, k));
                        assert(id_at(self@.by_id, k) == id_at(pre.by_id, k));
                    }
                }
                assert forall|k: u64| !u_id_among(uv, t + 1, k) implies (#[trigger] ids_contain(
                    self@.by_id,
                    k,
                ) <==> ids_contain(o.by_id, k)) by {
                    assert(!u_id_among(uv, t as int, k)) by {
                        if u_id_among(uv, t as int, k) {
                            let s = choose|s: int| 0 <= s < t && #[trigger] uv[s].id == k;
                            assert(u_id_among(uv, t + 1, k));
                        }
                    }
                    assert(k != evv.id) by {
                        if k == evv.id {
                            assert(uv[t as int].id == k);
                            assert(u_id_among(uv, t + 1, k));
                        }
                    }
                    assert(ids_contain(self@.by_id, k) <==> ids_contain(pre.by_id, k));
                }
                assert forall|k: u64|
                    !u_id_among(uv, t + 1, k) && ids_contain(o.by_id, k) implies #[trigger] id_at(
                    self@.by_id,
                    k,
                ) == id_at(o.by_id, k) by {
                    assert(!u_id_among(uv, t as int, k)) by {
                        if u_id_among(uv, t as int, k) {
                            let s = choose|s: int| 0 <= s < t && #[trigger] uv[s].id == k;
                            assert(u_id_among(uv, t + 1, k));
                        }
                    }
                    assert(k != evv.id) by {
                        if k == evv.id {
                            assert(uv[t as int].id == k);
                            assert(u_id_among(uv, t + 1, k));
                        }
                    }
                    assert(id_at(self@.by_id, k) == id_at(pre.by_id, k));
                }
            }
            t = t + 1;
        }
    }
}


/// An update names a worktree other than the one it is applied to.
#[derive(Clone, Copy, Debug, PartialEq, Eq, Structural)]
pub enum ApplyError {
    WorktreeIdMismatch,
}

/// Whether `k` is cleared by the update: listed among the removed ids, or
/// the id of an updated entry.
pub open spec fn update_clears_id(rem: Seq<u64>, uv: Seq<WireEntryV>, k: u64) -> bool {
    id_among(rem, rem.len() as int, k) || u_id_among(uv, uv.len() as int, k)
}

/// Whether `q` is vacated by the clearing phases: it is the recorded path
/// of a cleared id.
pub open spec fn update_clears_path(o: SnapshotV, rem: Seq<u64>, uv: Seq<WireEntryV>, q: Seq<Seq<u8>>) -> bool {
    exists|k: u64|
        #[trigger] update_clears_id(rem, uv, k) && ids_contain(o.by_id, k) && id_at(
            o.by_id,
            k,
        ).path =~~= q
}

/// Whether `k` is evicted as the former occupant of an updated entry's
/// target path.
pub open spec fn update_evicts_id(o: SnapshotV, rem: Seq<u64>, uv: Seq<WireEntryV>, k: u64) -> bool {
    exists|s: int|
        0 <= s < uv.len() && entries_contain_path(o.entries, #[trigger] uv[s].path)
            && !update_clears_path(o, rem, uv, uv[s].path) && entry_at(o.entries, uv[s].path).id
            == k
}

impl Snapshot {
    /// Applies a remote delta: root identity, entry removals, entry
    /// upserts, repository changes, and the scan generations. Updates
    /// arrive in the order the peer produced them, so the delta's scan id
    /// is never behind the completed one.
    pub fn apply_remote_update(&mut self, update: &UpdateWorktree, always: &Vec<RelPath>) -> (r:
        Result<(), ApplyError>)
        requires
            old(self).wf(),
            update@.scan_id >= old(self)@.completed_scan_id,
        ensures
            final (self).wf(),
            update@.worktree_id != old(self)@.id ==> (r == Err::<(), ApplyError>(
                ApplyError::WorktreeIdMismatch,
            ) && final (self)@ == old(self)@),
            update@.worktree_id == old(self)@.id ==> r == Ok::<(), ApplyError>(()),
            update@.worktree_id == old(self)@.id ==> {
                &&& final (self)@.id == old(self)@.id
                &&& final (self)@.abs_path == update@.abs_path
                &&& final (self)@.root_name == update@.root_name
                &&& final (self)@.scan_id == update@.scan_id
                &&& final (self)@.completed_scan_id == (if update@.is_last_update {
                    update@.scan_id
                } else {
                    old(self)@.completed_scan_id
                })
            },
            update@.worktree_id == old(self)@.id ==> {
                &&& forall|p: Seq<Seq<u8>>|
                    !crate::repos::record_targets_path(
                        final (self)@.by_id,
                        update@.updated_repositories,
                        p,
                    ) ==> (#[trigger] crate::snapshot::repos_contain_path(final (self)@.repos, p)
                        <==> crate::repos::repo_survives(
                        old(self)@.repos,
                        update@.removed_repositories,
                        p,
                    ))
                &&& forall|p: Seq<Seq<u8>>|
                    !crate::repos::record_targets_path(
                        final (self)@.by_id,
                        update@.updated_repositories,
                        p,
                    ) && crate::snapshot::repos_contain_path(final (self)@.repos, p)
                        ==> #[trigger] crate::snapshot::repo_at(final (self)@.repos, p)
                        == crate::snapshot::repo_at(old(self)@.repos, p)
                &&& (crate::repos::records_separate(
                    final (self)@.by_id,
                    update@.updated_repositories,
                ) ==> forall|s: int|
                    0 <= s < update@.updated_repositories.len()
                        && crate::snapshot::ids_contain(
                        final (self)@.by_id,
                        update@.updated_repositories[s].work_directory_id,
                    ) ==> #[trigger] crate::repos::repo_record_applied(
                        old(self)@.repos,
                        final (self)@.repos,
                        final (self)@.by_id,
                        update@.removed_repositories,
                        update@.updated_repositories[s],
                    ))
            },
            update@.worktree_id == old(self)@.id && u_distinct(update@.updated_entries)
                ==> {
                &&& forall|q: Seq<Seq<u8>>|
                    u_path_among(
                        update@.updated_entries,
                        update@.updated_entries.len() as int,
                        q,
                    ) ==> #[trigger] entries_contain_path(final (self)@.entries, q)
                &&& forall|q: Seq<Seq<u8>>|
                    u_path_among(
                        update@.updated_entries,
                        update@.updated_entries.len() as int,
                        q,
                    ) ==> #[trigger] entry_at(final (self)@.entries, q) == spec_entry_of_wire(
                        u_entry_with_path(
                            update@.updated_entries,
                            update@.updated_entries.len() as int,
                            q,
                        ),
                        always@.map(|_i: int, p: RelPath| p@),
                    )
                &&& forall|q: Seq<Seq<u8>>|
                    !u_path_among(
                        update@.updated_entries,
                        update@.updated_entries.len() as int,
                        q,
                    ) ==> (#[trigger] entries_contain_path(final (self)@.entries, q)
                        <==> entries_contain_path(old(self)@.entries, q) && !update_clears_path(
                        old(self)@,
                        update@.removed_entries,
                        update@.updated_entries,
                        q,
                    ))
                &&& forall|q: Seq<Seq<u8>>|
                    !u_path_among(
                        update@.updated_entries,
                        update@.updated_entries.len() as int,
                        q,
                    ) && entries_contain_path(final (self)@.entries, q) ==> #[trigger] entry_at(
                        final (self)@.entries,
                        q,
                    ) == entry_at(old(self)@.entries, q)
                &&& forall|k: u64|
                    u_id_among(
                        update@.updated_entries,
                        update@.updated_entries.len() as int,
                        k,
                    ) ==> #[trigger] ids_contain(final (self)@.by_id, k)
                &&& forall|k: u64|
                    u_id_among(
                        update@.updated_entries,
                        update@.updated_entries.len() as int,
                        k,
                    ) ==> #[trigger] id_at(final (self)@.by_id, k) == (PathEntryV {
                        id: k,
                        path: u_entry_with_id(
                            update@.updated_entries,
                            update@.updated_entries.len() as int,
                            k,
                        ).path,
                        is_ignored: u_entry_with_id(
                            update@.updated_entries,
                            update@.updated_entries.len() as int,
                            k,
                        ).is_ignored,
                        scan_id: 0,
                    })
                &&& forall|k: u64|
                    !u_id_among(
                        update@.updated_entries,
                        update@.updated_entries.len() as int,
                        k,
                    ) ==> (#[trigger] ids_contain(final (self)@.by_id, k) <==> ids_contain(
                        old(self)@.by_id,
                        k,
                    ) && !id_among(
                        update@.removed_entries,
                        update@.removed_entries.len() as int,
                        k,
                    ) && !update_evicts_id(
                        old(self)@,
                        update@.removed_entries,
                        update@.updated_entries,
                        k,
                    ))
                &&& forall|k: u64|
                    !u_id_among(
                        update@.updated_entries,
                        update@.updated_entries.len() as int,
                        k,
                    ) && ids_contain(final (self)@.by_id, k) ==> #[trigger] id_at(
                        final (self)@.by_id,
                        k,
                    ) == id_at(old(self)@.by_id, k)
            },
    {
        let ghost o = old(self)@;
        let ghost uv = update@.updated_entries;
        let ghost rem = update@.removed_entries;
        if update.worktree_id != self.id {
            proof {
                assert(self@ == o);
            }
            return Err(ApplyError::WorktreeIdMismatch);
        }
        self.abs_path = crate::relpath::clone_bytes(&update.abs_path);
        self.root_name = crate::relpath::clone_bytes(&update.root_name);
        let ghost o1 = self@;
        proof {
            assert(o1.entries == o.entries && o1.by_id == o.by_id && o1.repos == o.repos);
        }

        self.apply_removals(&update.removed_entries);
        let ghost r1 = self@;
        let mut updated_ids: Vec<u64> = Vec::new();
        let mut s: usize = 0;
        while s < update.updated_entries.len()
            invariant
                s <= update.updated_entries@.len(),
                uv == update@.updated_entries,
                uv.len() == update.updated_entries@.len(),
                updated_ids@.len() == s,
                forall|j: int| 0 <= j < s ==> #[trigger] updated_ids@[j] == uv[j].id,
            decreases update.updated_entries@.len() - s,
        {
            updated_ids.push(update.updated_entries[s].id);
            s = s + 1;
        }
        self.apply_removals(&updated_ids);
        let ghost r2 = self@;
        proof {
            // Combine the two clearing phases into one characterization.
            assert forall|k: u64| #[trigger] ids_contain(r2.by_id, k) <==> (ids_contain(
                o.by_id,
                k,
            ) && !update_clears_id(rem, uv, k)) by {
                if ids_contain(r2.by_id, k) {
                    assert(ids_contain(r1.by_id, k) && !id_among(updated_ids@, s as int, k));
                    assert(ids_contain(o1.by_id, k) && !id_among(rem, rem.len() as int, k));
                    if u_id_among(uv, uv.len() as int, k) {
                        let w = choose|w: int| 0 <= w < uv.len() && #[trigger] uv[w].id == k;
                        assert(updated_ids@[w] == k);
                        assert(id_among(updated_ids@, s as int, k));
                        assert(false);
                    }
                }
                if ids_contain(o.by_id, k) && !update_clears_id(rem, uv, k) {
                    assert(!id_among(rem, rem.len() as int, k));
                    assert(ids_contain(r1.by_id, k));
                    assert(!id_among(updated_ids@, s as int, k)) by {
                        if id_among(updated_ids@, s as int, k) {
                            let w = choose|w: int|
                                0 <= w < s && #[trigger] updated_ids@[w] == k;
                            assert(uv[w].id == k);
                            assert(u_id_among(uv, uv.len() as int, k));
                        }
                    }
                    assert(ids_contain(r2.by_id, k));
                }
            }
            assert forall|k: u64| ids_contain(r2.by_id, k) implies #[trigger] id_at(r2.by_id, k)
                == id_at(o.by_id, k) by {
                assert(ids_contain(r1.by_id, k));
                assert(id_at(r2.by_id, k) == id_at(r1.by_id, k));
                assert(id_at(r1.by_id, k) == id_at(o1.by_id, k));
            }
            assert forall|q: Seq<Seq<u8>>| #[trigger] entries_contain_path(r2.entries, q) <==> (
            entries_contain_path(o.entries, q) && !update_clears_path(o, rem, uv, q)) by {
                if entries_contain_path(r2.entries, q) {
                    assert(entries_contain_path(r1.entries, q));
                    assert(entries_contain_path(o1.entries, q));
                    if update_clears_path(o, rem, uv, q) {
                        let k = choose|k: u64|
                            #[trigger] update_clears_id(rem, uv, k) && ids_contain(o.by_id, k)
                                && id_at(o.by_id, k).path =~~= q;
                        if id_among(rem, rem.len() as int, k) {
                            assert(cleared_path(o1.by_id, rem, rem.len() as int, q));
                            assert(!entries_contain_path(r1.entries, q));
                            assert(false);
                        } else {
                            assert(u_id_among(uv, uv.len() as int, k));
                            let w = choose|w: int| 0 <= w < uv.len() && #[trigger] uv[w].id == k;
                            assert(updated_ids@[w] == k);
                            assert(ids_contain(r1.by_id, k));
                            assert(id_at(r1.by_id, k) == id_at(o1.by_id, k));
                            assert(cleared_path(r1.by_id, updated_ids@, s as int, q));
                            assert(!entries_contain_path(r2.entries, q));
                            assert(false);
                        }
                    }
                }
                if entries_contain_path(o.entries, q) && !update_clears_path(o, rem, uv, q) {
                    assert(!cleared_path(o1.by_id, rem, rem.len() as int, q)) by {
                        if cleared_path(o1.by_id, rem, rem.len() as int, q) {
                            let w = choose|w: int|
                                0 <= w < rem.len() && ids_contain(o1.by_id, rem[w]) && id_at(
                                    o1.by_id,
                                    #[trigger] rem[w],
                                ).path =~~= q;
                            assert(id_among(rem, rem.len() as int, rem[w]));
                            assert(update_clears_id(rem, uv, rem[w]));
                            assert(update_clears_path(o, rem, uv, q));
                        }
                    }
                    assert(entries_contain_path(r1.entries, q));
                    assert(!cleared_path(r1.by_id, updated_ids@, s as int, q)) by {
                        if cleared_path(r1.by_id, updated_ids@, s as int, q) {
                            let w = choose|w: int|
                                0 <= w < s && ids_contain(r1.by_id, updated_ids@[w]) && id_at(
                                    r1.by_id,
                                    #[trigger] updated_ids@[w],
                                ).path =~~= q;
                            let k = updated_ids@[w];
                            assert(uv[w].id == k);
                            assert(u_id_among(uv, uv.len() as int, k));
                            assert(update_clears_id(rem, uv, k));
                            assert(ids_contain(o1.by_id, k));
                            assert(id_at(r1.by_id, k) == id_at(o1.by_id, k));
                            assert(update_clears_path(o, rem, uv, q));
                        }
                    }
                    assert(entries_contain_path(r2.entries, q));
                }
            }
            assert forall|q: Seq<Seq<u8>>| entries_contain_path(r2.entries, q) implies
                #[trigger] entry_at(r2.entries, q) == entry_at(o.entries, q) by {
                assert(entries_contain_path(r1.entries, q));
                assert(entry_at(r2.entries, q) == entry_at(r1.entries, q));
                assert(entry_at(r1.entries, q) == entry_at(o1.entries, q));
            }
        }

        self.apply_occupant_removals(&update.updated_entries);
        let ghost r3 = self@;
        proof {
            // The eviction phase, characterized over the pre-update state.
            assert forall|k: u64| #[trigger] ids_contain(r3.by_id, k) <==> (ids_contain(
                o.by_id,
                k,
            ) && !update_clears_id(rem, uv, k) && !update_evicts_id(o, rem, uv, k)) by {
                if ids_contain(r3.by_id, k) {
                    assert(ids_contain(r2.by_id, k) && !occupant_id_among(
                        r2.entries,
                        uv,
                        uv.len() as int,
                        k,
                    ));
                    if update_evicts_id(o, rem, uv, k) {
                        let s2 = choose|s2: int|
                            0 <= s2 < uv.len() && entries_contain_path(
                                o.entries,
                                #[trigger] uv[s2].path,
                            ) && !update_clears_path(o, rem, uv, uv[s2].path) && entry_at(
                                o.entries,
                                uv[s2].path,
                            ).id == k;
                        assert(entries_contain_path(r2.entries, uv[s2].path));
                        assert(entry_at(r2.entries, uv[s2].path) == entry_at(
                            o.entries,
                            uv[s2].path,
                        ));
                        assert(occupant_id_among(r2.entries, uv, uv.len() as int, k));
                        assert(false);
                    }
                }
                if ids_contain(o.by_id, k) && !update_clears_id(rem, uv, k) && !update_evicts_id(
                    o,
                    rem,
                    uv,
                    k,
                ) {
                    assert(ids_contain(r2.by_id, k));
                    assert(!occupant_id_among(r2.entries, uv, uv.len() as int, k)) by {
                        if occupant_id_among(r2.entries, uv, uv.len() as int, k) {
                            let s2 = choose|s2: int|
                                0 <= s2 < uv.len() && entries_contain_path(
                                    r2.entries,
                                    #[trigger] uv[s2].path,
                                ) && entry_at(r2.entries, uv[s2].path).id == k;
                            assert(entries_contain_path(o.entries, uv[s2].path)
                                && !update_clears_path(o, rem, uv, uv[s2].path));
                            assert(entry_at(r2.entries, uv[s2].path) == entry_at(
                                o.entries,
                                uv[s2].path,
                            ));
                            assert(update_evicts_id(o, rem, uv, k));
                        }
                    }
                    assert(ids_contain(r3.by_id, k));
                }
            }
            assert forall|k: u64| ids_contain(r3.by_id, k) implies #[trigger] id_at(r3.by_id, k)
                == id_at(o.by_id, k) by {
                assert(ids_contain(r2.by_id, k));
                assert(id_at(r3.by_id, k) == id_at(r2.by_id, k));
            }
        }

        // The cleared ids and paths are now gone, so the insertions are
        // clean when the update lists distinct entries.
        let distinct = updated_entries_distinct(&update.updated_entries);
        proof {
            if u_distinct(uv) {
                assert forall|s2: int| 0 <= s2 < update.updated_entries@.len() implies
                    !ids_contain(r3.by_id, #[trigger] uview(update.updated_entries@)[s2].id)
                        && !entries_contain_path(
                        r3.entries,
                        uview(update.updated_entries@)[s2].path,
                    ) by {
                    assert(uview(update.updated_entries@)[s2] == uv[s2]);
                    assert(u_id_among(uv, uv.len() as int, uv[s2].id));
                    assert(update_clears_id(rem, uv, uv[s2].id));
                    assert(!ids_contain(r3.by_id, uv[s2].id));
                    assert(!entries_contain_path(r3.entries, uv[s2].path)) by {
                        if entries_contain_path(r3.entries, uv[s2].path) {
                            assert(entries_contain_path(r2.entries, uv[s2].path)
                                && !u_path_among(uv, uv.len() as int, uv[s2].path));
                            assert(uv[s2].path =~~= uv[s2].path);
                            assert(u_path_among(uv, uv.len() as int, uv[s2].path));
                            assert(false);
                        }
                    }
                }
            }
        }
        if distinct {
            self.apply_insertions(&update.updated_entries, always);
        } else {
            // A malformed update repeats an id or a path; install its
            // entries one by one, best effort.
            let mut t: usize = 0;
            while t < update.updated_entries.len()
                invariant
                    self.wf(),
                    t <= update.updated_entries@.len(),
                    self@.id == r3.id,
                    self@.abs_path == r3.abs_path,
                    self@.root_name == r3.root_name,
                    self@.repos == r3.repos,
                    self@.scan_id == r3.scan_id,
                    self@.completed_scan_id == r3.completed_scan_id,
                decreases update.updated_entries@.len() - t,
            {
                let e = entry_of_wire(&update.updated_entries[t], always);
                self.insert_entry(e, 0);
                t = t + 1;
            }
        }

        let ghost before_repo_phase = self@;
        self.apply_repository_updates(&update.updated_repositories, &update.removed_repositories);
        proof {
            assert(before_repo_phase.repos == o.repos);
            assert(update@.updated_repositories == update.updated_repositories@.map(
                |_i: int, e: WireRepositoryEntry| e@,
            ));
            assert(update@.removed_repositories == update.removed_repositories@);
            if crate::repos::records_separate(self@.by_id, update@.updated_repositories) {
                assert forall|s: int|
                    0 <= s < update@.updated_repositories.len()
                        && crate::snapshot::ids_contain(
                        self@.by_id,
                        update@.updated_repositories[s].work_directory_id,
                    ) implies #[trigger] crate::repos::repo_record_applied(
                    o.repos,
                    self@.repos,
                    self@.by_id,
                    update@.removed_repositories,
                    update@.updated_repositories[s],
                ) by {
                    assert(update@.updated_repositories[s]
                        == update.updated_repositories@[s]@);
                    assert(crate::repos::repo_record_applied(
                        before_repo_phase.repos,
                        self@.repos,
                        before_repo_phase.by_id,
                        update.removed_repositories@,
                        update.updated_repositories@[s]@,
                    ));
                }
            }
        }

        self.scan_id = update.scan_id;
        if update.is_last_update {
            self.completed_scan_id = update.scan_id;
        }
        Ok(())
    }
}


/// Whether the listed entries carry pairwise distinct ids and paths.
pub fn updated_entries_distinct(updated: &Vec<WireEntry>) -> (r: bool)
    ensures
        r == u_distinct(uview(updated@)),
{
    let ghost uv = uview(updated@);
    let mut a: usize = 0;
    while a < updated.len()
        invariant
            a <= uv.len(),
            uv == uview(updated@),
            uv.len() == updated@.len(),
            forall|x: int, y: int|
                0 <= x < y < uv.len() && x < a ==> #[trigger] uv[x].id != #[trigger] uv[y].id,
            forall|x: int, y: int|
                0 <= x < y < uv.len() && x < a ==> !(#[trigger] uv[x].path
                    =~~= #[trigger] uv[y].path),
        decreases uv.len() - a,
    {
        let mut b: usize = a + 1;
        while b < updated.len()
            invariant
                a < b <= uv.len() || (a + 1 == b && b > uv.len() - 1 && a < uv.len()),
                a < uv.len(),
                uv == uview(updated@),
                uv.len() == updated@.len(),
                forall|y: int| a < y < b ==> #[trigger] uv[a as int].id != uv[y].id,
                forall|y: int|
                    a < y < b ==> !(uv[a as int].path =~~= #[trigger] uv[y].path),
            decreases uv.len() - b,
        {
            if updated[a].id == updated[b].id {
                proof {
                    assert(0 <= a < b < uv.len() && uv[a as int].id == uv[b as int].id);
                    assert(!u_distinct(uv));
                }
                return false;
            }
            if updated[a].path.eq_path(&updated[b].path) {
                proof {
                    assert(0 <= a < b < uv.len() && uv[a as int].path =~~= uv[b as int].path);
                    assert(!u_distinct(uv));
                }
                return false;
            }
            b = b + 1;
        }
        a = a + 1;
    }
    true
}

} // verus!




