use vstd::prelude::*;

use crate::edits::{eview, ids_remove, ids_upsert, iview, tree_remove, tree_upsert};
use crate::entry::{Entry, EntryV, PathEntry, PathEntryV};
use crate::relpath::{lemma_path_lt_trans, path_is_prefix, path_lt, RelPath};
use crate::snapshot::{
    entries_contain_path, entries_sorted, entry_at, entry_lower_bound, id_at, id_lower_bound,
    ids_contain, ids_sorted, lemma_unique_entry, lemma_unique_id, Snapshot, SnapshotV,
};

verus! {

/// The path that inserting `e` clears out of the tree: the path where
/// `e.id` previously lived, when that differs from `e.path`.
pub open spec fn displaced_path(s: SnapshotV, e: EntryV) -> Option<Seq<Seq<u8>>> {
    if ids_contain(s.by_id, e.id) && !(id_at(s.by_id, e.id).path =~~= e.path) {
        Some(id_at(s.by_id, e.id).path)
    } else {
        None
    }
}

/// The id that inserting `e` clears out of the identity index: the former
/// occupant of `e.path`, when it is a different entry.
pub open spec fn displaced_id(s: SnapshotV, e: EntryV) -> Option<u64> {
    if entries_contain_path(s.entries, e.path) && entry_at(s.entries, e.path).id != e.id {
        Some(entry_at(s.entries, e.path).id)
    } else {
        None
    }
}

impl Snapshot {
    /// Installs `entry` in both indices. If the id previously lived at
    /// another path, that path leaves the tree; if the path was occupied
    /// by another id, that id leaves the identity index. Everything else
    /// is untouched.
    pub fn insert_entry(&mut self, entry: Entry, row_scan_id: u64)
        requires
            old(self).wf(),
        ensures
            final (self).wf(),
            final (self)@.id == old(self)@.id,
            final (self)@.abs_path == old(self)@.abs_path,
            final (self)@.root_name == old(self)@.root_name,
            final (self)@.repos == old(self)@.repos,
            final (self)@.scan_id == old(self)@.scan_id,
            final (self)@.completed_scan_id == old(self)@.completed_scan_id,
            entries_contain_path(final (self)@.entries, entry@.path),
            entry_at(final (self)@.entries, entry@.path) == entry@,
            ids_contain(final (self)@.by_id, entry@.id),
            id_at(final (self)@.by_id, entry@.id) == (PathEntryV {
                id: entry@.id,
                path: entry@.path,
                is_ignored: entry@.is_ignored,
                scan_id: row_scan_id,
            }),
            displaced_path(old(self)@, entry@) matches Some(dp) ==> !entries_contain_path(
                final (self)@.entries,
                dp,
            ),
            displaced_id(old(self)@, entry@) matches Some(di) ==> !ids_contain(
                final (self)@.by_id,
                di,
            ),
            forall|q: Seq<Seq<u8>>|
                !(q =~~= entry@.path) && displaced_path(old(self)@, entry@) != Some(q) ==> (
                entries_contain_path(final (self)@.entries, q) <==> entries_contain_path(
                    #[trigger] old(self)@.entries,
                    q,
                )),
            forall|q: Seq<Seq<u8>>|
                !(q =~~= entry@.path) && displaced_path(old(self)@, entry@) != Some(q)
                    && entries_contain_path(old(self)@.entries, q) ==> entry_at(
                    final (self)@.entries,
                    q,
                ) == entry_at(#[trigger] old(self)@.entries, q),
            forall|k: u64|
                k != entry@.id && displaced_id(old(self)@, entry@) != Some(k) ==> (
                #[trigger] ids_contain(final (self)@.by_id, k) <==> ids_contain(
                    old(self)@.by_id,
                    k,
                )),
            forall|k: u64|
                k != entry@.id && displaced_id(old(self)@, entry@) != Some(k) && ids_contain(
                    old(self)@.by_id,
                    k,
                ) ==> #[trigger] id_at(final (self)@.by_id, k) == id_at(old(self)@.by_id, k),
    {
        let ghost o = old(self)@;
        let ghost ev = entry@;
        let ghost dp = displaced_path(o, ev);
        let ghost di = displaced_id(o, ev);

        // Clear the tree slot where this id previously lived.
        let (i, has_id) = id_lower_bound(&self.entries_by_id, entry.id.0);
        if has_id {
            proof {
                lemma_unique_id(o.by_id, ev.id, i as int);
            }
            let old_path = self.entries_by_id[i].path.clone_path();
            if !old_path.eq_path(&entry.path) {
                tree_remove(&mut self.entries_by_path, &old_path);
            }
        }
        let ghost e1 = eview(self.entries_by_path@);
        proof {
            assert(self@.by_id == o.by_id);
            if dp is Some {
                assert(!entries_contain_path(e1, dp.unwrap()));
                assert(forall|q: Seq<Seq<u8>>|
                    !(dp == Some(q)) ==> (entries_contain_path(e1, q) <==> entries_contain_path(
                        o.entries,
                        q,
                    )));
                assert(forall|q: Seq<Seq<u8>>|
                    !(dp == Some(q)) && entries_contain_path(o.entries, q) ==> entry_at(e1, q)
                        == entry_at(o.entries, q));
            } else {
                assert(e1 == o.entries);
            }
        }

        // Clear the identity slot of the path's former occupant.
        let (j, occupied) = entry_lower_bound(&self.entries_by_path, &entry.path);
        if occupied {
            proof {
                lemma_unique_entry(e1, ev.path, j as int);
                if dp is Some {
                    assert(entries_contain_path(o.entries, ev.path) <==> entries_contain_path(
                        e1,
                        ev.path,
                    ));
                    if entries_contain_path(o.entries, ev.path) {
                        assert(entry_at(e1, ev.path) == entry_at(o.entries, ev.path));
                    }
                }
            }
            let occ_id = self.entries_by_path[j].id;
            if occ_id.0 != entry.id.0 {
                proof {
                    assert(di == Some(occ_id.0));
                }
                ids_remove(&mut self.entries_by_id, occ_id.0);
            }
        } else {
            proof {
                crate::snapshot::lemma_lower_bound_absent(e1, ev.path, j as int);
                assert(!entries_contain_path(e1, ev.path));
                if dp is Some {
                    assert(!(dp == Some(ev.path)));
                }
                assert(!entries_contain_path(o.entries, ev.path));
                assert(di is None);
            }
        }
        let ghost i1 = iview(self.entries_by_id@);
        proof {
            if di is Some {
                assert(!ids_contain(i1, di.unwrap()));
                assert(forall|k: u64|
                    !(di == Some(k)) ==> (ids_contain(i1, k) <==> ids_contain(o.by_id, k)));
                assert(forall|k: u64|
                    !(di == Some(k)) && ids_contain(o.by_id, k) ==> id_at(i1, k) == id_at(
                        o.by_id,
                        k,
                    ));
            } else {
                assert(i1 == o.by_id);
            }
        }

        // Install the entry in both indices.
        let row = PathEntry {
            id: entry.id,
            path: entry.path.clone_path(),
            is_ignored: entry.is_ignored,
            scan_id: row_scan_id,
        };
        proof {
            assert(row@ == (PathEntryV {
                id: ev.id,
                path: ev.path,
                is_ignored: ev.is_ignored,
                scan_id: row_scan_id,
            }));
        }
        let ghost rowv = row@;
        tree_upsert(&mut self.entries_by_path, entry);
        ids_upsert(&mut self.entries_by_id, row);

        proof {
            let e2 = eview(self.entries_by_path@);
            let i2 = iview(self.entries_by_id@);
            assert(self@.entries == e2 && self@.by_id == i2);

            // Tree clauses.
            assert(entry_at(e2, ev.path) == ev);
            if dp is Some {
                assert(!(dp == Some(ev.path)));
                assert(!entries_contain_path(e2, dp.unwrap()));
            }
            assert forall|q: Seq<Seq<u8>>|
                !(q =~~= ev.path) && dp != Some(q) implies (entries_contain_path(e2, q)
                <==> entries_contain_path(o.entries, q)) by {
                assert(entries_contain_path(e2, q) <==> entries_contain_path(e1, q));
            }

            // Identity clauses.
            assert(id_at(i2, ev.id) == rowv);
            if di is Some {
                assert(di.unwrap() != ev.id);
                assert(!ids_contain(i2, di.unwrap()));
            }

            // Agreement, tree to identity.
            assert forall|ii: int| 0 <= ii < e2.len() implies ids_contain(
                i2,
                #[trigger] e2[ii].id,
            ) && id_at(i2, e2[ii].id).path =~~= e2[ii].path by {
                let q = e2[ii].path;
                lemma_unique_entry(e2, q, ii);
                if q =~~= ev.path {
                    assert(e2[ii] == ev);
                } else {
                    assert(dp != Some(q));
                    assert(entries_contain_path(o.entries, q));
                    assert(entry_at(e2, q) == entry_at(o.entries, q));
                    assert(e2[ii] == entry_at(o.entries, q));
                    let w = choose|k: int|
                        0 <= k < o.entries.len() && #[trigger] o.entries[k].path =~~= q;
                    assert(o.entries[w] == entry_at(o.entries, q));
                    let kid = o.entries[w].id;
                    assert(ids_contain(o.by_id, kid) && id_at(o.by_id, kid).path
                        =~~= o.entries[w].path);
                    if kid == ev.id {
                        assert(id_at(o.by_id, ev.id).path =~~= q);
                        if dp is Some {
                            assert(dp == Some(q));
                            assert(false);
                        } else {
                            if ids_contain(o.by_id, ev.id) {
                                assert(id_at(o.by_id, ev.id).path =~~= ev.path);
                                assert(q =~~= ev.path);
                            }
                            assert(false);
                        }
                    }
                    if di == Some(kid) {
                        assert(entry_at(o.entries, ev.path).id == kid);
                        let w2 = choose|k: int|
                            0 <= k < o.entries.len() && #[trigger] o.entries[k].path =~~= ev.path;
                        assert(o.entries[w2] == entry_at(o.entries, ev.path));
                        assert(ids_contain(o.by_id, kid) && id_at(o.by_id, kid).path
                            =~~= o.entries[w2].path);
                        assert(id_at(o.by_id, kid).path =~~= ev.path);
                        assert(id_at(o.by_id, kid).path =~~= q);
                        assert(false);
                    }
                    assert(ids_contain(i2, kid) && id_at(i2, kid) == id_at(o.by_id, kid));
                }
            }

            // Agreement, identity to tree.
            assert forall|jj: int| 0 <= jj < i2.len() implies entries_contain_path(
                e2,
                #[trigger] i2[jj].path,
            ) && entry_at(e2, i2[jj].path).id == i2[jj].id by {
                let k = i2[jj].id;
                lemma_unique_id(i2, k, jj);
                if k == ev.id {
                    assert(i2[jj] == rowv);
                } else {
                    assert(di != Some(k));
                    assert(ids_contain(o.by_id, k));
                    assert(i2[jj] == id_at(o.by_id, k));
                    let pk = i2[jj].path;
                    let w = choose|m: int| 0 <= m < o.by_id.len() && #[trigger] o.by_id[m].id == k;
                    assert(o.by_id[w] == id_at(o.by_id, k));
                    assert(entries_contain_path(o.entries, pk) && entry_at(o.entries, pk).id
                        == o.by_id[w].id);
                    if pk =~~= ev.path {
                        assert(entry_at(o.entries, ev.path).id == k);
                        assert(di == Some(k));
                        assert(false);
                    }
                    if dp == Some(pk) {
                        assert(ids_contain(o.by_id, ev.id) && id_at(o.by_id, ev.id).path =~~= pk);
                        let w2 = choose|m: int|
                            0 <= m < o.by_id.len() && #[trigger] o.by_id[m].id == ev.id;
                        assert(o.by_id[w2] == id_at(o.by_id, ev.id));
                        assert(entries_contain_path(o.entries, pk));
                        assert(entry_at(o.entries, pk).id == ev.id);
                        assert(entry_at(o.entries, pk).id == k);
                        assert(false);
                    }
                    assert(entries_contain_path(e2, pk));
                    assert(entry_at(e2, pk) == entry_at(o.entries, pk));
                }
            }
        }
    }

    /// Removes one entry by id: its identity row, and its path from the
    /// tree. Descendants are untouched.
    pub fn remove_entry_by_id(&mut self, id: u64)
        requires
            old(self).wf(),
        ensures
            final (self).wf(),
            final (self)@.id == old(self)@.id,
            final (self)@.abs_path == old(self)@.abs_path,
            final (self)@.root_name == old(self)@.root_name,
            final (self)@.repos == old(self)@.repos,
            final (self)@.scan_id == old(self)@.scan_id,
            final (self)@.completed_scan_id == old(self)@.completed_scan_id,
            !ids_contain(final (self)@.by_id, id),
            !ids_contain(old(self)@.by_id, id) ==> final (self)@ == old(self)@,
            ids_contain(old(self)@.by_id, id) ==> !entries_contain_path(
                final (self)@.entries,
                id_at(old(self)@.by_id, id).path,
            ),
            forall|k: u64|
                k != id ==> (#[trigger] ids_contain(final (self)@.by_id, k) <==> ids_contain(
                    old(self)@.by_id,
                    k,
                )),
            forall|k: u64|
                k != id && ids_contain(old(self)@.by_id, k) ==> #[trigger] id_at(
                    final (self)@.by_id,
                    k,
                ) == id_at(old(self)@.by_id, k),
            forall|q: Seq<Seq<u8>>|
                !(ids_contain(old(self)@.by_id, id) && q =~~= id_at(old(self)@.by_id, id).path)
                    ==> (#[trigger] entries_contain_path(final (self)@.entries, q)
                    <==> entries_contain_path(old(self)@.entries, q)),
            forall|q: Seq<Seq<u8>>|
                !(ids_contain(old(self)@.by_id, id) && q =~~= id_at(old(self)@.by_id, id).path)
                    && entries_contain_path(old(self)@.entries, q) ==> #[trigger] entry_at(
                    final (self)@.entries,
                    q,
                ) == entry_at(old(self)@.entries, q),
    {
        let ghost o = old(self)@;
        let (i, found) = id_lower_bound(&self.entries_by_id, id);
        if !found {
            proof {
                assert(self@ == o);
            }
            return ;
        }
        proof {
            lemma_unique_id(o.by_id, id, i as int);
        }
        let p = self.entries_by_id[i].path.clone_path();
        let ghost pv = p@;
        proof {
            assert(pv =~~= id_at(o.by_id, id).path);
        }
        tree_remove(&mut self.entries_by_path, &p);
        ids_remove(&mut self.entries_by_id, id);
        proof {
            let e2 = eview(self.entries_by_path@);
            let i2 = iview(self.entries_by_id@);
            assert(self@.entries == e2 && self@.by_id == i2);
            assert forall|ii: int| 0 <= ii < e2.len() implies ids_contain(
                i2,
                #[trigger] e2[ii].id,
            ) && id_at(i2, e2[ii].id).path =~~= e2[ii].path by {
                let q = e2[ii].path;
                lemma_unique_entry(e2, q, ii);
                assert(entries_contain_path(e2, q));
                assert(!(q =~~= pv));
                assert(entries_contain_path(o.entries, q));
                assert(entry_at(e2, q) == entry_at(o.entries, q));
                let w = choose|m: int|
                    0 <= m < o.entries.len() && #[trigger] o.entries[m].path =~~= q;
                assert(o.entries[w] == entry_at(o.entries, q));
                let k = o.entries[w].id;
                assert(ids_contain(o.by_id, k) && id_at(o.by_id, k).path =~~= o.entries[w].path);
                if k == id {
                    assert(id_at(o.by_id, id).path =~~= q);
                    assert(q =~~= pv);
                    assert(false);
                }
                assert(ids_contain(i2, k));
                assert(id_at(i2, k) == id_at(o.by_id, k));
            }
            assert forall|jj: int| 0 <= jj < i2.len() implies entries_contain_path(
                e2,
                #[trigger] i2[jj].path,
            ) && entry_at(e2, i2[jj].path).id == i2[jj].id by {
                let k = i2[jj].id;
                lemma_unique_id(i2, k, jj);
                assert(ids_contain(i2, k));
                assert(k != id);
                assert(ids_contain(o.by_id, k));
                assert(id_at(i2, k) == id_at(o.by_id, k));
                let pk = i2[jj].path;
                let w = choose|m: int| 0 <= m < o.by_id.len() && #[trigger] o.by_id[m].id == k;
                assert(o.by_id[w] == id_at(o.by_id, k));
                assert(entries_contain_path(o.entries, pk) && entry_at(o.entries, pk).id
                    == o.by_id[w].id);
                if pk =~~= pv {
                    assert(entry_at(o.entries, pv).id == k);
                    assert(entries_contain_path(o.entries, pv));
                    assert(id_at(o.by_id, id).path =~~= pv);
                    let w2 = choose|m: int| 0 <= m < o.by_id.len() && #[trigger] o.by_id[m].id == id;
                    assert(o.by_id[w2] == id_at(o.by_id, id));
                    assert(entry_at(o.entries, pv).id == id);
                    assert(false);
                }
                assert(entries_contain_path(e2, pk));
                assert(entry_at(e2, pk) == entry_at(o.entries, pk));
            }
        }
    }

    /// Removes the entry with this id together with everything below its
    /// path, from both indices. Returns the path that was removed.
    pub fn delete_entry(&mut self, id: u64) -> (r: Option<RelPath>)
        requires
            old(self).wf(),
        ensures
            final (self).wf(),
            final (self)@.id == old(self)@.id,
            final (self)@.abs_path == old(self)@.abs_path,
            final (self)@.root_name == old(self)@.root_name,
            final (self)@.repos == old(self)@.repos,
            final (self)@.scan_id == old(self)@.scan_id,
            final (self)@.completed_scan_id == old(self)@.completed_scan_id,
            !ids_contain(old(self)@.by_id, id) ==> r is None && final (self)@ == old(self)@,
            ids_contain(old(self)@.by_id, id) ==> (r matches Some(p) && p@ =~~= id_at(
                old(self)@.by_id,
                id,
            ).path && (forall|q: Seq<Seq<u8>>|
                #[trigger] entries_contain_path(final (self)@.entries, q) <==> (
                entries_contain_path(old(self)@.entries, q) && !path_is_prefix(p@, q))) && (
            forall|q: Seq<Seq<u8>>|
                entries_contain_path(final (self)@.entries, q) ==> #[trigger] entry_at(
                    final (self)@.entries,
                    q,
                ) == entry_at(old(self)@.entries, q)) && (forall|k: u64|
                #[trigger] ids_contain(final (self)@.by_id, k) <==> (ids_contain(
                    old(self)@.by_id,
                    k,
                ) && !path_is_prefix(p@, id_at(old(self)@.by_id, k).path))) && (forall|k: u64|
                ids_contain(final (self)@.by_id, k) ==> #[trigger] id_at(final (self)@.by_id, k)
                    == id_at(old(self)@.by_id, k))),
    {
        let ghost o = old(self)@;
        let (i, found) = id_lower_bound(&self.entries_by_id, id);
        if !found {
            proof {
                assert(self@ == o);
            }
            return None;
        }
        proof {
            lemma_unique_id(o.by_id, id, i as int);
        }
        let p = self.entries_by_id[i].path.clone_path();
        tree_retain_outside(&mut self.entries_by_path, &p);
        ids_retain_outside(&mut self.entries_by_id, &p);
        proof {
            let e2 = eview(self.entries_by_path@);
            let i2 = iview(self.entries_by_id@);
            assert(self@.entries == e2 && self@.by_id == i2);
            assert forall|ii: int| 0 <= ii < e2.len() implies ids_contain(
                i2,
                #[trigger] e2[ii].id,
            ) && id_at(i2, e2[ii].id).path =~~= e2[ii].path by {
                let q = e2[ii].path;
                lemma_unique_entry(e2, q, ii);
                assert(entries_contain_path(e2, q));
                assert(entries_contain_path(o.entries, q) && !path_is_prefix(p@, q));
                assert(entry_at(e2, q) == entry_at(o.entries, q));
                let w = choose|m: int|
                    0 <= m < o.entries.len() && #[trigger] o.entries[m].path =~~= q;
                assert(o.entries[w] == entry_at(o.entries, q));
                let k = o.entries[w].id;
                assert(ids_contain(o.by_id, k) && id_at(o.by_id, k).path =~~= o.entries[w].path);
                assert(!path_is_prefix(p@, id_at(o.by_id, k).path));
                assert(ids_contain(i2, k));
                assert(id_at(i2, k) == id_at(o.by_id, k));
            }
            assert forall|jj: int| 0 <= jj < i2.len() implies entries_contain_path(
                e2,
                #[trigger] i2[jj].path,
            ) && entry_at(e2, i2[jj].path).id == i2[jj].id by {
                let k = i2[jj].id;
                lemma_unique_id(i2, k, jj);
                assert(ids_contain(i2, k));
                assert(ids_contain(o.by_id, k) && !path_is_prefix(p@, id_at(o.by_id, k).path));
                assert(id_at(i2, k) == id_at(o.by_id, k));
                let pk = i2[jj].path;
                let w = choose|m: int| 0 <= m < o.by_id.len() && #[trigger] o.by_id[m].id == k;
                assert(o.by_id[w] == id_at(o.by_id, k));
                assert(entries_contain_path(o.entries, pk) && entry_at(o.entries, pk).id
                    == o.by_id[w].id);
                assert(entries_contain_path(e2, pk));
                assert(entry_at(e2, pk) == entry_at(o.entries, pk));
            }
        }
        Some(p)
    }
}


/// Removes from the tree every entry at or below `p`, keeping the rest in
/// order and unchanged.
fn tree_retain_outside(s: &mut Vec<Entry>, p: &RelPath)
    requires
        entries_sorted(eview(old(s)@)),
    ensures
        entries_sorted(eview(final (s)@)),
        forall|q: Seq<Seq<u8>>|
            #[trigger] entries_contain_path(eview(final (s)@), q) <==> (entries_contain_path(
                eview(old(s)@),
                q,
            ) && !path_is_prefix(p@, q)),
        forall|q: Seq<Seq<u8>>|
            entries_contain_path(eview(final (s)@), q) ==> #[trigger] entry_at(
                eview(final (s)@),
                q,
            ) == entry_at(eview(old(s)@), q),
{
    let ghost oldv = eview(s@);
    let mut out: Vec<Entry> = Vec::new();
    let ghost mut last_src: int = -1;
    let mut i: usize = 0;
    while i < s.len()
        invariant
            entries_sorted(oldv),
            oldv == eview(s@),
            0 <= i <= oldv.len(),
            s@.len() == oldv.len(),
            -1 <= last_src < i as int,
            (eview(out@).len() == 0) <==> (last_src == -1),
            eview(out@).len() > 0 ==> 0 <= last_src && eview(out@).last() == oldv[last_src],
            entries_sorted(eview(out@)),
            forall|j: int|
                0 <= j < eview(out@).len() ==> !path_is_prefix(
                    p@,
                    #[trigger] eview(out@)[j].path,
                ),
            forall|j: int|
                0 <= j < eview(out@).len() ==> entries_contain_path(
                    oldv,
                    #[trigger] eview(out@)[j].path,
                ),
            forall|j: int|
                0 <= j < eview(out@).len() ==> entry_at(oldv, #[trigger] eview(out@)[j].path)
                    == eview(out@)[j],
            forall|j0: int|
                0 <= j0 < i && !path_is_prefix(p@, #[trigger] oldv[j0].path)
                    ==> entries_contain_path(eview(out@), oldv[j0].path),
        decreases oldv.len() - i,
    {
        let ghost out_before = eview(out@);
        let e = &s[i];
        if !e.path.starts_with(p) {
            proof {
                lemma_unique_entry(oldv, oldv[i as int].path, i as int);
            }
            out.push(e.clone_entry());
            proof {
                let out_after = eview(out@);
                assert(out_after.len() == out_before.len() + 1);
                assert(forall|j: int| 0 <= j < out_before.len() ==> out_after[j] == out_before[j]);
                assert(out_after.last() == oldv[i as int]);
                assert forall|a: int, b: int| 0 <= a < b < out_after.len() implies path_lt(
                    #[trigger] out_after[a].path,
                    #[trigger] out_after[b].path,
                ) by {
                    if b < out_after.len() - 1 {
                        assert(path_lt(out_before[a].path, out_before[b].path));
                    } else {
                        if a == out_after.len() - 2 {
                            assert(out_after[a] == oldv[last_src]);
                            assert(path_lt(oldv[last_src].path, oldv[i as int].path));
                        } else if out_before.len() > 0 {
                            assert(path_lt(out_before[a].path, out_before.last().path));
                            assert(out_before.last() == oldv[last_src]);
                            assert(path_lt(oldv[last_src].path, oldv[i as int].path));
                            lemma_path_lt_trans(
                                out_before[a].path,
                                oldv[last_src].path,
                                oldv[i as int].path,
                            );
                        }
                    }
                }
                assert forall|j0: int|
                    0 <= j0 < i + 1 && !path_is_prefix(p@, #[trigger] oldv[j0].path) implies
                    entries_contain_path(out_after, oldv[j0].path) by {
                    if j0 < i {
                        let w = choose|k: int|
                            0 <= k < out_before.len() && #[trigger] out_before[k].path
                                =~~= oldv[j0].path;
                        assert(out_after[w].path =~~= oldv[j0].path);
                    } else {
                        assert(out_after[out_after.len() - 1].path =~~= oldv[j0].path);
                    }
                }
            }
            proof {
                last_src = i as int;
            }
        } else {
            proof {
                let out_after = eview(out@);
                assert forall|j0: int|
                    0 <= j0 < i + 1 && !path_is_prefix(p@, #[trigger] oldv[j0].path) implies
                    entries_contain_path(out_after, oldv[j0].path) by {
                    assert(j0 < i);
                }
            }
        }
        i = i + 1;
    }
    *s = out;
    proof {
        let outv = eview(s@);
        assert forall|q: Seq<Seq<u8>>| #[trigger] entries_contain_path(outv, q) implies (
        entries_contain_path(oldv, q) && !path_is_prefix(p@, q)) by {
            let w = choose|k: int| 0 <= k < outv.len() && #[trigger] outv[k].path =~~= q;
            assert(entries_contain_path(oldv, outv[w].path));
        }
        assert forall|q: Seq<Seq<u8>>|
            entries_contain_path(oldv, q) && !path_is_prefix(p@, q) implies
            entries_contain_path(outv, q) by {
            let w = choose|k: int| 0 <= k < oldv.len() && #[trigger] oldv[k].path =~~= q;
            assert(entries_contain_path(outv, oldv[w].path));
        }
        assert forall|q: Seq<Seq<u8>>| entries_contain_path(outv, q) implies #[trigger] entry_at(
            outv,
            q,
        ) == entry_at(oldv, q) by {
            let w = choose|k: int| 0 <= k < outv.len() && #[trigger] outv[k].path =~~= q;
            lemma_unique_entry(outv, q, w);
            assert(entry_at(oldv, outv[w].path) == outv[w]);
        }
    }
}

/// Removes from the identity index every row whose path lies at or below
/// `p`, keeping the rest in order and unchanged.
fn ids_retain_outside(s: &mut Vec<PathEntry>, p: &RelPath)
    requires
        ids_sorted(iview(old(s)@)),
    ensures
        ids_sorted(iview(final (s)@)),
        forall|k: u64|
            #[trigger] ids_contain(iview(final (s)@), k) <==> (ids_contain(iview(old(s)@), k)
                && !path_is_prefix(p@, id_at(iview(old(s)@), k).path)),
        forall|k: u64|
            ids_contain(iview(final (s)@), k) ==> #[trigger] id_at(iview(final (s)@), k) == id_at(
                iview(old(s)@),
                k,
            ),
{
    let ghost oldv = iview(s@);
    let mut out: Vec<PathEntry> = Vec::new();
    let ghost mut last_src: int = -1;
    let mut i: usize = 0;
    while i < s.len()
        invariant
            ids_sorted(oldv),
            oldv == iview(s@),
            0 <= i <= oldv.len(),
            s@.len() == oldv.len(),
            -1 <= last_src < i as int,
            (iview(out@).len() == 0) <==> (last_src == -1),
            iview(out@).len() > 0 ==> 0 <= last_src && iview(out@).last() == oldv[last_src],
            ids_sorted(iview(out@)),
            forall|j: int|
                0 <= j < iview(out@).len() ==> !path_is_prefix(
                    p@,
                    #[trigger] iview(out@)[j].path,
                ),
            forall|j: int|
                0 <= j < iview(out@).len() ==> ids_contain(oldv, #[trigger] iview(out@)[j].id),
            forall|j: int|
                0 <= j < iview(out@).len() ==> id_at(oldv, #[trigger] iview(out@)[j].id)
                    == iview(out@)[j],
            forall|j0: int|
                0 <= j0 < i && !path_is_prefix(p@, #[trigger] oldv[j0].path) ==> ids_contain(
                    iview(out@),
                    oldv[j0].id,
                ),
        decreases oldv.len() - i,
    {
        let ghost out_before = iview(out@);
        let row = &s[i];
        if !row.path.starts_with(p) {
            proof {
                lemma_unique_id(oldv, oldv[i as int].id, i as int);
            }
            out.push(row.clone_path_entry());
            proof {
                let out_after = iview(out@);
                assert(out_after.len() == out_before.len() + 1);
                assert(forall|j: int| 0 <= j < out_before.len() ==> out_after[j] == out_before[j]);
                assert(out_after.last() == oldv[i as int]);
                assert forall|a: int, b: int| 0 <= a < b < out_after.len() implies
                    #[trigger] out_after[a].id < #[trigger] out_after[b].id by {
                    if b < out_after.len() - 1 {
                        assert(out_before[a].id < out_before[b].id);
                    } else {
                        if a == out_after.len() - 2 {
                            assert(out_after[a] == oldv[last_src]);
                            assert(oldv[last_src].id < oldv[i as int].id);
                        } else if out_before.len() > 0 {
                            assert(out_before[a].id < out_before.last().id);
                            assert(out_before.last() == oldv[last_src]);
                            assert(oldv[last_src].id < oldv[i as int].id);
                        }
                    }
                }
                assert forall|j0: int|
                    0 <= j0 < i + 1 && !path_is_prefix(p@, #[trigger] oldv[j0].path) implies
                    ids_contain(out_after, oldv[j0].id) by {
                    if j0 < i {
                        let w = choose|k: int|
                            0 <= k < out_before.len() && #[trigger] out_before[k].id
                                == oldv[j0].id;
                        assert(out_after[w].id == oldv[j0].id);
                    } else {
                        assert(out_after[out_after.len() - 1].id == oldv[j0].id);
                    }
                }
            }
            proof {
                last_src = i as int;
            }
        } else {
            proof {
                let out_after = iview(out@);
                assert forall|j0: int|
                    0 <= j0 < i + 1 && !path_is_prefix(p@, #[trigger] oldv[j0].path) implies
                    ids_contain(out_after, oldv[j0].id) by {
                    assert(j0 < i);
                }
            }
        }
        i = i + 1;
    }
    *s = out;
    proof {
        let outv = iview(s@);
        assert forall|k: u64| #[trigger] ids_contain(outv, k) implies (ids_contain(oldv, k)
            && !path_is_prefix(p@, id_at(oldv, k).path)) by {
            let w = choose|m: int| 0 <= m < outv.len() && #[trigger] outv[m].id == k;
            assert(!path_is_prefix(p@, outv[w].path));
            assert(ids_contain(oldv, outv[w].id));
            assert(id_at(oldv, k) == outv[w]);
        }
        assert forall|k: u64|
            ids_contain(oldv, k) && !path_is_prefix(p@, id_at(oldv, k).path) implies ids_contain(
            outv,
            k,
        ) by {
            let w = choose|m: int| 0 <= m < oldv.len() && #[trigger] oldv[m].id == k;
            lemma_unique_id(oldv, k, w);
            assert(ids_contain(outv, oldv[w].id));
        }
        assert forall|k: u64| ids_contain(outv, k) implies #[trigger] id_at(outv, k) == id_at(
            oldv,
            k,
        ) by {
            let w = choose|m: int| 0 <= m < outv.len() && #[trigger] outv[m].id == k;
            assert(!path_is_prefix(p@, outv[w].path));
            lemma_unique_id(outv, k, w);
            assert(id_at(oldv, outv[w].id) == outv[w]);
        }
    }
}

} // verus!

