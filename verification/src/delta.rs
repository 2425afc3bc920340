use vstd::prelude::*;

use crate::relpath::{lemma_path_lt_trichotomy, path_lt, Order, RelPath};
use crate::snapshot::{
    entries_contain_path, entry_at, id_at, ids_contain, lemma_unique_entry, lemma_unique_id,
    Snapshot, SnapshotV,
};
use crate::update::{
    id_among, spec_wire_of_entry, u_distinct, u_id_among, u_path_among, uview, wire_of_entry,
    UpdateWorktree, WireEntry, WireRepositoryEntry,
};

verus! {

/// The path `q` carries different contents in the target snapshot than in
/// the base: it is present in the target and either absent from the base
/// or mapped to a different entry.
pub open spec fn entry_changed(b: SnapshotV, t: SnapshotV, q: Seq<Seq<u8>>) -> bool {
    entries_contain_path(t.entries, q) && (!entries_contain_path(b.entries, q) || entry_at(
        b.entries,
        q,
    ) != entry_at(t.entries, q))
}

/// The id `k` loses its place between the snapshots: the base tracks it,
/// and the path it occupied is gone from the target or held by another id.
pub open spec fn entry_vanished(b: SnapshotV, t: SnapshotV, k: u64) -> bool {
    ids_contain(b.by_id, k) && (!entries_contain_path(t.entries, id_at(b.by_id, k).path)
        || entry_at(t.entries, id_at(b.by_id, k).path).id != k)
}

/// Compares every field of two entries.
pub fn entry_eq(a: &crate::entry::Entry, b: &crate::entry::Entry) -> (r: bool)
    ensures
        r <==> a@ == b@,
{
    let ids_eq = a.id.0 == b.id.0;
    let kinds_eq = match (a.kind, b.kind) {
        (crate::entry::EntryKind::UnloadedDir, crate::entry::EntryKind::UnloadedDir) => true,
        (crate::entry::EntryKind::PendingDir, crate::entry::EntryKind::PendingDir) => true,
        (crate::entry::EntryKind::Dir, crate::entry::EntryKind::Dir) => true,
        (crate::entry::EntryKind::File, crate::entry::EntryKind::File) => true,
        _ => false,
    };
    let paths_eq = a.path.eq_path(&b.path);
    let mtimes_eq = match (a.mtime, b.mtime) {
        (Some(x), Some(y)) => x.seconds == y.seconds && x.nanos == y.nanos,
        (None, None) => true,
        _ => false,
    };
    let canon_eq = match (&a.canonical_path, &b.canonical_path) {
        (Some(x), Some(y)) => matches!(crate::relpath::bytes_cmp(x, y), Order::Equal),
        (None, None) => true,
        _ => false,
    };
    let flags_eq = a.inode == b.inode && a.is_ignored == b.is_ignored && a.is_always_included
        == b.is_always_included && a.is_external == b.is_external && a.is_private == b.is_private
        && a.is_fifo == b.is_fifo && a.size == b.size;
    let r = ids_eq && kinds_eq && paths_eq && mtimes_eq && canon_eq && flags_eq;
    proof {
        if r {
            assert(a@.path =~~= b@.path);
            assert(match (a@.canonical_path, b@.canonical_path) {
                (Some(x), Some(y)) => x =~= y,
                (None, None) => true,
                _ => false,
            });
            assert(a@ == b@);
        }
        if a@ == b@ {
            assert(a@.path == b@.path && a@.canonical_path == b@.canonical_path);
        }
    }
    r
}

/// Inserts a wire entry into a list kept strictly sorted by id, keeping
/// every element.
/// Inserts an id into a list kept sorted, keeping every element.
fn id_sort_insert(out: &mut Vec<u64>, k: u64)
    requires
        forall|a: int, b: int|
            0 <= a < b < old(out)@.len() ==> #[trigger] old(out)@[a] <= #[trigger] old(out)@[b],
    ensures
        final (out)@.len() == old(out)@.len() + 1,
        forall|a: int, b: int|
            0 <= a < b < final (out)@.len() ==> #[trigger] final (out)@[a]
                <= #[trigger] final (out)@[b],
        id_among(final (out)@, final (out)@.len() as int, k),
        forall|k2: u64|
            #[trigger] id_among(final (out)@, final (out)@.len() as int, k2) <==> (k2 == k
                || id_among(old(out)@, old(out)@.len() as int, k2)),
{
    let ghost o = out@;
    let mut i: usize = 0;
    let mut stop = false;
    while !stop && i < out.len()
        invariant
            i <= o.len(),
            out@ == o,
            forall|j: int| 0 <= j < i ==> #[trigger] o[j] <= k,
            forall|a: int, b: int| 0 <= a < b < o.len() ==> #[trigger] o[a] <= #[trigger] o[b],
            stop ==> i < o.len() && o[i as int] > k,
        decreases o.len() - i, (if stop { 0int } else { 1int }),
    {
        if out[i] > k {
            stop = true;
        } else {
            i = i + 1;
        }
    }
    let ghost iv = i as int;
    out.insert(i, k);
    proof {
        let f = out@;
        assert(f[iv] == k);
        assert(forall|j: int| 0 <= j < iv ==> f[j] == o[j]);
        assert(forall|j: int| iv < j < f.len() ==> f[j] == o[j - 1]);
        assert forall|j: int| iv <= j < o.len() implies k <= #[trigger] o[j] by {
            assert(k < o[iv] || o[iv] <= k);
            if o[iv] <= k {
                assert(iv < o.len() ==> o[iv as int] > k || iv >= o.len());
            }
            assert(k < o[iv]);
            if j > iv {
                assert(o[iv] <= o[j]);
            }
        }
        assert forall|a: int, b: int| 0 <= a < b < f.len() implies #[trigger] f[a]
            <= #[trigger] f[b] by {
            if a == iv {
                assert(f[b] == o[b - 1]);
                assert(k <= o[b - 1]);
            } else if b == iv {
                assert(o[a] <= k);
            } else if a < iv && b > iv {
                assert(o[a] <= k && k <= o[b - 1]);
            } else if b < iv {
                assert(o[a] <= o[b]);
            } else {
                assert(o[a - 1] <= o[b - 1]);
            }
        }
        assert(id_among(f, f.len() as int, k));
        assert forall|k2: u64| #[trigger] id_among(f, f.len() as int, k2) implies (k2 == k
            || id_among(o, o.len() as int, k2)) by {
            let s = choose|s: int| 0 <= s < f.len() && f[s] == k2;
            if s < iv {
                assert(o[s] == k2);
            } else if s > iv {
                assert(o[s - 1] == k2);
            }
        }
        assert forall|k2: u64| (k2 == k || id_among(o, o.len() as int, k2)) implies
            #[trigger] id_among(f, f.len() as int, k2) by {
            if k2 == k {
            } else {
                let s = choose|s: int| 0 <= s < o.len() && o[s] == k2;
                if s < iv {
                    assert(f[s] == k2);
                } else {
                    assert(f[s + 1] == k2);
                }
            }
        }
    }
}

/// Whether any listed wire entry carries this id.
fn wire_list_contains_id(v: &Vec<WireEntry>, k: u64) -> (r: bool)
    ensures
        r == u_id_among(uview(v@), v@.len() as int, k),
{
    let mut i: usize = 0;
    while i < v.len()
        invariant
            i <= v@.len(),
            forall|j: int| 0 <= j < i ==> #[trigger] uview(v@)[j].id != k,
        decreases v@.len() - i,
    {
        if v[i].id == k {
            proof {
                assert(uview(v@)[i as int].id == k);
            }
            return true;
        }
        i = i + 1;
    }
    false
}

/// Whether `q` stands among the paths of the listed wire status records.
pub open spec fn wire_status_path_among(u: Seq<crate::update::WireStatusEntryV>, q: Seq<Seq<u8>>) -> bool {
    exists|s: int| 0 <= s < u.len() && #[trigger] u[s].repo_path =~~= q
}

/// The wire form of one recorded status.
pub open spec fn spec_wire_status_of(q: Seq<Seq<u8>>, st: crate::status::FileStatus) -> crate::update::WireStatusEntryV {
    crate::update::WireStatusEntryV {
        repo_path: q,
        simple_status: crate::status::spec_simple_status(st),
        status: Some(crate::status::spec_status_to_wire(st)),
    }
}

/// One repository's statuses, encoded for the wire in repo-path order.
fn encode_statuses(repo: &crate::repository::RepositoryEntry) -> (r: Vec<
    crate::update::WireStatusEntry,
>)
    ensures
        r@.len() == repo@.statuses.len(),
        forall|i: int|
            0 <= i < r@.len() ==> #[trigger] r@[i]@ == spec_wire_status_of(
                repo@.statuses[i].repo_path,
                repo@.statuses[i].status,
            ),
{
    let mut out: Vec<crate::update::WireStatusEntry> = Vec::new();
    let mut i: usize = 0;
    while i < repo.statuses_by_path.len()
        invariant
            i <= repo@.statuses.len(),
            repo@.statuses.len() == repo.statuses_by_path@.len(),
            out@.len() == i,
            forall|j: int|
                0 <= j < i ==> #[trigger] out@[j]@ == spec_wire_status_of(
                    repo@.statuses[j].repo_path,
                    repo@.statuses[j].status,
                ),
        decreases repo.statuses_by_path@.len() - i,
    {
        let st = &repo.statuses_by_path[i];
        let we = crate::update::WireStatusEntry {
            repo_path: st.repo_path.clone_path(),
            simple_status: crate::status::simple_status_code(st.status),
            status: Some(crate::status::status_to_wire(st.status)),
        };
        proof {
            assert(we@.repo_path =~~= repo@.statuses[i as int].repo_path);
            assert(we@ == spec_wire_status_of(
                repo@.statuses[i as int].repo_path,
                repo@.statuses[i as int].status,
            ));
        }
        out.push(we);
        i = i + 1;
    }
    out
}

fn status_values_eq(a: crate::status::FileStatus, b: crate::status::FileStatus) -> (r: bool)
    ensures
        r == (a == b),
{
    match (a, b) {
        (crate::status::FileStatus::Untracked, crate::status::FileStatus::Untracked) => true,
        (crate::status::FileStatus::Ignored, crate::status::FileStatus::Ignored) => true,
        (
            crate::status::FileStatus::Unmerged { first_head: f1, second_head: s1 },
            crate::status::FileStatus::Unmerged { first_head: f2, second_head: s2 },
        ) => f1 == f2 && s1 == s2,
        (
            crate::status::FileStatus::Versioned { index_status: i1, worktree_status: w1 },
            crate::status::FileStatus::Versioned { index_status: i2, worktree_status: w2 },
        ) => i1 == i2 && w1 == w2,
        _ => false,
    }
}

/// The wire delta between two states of one repository: one record per
/// status the target adds or changes, and the repo paths it drops, each
/// in ascending repo-path order.
#[verifier::rlimit(60)]
fn encode_status_diff(
    base_repo: &crate::repository::RepositoryEntry,
    target_repo: &crate::repository::RepositoryEntry,
) -> (r: (Vec<crate::update::WireStatusEntry>, Vec<RelPath>))
    requires
        base_repo.wf(),
        target_repo.wf(),
    ensures
        forall|s: int|
            0 <= s < r.0@.len() ==> crate::repository::statuses_contain_path(
                target_repo@.statuses,
                #[trigger] r.0@[s]@.repo_path,
            ) && r.0@[s]@ == spec_wire_status_of(
                r.0@[s]@.repo_path,
                crate::repository::status_at(target_repo@.statuses, r.0@[s]@.repo_path),
            ) && !(crate::repository::statuses_contain_path(
                base_repo@.statuses,
                r.0@[s]@.repo_path,
            ) && crate::repository::status_at(base_repo@.statuses, r.0@[s]@.repo_path)
                == crate::repository::status_at(target_repo@.statuses, r.0@[s]@.repo_path)),
        forall|i: int|
            0 <= i < target_repo@.statuses.len() && !(crate::repository::statuses_contain_path(
                base_repo@.statuses,
                #[trigger] target_repo@.statuses[i].repo_path,
            ) && crate::repository::status_at(
                base_repo@.statuses,
                target_repo@.statuses[i].repo_path,
            ) == target_repo@.statuses[i].status) ==> wire_status_path_among(
                r.0@.map(|_i: int, e: crate::update::WireStatusEntry| e@),
                target_repo@.statuses[i].repo_path,
            ),
        forall|s: int|
            0 <= s < r.1@.len() ==> crate::repository::statuses_contain_path(
                base_repo@.statuses,
                #[trigger] r.1@[s]@,
            ) && !crate::repository::statuses_contain_path(target_repo@.statuses, r.1@[s]@),
        forall|j: int|
            0 <= j < base_repo@.statuses.len() && !crate::repository::statuses_contain_path(
                target_repo@.statuses,
                #[trigger] base_repo@.statuses[j].repo_path,
            ) ==> crate::repos::removed_path_among(
                r.1@.map(|_i: int, p: RelPath| p@),
                base_repo@.statuses[j].repo_path,
            ),
{
    let ghost tv = target_repo@.statuses;
    let ghost bv = base_repo@.statuses;
    let mut upd: Vec<crate::update::WireStatusEntry> = Vec::new();
    let mut i: usize = 0;
    while i < target_repo.statuses_by_path.len()
        invariant
            base_repo.wf(),
            target_repo.wf(),
            tv == target_repo@.statuses,
            bv == base_repo@.statuses,
            i <= tv.len(),
            tv.len() == target_repo.statuses_by_path@.len(),
            forall|s: int|
                0 <= s < upd@.len() ==> crate::repository::statuses_contain_path(
                    tv,
                    #[trigger] upd@[s]@.repo_path,
                ) && upd@[s]@ == spec_wire_status_of(
                    upd@[s]@.repo_path,
                    crate::repository::status_at(tv, upd@[s]@.repo_path),
                ) && !(crate::repository::statuses_contain_path(bv, upd@[s]@.repo_path)
                    && crate::repository::status_at(bv, upd@[s]@.repo_path)
                    == crate::repository::status_at(tv, upd@[s]@.repo_path)),
            forall|x: int|
                0 <= x < i && !(crate::repository::statuses_contain_path(
                    bv,
                    #[trigger] tv[x].repo_path,
                ) && crate::repository::status_at(bv, tv[x].repo_path) == tv[x].status)
                    ==> wire_status_path_among(
                    upd@.map(|_i: int, e: crate::update::WireStatusEntry| e@),
                    tv[x].repo_path,
                ),
        decreases target_repo.statuses_by_path@.len() - i,
    {
        let ghost upd_before = upd@;
        let st = &target_repo.statuses_by_path[i];
        proof {
            assert(st@ == tv[i as int]);
            crate::repository::lemma_unique_status(tv, tv[i as int].repo_path, i as int);
        }
        let keep = match base_repo.status_for_path(&st.repo_path) {
            Some(prev) => !status_values_eq(prev.status, st.status),
            None => true,
        };
        if keep {
            let we = crate::update::WireStatusEntry {
                repo_path: st.repo_path.clone_path(),
                simple_status: crate::status::simple_status_code(st.status),
                status: Some(crate::status::status_to_wire(st.status)),
            };
            proof {
                assert(we@.repo_path =~~= tv[i as int].repo_path);
                assert(crate::repository::status_at(tv, we@.repo_path) == tv[i as int].status);
                assert(we@ == spec_wire_status_of(
                    we@.repo_path,
                    crate::repository::status_at(tv, we@.repo_path),
                ));
            }
            upd.push(we);
            proof {
                assert(forall|s: int|
                    0 <= s < upd_before.len() ==> upd@[s] == upd_before[s]);
                assert forall|x: int|
                    0 <= x < i + 1 && !(crate::repository::statuses_contain_path(
                        bv,
                        #[trigger] tv[x].repo_path,
                    ) && crate::repository::status_at(bv, tv[x].repo_path)
                        == tv[x].status) implies wire_status_path_among(
                    upd@.map(|_i: int, e: crate::update::WireStatusEntry| e@),
                    tv[x].repo_path,
                ) by {
                    let uv = upd@.map(|_i: int, e: crate::update::WireStatusEntry| e@);
                    if x < i {
                        let ubv = upd_before.map(
                            |_i: int, e: crate::update::WireStatusEntry| e@,
                        );
                        assert(wire_status_path_among(ubv, tv[x].repo_path));
                        let s = choose|s: int|
                            0 <= s < ubv.len() && #[trigger] ubv[s].repo_path
                                =~~= tv[x].repo_path;
                        assert(uv[s].repo_path =~~= tv[x].repo_path);
                    } else {
                        assert(uv[uv.len() - 1].repo_path =~~= tv[x].repo_path);
                    }
                }
            }
        } else {
            proof {
                assert(crate::repository::statuses_contain_path(bv, tv[i as int].repo_path)
                    && crate::repository::status_at(bv, tv[i as int].repo_path)
                    == tv[i as int].status);
                assert forall|x: int|
                    0 <= x < i + 1 && !(crate::repository::statuses_contain_path(
                        bv,
                        #[trigger] tv[x].repo_path,
                    ) && crate::repository::status_at(bv, tv[x].repo_path)
                        == tv[x].status) implies wire_status_path_among(
                    upd@.map(|_i: int, e: crate::update::WireStatusEntry| e@),
                    tv[x].repo_path,
                ) by {
                    assert(x < i);
                }
            }
        }
        i = i + 1;
    }
    let mut rem: Vec<RelPath> = Vec::new();
    let mut j: usize = 0;
    while j < base_repo.statuses_by_path.len()
        invariant
            base_repo.wf(),
            target_repo.wf(),
            tv == target_repo@.statuses,
            bv == base_repo@.statuses,
            j <= bv.len(),
            bv.len() == base_repo.statuses_by_path@.len(),
            forall|s: int|
                0 <= s < rem@.len() ==> crate::repository::statuses_contain_path(
                    bv,
                    #[trigger] rem@[s]@,
                ) && !crate::repository::statuses_contain_path(tv, rem@[s]@),
            forall|x: int|
                0 <= x < j && !crate::repository::statuses_contain_path(
                    tv,
                    #[trigger] bv[x].repo_path,
                ) ==> crate::repos::removed_path_among(
                    rem@.map(|_i: int, p: RelPath| p@),
                    bv[x].repo_path,
                ),
        decreases base_repo.statuses_by_path@.len() - j,
    {
        let ghost rem_before = rem@;
        let st = &base_repo.statuses_by_path[j];
        proof {
            assert(st@ == bv[j as int]);
            crate::repository::lemma_unique_status(bv, bv[j as int].repo_path, j as int);
        }
        match target_repo.status_for_path(&st.repo_path) {
            Some(_) => {
                proof {
                    assert forall|x: int|
                        0 <= x < j + 1 && !crate::repository::statuses_contain_path(
                            tv,
                            #[trigger] bv[x].repo_path,
                        ) implies crate::repos::removed_path_among(
                        rem@.map(|_i: int, p: RelPath| p@),
                        bv[x].repo_path,
                    ) by {
                        assert(x < j);
                    }
                }
            },
            None => {
                rem.push(st.repo_path.clone_path());
                proof {
                    assert(forall|s: int|
                        0 <= s < rem_before.len() ==> rem@[s] == rem_before[s]);
                    assert(rem@[rem@.len() - 1]@ =~~= bv[j as int].repo_path);
                    assert forall|x: int|
                        0 <= x < j + 1 && !crate::repository::statuses_contain_path(
                            tv,
                            #[trigger] bv[x].repo_path,
                        ) implies crate::repos::removed_path_among(
                        rem@.map(|_i: int, p: RelPath| p@),
                        bv[x].repo_path,
                    ) by {
                        let rv = rem@.map(|_i: int, p: RelPath| p@);
                        if x < j {
                            let rbv = rem_before.map(|_i: int, p: RelPath| p@);
                            assert(crate::repos::removed_path_among(rbv, bv[x].repo_path));
                            let s = choose|s: int|
                                0 <= s < rbv.len() && #[trigger] rbv[s] =~~= bv[x].repo_path;
                            assert(rv[s] =~~= bv[x].repo_path);
                        } else {
                            assert(rv[rv.len() - 1] =~~= bv[x].repo_path);
                        }
                    }
                }
            },
        }
        j = j + 1;
    }
    (upd, rem)
}

/// The pair `(upd, rem)` is exactly the status diff from `base` to
/// `target`: `upd` carries the wire form of every target status that is
/// new or changed against the base, and `rem` the base paths the target
/// dropped, and nothing else.
pub open spec fn status_diff_describes(
    base: Seq<crate::status::StatusEntryV>,
    target: Seq<crate::status::StatusEntryV>,
    upd: Seq<crate::update::WireStatusEntryV>,
    rem: Seq<Seq<Seq<u8>>>,
) -> bool {
    &&& forall|s: int|
        0 <= s < upd.len() ==> crate::repository::statuses_contain_path(
            target,
            #[trigger] upd[s].repo_path,
        ) && upd[s] == spec_wire_status_of(
            upd[s].repo_path,
            crate::repository::status_at(target, upd[s].repo_path),
        ) && !(crate::repository::statuses_contain_path(base, upd[s].repo_path)
            && crate::repository::status_at(base, upd[s].repo_path)
            == crate::repository::status_at(target, upd[s].repo_path))
    &&& forall|i: int|
        0 <= i < target.len() && !(crate::repository::statuses_contain_path(
            base,
            #[trigger] target[i].repo_path,
        ) && crate::repository::status_at(base, target[i].repo_path) == target[i].status)
            ==> wire_status_path_among(upd, target[i].repo_path)
    &&& forall|s: int|
        0 <= s < rem.len() ==> crate::repository::statuses_contain_path(base, #[trigger] rem[s])
            && !crate::repository::statuses_contain_path(target, rem[s])
    &&& forall|j: int|
        0 <= j < base.len() && !crate::repository::statuses_contain_path(
            target,
            #[trigger] base[j].repo_path,
        ) ==> crate::repos::removed_path_among(rem, base[j].repo_path)
}

/// A full wire listing of one repository's statuses.
pub open spec fn status_listing_describes(
    target: Seq<crate::status::StatusEntryV>,
    upd: Seq<crate::update::WireStatusEntryV>,
    rem: Seq<Seq<Seq<u8>>>,
) -> bool {
    &&& upd.len() == target.len()
    &&& forall|i: int|
        0 <= i < upd.len() ==> #[trigger] upd[i] == spec_wire_status_of(
            target[i].repo_path,
            target[i].status,
        )
    &&& rem.len() == 0
}

/// The repository part of a delta: one wire record per target
/// repository, carrying the branch and the status diff against the base
/// (a full listing for a work directory the base does not track), and the
/// work-directory ids of base repositories that are gone, in ascending
/// order.
#[verifier::rlimit(60)]
fn build_repository_updates(base: &Snapshot, target: &Snapshot) -> (r: (
    Vec<WireRepositoryEntry>,
    Vec<u64>,
))
    requires
        base.wf(),
        target.wf(),
    ensures
        r.0@.len() == target@.repos.len(),
        forall|i: int|
            0 <= i < r.0@.len() ==> {
                &&& #[trigger] r.0@[i]@.work_directory_id
                    == target@.repos[i].work_directory_id
                &&& r.0@[i]@.branch == target@.repos[i].branch
                &&& if crate::snapshot::repos_contain_path(
                    base@.repos,
                    target@.repos[i].work_directory.path,
                ) {
                    status_diff_describes(
                        crate::snapshot::repo_at(
                            base@.repos,
                            target@.repos[i].work_directory.path,
                        ).statuses,
                        target@.repos[i].statuses,
                        r.0@[i]@.updated_statuses,
                        r.0@[i]@.removed_statuses,
                    )
                } else {
                    status_listing_describes(
                        target@.repos[i].statuses,
                        r.0@[i]@.updated_statuses,
                        r.0@[i]@.removed_statuses,
                    )
                }
            },
        forall|k: u64|
            #[trigger] crate::repos::wd_id_among(r.1@, k) <==> (exists|j: int|
                0 <= j < base@.repos.len() && #[trigger] base@.repos[j].work_directory_id == k
                    && !crate::snapshot::repos_contain_path(
                    target@.repos,
                    base@.repos[j].work_directory.path,
                )),
        forall|a: int, b: int| 0 <= a < b < r.1@.len() ==> #[trigger] r.1@[a] <= #[trigger] r.1@[b],
{
    let ghost bv = base@.repos;
    let ghost tv = target@.repos;
    let mut updated: Vec<WireRepositoryEntry> = Vec::new();
    let mut i: usize = 0;
    while i < target.repositories.len()
        invariant
            base.wf(),
            target.wf(),
            bv == base@.repos,
            tv == target@.repos,
            i <= tv.len(),
            tv.len() == target.repositories@.len(),
            updated@.len() == i,
            forall|x: int|
                0 <= x < i ==> {
                    &&& #[trigger] updated@[x]@.work_directory_id == tv[x].work_directory_id
                    &&& updated@[x]@.branch == tv[x].branch
                    &&& if crate::snapshot::repos_contain_path(bv, tv[x].work_directory.path) {
                        status_diff_describes(
                            crate::snapshot::repo_at(bv, tv[x].work_directory.path).statuses,
                            tv[x].statuses,
                            updated@[x]@.updated_statuses,
                            updated@[x]@.removed_statuses,
                        )
                    } else {
                        status_listing_describes(
                            tv[x].statuses,
                            updated@[x]@.updated_statuses,
                            updated@[x]@.removed_statuses,
                        )
                    }
                },
        decreases target.repositories@.len() - i,
    {
        let ghost upd_before = updated@;
        let trepo = &target.repositories[i];
        proof {
            assert(trepo@ == tv[i as int]);
            assert(target@.repos[i as int].statuses == trepo@.statuses);
            assert(crate::repository::statuses_sorted(target@.repos[i as int].statuses));
        }
        let (bi, present) = crate::repos::repo_lower_bound(
            &base.repositories,
            &trepo.work_directory.path,
        );
        let (upd_statuses, rem_statuses) = if present {
            let brepo = &base.repositories[bi];
            proof {
                assert(base@.repos[bi as int].statuses == brepo@.statuses);
                assert(crate::repository::statuses_sorted(base@.repos[bi as int].statuses));
                crate::snapshot::lemma_unique_repo(bv, trepo@.work_directory.path, bi as int);
            }
            encode_status_diff(brepo, trepo)
        } else {
            proof {
                crate::repos::lemma_repo_lower_bound_absent(
                    bv,
                    trepo@.work_directory.path,
                    bi as int,
                );
            }
            (encode_statuses(trepo), Vec::new())
        };
        let branch = match &trepo.branch {
            Some(b) => Some(crate::relpath::clone_bytes(b)),
            None => None,
        };
        let we = WireRepositoryEntry {
            work_directory_id: trepo.work_directory_id.0,
            branch,
            updated_statuses: upd_statuses,
            removed_statuses: rem_statuses,
        };
        proof {
            if crate::snapshot::repos_contain_path(bv, tv[i as int].work_directory.path) {
                assert(crate::snapshot::repo_at(bv, tv[i as int].work_directory.path)
                    == bv[bi as int]);
                assert(status_diff_describes(
                    bv[bi as int].statuses,
                    tv[i as int].statuses,
                    we@.updated_statuses,
                    we@.removed_statuses,
                ));
            } else {
                assert(status_listing_describes(
                    tv[i as int].statuses,
                    we@.updated_statuses,
                    we@.removed_statuses,
                ));
            }
        }
        updated.push(we);
        i = i + 1;
    }
    let mut removed: Vec<u64> = Vec::new();
    let mut j: usize = 0;
    while j < base.repositories.len()
        invariant
            base.wf(),
            target.wf(),
            bv == base@.repos,
            tv == target@.repos,
            j <= bv.len(),
            bv.len() == base.repositories@.len(),
            forall|a: int, b: int|
                0 <= a < b < removed@.len() ==> #[trigger] removed@[a] <= #[trigger] removed@[b],
            forall|k: u64|
                #[trigger] crate::repos::wd_id_among(removed@, k) <==> (exists|x: int|
                    0 <= x < j && #[trigger] bv[x].work_directory_id == k
                        && !crate::snapshot::repos_contain_path(
                        tv,
                        bv[x].work_directory.path,
                    )),
        decreases base.repositories@.len() - j,
    {
        let ghost rem_before = removed@;
        let brepo = &base.repositories[j];
        proof {
            assert(brepo@ == bv[j as int]);
        }
        let (ti, present) = crate::repos::repo_lower_bound(
            &target.repositories,
            &brepo.work_directory.path,
        );
        if !present {
            proof {
                crate::repos::lemma_repo_lower_bound_absent(
                    tv,
                    bv[j as int].work_directory.path,
                    ti as int,
                );
            }
            id_sort_insert(&mut removed, brepo.work_directory_id.0);
            proof {
                assert forall|k: u64| #[trigger] crate::repos::wd_id_among(removed@, k) implies (
                exists|x: int|
                    0 <= x < j + 1 && #[trigger] bv[x].work_directory_id == k
                        && !crate::snapshot::repos_contain_path(
                        tv,
                        bv[x].work_directory.path,
                    )) by {
                    if k == bv[j as int].work_directory_id {
                        assert(bv[j as int].work_directory_id == k
                            && !crate::snapshot::repos_contain_path(
                            tv,
                            bv[j as int].work_directory.path,
                        ));
                    } else {
                        assert(crate::update::id_among(removed@, removed@.len() as int, k));
                        assert(crate::update::id_among(
                            rem_before,
                            rem_before.len() as int,
                            k,
                        ));
                        assert(crate::repos::wd_id_among(rem_before, k));
                        let x = choose|x: int|
                            0 <= x < j && #[trigger] bv[x].work_directory_id == k
                                && !crate::snapshot::repos_contain_path(
                                tv,
                                bv[x].work_directory.path,
                            );
                    }
                }
                assert forall|k: u64|
                    (exists|x: int|
                        0 <= x < j + 1 && #[trigger] bv[x].work_directory_id == k
                            && !crate::snapshot::repos_contain_path(
                            tv,
                            bv[x].work_directory.path,
                        )) implies #[trigger] crate::repos::wd_id_among(removed@, k) by {
                    let x = choose|x: int|
                        0 <= x < j + 1 && #[trigger] bv[x].work_directory_id == k
                            && !crate::snapshot::repos_contain_path(
                            tv,
                            bv[x].work_directory.path,
                        );
                    if x < j {
                        assert(crate::repos::wd_id_among(rem_before, k));
                        assert(crate::update::id_among(rem_before, rem_before.len() as int, k));
                        assert(crate::update::id_among(removed@, removed@.len() as int, k));
                    } else {
                        assert(crate::update::id_among(removed@, removed@.len() as int, k));
                    }
                }
            }
        } else {
            proof {
                assert(crate::snapshot::repos_contain_path(
                    tv,
                    bv[j as int].work_directory.path,
                )) by {
                    assert(tv[ti as int].work_directory.path
                        =~~= bv[j as int].work_directory.path);
                }
                assert forall|k: u64| #[trigger] crate::repos::wd_id_among(removed@, k) implies (
                exists|x: int|
                    0 <= x < j + 1 && #[trigger] bv[x].work_directory_id == k
                        && !crate::snapshot::repos_contain_path(
                        tv,
                        bv[x].work_directory.path,
                    )) by {
                    let x = choose|x: int|
                        0 <= x < j && #[trigger] bv[x].work_directory_id == k
                            && !crate::snapshot::repos_contain_path(
                            tv,
                            bv[x].work_directory.path,
                        );
                }
                assert forall|k: u64|
                    (exists|x: int|
                        0 <= x < j + 1 && #[trigger] bv[x].work_directory_id == k
                            && !crate::snapshot::repos_contain_path(
                            tv,
                            bv[x].work_directory.path,
                        )) implies #[trigger] crate::repos::wd_id_among(removed@, k) by {
                    let x = choose|x: int|
                        0 <= x < j + 1 && #[trigger] bv[x].work_directory_id == k
                            && !crate::snapshot::repos_contain_path(
                            tv,
                            bv[x].work_directory.path,
                        );
                    assert(x < j);
                    assert(crate::repos::wd_id_among(rem_before, k));
                }
            }
        }
        j = j + 1;
    }
    (updated, removed)
}

/// Computes the delta between two snapshots of the same worktree: which
/// entries the target adds or changes, which ids it drops, and the
/// repository changes, stamped with the target's root identity and scan
/// generation. Walking the identity indices yields both wire lists in
/// ascending id order.
#[verifier::rlimit(100)]
pub fn build_update(base: &Snapshot, target: &Snapshot, project_id: u64) -> (r: UpdateWorktree)
    requires
        base.wf(),
        target.wf(),
    ensures
        r@.project_id == project_id,
        r@.worktree_id == target@.id,
        r@.abs_path == target@.abs_path,
        r@.root_name == target@.root_name,
        r@.scan_id == target@.scan_id,
        r@.is_last_update == (target@.completed_scan_id == target@.scan_id),
        u_distinct(r@.updated_entries),
        forall|a: int, b: int|
            0 <= a < b < r@.updated_entries.len() ==> #[trigger] r@.updated_entries[a].id
                < #[trigger] r@.updated_entries[b].id,
        forall|a: int, b: int|
            0 <= a < b < r@.removed_entries.len() ==> #[trigger] r@.removed_entries[a]
                < #[trigger] r@.removed_entries[b],
        forall|s: int|
            0 <= s < r@.updated_entries.len() ==> entry_changed(
                base@,
                target@,
                #[trigger] r@.updated_entries[s].path,
            ) && r@.updated_entries[s] == spec_wire_of_entry(
                entry_at(target@.entries, r@.updated_entries[s].path),
            ),
        forall|q: Seq<Seq<u8>>|
            entry_changed(base@, target@, q) ==> #[trigger] u_path_among(
                r@.updated_entries,
                r@.updated_entries.len() as int,
                q,
            ),
        forall|k: u64|
            #[trigger] id_among(r@.removed_entries, r@.removed_entries.len() as int, k) <==> (
            entry_vanished(base@, target@, k) && !u_id_among(
                r@.updated_entries,
                r@.updated_entries.len() as int,
                k,
            )),
{
    let ghost bv = base@;
    let ghost tv = target@;

    // Added and changed entries, in ascending id order: walk the target's
    // identity index.
    let mut upd: Vec<WireEntry> = Vec::new();
    let ghost mut last_row: int = -1;
    let mut jj: usize = 0;
    while jj < target.entries_by_id.len()
        invariant
            base.wf(),
            target.wf(),
            bv == base@,
            tv == target@,
            0 <= jj <= tv.by_id.len(),
            target.entries_by_id@.len() == tv.by_id.len(),
            -1 <= last_row < jj as int,
            (uview(upd@).len() == 0) <==> (last_row == -1),
            uview(upd@).len() > 0 ==> 0 <= last_row && uview(upd@).last().id
                == tv.by_id[last_row].id,
            forall|a: int, b: int|
                0 <= a < b < uview(upd@).len() ==> #[trigger] uview(upd@)[a].id
                    < #[trigger] uview(upd@)[b].id,
            forall|s: int|
                0 <= s < uview(upd@).len() ==> entry_changed(
                    bv,
                    tv,
                    #[trigger] uview(upd@)[s].path,
                ) && uview(upd@)[s] == spec_wire_of_entry(
                    entry_at(tv.entries, uview(upd@)[s].path),
                ),
            forall|x: int|
                0 <= x < jj && entry_changed(bv, tv, #[trigger] tv.by_id[x].path)
                    ==> u_path_among(uview(upd@), uview(upd@).len() as int, tv.by_id[x].path),
        decreases tv.by_id.len() - jj,
    {
        let ghost upd_before = uview(upd@);
        let row = &target.entries_by_id[jj];
        proof {
            assert(row@ == tv.by_id[jj as int]);
            assert(entries_contain_path(tv.entries, tv.by_id[jj as int].path));
            assert(entry_at(tv.entries, tv.by_id[jj as int].path).id == tv.by_id[jj as int].id);
        }
        let changed: bool = match base.entry_for_path(&row.path) {
            Some(eb) => {
                match target.entry_for_path(&row.path) {
                    Some(et) => !entry_eq(eb, et),
                    None => false,
                }
            },
            None => true,
        };
        proof {
            assert(changed == entry_changed(bv, tv, tv.by_id[jj as int].path));
        }
        if changed {
            let et_opt = target.entry_for_path(&row.path);
            match et_opt {
                Some(et) => {
                    proof {
                        assert(et@ == entry_at(tv.entries, tv.by_id[jj as int].path));
                    }
                    let we = wire_of_entry(et);
                    proof {
                        assert(we@.id == tv.by_id[jj as int].id);
                        assert(we@.path =~~= tv.by_id[jj as int].path);
                        assert(we@ == spec_wire_of_entry(
                            entry_at(tv.entries, tv.by_id[jj as int].path),
                        ));
                    }
                    upd.push(we);
                    proof {
                        let upd_after = uview(upd@);
                        assert(upd_after.len() == upd_before.len() + 1);
                        assert(forall|s: int|
                            0 <= s < upd_before.len() ==> upd_after[s] == upd_before[s]);
                        assert(upd_after.last() == we@);
                        assert forall|a: int, b: int|
                            0 <= a < b < upd_after.len() implies #[trigger] upd_after[a].id
                            < #[trigger] upd_after[b].id by {
                            if b < upd_after.len() - 1 {
                                assert(upd_before[a].id < upd_before[b].id);
                            } else {
                                assert(upd_after[b].id == tv.by_id[jj as int].id);
                                if a == upd_after.len() - 2 {
                                    assert(upd_after[a].id == tv.by_id[last_row].id);
                                    assert(tv.by_id[last_row].id < tv.by_id[jj as int].id);
                                } else if upd_before.len() > 0 {
                                    assert(upd_before[a].id < upd_before.last().id);
                                    assert(upd_before.last().id == tv.by_id[last_row].id);
                                    assert(tv.by_id[last_row].id < tv.by_id[jj as int].id);
                                }
                            }
                        }
                        assert forall|x: int|
                            0 <= x < jj + 1 && entry_changed(
                                bv,
                                tv,
                                #[trigger] tv.by_id[x].path,
                            ) implies u_path_among(
                            upd_after,
                            upd_after.len() as int,
                            tv.by_id[x].path,
                        ) by {
                            if x < jj {
                                let s = choose|s: int|
                                    0 <= s < upd_before.len() && #[trigger] upd_before[s].path
                                        =~~= tv.by_id[x].path;
                                assert(upd_after[s].path =~~= tv.by_id[x].path);
                            } else {
                                assert(upd_after[upd_after.len() - 1].path
                                    =~~= tv.by_id[x].path);
                            }
                        }
                        last_row = jj as int;
                    }
                },
                None => {
                    proof {
                        assert(false);
                    }
                },
            }
        } else {
            proof {
                let upd_after = uview(upd@);
                assert forall|x: int|
                    0 <= x < jj + 1 && entry_changed(
                        bv,
                        tv,
                        #[trigger] tv.by_id[x].path,
                    ) implies u_path_among(
                    upd_after,
                    upd_after.len() as int,
                    tv.by_id[x].path,
                ) by {
                    assert(x < jj);
                }
            }
        }
        jj = jj + 1;
    }
    proof {
        // Distinct ids give distinct paths.
        assert forall|a: int, b: int|
            0 <= a < b < uview(upd@).len() implies !(#[trigger] uview(upd@)[a].path
            =~~= #[trigger] uview(upd@)[b].path) by {
            assert(uview(upd@)[a].id < uview(upd@)[b].id);
            if uview(upd@)[a].path =~~= uview(upd@)[b].path {
                assert(uview(upd@)[a] == spec_wire_of_entry(
                    entry_at(tv.entries, uview(upd@)[a].path),
                ));
                assert(uview(upd@)[b] == spec_wire_of_entry(
                    entry_at(tv.entries, uview(upd@)[b].path),
                ));
                assert(uview(upd@)[a] == uview(upd@)[b]);
            }
        }
        assert(u_distinct(uview(upd@)));
        // Every changed path has an identity row, so the walk covered it.
        assert forall|q: Seq<Seq<u8>>| entry_changed(bv, tv, q) implies #[trigger] u_path_among(
            uview(upd@),
            uview(upd@).len() as int,
            q,
        ) by {
            let w = choose|w: int| 0 <= w < tv.entries.len() && #[trigger] tv.entries[w].path =~~= q;
            let k = tv.entries[w].id;
            assert(ids_contain(tv.by_id, k) && id_at(tv.by_id, k).path =~~= tv.entries[w].path);
            let x = choose|x: int| 0 <= x < tv.by_id.len() && #[trigger] tv.by_id[x].id == k;
            lemma_unique_id(tv.by_id, k, x);
            assert(tv.by_id[x].path =~~= q);
            assert(entry_changed(bv, tv, tv.by_id[x].path));
            assert(u_path_among(uview(upd@), uview(upd@).len() as int, tv.by_id[x].path));
        }
    }

    // Vanished ids not reused by an updated entry, in ascending id order:
    // walk the base's identity index.
    let mut rem: Vec<u64> = Vec::new();
    let ghost mut last_rem_row: int = -1;
    let mut x: usize = 0;
    while x < base.entries_by_id.len()
        invariant
            base.wf(),
            target.wf(),
            bv == base@,
            tv == target@,
            0 <= x <= bv.by_id.len(),
            base.entries_by_id@.len() == bv.by_id.len(),
            -1 <= last_rem_row < x as int,
            (rem@.len() == 0) <==> (last_rem_row == -1),
            rem@.len() > 0 ==> 0 <= last_rem_row && rem@.last() == bv.by_id[last_rem_row].id,
            forall|a: int, b: int|
                0 <= a < b < rem@.len() ==> #[trigger] rem@[a] < #[trigger] rem@[b],
            forall|s: int|
                0 <= s < rem@.len() ==> entry_vanished(bv, tv, #[trigger] rem@[s])
                    && !u_id_among(uview(upd@), uview(upd@).len() as int, rem@[s]),
            forall|y: int|
                0 <= y < x && entry_vanished(bv, tv, #[trigger] bv.by_id[y].id) && !u_id_among(
                    uview(upd@),
                    uview(upd@).len() as int,
                    bv.by_id[y].id,
                ) ==> id_among(rem@, rem@.len() as int, bv.by_id[y].id),
        decreases bv.by_id.len() - x,
    {
        let ghost rem_before = rem@;
        let row = &base.entries_by_id[x];
        proof {
            assert(row@ == bv.by_id[x as int]);
            lemma_unique_id(bv.by_id, bv.by_id[x as int].id, x as int);
        }
        let vanished: bool = match target.entry_for_path(&row.path) {
            Some(et) => et.id.0 != row.id.0,
            None => true,
        };
        proof {
            assert(vanished == entry_vanished(bv, tv, bv.by_id[x as int].id));
        }
        if vanished {
            if !wire_list_contains_id(&upd, row.id.0) {
                rem.push(row.id.0);
                proof {
                    assert(rem@.last() == bv.by_id[x as int].id);
                    assert(forall|s: int|
                        0 <= s < rem_before.len() ==> rem@[s] == rem_before[s]);
                    assert forall|a: int, b: int| 0 <= a < b < rem@.len() implies #[trigger] rem@[a]
                        < #[trigger] rem@[b] by {
                        if b < rem@.len() - 1 {
                            assert(rem_before[a] < rem_before[b]);
                        } else {
                            assert(rem@[b] == bv.by_id[x as int].id);
                            if a == rem@.len() - 2 {
                                assert(rem@[a] == bv.by_id[last_rem_row].id);
                                assert(bv.by_id[last_rem_row].id < bv.by_id[x as int].id);
                            } else if rem_before.len() > 0 {
                                assert(rem_before[a] < rem_before.last());
                                assert(rem_before.last() == bv.by_id[last_rem_row].id);
                                assert(bv.by_id[last_rem_row].id < bv.by_id[x as int].id);
                            }
                        }
                    }
                    assert forall|y: int|
                        0 <= y < x + 1 && entry_vanished(
                            bv,
                            tv,
                            #[trigger] bv.by_id[y].id,
                        ) && !u_id_among(
                            uview(upd@),
                            uview(upd@).len() as int,
                            bv.by_id[y].id,
                        ) implies id_among(rem@, rem@.len() as int, bv.by_id[y].id) by {
                        if y < x {
                            let s = choose|s: int|
                                0 <= s < rem_before.len() && rem_before[s] == bv.by_id[y].id;
                            assert(rem@[s] == bv.by_id[y].id);
                        } else {
                            assert(rem@[rem@.len() - 1] == bv.by_id[y].id);
                        }
                    }
                    last_rem_row = x as int;
                }
            } else {
                proof {
                    assert forall|y: int|
                        0 <= y < x + 1 && entry_vanished(
                            bv,
                            tv,
                            #[trigger] bv.by_id[y].id,
                        ) && !u_id_among(
                            uview(upd@),
                            uview(upd@).len() as int,
                            bv.by_id[y].id,
                        ) implies id_among(rem@, rem@.len() as int, bv.by_id[y].id) by {
                        if y == x {
                            assert(u_id_among(
                                uview(upd@),
                                uview(upd@).len() as int,
                                bv.by_id[x as int].id,
                            ));
                            assert(false);
                        }
                    }
                }
            }
        } else {
            proof {
                assert forall|y: int|
                    0 <= y < x + 1 && entry_vanished(
                        bv,
                        tv,
                        #[trigger] bv.by_id[y].id,
                    ) && !u_id_among(
                        uview(upd@),
                        uview(upd@).len() as int,
                        bv.by_id[y].id,
                    ) implies id_among(rem@, rem@.len() as int, bv.by_id[y].id) by {
                    assert(y < x);
                }
            }
        }
        x = x + 1;
    }

    let (updated_repositories, removed_repositories) = build_repository_updates(base, target);
    let is_last_update = target.completed_scan_id == target.scan_id;
    let r = UpdateWorktree {
        project_id,
        worktree_id: target.id,
        abs_path: crate::relpath::clone_bytes(&target.abs_path),
        root_name: crate::relpath::clone_bytes(&target.root_name),
        updated_entries: upd,
        removed_entries: rem,
        scan_id: target.scan_id,
        is_last_update,
        updated_repositories,
        removed_repositories,
    };
    proof {
        assert(r@.updated_entries == uview(r.updated_entries@));
        assert forall|k: u64| #[trigger] id_among(
            r@.removed_entries,
            r@.removed_entries.len() as int,
            k,
        ) <==> (entry_vanished(bv, tv, k) && !u_id_among(
            r@.updated_entries,
            r@.updated_entries.len() as int,
            k,
        )) by {
            if id_among(r@.removed_entries, r@.removed_entries.len() as int, k) {
                let s = choose|s: int|
                    0 <= s < r@.removed_entries.len() && r@.removed_entries[s] == k;
            }
            if entry_vanished(bv, tv, k) && !u_id_among(
                r@.updated_entries,
                r@.updated_entries.len() as int,
                k,
            ) {
                let y = choose|y: int| 0 <= y < bv.by_id.len() && #[trigger] bv.by_id[y].id == k;
            }
        }
    }
    r
}

} // verus!
