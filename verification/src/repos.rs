use vstd::prelude::*;

use crate::relpath::{lemma_path_lt_trans, lemma_path_lt_trichotomy, path_lt, Order, RelPath};
use crate::repository::{statuses_sorted, RepositoryEntry, RepositoryEntryV, WorkDirectory};
use crate::snapshot::{repos_sorted, Snapshot};
use crate::status::status_from_wire;
use crate::update::{WireRepositoryEntry, WireStatusEntry, WireStatusEntryV};
use crate::ProjectEntryId;

verus! {

/// The position where a work-directory path stands or would be inserted in
/// the sorted repository list, and whether it is already there.
pub fn repo_lower_bound(s: &Vec<RepositoryEntry>, path: &RelPath) -> (r: (usize, bool))
    requires
        repos_sorted(s@.map(|_i: int, e: RepositoryEntry| e@)),
    ensures
        r.0 <= s@.len(),
        forall|j: int| 0 <= j < r.0 ==> path_lt(#[trigger] s@[j]@.work_directory.path, path@),
        r.1 ==> r.0 < s@.len() && s@[r.0 as int]@.work_directory.path =~~= path@,
        !r.1 && r.0 < s@.len() ==> path_lt(path@, s@[r.0 as int]@.work_directory.path),
{
    let ghost sv = s@.map(|_i: int, e: RepositoryEntry| e@);
    let mut i: usize = 0;
    while i < s.len()
        invariant
            i <= sv.len(),
            sv == s@.map(|_i: int, e: RepositoryEntry| e@),
            sv.len() == s@.len(),
            forall|j: int| 0 <= j < i ==> path_lt(#[trigger] s@[j]@.work_directory.path, path@),
        decreases sv.len() - i,
    {
        match s[i].work_directory.path.cmp(path) {
            Order::Less => {
                i = i + 1;
            },
            Order::Equal => {
                return (i, true);
            },
            Order::Greater => {
                return (i, false);
            },
        }
    }
    (i, false)
}

/// After a failed lower-bound search, the work directory is nowhere in
/// the list.
pub proof fn lemma_repo_lower_bound_absent(s: Seq<RepositoryEntryV>, p: Seq<Seq<u8>>, i: int)
    requires
        repos_sorted(s),
        0 <= i <= s.len(),
        forall|j: int| 0 <= j < i ==> path_lt(#[trigger] s[j].work_directory.path, p),
        i < s.len() ==> path_lt(p, s[i].work_directory.path),
    ensures
        !crate::snapshot::repos_contain_path(s, p),
{
    if crate::snapshot::repos_contain_path(s, p) {
        let w = choose|k: int|
            0 <= k < s.len() && #[trigger] s[k].work_directory.path =~~= p;
        if w < i {
            assert(path_lt(s[w].work_directory.path, p));
            lemma_path_lt_trichotomy(s[w].work_directory.path, p);
        } else if w == i {
            lemma_path_lt_trichotomy(p, s[w].work_directory.path);
        } else {
            assert(path_lt(s[i].work_directory.path, s[w].work_directory.path));
            lemma_path_lt_trans(p, s[i].work_directory.path, s[w].work_directory.path);
            lemma_path_lt_trichotomy(p, s[w].work_directory.path);
        }
    }
}

/// Whether `k` stands among the listed work-directory ids.
pub open spec fn wd_id_among(ids: Seq<u64>, k: u64) -> bool {
    exists|s: int| 0 <= s < ids.len() && ids[s] == k
}

/// Whether `q` stands among the listed removed repo paths.
pub open spec fn removed_path_among(rem: Seq<Seq<Seq<u8>>>, q: Seq<Seq<u8>>) -> bool {
    exists|s: int| 0 <= s < rem.len() && #[trigger] rem[s] =~~= q
}

/// What replaying a list of wire status records leaves at one repo path:
/// the decoded status of the last decodable record naming it, or nothing
/// when no such record exists (records whose codes cannot be decoded are
/// skipped).
pub open spec fn replayed_status(u: Seq<WireStatusEntryV>, q: Seq<Seq<u8>>) -> Option<
    crate::status::FileStatus,
>
    decreases u.len(),
{
    if u.len() == 0 {
        None
    } else if u.last().repo_path =~~= q && crate::status::spec_status_from_wire(
        u.last().simple_status,
        u.last().status,
    ) is Ok {
        Some(
            crate::status::spec_status_from_wire(
                u.last().simple_status,
                u.last().status,
            ).unwrap(),
        )
    } else {
        replayed_status(u.drop_last(), q)
    }
}

/// Replaying one repository's wire delta leaves, at every repo path, the
/// last decodable updated record's status; paths no updated record names
/// keep their old status unless listed among the removed ones.
pub open spec fn repo_delta_applied(
    before: Seq<crate::status::StatusEntryV>,
    after: RepositoryEntryV,
    w: crate::update::WireRepositoryEntryV,
) -> bool {
    &&& after.branch == w.branch
    &&& forall|q: Seq<Seq<u8>>|
        #[trigger] replayed_status(w.updated_statuses, q) matches Some(st)
            ==> crate::repository::statuses_contain_path(after.statuses, q)
            && crate::repository::status_at(after.statuses, q) == st
    &&& forall|q: Seq<Seq<u8>>|
        replayed_status(w.updated_statuses, q) is None ==> (
        #[trigger] crate::repository::statuses_contain_path(after.statuses, q)
            <==> crate::repository::statuses_contain_path(before, q) && !removed_path_among(
            w.removed_statuses,
            q,
        ))
    &&& forall|q: Seq<Seq<u8>>|
        replayed_status(w.updated_statuses, q) is None
            && crate::repository::statuses_contain_path(after.statuses, q)
            ==> #[trigger] crate::repository::status_at(after.statuses, q)
            == crate::repository::status_at(before, q)
}

/// Replays one repository's wire delta onto its tracked state: the branch
/// is replaced, the removed statuses dropped, and the updated statuses
/// installed in order (records whose codes cannot be decoded are
/// skipped).
#[verifier::rlimit(60)]
pub fn apply_repository_delta(repo: &mut RepositoryEntry, wire: &WireRepositoryEntry)
    requires
        old(repo).wf(),
    ensures
        final (repo).wf(),
        final (repo)@.work_directory_id == old(repo)@.work_directory_id,
        final (repo)@.work_directory == old(repo)@.work_directory,
        repo_delta_applied(old(repo)@.statuses, final (repo)@, wire@),
{
    let ghost s0 = old(repo)@.statuses;
    let ghost remv = wire@.removed_statuses;
    let ghost updv = wire@.updated_statuses;
    repo.branch = match &wire.branch {
        Some(b) => Some(crate::relpath::clone_bytes(b)),
        None => None,
    };
    let mut i: usize = 0;
    while i < wire.removed_statuses.len()
        invariant
            repo.wf(),
            i <= remv.len(),
            remv == wire@.removed_statuses,
            remv.len() == wire.removed_statuses@.len(),
            repo@.work_directory_id == old(repo)@.work_directory_id,
            repo@.work_directory == old(repo)@.work_directory,
            repo@.branch == wire@.branch,
            forall|q: Seq<Seq<u8>>|
                #[trigger] crate::repository::statuses_contain_path(repo@.statuses, q) <==> (
                crate::repository::statuses_contain_path(s0, q) && !removed_among_first(
                    remv,
                    i as int,
                    q,
                )),
            forall|q: Seq<Seq<u8>>|
                crate::repository::statuses_contain_path(repo@.statuses, q)
                    ==> #[trigger] crate::repository::status_at(repo@.statuses, q)
                    == crate::repository::status_at(s0, q),
        decreases remv.len() - i,
    {
        let ghost pre = repo@.statuses;
        repo.remove_status(&wire.removed_statuses[i]);
        proof {
            assert(remv[i as int] =~~= wire.removed_statuses@[i as int]@);
            assert forall|q: Seq<Seq<u8>>|
                #[trigger] crate::repository::statuses_contain_path(repo@.statuses, q) implies (
            crate::repository::statuses_contain_path(s0, q) && !removed_among_first(
                remv,
                i + 1,
                q,
            )) by {
                assert(crate::repository::statuses_contain_path(pre, q));
                if removed_among_first(remv, i + 1, q) {
                    let s = choose|s: int| 0 <= s < i + 1 && #[trigger] remv[s] =~~= q;
                    if s < i {
                        assert(removed_among_first(remv, i as int, q));
                    } else {
                        assert(q =~~= remv[i as int]);
                    }
                    assert(false);
                }
            }
            assert forall|q: Seq<Seq<u8>>|
                crate::repository::statuses_contain_path(s0, q) && !removed_among_first(
                    remv,
                    i + 1,
                    q,
                ) implies #[trigger] crate::repository::statuses_contain_path(
                repo@.statuses,
                q,
            ) by {
                assert(!removed_among_first(remv, i as int, q)) by {
                    if removed_among_first(remv, i as int, q) {
                        let s = choose|s: int| 0 <= s < i && #[trigger] remv[s] =~~= q;
                        assert(removed_among_first(remv, i + 1, q));
                    }
                }
                assert(crate::repository::statuses_contain_path(pre, q));
                assert(!(q =~~= remv[i as int])) by {
                    if q =~~= remv[i as int] {
                        assert(removed_among_first(remv, i + 1, q));
                    }
                }
            }
        }
        i = i + 1;
    }
    let ghost r_state = repo@.statuses;
    let mut j: usize = 0;
    proof {
        assert(updv.subrange(0, 0) =~= Seq::<WireStatusEntryV>::empty());
    }
    while j < wire.updated_statuses.len()
        invariant
            repo.wf(),
            j <= updv.len(),
            updv == wire@.updated_statuses,
            updv.len() == wire.updated_statuses@.len(),
            repo@.work_directory_id == old(repo)@.work_directory_id,
            repo@.work_directory == old(repo)@.work_directory,
            repo@.branch == wire@.branch,
            forall|q: Seq<Seq<u8>>|
                #[trigger] replayed_status(updv.subrange(0, j as int), q) matches Some(st)
                    ==> crate::repository::statuses_contain_path(repo@.statuses, q)
                    && crate::repository::status_at(repo@.statuses, q) == st,
            forall|q: Seq<Seq<u8>>|
                replayed_status(updv.subrange(0, j as int), q) is None ==> (
                #[trigger] crate::repository::statuses_contain_path(repo@.statuses, q)
                    <==> crate::repository::statuses_contain_path(r_state, q)),
            forall|q: Seq<Seq<u8>>|
                replayed_status(updv.subrange(0, j as int), q) is None
                    && crate::repository::statuses_contain_path(repo@.statuses, q)
                    ==> #[trigger] crate::repository::status_at(repo@.statuses, q)
                    == crate::repository::status_at(r_state, q),
        decreases updv.len() - j,
    {
        let ghost pre = repo@.statuses;
        let w = &wire.updated_statuses[j];
        proof {
            assert(w@ == updv[j as int]);
            assert(updv.subrange(0, j + 1).drop_last() =~= updv.subrange(0, j as int));
            assert(updv.subrange(0, j + 1).last() == updv[j as int]);
        }
        match crate::status::status_from_wire(w.simple_status, w.status) {
            Ok(st) => {
                repo.set_status(&w.repo_path, st);
                proof {
                    assert forall|q: Seq<Seq<u8>>|
                        #[trigger] replayed_status(updv.subrange(0, j + 1), q) is Some implies
                        crate::repository::statuses_contain_path(repo@.statuses, q)
                        && crate::repository::status_at(repo@.statuses, q) == replayed_status(
                        updv.subrange(0, j + 1),
                        q,
                    ).unwrap() by {
                        if q =~~= updv[j as int].repo_path {
                            assert(replayed_status(updv.subrange(0, j + 1), q) == Some(st));
                        } else {
                            assert(replayed_status(updv.subrange(0, j + 1), q)
                                == replayed_status(updv.subrange(0, j as int), q));
                            assert(crate::repository::statuses_contain_path(pre, q));
                        }
                    }
                    assert forall|q: Seq<Seq<u8>>|
                        replayed_status(updv.subrange(0, j + 1), q) is None implies (
                    #[trigger] crate::repository::statuses_contain_path(repo@.statuses, q)
                        <==> crate::repository::statuses_contain_path(r_state, q)) by {
                        assert(!(q =~~= updv[j as int].repo_path));
                        assert(replayed_status(updv.subrange(0, j as int), q) is None);
                        assert(crate::repository::statuses_contain_path(repo@.statuses, q)
                            <==> crate::repository::statuses_contain_path(pre, q));
                    }
                    assert forall|q: Seq<Seq<u8>>|
                        replayed_status(updv.subrange(0, j + 1), q) is None
                            && crate::repository::statuses_contain_path(
                            repo@.statuses,
                            q,
                        ) implies #[trigger] crate::repository::status_at(repo@.statuses, q)
                        == crate::repository::status_at(r_state, q) by {
                        assert(!(q =~~= updv[j as int].repo_path));
                        assert(replayed_status(updv.subrange(0, j as int), q) is None);
                        assert(crate::repository::statuses_contain_path(pre, q));
                        assert(crate::repository::status_at(repo@.statuses, q)
                            == crate::repository::status_at(pre, q));
                    }
                }
            },
            Err(_) => {
                proof {
                    assert(forall|q: Seq<Seq<u8>>|
                        replayed_status(updv.subrange(0, j + 1), q) == replayed_status(
                            updv.subrange(0, j as int),
                            q,
                        ));
                }
            },
        }
        j = j + 1;
    }
    proof {
        assert(updv.subrange(0, updv.len() as int) =~= updv);
    }
}

/// Whether `q` stands among the first `t` removed repo paths.
pub open spec fn removed_among_first(rem: Seq<Seq<Seq<u8>>>, t: int, q: Seq<Seq<u8>>) -> bool {
    exists|s: int| 0 <= s < t && #[trigger] rem[s] =~~= q
}

impl Snapshot {
    /// Registers a repository at its work directory, keeping the index
    /// sorted. An existing repository at that work directory is replaced.
    pub fn add_repository(&mut self, repo: RepositoryEntry)
        requires
            old(self).wf(),
            repo.wf(),
        ensures
            final (self).wf(),
            final (self)@.id == old(self)@.id,
            final (self)@.abs_path == old(self)@.abs_path,
            final (self)@.root_name == old(self)@.root_name,
            final (self)@.entries == old(self)@.entries,
            final (self)@.by_id == old(self)@.by_id,
            final (self)@.scan_id == old(self)@.scan_id,
            final (self)@.completed_scan_id == old(self)@.completed_scan_id,
            crate::snapshot::repos_contain_path(final (self)@.repos, repo@.work_directory.path),
            crate::snapshot::repo_at(final (self)@.repos, repo@.work_directory.path) == repo@,
            forall|q: Seq<Seq<u8>>|
                !(q =~~= repo@.work_directory.path) ==> (
                #[trigger] crate::snapshot::repos_contain_path(final (self)@.repos, q)
                    <==> crate::snapshot::repos_contain_path(old(self)@.repos, q)),
            forall|q: Seq<Seq<u8>>|
                !(q =~~= repo@.work_directory.path) && crate::snapshot::repos_contain_path(
                    old(self)@.repos,
                    q,
                ) ==> #[trigger] crate::snapshot::repo_at(final (self)@.repos, q)
                    == crate::snapshot::repo_at(old(self)@.repos, q),
    {
        let ghost repos0 = self@.repos;
        let ghost pv = repo@.work_directory.path;
        let (ri, present) = repo_lower_bound(&self.repositories, &repo.work_directory.path);
        if present {
            proof {
                crate::snapshot::lemma_unique_repo(repos0, pv, ri as int);
            }
            self.repositories.remove(ri);
            self.repositories.insert(ri, repo);
            proof {
                let repos1 = self@.repos;
                assert(repos1.len() == repos0.len());
                assert(forall|x: int|
                    0 <= x < repos1.len() && x != ri ==> repos1[x] == repos0[x]);
                assert(repos1[ri as int].work_directory.path =~~= pv);
                assert forall|a: int, b: int| 0 <= a < b < repos1.len() implies path_lt(
                    #[trigger] repos1[a].work_directory.path,
                    #[trigger] repos1[b].work_directory.path,
                ) by {
                    assert(path_lt(
                        repos0[a].work_directory.path,
                        repos0[b].work_directory.path,
                    ));
                    if a == ri {
                        crate::relpath::lemma_path_lt_trichotomy(pv, repos0[b].work_directory.path);
                        assert(path_lt(repos0[ri as int].work_directory.path, repos0[b].work_directory.path));
                    } else if b == ri {
                        assert(path_lt(repos0[a].work_directory.path, repos0[ri as int].work_directory.path));
                    }
                }
                assert forall|x: int| 0 <= x < repos1.len() implies statuses_sorted(
                    #[trigger] repos1[x].statuses,
                ) by {
                    if x != ri {
                        assert(statuses_sorted(repos0[x].statuses));
                    }
                }
                crate::snapshot::lemma_unique_repo(repos1, pv, ri as int);
                assert forall|q: Seq<Seq<u8>>| !(q =~~= pv) implies (
                #[trigger] crate::snapshot::repos_contain_path(repos1, q)
                    <==> crate::snapshot::repos_contain_path(repos0, q)) by {
                    if crate::snapshot::repos_contain_path(repos1, q) {
                        let w = choose|w: int|
                            0 <= w < repos1.len() && #[trigger] repos1[w].work_directory.path
                                =~~= q;
                        assert(repos0[w].work_directory.path =~~= q);
                    }
                    if crate::snapshot::repos_contain_path(repos0, q) {
                        let w = choose|w: int|
                            0 <= w < repos0.len() && #[trigger] repos0[w].work_directory.path
                                =~~= q;
                        assert(repos1[w].work_directory.path =~~= q);
                    }
                }
                assert forall|q: Seq<Seq<u8>>|
                    !(q =~~= pv) && crate::snapshot::repos_contain_path(
                        repos0,
                        q,
                    ) implies #[trigger] crate::snapshot::repo_at(repos1, q)
                    == crate::snapshot::repo_at(repos0, q) by {
                    let w = choose|w: int|
                        0 <= w < repos0.len() && #[trigger] repos0[w].work_directory.path =~~= q;
                    crate::snapshot::lemma_unique_repo(repos0, q, w);
                    assert(repos1[w].work_directory.path =~~= q);
                    crate::snapshot::lemma_unique_repo(repos1, q, w);
                }
            }
        } else {
            proof {
                lemma_repo_lower_bound_absent(repos0, pv, ri as int);
            }
            self.repositories.insert(ri, repo);
            proof {
                let repos1 = self@.repos;
                assert(repos1 =~= repos0.insert(ri as int, repos1[ri as int]));
                assert(forall|x: int| 0 <= x < ri ==> repos1[x] == repos0[x]);
                assert(forall|x: int| ri < x < repos1.len() ==> repos1[x] == repos0[x - 1]);
                assert(repos1[ri as int].work_directory.path =~~= pv);
                assert forall|x: int|
                    ri <= x < repos0.len() implies path_lt(
                    pv,
                    #[trigger] repos0[x].work_directory.path,
                ) by {
                    assert(path_lt(pv, repos0[ri as int].work_directory.path));
                    if x > ri {
                        assert(path_lt(
                            repos0[ri as int].work_directory.path,
                            repos0[x].work_directory.path,
                        ));
                        lemma_path_lt_trans(
                            pv,
                            repos0[ri as int].work_directory.path,
                            repos0[x].work_directory.path,
                        );
                    }
                }
                assert forall|a: int, b: int| 0 <= a < b < repos1.len() implies path_lt(
                    #[trigger] repos1[a].work_directory.path,
                    #[trigger] repos1[b].work_directory.path,
                ) by {
                    if a == ri {
                        assert(path_lt(pv, repos0[b - 1].work_directory.path));
                    } else if b == ri {
                        assert(path_lt(repos0[a].work_directory.path, pv));
                    } else if a < ri && b > ri {
                        assert(path_lt(repos0[a].work_directory.path, pv));
                        assert(path_lt(pv, repos0[b - 1].work_directory.path));
                        lemma_path_lt_trans(
                            repos0[a].work_directory.path,
                            pv,
                            repos0[b - 1].work_directory.path,
                        );
                    } else if b < ri {
                        assert(path_lt(
                            repos0[a].work_directory.path,
                            repos0[b].work_directory.path,
                        ));
                    } else {
                        assert(path_lt(
                            repos0[a - 1].work_directory.path,
                            repos0[b - 1].work_directory.path,
                        ));
                    }
                }
                assert forall|x: int| 0 <= x < repos1.len() implies statuses_sorted(
                    #[trigger] repos1[x].statuses,
                ) by {
                    if x < ri {
                        assert(statuses_sorted(repos0[x].statuses));
                    } else if x > ri {
                        assert(statuses_sorted(repos0[x - 1].statuses));
                    }
                }
                crate::snapshot::lemma_unique_repo(repos1, pv, ri as int);
                assert forall|q: Seq<Seq<u8>>| !(q =~~= pv) implies (
                #[trigger] crate::snapshot::repos_contain_path(repos1, q)
                    <==> crate::snapshot::repos_contain_path(repos0, q)) by {
                    if crate::snapshot::repos_contain_path(repos1, q) {
                        let w = choose|w: int|
                            0 <= w < repos1.len() && #[trigger] repos1[w].work_directory.path
                                =~~= q;
                        if w < ri {
                            assert(repos0[w].work_directory.path =~~= q);
                        } else {
                            assert(repos0[w - 1].work_directory.path =~~= q);
                        }
                    }
                    if crate::snapshot::repos_contain_path(repos0, q) {
                        let w = choose|w: int|
                            0 <= w < repos0.len() && #[trigger] repos0[w].work_directory.path
                                =~~= q;
                        if w < ri {
                            assert(repos1[w].work_directory.path =~~= q);
                        } else {
                            assert(repos1[w + 1].work_directory.path =~~= q);
                        }
                    }
                }
                assert forall|q: Seq<Seq<u8>>|
                    !(q =~~= pv) && crate::snapshot::repos_contain_path(
                        repos0,
                        q,
                    ) implies #[trigger] crate::snapshot::repo_at(repos1, q)
                    == crate::snapshot::repo_at(repos0, q) by {
                    let w = choose|w: int|
                        0 <= w < repos0.len() && #[trigger] repos0[w].work_directory.path =~~= q;
                    crate::snapshot::lemma_unique_repo(repos0, q, w);
                    let w1: int = if w < ri {
                        w
                    } else {
                        w + 1
                    };
                    assert(repos1[w1].work_directory.path =~~= q);
                    crate::snapshot::lemma_unique_repo(repos1, q, w1);
                }
            }
        }
    }
}

/// Some listed record resolves through the identity index to this
/// work-directory path.
pub open spec fn record_targets_path(
    by_id: Seq<crate::entry::PathEntryV>,
    updated: Seq<crate::update::WireRepositoryEntryV>,
    p: Seq<Seq<u8>>,
) -> bool {
    exists|s: int|
        0 <= s < updated.len() && crate::snapshot::ids_contain(
            by_id,
            #[trigger] updated[s].work_directory_id,
        ) && crate::snapshot::id_at(by_id, updated[s].work_directory_id).path =~~= p
}

/// The listed records resolve to pairwise distinct work-directory paths,
/// as any delta built from one coherent snapshot does.
pub open spec fn records_separate(
    by_id: Seq<crate::entry::PathEntryV>,
    updated: Seq<crate::update::WireRepositoryEntryV>,
) -> bool {
    forall|a: int, b: int|
        0 <= a < b < updated.len() && crate::snapshot::ids_contain(
            by_id,
            #[trigger] updated[a].work_directory_id,
        ) && crate::snapshot::ids_contain(by_id, #[trigger] updated[b].work_directory_id)
            ==> !(crate::snapshot::id_at(by_id, updated[a].work_directory_id).path
            =~~= crate::snapshot::id_at(by_id, updated[b].work_directory_id).path)
}

/// The repository at `p` outlives the removal phase: it was tracked and
/// its work-directory id is not listed.
pub open spec fn repo_survives(
    before: Seq<RepositoryEntryV>,
    removed: Seq<u64>,
    p: Seq<Seq<u8>>,
) -> bool {
    crate::snapshot::repos_contain_path(before, p) && !wd_id_among(
        removed,
        crate::snapshot::repo_at(before, p).work_directory_id,
    )
}

/// The statuses a record's replay starts from: the surviving
/// repository's, or none for a fresh work directory.
pub open spec fn surviving_statuses(
    before: Seq<RepositoryEntryV>,
    removed: Seq<u64>,
    p: Seq<Seq<u8>>,
) -> Seq<crate::status::StatusEntryV> {
    if repo_survives(before, removed, p) {
        crate::snapshot::repo_at(before, p).statuses
    } else {
        Seq::empty()
    }
}

impl Snapshot {
    /// Applies the repository part of a remote delta: dropped work
    /// directories leave the index, known ones replay their wire delta,
    /// and new ones are created at the path of their work-directory entry
    /// (skipped when no such entry exists). Repositories no record names
    /// are untouched.
    #[verifier::rlimit(100)]
    pub fn apply_repository_updates(
        &mut self,
        updated: &Vec<WireRepositoryEntry>,
        removed: &Vec<u64>,
    )
        requires
            old(self).wf(),
        ensures
            final (self).wf(),
            final (self)@.id == old(self)@.id,
            final (self)@.abs_path == old(self)@.abs_path,
            final (self)@.root_name == old(self)@.root_name,
            final (self)@.entries == old(self)@.entries,
            final (self)@.by_id == old(self)@.by_id,
            final (self)@.scan_id == old(self)@.scan_id,
            final (self)@.completed_scan_id == old(self)@.completed_scan_id,
            forall|p: Seq<Seq<u8>>|
                !record_targets_path(
                    old(self)@.by_id,
                    updated@.map(|_i: int, e: WireRepositoryEntry| e@),
                    p,
                ) ==> (#[trigger] crate::snapshot::repos_contain_path(final (self)@.repos, p)
                    <==> repo_survives(old(self)@.repos, removed@, p)),
            forall|p: Seq<Seq<u8>>|
                !record_targets_path(
                    old(self)@.by_id,
                    updated@.map(|_i: int, e: WireRepositoryEntry| e@),
                    p,
                ) && crate::snapshot::repos_contain_path(final (self)@.repos, p)
                    ==> #[trigger] crate::snapshot::repo_at(final (self)@.repos, p)
                    == crate::snapshot::repo_at(old(self)@.repos, p),
            records_separate(old(self)@.by_id, updated@.map(|_i: int, e: WireRepositoryEntry| e@))
                ==> forall|s: int|
                0 <= s < updated@.len() && crate::snapshot::ids_contain(
                    old(self)@.by_id,
                    updated@[s]@.work_directory_id,
                ) ==> #[trigger] repo_record_applied(
                    old(self)@.repos,
                    final (self)@.repos,
                    old(self)@.by_id,
                    removed@,
                    updated@[s]@,
                ),
    {
        let ghost o = old(self)@;
        let ghost updv = updated@.map(|_i: int, e: WireRepositoryEntry| e@);
        let ghost remv = removed@;

        // Drop the removed repositories.
        let mut kept: Vec<RepositoryEntry> = Vec::new();
        let ghost oldv = self@.repos;
        let ghost mut last_src: int = -1;
        let mut i: usize = 0;
        while i < self.repositories.len()
            invariant
                repos_sorted(oldv),
                oldv == self@.repos,
                remv == removed@,
                forall|x: int|
                    0 <= x < oldv.len() ==> statuses_sorted(#[trigger] oldv[x].statuses),
                0 <= i <= oldv.len(),
                self.repositories@.len() == oldv.len(),
                -1 <= last_src < i as int,
                (kept@.len() == 0) <==> (last_src == -1),
                kept@.len() > 0 ==> 0 <= last_src && kept@[kept@.len() - 1]@ == oldv[last_src],
                repos_sorted(kept@.map(|_i: int, e: RepositoryEntry| e@)),
                forall|x: int|
                    0 <= x < kept@.len() ==> statuses_sorted(#[trigger] kept@[x]@.statuses),
                forall|x: int|
                    0 <= x < kept@.len() ==> !wd_id_among(
                        remv,
                        #[trigger] kept@[x]@.work_directory_id,
                    ),
                forall|x: int|
                    0 <= x < kept@.len() ==> crate::snapshot::repos_contain_path(
                        oldv,
                        #[trigger] kept@[x]@.work_directory.path,
                    ),
                forall|x: int|
                    0 <= x < kept@.len() ==> crate::snapshot::repo_at(
                        oldv,
                        #[trigger] kept@[x]@.work_directory.path,
                    ) == kept@[x]@,
                forall|x: int|
                    0 <= x < i && !wd_id_among(remv, #[trigger] oldv[x].work_directory_id)
                        ==> crate::snapshot::repos_contain_path(
                        kept@.map(|_i: int, e: RepositoryEntry| e@),
                        oldv[x].work_directory.path,
                    ),
            decreases oldv.len() - i,
        {
            let ghost kept_before = kept@.map(|_i: int, e: RepositoryEntry| e@);
            proof {
                assert(oldv[i as int] == self.repositories@[i as int]@);
            }
            let keep = !id_list_contains(removed, self.repositories[i].work_directory_id.0);
            proof {
                assert(keep == !wd_id_among(remv, oldv[i as int].work_directory_id));
            }
            if keep {
                let cl = self.repositories[i].clone_repository_entry();
                proof {
                    assert(cl@.work_directory.path =~~= oldv[i as int].work_directory.path);
                    assert(cl@.statuses =~~= oldv[i as int].statuses);
                    assert(cl@.work_directory == oldv[i as int].work_directory);
                    assert(cl@.branch == oldv[i as int].branch);
                    assert(cl@ == oldv[i as int]);
                    crate::snapshot::lemma_unique_repo(
                        oldv,
                        oldv[i as int].work_directory.path,
                        i as int,
                    );
                }
                kept.push(cl);
                proof {
                    let kept_after = kept@.map(|_i: int, e: RepositoryEntry| e@);
                    assert(kept_after.len() == kept_before.len() + 1);
                    assert(forall|x: int|
                        0 <= x < kept_before.len() ==> kept_after[x] == kept_before[x]);
                    assert(kept_after[kept_after.len() - 1] == oldv[i as int]);
                    assert(statuses_sorted(kept_after[kept_after.len() - 1].statuses));
                    assert forall|a: int, b: int| 0 <= a < b < kept_after.len() implies path_lt(
                        #[trigger] kept_after[a].work_directory.path,
                        #[trigger] kept_after[b].work_directory.path,
                    ) by {
                        if b < kept_after.len() - 1 {
                            assert(path_lt(
                                kept_before[a].work_directory.path,
                                kept_before[b].work_directory.path,
                            ));
                        } else {
                            if a == kept_after.len() - 2 {
                                assert(kept_after[a] == oldv[last_src]);
                                assert(path_lt(
                                    oldv[last_src].work_directory.path,
                                    oldv[i as int].work_directory.path,
                                ));
                            } else if kept_before.len() > 0 {
                                assert(path_lt(
                                    kept_before[a].work_directory.path,
                                    kept_before[kept_before.len() - 1].work_directory.path,
                                ));
                                assert(kept_before[kept_before.len() - 1] == oldv[last_src]);
                                assert(path_lt(
                                    oldv[last_src].work_directory.path,
                                    oldv[i as int].work_directory.path,
                                ));
                                lemma_path_lt_trans(
                                    kept_before[a].work_directory.path,
                                    oldv[last_src].work_directory.path,
                                    oldv[i as int].work_directory.path,
                                );
                            }
                        }
                    }
                    assert forall|x: int|
                        0 <= x < i + 1 && !wd_id_among(
                            remv,
                            #[trigger] oldv[x].work_directory_id,
                        ) implies crate::snapshot::repos_contain_path(
                        kept_after,
                        oldv[x].work_directory.path,
                    ) by {
                        if x < i {
                            let w = choose|w: int|
                                0 <= w < kept_before.len()
                                    && #[trigger] kept_before[w].work_directory.path
                                    =~~= oldv[x].work_directory.path;
                            assert(kept_after[w].work_directory.path
                                =~~= oldv[x].work_directory.path);
                        } else {
                            assert(kept_after[kept_after.len() - 1].work_directory.path
                                =~~= oldv[x].work_directory.path);
                        }
                    }
                    last_src = i as int;
                }
            } else {
                proof {
                    let kept_after = kept@.map(|_i: int, e: RepositoryEntry| e@);
                    assert(wd_id_among(remv, oldv[i as int].work_directory_id));
                    assert forall|x: int|
                        0 <= x < i + 1 && !wd_id_among(
                            remv,
                            #[trigger] oldv[x].work_directory_id,
                        ) implies crate::snapshot::repos_contain_path(
                        kept_after,
                        oldv[x].work_directory.path,
                    ) by {
                        if x == i {
                            assert(false);
                        }
                    }
                }
            }
            i = i + 1;
        }
        self.repositories = kept;
        let ghost r_repos = self@.repos;
        proof {
            assert forall|p: Seq<Seq<u8>>| #[trigger] crate::snapshot::repos_contain_path(
                r_repos,
                p,
            ) implies repo_survives(oldv, remv, p) && crate::snapshot::repo_at(r_repos, p)
                == crate::snapshot::repo_at(oldv, p) by {
                let w = choose|w: int|
                    0 <= w < r_repos.len() && #[trigger] r_repos[w].work_directory.path =~~= p;
                crate::snapshot::lemma_unique_repo(r_repos, p, w);
                assert(!wd_id_among(remv, r_repos[w].work_directory_id));
                assert(crate::snapshot::repos_contain_path(
                    oldv,
                    r_repos[w].work_directory.path,
                ));
                assert(crate::snapshot::repo_at(oldv, r_repos[w].work_directory.path)
                    == r_repos[w]);
            }
            assert forall|p: Seq<Seq<u8>>| repo_survives(oldv, remv, p) implies
                #[trigger] crate::snapshot::repos_contain_path(r_repos, p) by {
                let w = choose|w: int|
                    0 <= w < oldv.len() && #[trigger] oldv[w].work_directory.path =~~= p;
                crate::snapshot::lemma_unique_repo(oldv, p, w);
                assert(!wd_id_among(remv, oldv[w].work_directory_id));
                assert(crate::snapshot::repos_contain_path(
                    r_repos,
                    oldv[w].work_directory.path,
                ));
            }
        }

        // Replay or install the updated repositories.
        let mut t: usize = 0;
        while t < updated.len()
            invariant
                self.wf(),
                t <= updv.len(),
                updv == updated@.map(|_i: int, e: WireRepositoryEntry| e@),
                updv.len() == updated@.len(),
                o.by_id == self@.by_id,
                self@.id == o.id,
                self@.abs_path == o.abs_path,
                self@.root_name == o.root_name,
                self@.entries == o.entries,
                self@.scan_id == o.scan_id,
                self@.completed_scan_id == o.completed_scan_id,
                oldv == o.repos,
                remv == removed@,
                forall|p: Seq<Seq<u8>>|
                    !targets_among(o.by_id, updv, t as int, p) ==> (
                    #[trigger] crate::snapshot::repos_contain_path(self@.repos, p)
                        <==> repo_survives(oldv, remv, p)),
                forall|p: Seq<Seq<u8>>|
                    !targets_among(o.by_id, updv, t as int, p)
                        && crate::snapshot::repos_contain_path(self@.repos, p)
                        ==> #[trigger] crate::snapshot::repo_at(self@.repos, p)
                        == crate::snapshot::repo_at(oldv, p),
                records_separate(o.by_id, updv) ==> forall|s: int|
                    0 <= s < t && crate::snapshot::ids_contain(
                        o.by_id,
                        #[trigger] updv[s].work_directory_id,
                    ) ==> repo_record_applied(oldv, self@.repos, o.by_id, remv, updv[s]),
            decreases updv.len() - t,
        {
            let ghost pre = self@.repos;
            let wire = &updated[t];
            proof {
                assert(wire@ == updv[t as int]);
            }
            let wd_path: Option<RelPath> = match self.entry_for_id(wire.work_directory_id) {
                Some(e) => Some(e.path.clone_path()),
                None => None,
            };
            match wd_path {
                Some(path) => {
                    proof {
                        assert(crate::snapshot::ids_contain(
                            o.by_id,
                            updv[t as int].work_directory_id,
                        ));
                        assert(path@ =~~= crate::snapshot::id_at(
                            o.by_id,
                            updv[t as int].work_directory_id,
                        ).path);
                    }
                    let ghost pv = path@;
                    let (ri, present) = repo_lower_bound(&self.repositories, &path);
                    if present {
                        let ghost repos0 = self@.repos;
                        proof {
                            crate::snapshot::lemma_unique_repo(repos0, pv, ri as int);
                        }
                        let mut repo = self.repositories.remove(ri);
                        let ghost repo_before = repo@;
                        apply_repository_delta(&mut repo, wire);
                        proof {
                            assert(repo@.work_directory.path =~~= pv);
                        }
                        self.repositories.insert(ri, repo);
                        proof {
                            let repos1 = self@.repos;
                            assert(repos1.len() == repos0.len());
                            assert(forall|x: int|
                                0 <= x < repos1.len() && x != ri ==> repos1[x] == repos0[x]);
                            assert(repos1[ri as int].work_directory
                                == repos0[ri as int].work_directory);
                            assert forall|a: int, b: int|
                                0 <= a < b < repos1.len() implies path_lt(
                                #[trigger] repos1[a].work_directory.path,
                                #[trigger] repos1[b].work_directory.path,
                            ) by {
                                assert(path_lt(
                                    repos0[a].work_directory.path,
                                    repos0[b].work_directory.path,
                                ));
                            }
                            assert forall|x: int| 0 <= x < repos1.len() implies statuses_sorted(
                                #[trigger] repos1[x].statuses,
                            ) by {
                                if x != ri {
                                    assert(statuses_sorted(repos0[x].statuses));
                                }
                            }
                            crate::snapshot::lemma_unique_repo(repos1, pv, ri as int);
                            assert forall|q: Seq<Seq<u8>>|
                                !(q =~~= pv) implies (
                            #[trigger] crate::snapshot::repos_contain_path(repos1, q)
                                <==> crate::snapshot::repos_contain_path(repos0, q)) by {
                                if crate::snapshot::repos_contain_path(repos1, q) {
                                    let w = choose|w: int|
                                        0 <= w < repos1.len()
                                            && #[trigger] repos1[w].work_directory.path =~~= q;
                                    assert(repos0[w].work_directory.path =~~= q);
                                }
                                if crate::snapshot::repos_contain_path(repos0, q) {
                                    let w = choose|w: int|
                                        0 <= w < repos0.len()
                                            && #[trigger] repos0[w].work_directory.path =~~= q;
                                    assert(repos1[w].work_directory.path =~~= q);
                                }
                            }
                            assert forall|q: Seq<Seq<u8>>|
                                !(q =~~= pv) && crate::snapshot::repos_contain_path(
                                    repos0,
                                    q,
                                ) implies #[trigger] crate::snapshot::repo_at(repos1, q)
                                == crate::snapshot::repo_at(repos0, q) by {
                                let w = choose|w: int|
                                    0 <= w < repos0.len()
                                        && #[trigger] repos0[w].work_directory.path =~~= q;
                                crate::snapshot::lemma_unique_repo(repos0, q, w);
                                assert(repos1[w].work_directory.path =~~= q);
                                crate::snapshot::lemma_unique_repo(repos1, q, w);
                            }
                        }
                    } else {
                        let ghost repos0 = self@.repos;
                        proof {
                            lemma_repo_lower_bound_absent(repos0, pv, ri as int);
                        }
                        let mut fresh = RepositoryEntry {
                            work_directory_id: ProjectEntryId(wire.work_directory_id),
                            work_directory: WorkDirectory {
                                path: path.clone_path(),
                                location_in_repo: None,
                            },
                            branch: None,
                            statuses_by_path: Vec::new(),
                        };
                        proof {
                            assert(fresh@.statuses =~~= Seq::<
                                crate::status::StatusEntryV,
                            >::empty());
                            assert(statuses_sorted(fresh@.statuses));
                        }
                        apply_repository_delta(&mut fresh, wire);
                        proof {
                            assert(fresh@.work_directory.path =~~= pv);
                            assert(fresh@.work_directory == (crate::repository::WorkDirectoryV {
                                path: pv,
                                location_in_repo: None,
                            }));
                            assert(fresh@.work_directory_id
                                == updv[t as int].work_directory_id);
                        }
                        self.repositories.insert(ri, fresh);
                        proof {
                            let repos1 = self@.repos;
                            assert(repos1 =~= repos0.insert(ri as int, fresh@));
                            assert(forall|x: int| 0 <= x < ri ==> repos1[x] == repos0[x]);
                            assert(forall|x: int|
                                ri < x < repos1.len() ==> repos1[x] == repos0[x - 1]);
                            assert forall|x: int|
                                ri <= x < repos0.len() implies path_lt(
                                pv,
                                #[trigger] repos0[x].work_directory.path,
                            ) by {
                                assert(path_lt(pv, repos0[ri as int].work_directory.path));
                                if x > ri {
                                    assert(path_lt(
                                        repos0[ri as int].work_directory.path,
                                        repos0[x].work_directory.path,
                                    ));
                                    lemma_path_lt_trans(
                                        pv,
                                        repos0[ri as int].work_directory.path,
                                        repos0[x].work_directory.path,
                                    );
                                }
                            }
                            assert forall|a: int, b: int|
                                0 <= a < b < repos1.len() implies path_lt(
                                #[trigger] repos1[a].work_directory.path,
                                #[trigger] repos1[b].work_directory.path,
                            ) by {
                                if a == ri {
                                    assert(path_lt(pv, repos0[b - 1].work_directory.path));
                                } else if b == ri {
                                    assert(path_lt(repos0[a].work_directory.path, pv));
                                } else if a < ri && b > ri {
                                    assert(path_lt(repos0[a].work_directory.path, pv));
                                    assert(path_lt(pv, repos0[b - 1].work_directory.path));
                                    lemma_path_lt_trans(
                                        repos0[a].work_directory.path,
                                        pv,
                                        repos0[b - 1].work_directory.path,
                                    );
                                } else if b < ri {
                                    assert(path_lt(
                                        repos0[a].work_directory.path,
                                        repos0[b].work_directory.path,
                                    ));
                                } else {
                                    assert(path_lt(
                                        repos0[a - 1].work_directory.path,
                                        repos0[b - 1].work_directory.path,
                                    ));
                                }
                            }
                            assert forall|x: int| 0 <= x < repos1.len() implies statuses_sorted(
                                #[trigger] repos1[x].statuses,
                            ) by {
                                if x < ri {
                                    assert(statuses_sorted(repos0[x].statuses));
                                } else if x > ri {
                                    assert(statuses_sorted(repos0[x - 1].statuses));
                                }
                            }
                            crate::snapshot::lemma_unique_repo(repos1, pv, ri as int);
                            assert forall|q: Seq<Seq<u8>>|
                                !(q =~~= pv) implies (
                            #[trigger] crate::snapshot::repos_contain_path(repos1, q)
                                <==> crate::snapshot::repos_contain_path(repos0, q)) by {
                                if crate::snapshot::repos_contain_path(repos1, q) {
                                    let w = choose|w: int|
                                        0 <= w < repos1.len()
                                            && #[trigger] repos1[w].work_directory.path =~~= q;
                                    if w < ri {
                                        assert(repos0[w].work_directory.path =~~= q);
                                    } else {
                                        assert(repos0[w - 1].work_directory.path =~~= q);
                                    }
                                }
                                if crate::snapshot::repos_contain_path(repos0, q) {
                                    let w = choose|w: int|
                                        0 <= w < repos0.len()
                                            && #[trigger] repos0[w].work_directory.path =~~= q;
                                    if w < ri {
                                        assert(repos1[w].work_directory.path =~~= q);
                                    } else {
                                        assert(repos1[w + 1].work_directory.path =~~= q);
                                    }
                                }
                            }
                            assert forall|q: Seq<Seq<u8>>|
                                !(q =~~= pv) && crate::snapshot::repos_contain_path(
                                    repos0,
                                    q,
                                ) implies #[trigger] crate::snapshot::repo_at(repos1, q)
                                == crate::snapshot::repo_at(repos0, q) by {
                                let w = choose|w: int|
                                    0 <= w < repos0.len()
                                        && #[trigger] repos0[w].work_directory.path =~~= q;
                                crate::snapshot::lemma_unique_repo(repos0, q, w);
                                let w1: int = if w < ri {
                                    w
                                } else {
                                    w + 1
                                };
                                assert(repos1[w1].work_directory.path =~~= q);
                                crate::snapshot::lemma_unique_repo(repos1, q, w1);
                            }
                        }
                    }
                    proof {
                        lemma_repo_step(o, oldv, remv, updv, t as int, pre, self@.repos, pv);
                    }
                },
                None => {
                    proof {
                        assert(!crate::snapshot::ids_contain(
                            o.by_id,
                            updv[t as int].work_directory_id,
                        ));
                        assert forall|p: Seq<Seq<u8>>|
                            !targets_among(o.by_id, updv, t + 1, p) implies (
                        #[trigger] crate::snapshot::repos_contain_path(self@.repos, p)
                            <==> repo_survives(oldv, remv, p)) by {
                            assert(!targets_among(o.by_id, updv, t as int, p)) by {
                                if targets_among(o.by_id, updv, t as int, p) {
                                    let s = choose|s: int|
                                        0 <= s < t && crate::snapshot::ids_contain(
                                            o.by_id,
                                            #[trigger] updv[s].work_directory_id,
                                        ) && crate::snapshot::id_at(
                                            o.by_id,
                                            updv[s].work_directory_id,
                                        ).path =~~= p;
                                    assert(targets_among(o.by_id, updv, t + 1, p));
                                }
                            }
                        }
                        assert forall|p: Seq<Seq<u8>>|
                            !targets_among(o.by_id, updv, t + 1, p)
                                && crate::snapshot::repos_contain_path(
                                self@.repos,
                                p,
                            ) implies #[trigger] crate::snapshot::repo_at(self@.repos, p)
                            == crate::snapshot::repo_at(oldv, p) by {
                            assert(!targets_among(o.by_id, updv, t as int, p)) by {
                                if targets_among(o.by_id, updv, t as int, p) {
                                    let s = choose|s: int|
                                        0 <= s < t && crate::snapshot::ids_contain(
                                            o.by_id,
                                            #[trigger] updv[s].work_directory_id,
                                        ) && crate::snapshot::id_at(
                                            o.by_id,
                                            updv[s].work_directory_id,
                                        ).path =~~= p;
                                    assert(targets_among(o.by_id, updv, t + 1, p));
                                }
                            }
                        }
                    }
                },
            }
            t = t + 1;
        }
        proof {
            if records_separate(o.by_id, updv) {
                assert forall|s: int|
                    0 <= s < updated@.len() && crate::snapshot::ids_contain(
                        o.by_id,
                        updated@[s]@.work_directory_id,
                    ) implies #[trigger] repo_record_applied(
                    oldv,
                    self@.repos,
                    o.by_id,
                    remv,
                    updated@[s]@,
                ) by {
                    assert(updv[s] == updated@[s]@);
                    assert(repo_record_applied(oldv, self@.repos, o.by_id, remv, updv[s]));
                }
            }
            assert forall|p: Seq<Seq<u8>>|
                !record_targets_path(o.by_id, updv, p) implies (
            #[trigger] crate::snapshot::repos_contain_path(self@.repos, p) <==> repo_survives(
                oldv,
                remv,
                p,
            )) by {
                assert(!targets_among(o.by_id, updv, updv.len() as int, p)) by {
                    if targets_among(o.by_id, updv, updv.len() as int, p) {
                        let s = choose|s: int|
                            0 <= s < updv.len() && crate::snapshot::ids_contain(
                                o.by_id,
                                #[trigger] updv[s].work_directory_id,
                            ) && crate::snapshot::id_at(
                                o.by_id,
                                updv[s].work_directory_id,
                            ).path =~~= p;
                        assert(record_targets_path(o.by_id, updv, p));
                    }
                }
            }
            assert forall|p: Seq<Seq<u8>>|
                !record_targets_path(o.by_id, updv, p) && crate::snapshot::repos_contain_path(
                    self@.repos,
                    p,
                ) implies #[trigger] crate::snapshot::repo_at(self@.repos, p)
                == crate::snapshot::repo_at(oldv, p) by {
                assert(!targets_among(o.by_id, updv, updv.len() as int, p)) by {
                    if targets_among(o.by_id, updv, updv.len() as int, p) {
                        let s = choose|s: int|
                            0 <= s < updv.len() && crate::snapshot::ids_contain(
                                o.by_id,
                                #[trigger] updv[s].work_directory_id,
                            ) && crate::snapshot::id_at(
                                o.by_id,
                                updv[s].work_directory_id,
                            ).path =~~= p;
                        assert(record_targets_path(o.by_id, updv, p));
                    }
                }
            }
        }
    }
}

/// Some record among the first `t` resolves to this work-directory path.
pub open spec fn targets_among(
    by_id: Seq<crate::entry::PathEntryV>,
    updated: Seq<crate::update::WireRepositoryEntryV>,
    t: int,
    p: Seq<Seq<u8>>,
) -> bool {
    exists|s: int|
        0 <= s < t && crate::snapshot::ids_contain(
            by_id,
            #[trigger] updated[s].work_directory_id,
        ) && crate::snapshot::id_at(by_id, updated[s].work_directory_id).path =~~= p
}

/// One resolved record has been applied: at its entry's path stands a
/// repository replaying its delta over whatever survived the removal
/// phase, keeping the survivor's identity or newly made for the record's
/// work-directory id.
pub open spec fn repo_record_applied(
    before: Seq<RepositoryEntryV>,
    after: Seq<RepositoryEntryV>,
    by_id: Seq<crate::entry::PathEntryV>,
    removed: Seq<u64>,
    w: crate::update::WireRepositoryEntryV,
) -> bool {
    let p = crate::snapshot::id_at(by_id, w.work_directory_id).path;
    &&& crate::snapshot::repos_contain_path(after, p)
    &&& repo_delta_applied(
        surviving_statuses(before, removed, p),
        crate::snapshot::repo_at(after, p),
        w,
    )
    &&& crate::snapshot::repo_at(after, p).work_directory_id == (if repo_survives(
        before,
        removed,
        p,
    ) {
        crate::snapshot::repo_at(before, p).work_directory_id
    } else {
        w.work_directory_id
    })
    &&& crate::snapshot::repo_at(after, p).work_directory == (if repo_survives(
        before,
        removed,
        p,
    ) {
        crate::snapshot::repo_at(before, p).work_directory
    } else {
        crate::repository::WorkDirectoryV { path: p, location_in_repo: None }
    })
}

/// Extends the per-record conclusions by one processed record.
#[verifier::rlimit(100)]
proof fn lemma_repo_step(
    o: crate::snapshot::SnapshotV,
    oldv: Seq<RepositoryEntryV>,
    remv: Seq<u64>,
    updv: Seq<crate::update::WireRepositoryEntryV>,
    t: int,
    pre: Seq<RepositoryEntryV>,
    cur: Seq<RepositoryEntryV>,
    pv: Seq<Seq<u8>>,
)
    requires
        0 <= t < updv.len(),
        crate::snapshot::ids_contain(o.by_id, updv[t].work_directory_id),
        pv == crate::snapshot::id_at(o.by_id, updv[t].work_directory_id).path,
        // the invariant before this step:
        forall|p: Seq<Seq<u8>>|
            !targets_among(o.by_id, updv, t, p) ==> (#[trigger] crate::snapshot::repos_contain_path(
                pre,
                p,
            ) <==> repo_survives(oldv, remv, p)),
        forall|p: Seq<Seq<u8>>|
            !targets_among(o.by_id, updv, t, p) && crate::snapshot::repos_contain_path(pre, p)
                ==> #[trigger] crate::snapshot::repo_at(pre, p) == crate::snapshot::repo_at(
                oldv,
                p,
            ),
        records_separate(o.by_id, updv) ==> forall|s: int|
            0 <= s < t && crate::snapshot::ids_contain(
                o.by_id,
                #[trigger] updv[s].work_directory_id,
            ) ==> repo_record_applied(oldv, pre, o.by_id, remv, updv[s]),
        // what this step established:
        crate::snapshot::repos_contain_path(cur, pv),
        forall|q: Seq<Seq<u8>>|
            !(q =~~= pv) ==> (#[trigger] crate::snapshot::repos_contain_path(cur, q)
                <==> crate::snapshot::repos_contain_path(pre, q)),
        forall|q: Seq<Seq<u8>>|
            !(q =~~= pv) && crate::snapshot::repos_contain_path(pre, q)
                ==> #[trigger] crate::snapshot::repo_at(cur, q) == crate::snapshot::repo_at(
                pre,
                q,
            ),
        // this step's own record conclusion, proved at the call site when
        // the record found its prior state:
        targets_among(o.by_id, updv, t, pv) || (repo_delta_applied(
            surviving_statuses(oldv, remv, pv),
            crate::snapshot::repo_at(cur, pv),
            updv[t],
        ) && crate::snapshot::repo_at(cur, pv).work_directory_id == (if repo_survives(
            oldv,
            remv,
            pv,
        ) {
            crate::snapshot::repo_at(oldv, pv).work_directory_id
        } else {
            updv[t].work_directory_id
        }) && crate::snapshot::repo_at(cur, pv).work_directory == (if repo_survives(
            oldv,
            remv,
            pv,
        ) {
            crate::snapshot::repo_at(oldv, pv).work_directory
        } else {
            crate::repository::WorkDirectoryV { path: pv, location_in_repo: None }
        })),
    ensures
        forall|p: Seq<Seq<u8>>|
            !targets_among(o.by_id, updv, t + 1, p) ==> (
            #[trigger] crate::snapshot::repos_contain_path(cur, p) <==> repo_survives(
                oldv,
                remv,
                p,
            )),
        forall|p: Seq<Seq<u8>>|
            !targets_among(o.by_id, updv, t + 1, p) && crate::snapshot::repos_contain_path(
                cur,
                p,
            ) ==> #[trigger] crate::snapshot::repo_at(cur, p) == crate::snapshot::repo_at(
                oldv,
                p,
            ),
        records_separate(o.by_id, updv) ==> forall|s: int|
            0 <= s < t + 1 && crate::snapshot::ids_contain(
                o.by_id,
                #[trigger] updv[s].work_directory_id,
            ) ==> repo_record_applied(oldv, cur, o.by_id, remv, updv[s]),
{
    assert forall|p: Seq<Seq<u8>>| !targets_among(o.by_id, updv, t + 1, p) implies (
    #[trigger] crate::snapshot::repos_contain_path(cur, p) <==> repo_survives(
        oldv,
        remv,
        p,
    )) by {
        assert(!targets_among(o.by_id, updv, t, p)) by {
            if targets_among(o.by_id, updv, t, p) {
                let s = choose|s: int|
                    0 <= s < t && crate::snapshot::ids_contain(
                        o.by_id,
                        #[trigger] updv[s].work_directory_id,
                    ) && crate::snapshot::id_at(o.by_id, updv[s].work_directory_id).path
                        =~~= p;
                assert(targets_among(o.by_id, updv, t + 1, p));
            }
        }
        assert(!(p =~~= pv)) by {
            if p =~~= pv {
                assert(targets_among(o.by_id, updv, t + 1, p));
            }
        }
    }
    assert forall|p: Seq<Seq<u8>>|
        !targets_among(o.by_id, updv, t + 1, p) && crate::snapshot::repos_contain_path(
            cur,
            p,
        ) implies #[trigger] crate::snapshot::repo_at(cur, p) == crate::snapshot::repo_at(
        oldv,
        p,
    ) by {
        assert(!targets_among(o.by_id, updv, t, p)) by {
            if targets_among(o.by_id, updv, t, p) {
                let s = choose|s: int|
                    0 <= s < t && crate::snapshot::ids_contain(
                        o.by_id,
                        #[trigger] updv[s].work_directory_id,
                    ) && crate::snapshot::id_at(o.by_id, updv[s].work_directory_id).path
                        =~~= p;
                assert(targets_among(o.by_id, updv, t + 1, p));
            }
        }
        assert(!(p =~~= pv)) by {
            if p =~~= pv {
                assert(targets_among(o.by_id, updv, t + 1, p));
            }
        }
        assert(crate::snapshot::repos_contain_path(pre, p));
    }
    if records_separate(o.by_id, updv) {
        assert forall|s: int|
            0 <= s < t + 1 && crate::snapshot::ids_contain(
                o.by_id,
                #[trigger] updv[s].work_directory_id,
            ) implies repo_record_applied(oldv, cur, o.by_id, remv, updv[s]) by {
            let ps = crate::snapshot::id_at(o.by_id, updv[s].work_directory_id).path;
            if s < t {
                assert(repo_record_applied(oldv, pre, o.by_id, remv, updv[s]));
                assert(!(ps =~~= pv)) by {
                    if ps =~~= pv {
                        assert(!(crate::snapshot::id_at(
                            o.by_id,
                            updv[s].work_directory_id,
                        ).path =~~= crate::snapshot::id_at(
                            o.by_id,
                            updv[t].work_directory_id,
                        ).path));
                    }
                }
                assert(crate::snapshot::repos_contain_path(cur, ps));
                assert(crate::snapshot::repo_at(cur, ps) == crate::snapshot::repo_at(pre, ps));
            } else {
                assert(ps == pv);
                assert(!targets_among(o.by_id, updv, t, pv)) by {
                    if targets_among(o.by_id, updv, t, pv) {
                        let s2 = choose|s2: int|
                            0 <= s2 < t && crate::snapshot::ids_contain(
                                o.by_id,
                                #[trigger] updv[s2].work_directory_id,
                            ) && crate::snapshot::id_at(
                                o.by_id,
                                updv[s2].work_directory_id,
                            ).path =~~= pv;
                        assert(!(crate::snapshot::id_at(
                            o.by_id,
                            updv[s2].work_directory_id,
                        ).path =~~= crate::snapshot::id_at(
                            o.by_id,
                            updv[t].work_directory_id,
                        ).path));
                        assert(false);
                    }
                }
            }
        }
    }
}

/// Whether a plain id list holds `k`.
pub fn id_list_contains(ids: &Vec<u64>, k: u64) -> (r: bool)
    ensures
        r == wd_id_among(ids@, k),
{
    let mut i: usize = 0;
    while i < ids.len()
        invariant
            i <= ids@.len(),
            forall|j: int| 0 <= j < i ==> ids@[j] != k,
        decreases ids@.len() - i,
    {
        if ids[i] == k {
            proof {
                assert(ids@[i as int] == k);
            }
            return true;
        }
        i = i + 1;
    }
    false
}

} // verus!
