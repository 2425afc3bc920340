use vstd::prelude::*;

use crate::entry::PathKey;
use crate::relpath::{path_is_prefix, path_lt, lemma_path_lt_trans, lemma_path_lt_trichotomy, Order, RelPath};
use crate::status::{FileStatus, StatusEntry, StatusEntryV};
use crate::ProjectEntryId;

verus! {

/// The path inside the worktree that corresponds to a repository's root.
/// When the repository root lies in an ancestor of the worktree root, the
/// work directory is the worktree root itself (the empty path) and
/// `location_in_repo` holds the suffix from the repository root down to the
/// worktree root.
#[derive(Debug)]
pub struct WorkDirectory {
    pub path: RelPath,
    pub location_in_repo: Option<RelPath>,
}

/// The mathematical value of a `WorkDirectory`.
pub struct WorkDirectoryV {
    pub path: Seq<Seq<u8>>,
    pub location_in_repo: Option<Seq<Seq<u8>>>,
}

impl View for WorkDirectory {
    type V = WorkDirectoryV;

    open spec fn view(&self) -> WorkDirectoryV {
        WorkDirectoryV {
            path: self.path@,
            location_in_repo: match self.location_in_repo {
                Some(ref p) => Some(p@),
                None => None,
            },
        }
    }
}

/// What `relativize` yields: the repo-relative path of a worktree path.
pub open spec fn spec_relativize(wd: WorkDirectoryV, path: Seq<Seq<u8>>) -> Option<Seq<Seq<u8>>> {
    match wd.location_in_repo {
        Some(loc) => Some(loc + path),
        None => if path_is_prefix(wd.path, path) {
            Some(path.skip(wd.path.len() as int))
        } else {
            None
        },
    }
}

/// What `unrelativize` yields: the worktree path of a repo-relative path,
/// when it lies inside the worktree at all.
pub open spec fn spec_unrelativize(wd: WorkDirectoryV, repo_path: Seq<Seq<u8>>) -> Option<
    Seq<Seq<u8>>,
> {
    match wd.location_in_repo {
        Some(loc) => if path_is_prefix(loc, repo_path) {
            Some(repo_path.skip(loc.len() as int))
        } else {
            None
        },
        None => Some(wd.path + repo_path),
    }
}

impl WorkDirectory {
    pub fn root_work_directory() -> (r: WorkDirectory)
        ensures
            r@.path =~~= Seq::<Seq<u8>>::empty(),
            r@.location_in_repo is None,
    {
        WorkDirectory { path: RelPath::root(), location_in_repo: None }
    }

    pub fn clone_work_directory(&self) -> (r: WorkDirectory)
        ensures
            r@.path =~~= self@.path,
            match (r@.location_in_repo, self@.location_in_repo) {
                (Some(a), Some(b)) => a =~~= b,
                (None, None) => true,
                _ => false,
            },
    {
        WorkDirectory {
            path: self.path.clone_path(),
            location_in_repo: match &self.location_in_repo {
                Some(p) => Some(p.clone_path()),
                None => None,
            },
        }
    }

    pub fn path_key(&self) -> (r: PathKey)
        ensures
            r.0@ =~~= self@.path,
    {
        PathKey(self.path.clone_path())
    }

    /// Whether `path` lies at or below this work directory.
    pub fn directory_contains(&self, path: &RelPath) -> (r: bool)
        ensures
            r <==> path_is_prefix(self@.path, path@),
    {
        path.starts_with(&self.path)
    }

    /// The given worktree path, relative to the repository root. For an
    /// external repository this prepends the worktree's location inside it;
    /// otherwise it strips the work directory, failing when `path` is not
    /// under it.
    pub fn relativize(&self, path: &RelPath) -> (r: Option<RelPath>)
        ensures
            match (r, spec_relativize(self@, path@)) {
                (Some(a), Some(b)) => a@ =~~= b,
                (None, None) => true,
                _ => false,
            },
    {
        match &self.location_in_repo {
            Some(loc) => Some(loc.join(path)),
            None => path.strip_prefix(&self.path),
        }
    }

    /// The inverse of `relativize`: `None` when the repo path falls outside
    /// the worktree.
    pub fn unrelativize(&self, repo_path: &RelPath) -> (r: Option<RelPath>)
        ensures
            match (r, spec_unrelativize(self@, repo_path@)) {
                (Some(a), Some(b)) => a@ =~~= b,
                (None, None) => true,
                _ => false,
            },
    {
        match &self.location_in_repo {
            Some(loc) => repo_path.strip_prefix(loc),
            None => Some(self.path.join(repo_path)),
        }
    }
}

/// Statuses sorted strictly by repo-relative path.
pub open spec fn statuses_sorted(s: Seq<StatusEntryV>) -> bool {
    forall|i: int, j: int|
        0 <= i < j < s.len() ==> path_lt(#[trigger] s[i].repo_path, #[trigger] s[j].repo_path)
}

pub open spec fn statuses_contain_path(s: Seq<StatusEntryV>, p: Seq<Seq<u8>>) -> bool {
    exists|i: int| 0 <= i < s.len() && #[trigger] s[i].repo_path =~~= p
}

/// The status recorded for `p`, at the first (with sortedness: only)
/// position holding it.
pub open spec fn status_at(s: Seq<StatusEntryV>, p: Seq<Seq<u8>>) -> FileStatus {
    s[choose|i: int| 0 <= i < s.len() && #[trigger] s[i].repo_path =~~= p].status
}

/// One repository as the snapshot tracks it: its work directory, the id of
/// that directory's entry, the current branch, and the per-path statuses.
#[derive(Debug)]
pub struct RepositoryEntry {
    pub work_directory_id: ProjectEntryId,
    pub work_directory: WorkDirectory,
    pub branch: Option<Vec<u8>>,
    pub statuses_by_path: Vec<StatusEntry>,
}

/// The mathematical value of a `RepositoryEntry`.
pub struct RepositoryEntryV {
    pub work_directory_id: u64,
    pub work_directory: WorkDirectoryV,
    pub branch: Option<Seq<u8>>,
    pub statuses: Seq<StatusEntryV>,
}

impl View for RepositoryEntry {
    type V = RepositoryEntryV;

    open spec fn view(&self) -> RepositoryEntryV {
        RepositoryEntryV {
            work_directory_id: self.work_directory_id.0,
            work_directory: self.work_directory@,
            branch: match self.branch {
                Some(ref b) => Some(b@),
                None => None,
            },
            statuses: self.statuses_by_path@.map(|_i: int, e: StatusEntry| e@),
        }
    }
}

impl RepositoryEntry {
    pub open spec fn wf(&self) -> bool {
        statuses_sorted(self@.statuses)
    }

    pub fn branch(&self) -> (r: Option<&Vec<u8>>)
        ensures
            match (r, self@.branch) {
                (Some(a), Some(b)) => a@ =~= b,
                (None, None) => true,
                _ => false,
            },
    {
        self.branch.as_ref()
    }

    pub fn work_directory_id(&self) -> (r: ProjectEntryId)
        ensures
            r.0 == self@.work_directory_id,
    {
        self.work_directory_id
    }

    pub fn status_len(&self) -> (r: usize)
        ensures
            r == self@.statuses.len(),
    {
        self.statuses_by_path.len()
    }

    /// All recorded statuses, in repo-path order.
    pub fn status(&self) -> (r: Vec<StatusEntry>)
        ensures
            r@.map(|_i: int, e: StatusEntry| e@) =~~= self@.statuses,
    {
        let mut r: Vec<StatusEntry> = Vec::new();
        let mut i: usize = 0;
        while i < self.statuses_by_path.len()
            invariant
                i <= self.statuses_by_path@.len(),
                r@.len() == i,
                forall|j: int| 0 <= j < i ==> #[trigger] r@[j]@ == self.statuses_by_path@[j]@,
            decreases self.statuses_by_path@.len() - i,
        {
            r.push(self.statuses_by_path[i].clone_status_entry());
            i = i + 1;
        }
        proof {
            assert(r@.map(|_i: int, e: StatusEntry| e@) =~~= self@.statuses);
        }
        r
    }

    /// Point lookup by repo-relative path.
    pub fn status_for_path(&self, path: &RelPath) -> (r: Option<StatusEntry>)
        requires
            self.wf(),
        ensures
            statuses_contain_path(self@.statuses, path@) ==> (r matches Some(e) && e@.repo_path
                =~~= path@ && e@.status == status_at(self@.statuses, path@)),
            !statuses_contain_path(self@.statuses, path@) ==> r is None,
    {
        let mut i: usize = 0;
        while i < self.statuses_by_path.len()
            invariant
                i <= self.statuses_by_path@.len(),
                statuses_sorted(self@.statuses),
                forall|j: int| 0 <= j < i ==> !(#[trigger] self@.statuses[j].repo_path =~~= path@),
            decreases self.statuses_by_path@.len() - i,
        {
            let e = &self.statuses_by_path[i];
            if e.repo_path.eq_path(path) {
                proof {
                    assert(self@.statuses[i as int].repo_path =~~= path@);
                    lemma_unique_status(self@.statuses, path@, i as int);
                    assert(status_at(self@.statuses, path@) == self@.statuses[i as int].status);
                    assert(e@ == self@.statuses[i as int]);
                }
                return Some(e.clone_status_entry());
            }
            i = i + 1;
        }
        None
    }

    pub fn clone_repository_entry(&self) -> (r: RepositoryEntry)
        ensures
            r@.work_directory_id == self@.work_directory_id,
            r@.work_directory.path =~~= self@.work_directory.path,
            match (r@.work_directory.location_in_repo, self@.work_directory.location_in_repo) {
                (Some(a), Some(b)) => a =~~= b,
                (None, None) => true,
                _ => false,
            },
            match (r@.branch, self@.branch) {
                (Some(a), Some(b)) => a =~= b,
                (None, None) => true,
                _ => false,
            },
            r@.statuses =~~= self@.statuses,
    {
        let branch = match &self.branch {
            Some(b) => Some(crate::relpath::clone_bytes(b)),
            None => None,
        };
        let statuses_by_path = self.status();
        let r = RepositoryEntry {
            work_directory_id: self.work_directory_id,
            work_directory: self.work_directory.clone_work_directory(),
            branch,
            statuses_by_path,
        };
        r
    }

    /// Replaces the status of one repo path, or records it anew, keeping
    /// the list sorted.
    pub fn set_status(&mut self, path: &RelPath, status: FileStatus)
        requires
            old(self).wf(),
        ensures
            final (self).wf(),
            final (self)@.work_directory_id == old(self)@.work_directory_id,
            final (self)@.work_directory == old(self)@.work_directory,
            final (self)@.branch == old(self)@.branch,
            statuses_contain_path(final (self)@.statuses, path@),
            status_at(final (self)@.statuses, path@) == status,
            forall|q: Seq<Seq<u8>>|
                !(q =~~= path@) ==> (statuses_contain_path(final (self)@.statuses, q)
                    <==> statuses_contain_path(#[trigger] old(self)@.statuses, q)),
            forall|q: Seq<Seq<u8>>|
                !(q =~~= path@) && statuses_contain_path(old(self)@.statuses, q) ==> status_at(
                    final (self)@.statuses,
                    q,
                ) == status_at(#[trigger] old(self)@.statuses, q),
    {
        let ghost s0 = self@.statuses;
        let (i, found) = status_lower_bound(&self.statuses_by_path, path);
        let new_entry = StatusEntry { repo_path: path.clone_path(), status };
        if found {
            self.statuses_by_path.set(i, new_entry);
            proof {
                let s1 = self@.statuses;
                assert(s1.len() == s0.len());
                assert(s1[i as int].repo_path =~~= path@ && s0[i as int].repo_path =~~= path@);
                assert(forall|j: int| 0 <= j < s1.len() && j != i ==> s1[j] == s0[j]);
                assert forall|a: int, b: int| 0 <= a < b < s1.len() implies path_lt(
                    #[trigger] s1[a].repo_path,
                    #[trigger] s1[b].repo_path,
                ) by {
                    assert(path_lt(s0[a].repo_path, s0[b].repo_path));
                }
                lemma_unique_status(s1, path@, i as int);
                assert forall|q: Seq<Seq<u8>>| !(q =~~= path@) implies (statuses_contain_path(
                    s1,
                    q,
                ) <==> statuses_contain_path(s0, q)) by {
                    if statuses_contain_path(s1, q) {
                        let w = choose|k: int|
                            0 <= k < s1.len() && #[trigger] s1[k].repo_path =~~= q;
                        assert(s0[w].repo_path =~~= q);
                    }
                    if statuses_contain_path(s0, q) {
                        let w = choose|k: int|
                            0 <= k < s0.len() && #[trigger] s0[k].repo_path =~~= q;
                        assert(s1[w].repo_path =~~= q);
                    }
                }
                assert forall|q: Seq<Seq<u8>>|
                    !(q =~~= path@) && statuses_contain_path(s0, q) implies status_at(s1, q)
                    == status_at(s0, q) by {
                    let w0 = choose|k: int| 0 <= k < s0.len() && #[trigger] s0[k].repo_path =~~= q;
                    lemma_unique_status(s0, q, w0);
                    assert(s1[w0].repo_path =~~= q);
                    lemma_unique_status(s1, q, w0);
                }
            }
        } else {
            self.statuses_by_path.insert(i, new_entry);
            proof {
                let s1 = self@.statuses;
                assert(s1 =~= s0.insert(i as int, new_entry@));
                assert(s1.len() == s0.len() + 1);
                assert(s1[i as int].repo_path =~~= path@);
                assert(forall|j: int| 0 <= j < i ==> s1[j] == s0[j]);
                assert(forall|j: int| i < j < s1.len() ==> s1[j] == s0[j - 1]);
                assert forall|j: int| i <= j < s0.len() implies path_lt(
                    path@,
                    #[trigger] s0[j].repo_path,
                ) by {
                    assert(path_lt(path@, s0[i as int].repo_path));
                    if j > i {
                        assert(path_lt(s0[i as int].repo_path, s0[j].repo_path));
                        lemma_path_lt_trans(path@, s0[i as int].repo_path, s0[j].repo_path);
                    }
                }
                assert forall|a: int, b: int| 0 <= a < b < s1.len() implies path_lt(
                    #[trigger] s1[a].repo_path,
                    #[trigger] s1[b].repo_path,
                ) by {
                    if a == i {
                        assert(path_lt(path@, s0[b - 1].repo_path));
                    } else if b == i {
                        assert(path_lt(s0[a].repo_path, path@));
                    } else if a < i && b > i {
                        assert(path_lt(s0[a].repo_path, path@));
                        assert(path_lt(path@, s0[b - 1].repo_path));
                        lemma_path_lt_trans(s0[a].repo_path, path@, s0[b - 1].repo_path);
                    } else if b < i {
                        assert(path_lt(s0[a].repo_path, s0[b].repo_path));
                    } else {
                        assert(path_lt(s0[a - 1].repo_path, s0[b - 1].repo_path));
                    }
                }
                lemma_unique_status(s1, path@, i as int);
                assert forall|q: Seq<Seq<u8>>| !(q =~~= path@) implies (statuses_contain_path(
                    s1,
                    q,
                ) <==> statuses_contain_path(s0, q)) by {
                    if statuses_contain_path(s1, q) {
                        let w = choose|k: int|
                            0 <= k < s1.len() && #[trigger] s1[k].repo_path =~~= q;
                        if w < i {
                            assert(s0[w].repo_path =~~= q);
                        } else {
                            assert(s0[w - 1].repo_path =~~= q);
                        }
                    }
                    if statuses_contain_path(s0, q) {
                        let w = choose|k: int|
                            0 <= k < s0.len() && #[trigger] s0[k].repo_path =~~= q;
                        if w < i {
                            assert(s1[w].repo_path =~~= q);
                        } else {
                            assert(s1[w + 1].repo_path =~~= q);
                        }
                    }
                }
                assert forall|q: Seq<Seq<u8>>|
                    !(q =~~= path@) && statuses_contain_path(s0, q) implies status_at(s1, q)
                    == status_at(s0, q) by {
                    let w0 = choose|k: int| 0 <= k < s0.len() && #[trigger] s0[k].repo_path =~~= q;
                    lemma_unique_status(s0, q, w0);
                    let w1: int = if w0 < i {
                        w0
                    } else {
                        w0 + 1
                    };
                    assert(s1[w1].repo_path =~~= q);
                    lemma_unique_status(s1, q, w1);
                }
            }
        }
    }

    /// Drops the status of one repo path, if recorded.
    pub fn remove_status(&mut self, path: &RelPath)
        requires
            old(self).wf(),
        ensures
            final (self).wf(),
            final (self)@.work_directory_id == old(self)@.work_directory_id,
            final (self)@.work_directory == old(self)@.work_directory,
            final (self)@.branch == old(self)@.branch,
            !statuses_contain_path(final (self)@.statuses, path@),
            forall|q: Seq<Seq<u8>>|
                !(q =~~= path@) ==> (statuses_contain_path(final (self)@.statuses, q)
                    <==> statuses_contain_path(#[trigger] old(self)@.statuses, q)),
            forall|q: Seq<Seq<u8>>|
                !(q =~~= path@) && statuses_contain_path(old(self)@.statuses, q) ==> status_at(
                    final (self)@.statuses,
                    q,
                ) == status_at(#[trigger] old(self)@.statuses, q),
    {
        let ghost s0 = self@.statuses;
        let (i, found) = status_lower_bound(&self.statuses_by_path, path);
        if !found {
            proof {
                if statuses_contain_path(s0, path@) {
                    let w = choose|k: int| 0 <= k < s0.len() && #[trigger] s0[k].repo_path =~~= path@;
                    if w < i as int {
                        assert(path_lt(s0[w].repo_path, path@));
                        lemma_path_lt_trichotomy(s0[w].repo_path, path@);
                    } else if w == i as int {
                        assert(path_lt(path@, s0[i as int].repo_path));
                        lemma_path_lt_trichotomy(path@, s0[w].repo_path);
                    } else {
                        assert(path_lt(path@, s0[i as int].repo_path));
                        assert(path_lt(s0[i as int].repo_path, s0[w].repo_path));
                        lemma_path_lt_trans(path@, s0[i as int].repo_path, s0[w].repo_path);
                        lemma_path_lt_trichotomy(path@, s0[w].repo_path);
                    }
                }
            }
            return ;
        }
        self.statuses_by_path.remove(i);
        proof {
            let s1 = self@.statuses;
            assert(s1 =~= s0.remove(i as int));
            assert(forall|j: int| 0 <= j < i ==> s1[j] == s0[j]);
            assert(forall|j: int| i <= j < s1.len() ==> s1[j] == s0[j + 1]);
            assert forall|a: int, b: int| 0 <= a < b < s1.len() implies path_lt(
                #[trigger] s1[a].repo_path,
                #[trigger] s1[b].repo_path,
            ) by {
                let a0: int = if a < i {
                    a
                } else {
                    a + 1
                };
                let b0: int = if b < i {
                    b
                } else {
                    b + 1
                };
                assert(path_lt(s0[a0].repo_path, s0[b0].repo_path));
            }
            lemma_unique_status(s0, path@, i as int);
            assert forall|q: Seq<Seq<u8>>| statuses_contain_path(s1, q) implies
                statuses_contain_path(s0, q) && !(q =~~= path@) by {
                let w = choose|k: int| 0 <= k < s1.len() && #[trigger] s1[k].repo_path =~~= q;
                let w0: int = if w < i {
                    w
                } else {
                    w + 1
                };
                assert(s0[w0].repo_path =~~= q);
            }
            assert forall|q: Seq<Seq<u8>>|
                !(q =~~= path@) && statuses_contain_path(s0, q) implies statuses_contain_path(
                s1,
                q,
            ) && status_at(s1, q) == status_at(s0, q) by {
                let w0 = choose|k: int| 0 <= k < s0.len() && #[trigger] s0[k].repo_path =~~= q;
                lemma_unique_status(s0, q, w0);
                let w1: int = if w0 < i {
                    w0
                } else {
                    w0 - 1
                };
                assert(s1[w1].repo_path =~~= q);
                lemma_unique_status(s1, q, w1);
            }
        }
    }
}

/// The position where `path` stands or would be inserted in a sorted
/// status list, and whether it is already there.
pub fn status_lower_bound(s: &Vec<StatusEntry>, path: &RelPath) -> (r: (usize, bool))
    requires
        statuses_sorted(s@.map(|_i: int, e: StatusEntry| e@)),
    ensures
        r.0 <= s@.len(),
        forall|j: int| 0 <= j < r.0 ==> path_lt(#[trigger] s@[j]@.repo_path, path@),
        r.1 ==> r.0 < s@.len() && s@[r.0 as int]@.repo_path =~~= path@,
        !r.1 && r.0 < s@.len() ==> path_lt(path@, s@[r.0 as int]@.repo_path),
{
    let ghost sv = s@.map(|_i: int, e: StatusEntry| e@);
    let mut i: usize = 0;
    while i < s.len()
        invariant
            i <= sv.len(),
            sv == s@.map(|_i: int, e: StatusEntry| e@),
            sv.len() == s@.len(),
            forall|j: int| 0 <= j < i ==> path_lt(#[trigger] s@[j]@.repo_path, path@),
        decreases sv.len() - i,
    {
        match s[i].repo_path.cmp(path) {
            Order::Less => {
                proof {
                    assert(sv[i as int].repo_path =~~= s@[i as int].repo_path@);
                }
                i = i + 1;
            },
            Order::Equal => {
                return (i, true);
            },
            Order::Greater => {
                return (i, false);
            },
        }
    }
    (i, false)
}

/// In a sorted status list, a path occurs at one position only, so the
/// chosen witness of `status_at` is that position.
pub proof fn lemma_unique_status(s: Seq<StatusEntryV>, p: Seq<Seq<u8>>, i: int)
    requires
        statuses_sorted(s),
        0 <= i < s.len(),
        s[i].repo_path =~~= p,
    ensures
        statuses_contain_path(s, p),
        status_at(s, p) == s[i].status,
        forall|j: int| 0 <= j < s.len() && #[trigger] s[j].repo_path =~~= p ==> j == i,
{
    assert(statuses_contain_path(s, p));
    assert forall|j: int| 0 <= j < s.len() && #[trigger] s[j].repo_path =~~= p implies j == i by {
        if j != i {
            lemma_path_lt_trichotomy(s[j].repo_path, s[i].repo_path);
            if j < i {
                assert(path_lt(s[j].repo_path, s[i].repo_path));
            } else {
                assert(path_lt(s[i].repo_path, s[j].repo_path));
            }
        }
    }
    let w = choose|k: int| 0 <= k < s.len() && #[trigger] s[k].repo_path =~~= p;
    assert(w == i);
}

} // verus!
