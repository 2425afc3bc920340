use vstd::prelude::*;

use crate::entry::{Entry, EntryV, PathEntry, PathEntryV};
use crate::relpath::{
    lemma_path_lt_trans, lemma_path_lt_trichotomy, path_lt, RelPath,
};
use crate::snapshot::{
    entries_contain_path, entries_sorted, entry_at, entry_lower_bound, id_at, id_lower_bound,
    ids_contain, ids_sorted, lemma_lower_bound_absent, lemma_unique_entry, lemma_unique_id,
};

verus! {

pub open spec fn eview(s: Seq<Entry>) -> Seq<EntryV> {
    s.map(|_i: int, e: Entry| e@)
}

pub open spec fn iview(s: Seq<PathEntry>) -> Seq<PathEntryV> {
    s.map(|_i: int, e: PathEntry| e@)
}

/// Replaces the entry at `entry.path`, or inserts it anew, keeping the
/// list sorted by path.
pub fn tree_upsert(s: &mut Vec<Entry>, entry: Entry)
    requires
        entries_sorted(eview(old(s)@)),
    ensures
        entries_sorted(eview(final (s)@)),
        entries_contain_path(eview(final (s)@), entry@.path),
        entry_at(eview(final (s)@), entry@.path) == entry@,
        forall|q: Seq<Seq<u8>>|
            !(q =~~= entry@.path) ==> (entries_contain_path(eview(final (s)@), q)
                <==> entries_contain_path(eview(#[trigger] old(s)@), q)),
        forall|q: Seq<Seq<u8>>|
            !(q =~~= entry@.path) && entries_contain_path(eview(old(s)@), q) ==> entry_at(
                eview(final (s)@),
                q,
            ) == entry_at(eview(#[trigger] old(s)@), q),
{
    let ghost s0 = eview(s@);
    let ghost pv = entry@.path;
    let (i, found) = entry_lower_bound(s, &entry.path);
    if found {
        s.set(i, entry);
        proof {
            let s1 = eview(s@);
            assert(s1.len() == s0.len());
            assert(s1[i as int].path =~~= pv && s0[i as int].path =~~= pv);
            assert(forall|j: int| 0 <= j < s1.len() && j != i ==> s1[j] == s0[j]);
            assert forall|a: int, b: int| 0 <= a < b < s1.len() implies path_lt(
                #[trigger] s1[a].path,
                #[trigger] s1[b].path,
            ) by {
                assert(path_lt(s0[a].path, s0[b].path));
            }
            lemma_unique_entry(s1, pv, i as int);
            assert forall|q: Seq<Seq<u8>>| !(q =~~= pv) implies (entries_contain_path(s1, q)
                <==> entries_contain_path(s0, q)) by {
                if entries_contain_path(s1, q) {
                    let w = choose|k: int| 0 <= k < s1.len() && #[trigger] s1[k].path =~~= q;
                    assert(s0[w].path =~~= q);
                }
                if entries_contain_path(s0, q) {
                    let w = choose|k: int| 0 <= k < s0.len() && #[trigger] s0[k].path =~~= q;
                    assert(s1[w].path =~~= q);
                }
            }
            assert forall|q: Seq<Seq<u8>>|
                !(q =~~= pv) && entries_contain_path(s0, q) implies entry_at(s1, q) == entry_at(
                s0,
                q,
            ) by {
                let w0 = choose|k: int| 0 <= k < s0.len() && #[trigger] s0[k].path =~~= q;
                lemma_unique_entry(s0, q, w0);
                assert(s1[w0].path =~~= q);
                lemma_unique_entry(s1, q, w0);
            }
        }
    } else {
        s.insert(i, entry);
        proof {
            let s1 = eview(s@);
            assert(s1 =~= s0.insert(i as int, entry@));
            assert(s1[i as int].path =~~= pv);
            assert(forall|j: int| 0 <= j < i ==> s1[j] == s0[j]);
            assert(forall|j: int| i < j < s1.len() ==> s1[j] == s0[j - 1]);
            assert forall|j: int| i <= j < s0.len() implies path_lt(pv, #[trigger] s0[j].path) by {
                assert(path_lt(pv, s0[i as int].path));
                if j > i {
                    assert(path_lt(s0[i as int].path, s0[j].path));
                    lemma_path_lt_trans(pv, s0[i as int].path, s0[j].path);
                }
            }
            assert forall|a: int, b: int| 0 <= a < b < s1.len() implies path_lt(
                #[trigger] s1[a].path,
                #[trigger] s1[b].path,
            ) by {
                if a == i {
                    assert(path_lt(pv, s0[b - 1].path));
                } else if b == i {
                    assert(path_lt(s0[a].path, pv));
                } else if a < i && b > i {
                    assert(path_lt(s0[a].path, pv));
                    assert(path_lt(pv, s0[b - 1].path));
                    lemma_path_lt_trans(s0[a].path, pv, s0[b - 1].path);
                } else if b < i {
                    assert(path_lt(s0[a].path, s0[b].path));
                } else {
                    assert(path_lt(s0[a - 1].path, s0[b - 1].path));
                }
            }
            lemma_unique_entry(s1, pv, i as int);
            assert forall|q: Seq<Seq<u8>>| !(q =~~= pv) implies (entries_contain_path(s1, q)
                <==> entries_contain_path(s0, q)) by {
                if entries_contain_path(s1, q) {
                    let w = choose|k: int| 0 <= k < s1.len() && #[trigger] s1[k].path =~~= q;
                    if w < i {
                        assert(s0[w].path =~~= q);
                    } else {
                        assert(s0[w - 1].path =~~= q);
                    }
                }
                if entries_contain_path(s0, q) {
                    let w = choose|k: int| 0 <= k < s0.len() && #[trigger] s0[k].path =~~= q;
                    if w < i {
                        assert(s1[w].path =~~= q);
                    } else {
                        assert(s1[w + 1].path =~~= q);
                    }
                }
            }
            assert forall|q: Seq<Seq<u8>>|
                !(q =~~= pv) && entries_contain_path(s0, q) implies entry_at(s1, q) == entry_at(
                s0,
                q,
            ) by {
                let w0 = choose|k: int| 0 <= k < s0.len() && #[trigger] s0[k].path =~~= q;
                lemma_unique_entry(s0, q, w0);
                let w1: int = if w0 < i {
                    w0
                } else {
                    w0 + 1
                };
                assert(s1[w1].path =~~= q);
                lemma_unique_entry(s1, q, w1);
            }
        }
    }
}

/// Removes the entry at `path`, if present.
pub fn tree_remove(s: &mut Vec<Entry>, path: &RelPath)
    requires
        entries_sorted(eview(old(s)@)),
    ensures
        entries_sorted(eview(final (s)@)),
        !entries_contain_path(eview(final (s)@), path@),
        forall|q: Seq<Seq<u8>>|
            !(q =~~= path@) ==> (entries_contain_path(eview(final (s)@), q)
                <==> entries_contain_path(eview(#[trigger] old(s)@), q)),
        forall|q: Seq<Seq<u8>>|
            !(q =~~= path@) && entries_contain_path(eview(old(s)@), q) ==> entry_at(
                eview(final (s)@),
                q,
            ) == entry_at(eview(#[trigger] old(s)@), q),
    {
    let ghost s0 = eview(s@);
    let (i, found) = entry_lower_bound(s, path);
    if !found {
        proof {
            lemma_lower_bound_absent(s0, path@, i as int);
        }
        return ;
    }
    s.remove(i);
    proof {
        let s1 = eview(s@);
        assert(s1 =~= s0.remove(i as int));
        assert(forall|j: int| 0 <= j < i ==> s1[j] == s0[j]);
        assert(forall|j: int| i <= j < s1.len() ==> s1[j] == s0[j + 1]);
        assert forall|a: int, b: int| 0 <= a < b < s1.len() implies path_lt(
            #[trigger] s1[a].path,
            #[trigger] s1[b].path,
        ) by {
            let a0: int = if a < i {
                a
            } else {
                a + 1
            };
            let b0: int = if b < i {
                b
            } else {
                b + 1
            };
            assert(path_lt(s0[a0].path, s0[b0].path));
        }
        lemma_unique_entry(s0, path@, i as int);
        assert forall|q: Seq<Seq<u8>>| entries_contain_path(s1, q) implies entries_contain_path(
            s0,
            q,
        ) && !(q =~~= path@) by {
            let w = choose|k: int| 0 <= k < s1.len() && #[trigger] s1[k].path =~~= q;
            let w0: int = if w < i {
                w
            } else {
                w + 1
            };
            assert(s0[w0].path =~~= q);
        }
        assert forall|q: Seq<Seq<u8>>|
            !(q =~~= path@) && entries_contain_path(s0, q) implies entries_contain_path(s1, q)
            && entry_at(s1, q) == entry_at(s0, q) by {
            let w0 = choose|k: int| 0 <= k < s0.len() && #[trigger] s0[k].path =~~= q;
            lemma_unique_entry(s0, q, w0);
            let w1: int = if w0 < i {
                w0
            } else {
                w0 - 1
            };
            assert(s1[w1].path =~~= q);
            lemma_unique_entry(s1, q, w1);
        }
    }
}

/// Replaces the identity row for `row.id`, or inserts it anew, keeping the
/// index sorted by id.
pub fn ids_upsert(s: &mut Vec<PathEntry>, row: PathEntry)
    requires
        ids_sorted(iview(old(s)@)),
    ensures
        ids_sorted(iview(final (s)@)),
        ids_contain(iview(final (s)@), row@.id),
        id_at(iview(final (s)@), row@.id) == row@,
        forall|k: u64|
            k != row@.id ==> (ids_contain(iview(final (s)@), k) <==> ids_contain(
                iview(#[trigger] old(s)@),
                k,
            )),
        forall|k: u64|
            k != row@.id && ids_contain(iview(old(s)@), k) ==> id_at(iview(final (s)@), k)
                == id_at(iview(#[trigger] old(s)@), k),
{
    let ghost s0 = iview(s@);
    let ghost idv = row@.id;
    let (i, found) = id_lower_bound(s, row.id.0);
    if found {
        s.set(i, row);
        proof {
            let s1 = iview(s@);
            assert(s1[i as int].id == idv && s0[i as int].id == idv);
            assert(forall|j: int| 0 <= j < s1.len() && j != i ==> s1[j] == s0[j]);
            assert forall|a: int, b: int| 0 <= a < b < s1.len() implies #[trigger] s1[a].id
                < #[trigger] s1[b].id by {
                assert(s0[a].id < s0[b].id);
            }
            lemma_unique_id(s1, idv, i as int);
            assert forall|k: u64| k != idv implies (ids_contain(s1, k) <==> ids_contain(
                s0,
                k,
            )) by {
                if ids_contain(s1, k) {
                    let w = choose|m: int| 0 <= m < s1.len() && #[trigger] s1[m].id == k;
                    assert(s0[w].id == k);
                }
                if ids_contain(s0, k) {
                    let w = choose|m: int| 0 <= m < s0.len() && #[trigger] s0[m].id == k;
                    assert(s1[w].id == k);
                }
            }
            assert forall|k: u64| k != idv && ids_contain(s0, k) implies id_at(s1, k) == id_at(
                s0,
                k,
            ) by {
                let w0 = choose|m: int| 0 <= m < s0.len() && #[trigger] s0[m].id == k;
                lemma_unique_id(s0, k, w0);
                assert(s1[w0].id == k);
                lemma_unique_id(s1, k, w0);
            }
        }
    } else {
        s.insert(i, row);
        proof {
            let s1 = iview(s@);
            assert(s1 =~= s0.insert(i as int, row@));
            assert(s1[i as int].id == idv);
            assert(forall|j: int| 0 <= j < i ==> s1[j] == s0[j]);
            assert(forall|j: int| i < j < s1.len() ==> s1[j] == s0[j - 1]);
            assert forall|j: int| i <= j < s0.len() implies idv < #[trigger] s0[j].id by {
                assert(idv < s0[i as int].id);
                if j > i {
                    assert(s0[i as int].id < s0[j].id);
                }
            }
            assert forall|a: int, b: int| 0 <= a < b < s1.len() implies #[trigger] s1[a].id
                < #[trigger] s1[b].id by {
                if a == i {
                    assert(idv < s0[b - 1].id);
                } else if b == i {
                    assert(s0[a].id < idv);
                } else if a < i && b > i {
                    assert(s0[a].id < idv && idv < s0[b - 1].id);
                } else if b < i {
                    assert(s0[a].id < s0[b].id);
                } else {
                    assert(s0[a - 1].id < s0[b - 1].id);
                }
            }
            lemma_unique_id(s1, idv, i as int);
            assert forall|k: u64| k != idv implies (ids_contain(s1, k) <==> ids_contain(
                s0,
                k,
            )) by {
                if ids_contain(s1, k) {
                    let w = choose|m: int| 0 <= m < s1.len() && #[trigger] s1[m].id == k;
                    if w < i {
                        assert(s0[w].id == k);
                    } else {
                        assert(s0[w - 1].id == k);
                    }
                }
                if ids_contain(s0, k) {
                    let w = choose|m: int| 0 <= m < s0.len() && #[trigger] s0[m].id == k;
                    if w < i {
                        assert(s1[w].id == k);
                    } else {
                        assert(s1[w + 1].id == k);
                    }
                }
            }
            assert forall|k: u64| k != idv && ids_contain(s0, k) implies id_at(s1, k) == id_at(
                s0,
                k,
            ) by {
                let w0 = choose|m: int| 0 <= m < s0.len() && #[trigger] s0[m].id == k;
                lemma_unique_id(s0, k, w0);
                let w1: int = if w0 < i {
                    w0
                } else {
                    w0 + 1
                };
                assert(s1[w1].id == k);
                lemma_unique_id(s1, k, w1);
            }
        }
    }
}

/// Removes the identity row for `id`, if present.
pub fn ids_remove(s: &mut Vec<PathEntry>, id: u64)
    requires
        ids_sorted(iview(old(s)@)),
    ensures
        ids_sorted(iview(final (s)@)),
        !ids_contain(iview(final (s)@), id),
        forall|k: u64|
            k != id ==> (ids_contain(iview(final (s)@), k) <==> ids_contain(
                iview(#[trigger] old(s)@),
                k,
            )),
        forall|k: u64|
            k != id && ids_contain(iview(old(s)@), k) ==> id_at(iview(final (s)@), k) == id_at(
                iview(#[trigger] old(s)@),
                k,
            ),
{
    let ghost s0 = iview(s@);
    let (i, found) = id_lower_bound(s, id);
    if !found {
        return ;
    }
    s.remove(i);
    proof {
        let s1 = iview(s@);
        assert(s1 =~= s0.remove(i as int));
        assert(forall|j: int| 0 <= j < i ==> s1[j] == s0[j]);
        assert(forall|j: int| i <= j < s1.len() ==> s1[j] == s0[j + 1]);
        assert forall|a: int, b: int| 0 <= a < b < s1.len() implies #[trigger] s1[a].id
            < #[trigger] s1[b].id by {
            let a0: int = if a < i {
                a
            } else {
                a + 1
            };
            let b0: int = if b < i {
                b
            } else {
                b + 1
            };
            assert(s0[a0].id < s0[b0].id);
        }
        lemma_unique_id(s0, id, i as int);
        assert forall|k: u64| ids_contain(s1, k) implies ids_contain(s0, k) && k != id by {
            let w = choose|m: int| 0 <= m < s1.len() && #[trigger] s1[m].id == k;
            let w0: int = if w < i {
                w
            } else {
                w + 1
            };
            assert(s0[w0].id == k);
        }
        assert forall|k: u64| k != id && ids_contain(s0, k) implies ids_contain(s1, k) && id_at(
            s1,
            k,
        ) == id_at(s0, k) by {
            let w0 = choose|m: int| 0 <= m < s0.len() && #[trigger] s0[m].id == k;
            lemma_unique_id(s0, k, w0);
            let w1: int = if w0 < i {
                w0
            } else {
                w0 - 1
            };
            assert(s1[w1].id == k);
            lemma_unique_id(s1, k, w1);
        }
    }
}

} // verus!
