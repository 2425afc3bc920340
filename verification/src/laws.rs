use vstd::prelude::*;

use crate::delta::{entry_changed, entry_vanished};
use crate::entry::{EntryV, PathEntryV};
use crate::relpath::{lemma_path_lt_trans, lemma_path_lt_trichotomy, path_lt};
use crate::snapshot::{
    entries_contain_path, entries_sorted, entry_at, id_at, ids_contain, ids_sorted, indices_agree,
    lemma_unique_entry, lemma_unique_id, SnapshotV,
};
use crate::update::{
    id_among, spec_entry_of_wire, spec_matches_always, spec_wire_of_entry, u_distinct,
    u_entry_with_id, u_entry_with_path, u_id_among, u_path_among, update_clears_id,
    update_clears_path, update_evicts_id, WireEntryV,
};

verus! {

/// Both indices of a snapshot are sorted and agree on the
/// `(path, id)` pairs.
pub open spec fn snapshot_indices_valid(s: SnapshotV) -> bool {
    &&& entries_sorted(s.entries)
    &&& ids_sorted(s.by_id)
    &&& indices_agree(s.entries, s.by_id)
}

/// The snapshot looks exactly like one reconstructed from the wire
/// against the always-include set `av`: entry kinds collapsed to file or
/// directory, no private flags, always-include flags recomputed, and
/// identity rows carrying generation zero with the entry's ignore flag.
pub open spec fn snapshot_wire_faithful(s: SnapshotV, av: Seq<Seq<Seq<u8>>>) -> bool {
    &&& forall|i: int|
        0 <= i < s.entries.len() ==> (#[trigger] s.entries[i].kind is Dir
            || s.entries[i].kind is File)
    &&& forall|i: int| 0 <= i < s.entries.len() ==> !(#[trigger] s.entries[i].is_private)
    &&& forall|i: int|
        0 <= i < s.entries.len() ==> #[trigger] s.entries[i].is_always_included
            == spec_matches_always(av, s.entries[i].path)
    &&& forall|j: int| 0 <= j < s.by_id.len() ==> #[trigger] s.by_id[j].scan_id == 0
    &&& forall|j: int|
        0 <= j < s.by_id.len() ==> #[trigger] s.by_id[j].is_ignored == entry_at(
            s.entries,
            s.by_id[j].path,
        ).is_ignored
}

/// A faithful entry survives the trip onto the wire and back unchanged.
pub proof fn lemma_entry_wire_identity(e: EntryV, av: Seq<Seq<Seq<u8>>>)
    requires
        e.kind is Dir || e.kind is File,
        !e.is_private,
        e.is_always_included == spec_matches_always(av, e.path),
    ensures
        spec_entry_of_wire(spec_wire_of_entry(e), av) == e,
{
}


/// Reads one identity row's faithfulness facts.
proof fn lemma_faithful_row(s: SnapshotV, av: Seq<Seq<Seq<u8>>>, j: int)
    requires
        snapshot_wire_faithful(s, av),
        0 <= j < s.by_id.len(),
    ensures
        s.by_id[j].scan_id == 0,
        s.by_id[j].is_ignored == entry_at(s.entries, s.by_id[j].path).is_ignored,
{
}

/// In a sorted entry list, dropping the first element keeps every other
/// path with its entry.
proof fn lemma_entries_skip(s: Seq<EntryV>)
    requires
        entries_sorted(s),
        s.len() > 0,
    ensures
        entries_sorted(s.skip(1)),
        forall|q: Seq<Seq<u8>>|
            #[trigger] entries_contain_path(s.skip(1), q) <==> (entries_contain_path(s, q) && !(q
                =~~= s[0].path)),
        forall|q: Seq<Seq<u8>>|
            entries_contain_path(s.skip(1), q) ==> #[trigger] entry_at(s.skip(1), q) == entry_at(
                s,
                q,
            ),
{
    let s1 = s.skip(1);
    assert(forall|j: int| 0 <= j < s1.len() ==> s1[j] == s[j + 1]);
    assert forall|a: int, b: int| 0 <= a < b < s1.len() implies path_lt(
        #[trigger] s1[a].path,
        #[trigger] s1[b].path,
    ) by {
        assert(path_lt(s[a + 1].path, s[b + 1].path));
    }
    lemma_unique_entry(s, s[0].path, 0);
    assert forall|q: Seq<Seq<u8>>| #[trigger] entries_contain_path(s1, q) implies (
    entries_contain_path(s, q) && !(q =~~= s[0].path)) by {
        let w = choose|w: int| 0 <= w < s1.len() && #[trigger] s1[w].path =~~= q;
        assert(s[w + 1].path =~~= q);
        if q =~~= s[0].path {
            assert(s[w + 1].path =~~= s[0].path);
        }
    }
    assert forall|q: Seq<Seq<u8>>|
        entries_contain_path(s, q) && !(q =~~= s[0].path) implies #[trigger] entries_contain_path(
        s1,
        q,
    ) by {
        let w = choose|w: int| 0 <= w < s.len() && #[trigger] s[w].path =~~= q;
        assert(w != 0);
        assert(s1[w - 1].path =~~= q);
    }
    assert forall|q: Seq<Seq<u8>>| entries_contain_path(s1, q) implies #[trigger] entry_at(
        s1,
        q,
    ) == entry_at(s, q) by {
        let w = choose|w: int| 0 <= w < s1.len() && #[trigger] s1[w].path =~~= q;
        lemma_unique_entry(s1, q, w);
        assert(s[w + 1].path =~~= q);
        lemma_unique_entry(s, q, w + 1);
    }
}

/// Two sorted entry lists holding the same paths with the same entries
/// are the same list.
pub proof fn lemma_entries_canonical(s1: Seq<EntryV>, s2: Seq<EntryV>)
    requires
        entries_sorted(s1),
        entries_sorted(s2),
        forall|q: Seq<Seq<u8>>|
            #[trigger] entries_contain_path(s1, q) <==> entries_contain_path(s2, q),
        forall|q: Seq<Seq<u8>>|
            entries_contain_path(s1, q) ==> #[trigger] entry_at(s1, q) == entry_at(s2, q),
    ensures
        s1 =~= s2,
    decreases s1.len(),
{
    if s1.len() == 0 {
        if s2.len() > 0 {
            assert(entries_contain_path(s2, s2[0].path));
            assert(entries_contain_path(s1, s2[0].path));
            let w = choose|w: int| 0 <= w < s1.len() && #[trigger] s1[w].path =~~= s2[0].path;
            assert(false);
        }
        assert(s1 =~= s2);
    } else {
        assert(entries_contain_path(s1, s1[0].path));
        assert(entries_contain_path(s2, s1[0].path));
        assert(s2.len() > 0) by {
            let w = choose|w: int| 0 <= w < s2.len() && #[trigger] s2[w].path =~~= s1[0].path;
        }
        // The heads carry the same path.
        let w2 = choose|w: int| 0 <= w < s2.len() && #[trigger] s2[w].path =~~= s1[0].path;
        if w2 != 0 {
            assert(path_lt(s2[0].path, s2[w2].path));
            assert(entries_contain_path(s2, s2[0].path));
            assert(entries_contain_path(s1, s2[0].path));
            let w1 = choose|w: int| 0 <= w < s1.len() && #[trigger] s1[w].path =~~= s2[0].path;
            if w1 != 0 {
                assert(path_lt(s1[0].path, s1[w1].path));
                assert(path_lt(s1[0].path, s2[0].path));
                assert(path_lt(s2[0].path, s1[0].path));
                lemma_path_lt_trans(s1[0].path, s2[0].path, s1[0].path);
                lemma_path_lt_trichotomy(s1[0].path, s1[0].path);
            } else {
                assert(s1[0].path =~~= s2[0].path);
                assert(path_lt(s2[0].path, s1[0].path));
                lemma_path_lt_trichotomy(s2[0].path, s1[0].path);
            }
            assert(false);
        }
        assert(s2[0].path =~~= s1[0].path);
        lemma_unique_entry(s1, s1[0].path, 0);
        lemma_unique_entry(s2, s1[0].path, 0);
        assert(entry_at(s1, s1[0].path) == s1[0]);
        assert(entry_at(s2, s1[0].path) == s2[0]);
        assert(s1[0] == s2[0]);
        // The tails match pointwise.
        lemma_entries_skip(s1);
        lemma_entries_skip(s2);
        assert forall|q: Seq<Seq<u8>>| #[trigger] entries_contain_path(
            s1.skip(1),
            q,
        ) <==> entries_contain_path(s2.skip(1), q) by {
            if entries_contain_path(s1.skip(1), q) {
                assert(entries_contain_path(s1, q) && !(q =~~= s1[0].path));
                assert(entries_contain_path(s2, q));
            }
            if entries_contain_path(s2.skip(1), q) {
                assert(entries_contain_path(s2, q) && !(q =~~= s2[0].path));
                assert(entries_contain_path(s1, q));
            }
        }
        assert forall|q: Seq<Seq<u8>>| entries_contain_path(s1.skip(1), q) implies
            #[trigger] entry_at(s1.skip(1), q) == entry_at(s2.skip(1), q) by {
            assert(entries_contain_path(s1, q));
            assert(entry_at(s1.skip(1), q) == entry_at(s1, q));
            assert(entries_contain_path(s2.skip(1), q));
            assert(entry_at(s2.skip(1), q) == entry_at(s2, q));
        }
        lemma_entries_canonical(s1.skip(1), s2.skip(1));
        assert forall|i: int| 0 <= i < s1.len() implies s1[i] == s2[i] by {
            if i > 0 {
                assert(s1.skip(1)[i - 1] == s2.skip(1)[i - 1]);
            }
        }
        assert(s1 =~= s2);
    }
}

/// In a sorted identity index, dropping the first row keeps every other
/// id with its row.
proof fn lemma_ids_skip(s: Seq<PathEntryV>)
    requires
        ids_sorted(s),
        s.len() > 0,
    ensures
        ids_sorted(s.skip(1)),
        forall|k: u64|
            #[trigger] ids_contain(s.skip(1), k) <==> (ids_contain(s, k) && k != s[0].id),
        forall|k: u64|
            ids_contain(s.skip(1), k) ==> #[trigger] id_at(s.skip(1), k) == id_at(s, k),
{
    let s1 = s.skip(1);
    assert(forall|j: int| 0 <= j < s1.len() ==> s1[j] == s[j + 1]);
    assert forall|a: int, b: int| 0 <= a < b < s1.len() implies #[trigger] s1[a].id
        < #[trigger] s1[b].id by {
        assert(s[a + 1].id < s[b + 1].id);
    }
    lemma_unique_id(s, s[0].id, 0);
    assert forall|k: u64| #[trigger] ids_contain(s1, k) implies (ids_contain(s, k) && k
        != s[0].id) by {
        let w = choose|w: int| 0 <= w < s1.len() && #[trigger] s1[w].id == k;
        assert(s[w + 1].id == k);
    }
    assert forall|k: u64| ids_contain(s, k) && k != s[0].id implies #[trigger] ids_contain(
        s1,
        k,
    ) by {
        let w = choose|w: int| 0 <= w < s.len() && #[trigger] s[w].id == k;
        assert(w != 0);
        assert(s1[w - 1].id == k);
    }
    assert forall|k: u64| ids_contain(s1, k) implies #[trigger] id_at(s1, k) == id_at(s, k) by {
        let w = choose|w: int| 0 <= w < s1.len() && #[trigger] s1[w].id == k;
        lemma_unique_id(s1, k, w);
        assert(s[w + 1].id == k);
        lemma_unique_id(s, k, w + 1);
    }
}

/// Two sorted identity indices holding the same ids with the same rows
/// are the same list.
pub proof fn lemma_ids_canonical(s1: Seq<PathEntryV>, s2: Seq<PathEntryV>)
    requires
        ids_sorted(s1),
        ids_sorted(s2),
        forall|k: u64| #[trigger] ids_contain(s1, k) <==> ids_contain(s2, k),
        forall|k: u64| ids_contain(s1, k) ==> #[trigger] id_at(s1, k) == id_at(s2, k),
    ensures
        s1 =~= s2,
    decreases s1.len(),
{
    if s1.len() == 0 {
        if s2.len() > 0 {
            assert(ids_contain(s2, s2[0].id));
            assert(ids_contain(s1, s2[0].id));
            let w = choose|w: int| 0 <= w < s1.len() && #[trigger] s1[w].id == s2[0].id;
            assert(false);
        }
        assert(s1 =~= s2);
    } else {
        assert(ids_contain(s1, s1[0].id));
        assert(ids_contain(s2, s1[0].id));
        assert(s2.len() > 0) by {
            let w = choose|w: int| 0 <= w < s2.len() && #[trigger] s2[w].id == s1[0].id;
        }
        let w2 = choose|w: int| 0 <= w < s2.len() && #[trigger] s2[w].id == s1[0].id;
        if w2 != 0 {
            assert(s2[0].id < s2[w2].id);
            assert(ids_contain(s2, s2[0].id));
            assert(ids_contain(s1, s2[0].id));
            let w1 = choose|w: int| 0 <= w < s1.len() && #[trigger] s1[w].id == s2[0].id;
            if w1 != 0 {
                assert(s1[0].id < s1[w1].id);
            }
            assert(false);
        }
        assert(s2[0].id == s1[0].id);
        lemma_unique_id(s1, s1[0].id, 0);
        lemma_unique_id(s2, s1[0].id, 0);
        assert(s1[0] == s2[0]);
        lemma_ids_skip(s1);
        lemma_ids_skip(s2);
        assert forall|k: u64| #[trigger] ids_contain(s1.skip(1), k) <==> ids_contain(
            s2.skip(1),
            k,
        ) by {
            if ids_contain(s1.skip(1), k) {
                assert(ids_contain(s1, k) && k != s1[0].id);
                assert(ids_contain(s2, k));
            }
            if ids_contain(s2.skip(1), k) {
                assert(ids_contain(s2, k) && k != s2[0].id);
                assert(ids_contain(s1, k));
            }
        }
        assert forall|k: u64| ids_contain(s1.skip(1), k) implies #[trigger] id_at(s1.skip(1), k)
            == id_at(s2.skip(1), k) by {
            assert(ids_contain(s1, k));
            assert(id_at(s1.skip(1), k) == id_at(s1, k));
            assert(ids_contain(s2.skip(1), k));
            assert(id_at(s2.skip(1), k) == id_at(s2, k));
        }
        lemma_ids_canonical(s1.skip(1), s2.skip(1));
        assert forall|i: int| 0 <= i < s1.len() implies s1[i] == s2[i] by {
            if i > 0 {
                assert(s1.skip(1)[i - 1] == s2.skip(1)[i - 1]);
            }
        }
        assert(s1 =~= s2);
    }
}


/// The delta `(u, rem)` describes exactly how the target differs from the
/// base, as the delta builder computes it.
pub open spec fn delta_describes(b: SnapshotV, t: SnapshotV, u: Seq<WireEntryV>, rem: Seq<u64>) -> bool {
    &&& u_distinct(u)
    &&& forall|s: int|
        0 <= s < u.len() ==> entry_changed(b, t, #[trigger] u[s].path) && u[s]
            == spec_wire_of_entry(entry_at(t.entries, u[s].path))
    &&& forall|q: Seq<Seq<u8>>|
        entry_changed(b, t, q) ==> #[trigger] u_path_among(u, u.len() as int, q)
    &&& forall|k: u64|
        #[trigger] id_among(rem, rem.len() as int, k) <==> (entry_vanished(b, t, k)
            && !u_id_among(u, u.len() as int, k))
}

/// The state `f` is what applying the delta `(u, rem)` to `o` leaves
/// behind, as the applier computes it.
pub open spec fn apply_describes(o: SnapshotV, f: SnapshotV, u: Seq<WireEntryV>, rem: Seq<u64>, av: Seq<Seq<Seq<u8>>>) -> bool {
    &&& forall|q: Seq<Seq<u8>>|
        u_path_among(u, u.len() as int, q) ==> #[trigger] entries_contain_path(f.entries, q)
    &&& forall|q: Seq<Seq<u8>>|
        u_path_among(u, u.len() as int, q) ==> #[trigger] entry_at(f.entries, q)
            == spec_entry_of_wire(u_entry_with_path(u, u.len() as int, q), av)
    &&& forall|q: Seq<Seq<u8>>|
        !u_path_among(u, u.len() as int, q) ==> (#[trigger] entries_contain_path(f.entries, q)
            <==> entries_contain_path(o.entries, q) && !update_clears_path(o, rem, u, q))
    &&& forall|q: Seq<Seq<u8>>|
        !u_path_among(u, u.len() as int, q) && entries_contain_path(f.entries, q)
            ==> #[trigger] entry_at(f.entries, q) == entry_at(o.entries, q)
    &&& forall|k: u64| u_id_among(u, u.len() as int, k) ==> #[trigger] ids_contain(f.by_id, k)
    &&& forall|k: u64|
        u_id_among(u, u.len() as int, k) ==> #[trigger] id_at(f.by_id, k) == (PathEntryV {
            id: k,
            path: u_entry_with_id(u, u.len() as int, k).path,
            is_ignored: u_entry_with_id(u, u.len() as int, k).is_ignored,
            scan_id: 0,
        })
    &&& forall|k: u64|
        !u_id_among(u, u.len() as int, k) ==> (#[trigger] ids_contain(f.by_id, k) <==> ids_contain(
            o.by_id,
            k,
        ) && !id_among(rem, rem.len() as int, k) && !update_evicts_id(o, rem, u, k))
    &&& forall|k: u64|
        !u_id_among(u, u.len() as int, k) && ids_contain(f.by_id, k) ==> #[trigger] id_at(
            f.by_id,
            k,
        ) == id_at(o.by_id, k)
}

/// Updated paths in the applied state hold exactly the target's entries.
#[verifier::rlimit(100)]
proof fn lemma_rt_updated_paths(
    o: SnapshotV,
    t: SnapshotV,
    f: SnapshotV,
    u: Seq<WireEntryV>,
    rem: Seq<u64>,
    av: Seq<Seq<Seq<u8>>>,
)
    requires
        snapshot_indices_valid(t),
        snapshot_wire_faithful(t, av),
        u_distinct(u),
        forall|s: int|
            0 <= s < u.len() ==> entry_changed(o, t, #[trigger] u[s].path) && u[s]
                == spec_wire_of_entry(entry_at(t.entries, u[s].path)),
        forall|q: Seq<Seq<u8>>|
            u_path_among(u, u.len() as int, q) ==> #[trigger] entries_contain_path(f.entries, q),
        forall|q: Seq<Seq<u8>>|
            u_path_among(u, u.len() as int, q) ==> #[trigger] entry_at(f.entries, q)
                == spec_entry_of_wire(u_entry_with_path(u, u.len() as int, q), av),
    ensures
        forall|q: Seq<Seq<u8>>|
            u_path_among(u, u.len() as int, q) ==> #[trigger] entries_contain_path(f.entries, q),
        forall|q: Seq<Seq<u8>>|
            u_path_among(u, u.len() as int, q) ==> #[trigger] entries_contain_path(t.entries, q),
        forall|q: Seq<Seq<u8>>|
            u_path_among(u, u.len() as int, q) ==> #[trigger] entry_at(f.entries, q) == entry_at(
                t.entries,
                q,
            ),
{
    let ghost l = u.len() as int;
    // Updated paths hold exactly the target's entries.
    assert forall|q: Seq<Seq<u8>>| u_path_among(u, l, q) implies #[trigger] entries_contain_path(
        f.entries,
        q,
    ) && entries_contain_path(t.entries, q) && entry_at(f.entries, q) == entry_at(
        t.entries,
        q,
    ) by {
        let s = choose|s: int| 0 <= s < l && #[trigger] u[s].path =~~= q;
        assert(entry_changed(o, t, u[s].path));
        assert(entries_contain_path(t.entries, q));
        let w = choose|w: int| 0 <= w < t.entries.len() && #[trigger] t.entries[w].path =~~= q;
        lemma_unique_entry(t.entries, q, w);
        let e = entry_at(t.entries, q);
        assert(e == t.entries[w]);
        assert(e.kind is Dir || e.kind is File);
        assert(!e.is_private);
        assert(e.is_always_included == spec_matches_always(av, e.path));
        lemma_entry_wire_identity(e, av);
        assert(u_entry_with_path(u, l, q) == u[s]) by {
            let w2 = choose|w2: int| 0 <= w2 < l && #[trigger] u[w2].path =~~= q;
            if w2 != s {
                if w2 < s {
                    assert(!(u[w2].path =~~= u[s].path));
                } else {
                    assert(!(u[s].path =~~= u[w2].path));
                }
            }
        }
        assert(u[s] == spec_wire_of_entry(entry_at(t.entries, u[s].path)));
        assert(entry_at(t.entries, u[s].path) == e);
        assert(entry_at(f.entries, q) == spec_entry_of_wire(spec_wire_of_entry(e), av));
        assert(entry_at(f.entries, q) == e);
    }

    assert forall|q: Seq<Seq<u8>>| u_path_among(u, l, q) implies #[trigger] entries_contain_path(
        t.entries,
        q,
    ) by {
        assert(entries_contain_path(f.entries, q));
    }
    assert forall|q: Seq<Seq<u8>>| u_path_among(u, l, q) implies #[trigger] entry_at(
        f.entries,
        q,
    ) == entry_at(t.entries, q) by {
        assert(entries_contain_path(f.entries, q));
    }

}

/// Paths outside the update agree between the applied state and the
/// target.
#[verifier::rlimit(100)]
proof fn lemma_rt_unchanged_paths(
    o: SnapshotV,
    t: SnapshotV,
    f: SnapshotV,
    u: Seq<WireEntryV>,
    rem: Seq<u64>,
    av: Seq<Seq<Seq<u8>>>,
)
    requires
        snapshot_indices_valid(o),
        snapshot_indices_valid(t),
        forall|s: int|
            0 <= s < u.len() ==> entry_changed(o, t, #[trigger] u[s].path) && u[s]
                == spec_wire_of_entry(entry_at(t.entries, u[s].path)),
        forall|q: Seq<Seq<u8>>|
            entry_changed(o, t, q) ==> #[trigger] u_path_among(u, u.len() as int, q),
        forall|k: u64|
            #[trigger] id_among(rem, rem.len() as int, k) <==> (entry_vanished(o, t, k)
                && !u_id_among(u, u.len() as int, k)),
        forall|q: Seq<Seq<u8>>|
            !u_path_among(u, u.len() as int, q) ==> (#[trigger] entries_contain_path(f.entries, q)
                <==> entries_contain_path(o.entries, q) && !update_clears_path(o, rem, u, q)),
    ensures
        forall|q: Seq<Seq<u8>>|
            !u_path_among(u, u.len() as int, q) ==> (#[trigger] entries_contain_path(f.entries, q)
                <==> entries_contain_path(t.entries, q)),
{
    let ghost l = u.len() as int;
    // Unchanged paths agree between the final and target trees.
    assert forall|q: Seq<Seq<u8>>| !u_path_among(u, l, q) implies (#[trigger] entries_contain_path(
        f.entries,
        q,
    ) <==> entries_contain_path(t.entries, q)) by {
        if entries_contain_path(t.entries, q) {
            // An unchanged target path already stood in the base.
            assert(!entry_changed(o, t, q)) by {
                if entry_changed(o, t, q) {
                    assert(u_path_among(u, l, q));
                }
            }
            assert(entries_contain_path(o.entries, q));
            assert(entry_at(o.entries, q) == entry_at(t.entries, q));
            assert(!update_clears_path(o, rem, u, q)) by {
                if update_clears_path(o, rem, u, q) {
                    let k = choose|k: u64|
                        #[trigger] update_clears_id(rem, u, k) && ids_contain(o.by_id, k)
                            && id_at(o.by_id, k).path =~~= q;
                    assert(entry_at(o.entries, q).id == k) by {
                        let w = choose|w: int|
                            0 <= w < o.by_id.len() && #[trigger] o.by_id[w].id == k;
                        lemma_unique_id(o.by_id, k, w);
                        assert(entries_contain_path(o.entries, o.by_id[w].path) && entry_at(
                            o.entries,
                            o.by_id[w].path,
                        ).id == o.by_id[w].id);
                    }
                    assert(entry_at(t.entries, q).id == k);
                    if u_id_among(u, l, k) {
                        let s = choose|s: int| 0 <= s < l && #[trigger] u[s].id == k;
                        let p2 = u[s].path;
                        assert(u[s] == spec_wire_of_entry(entry_at(t.entries, p2)));
                        assert(entry_at(t.entries, p2).id == k);
                        // Two target paths with the same id coincide.
                        let wq = choose|w: int|
                            0 <= w < t.entries.len() && #[trigger] t.entries[w].path =~~= q;
                        lemma_unique_entry(t.entries, q, wq);
                        assert(entries_contain_path(t.entries, p2));
                        let wp = choose|w: int|
                            0 <= w < t.entries.len() && #[trigger] t.entries[w].path =~~= p2;
                        lemma_unique_entry(t.entries, p2, wp);
                        assert(ids_contain(t.by_id, k) && id_at(t.by_id, k).path
                            =~~= t.entries[wq].path);
                        assert(id_at(t.by_id, k).path =~~= t.entries[wp].path);
                        assert(q =~~= p2);
                        assert(u_path_among(u, l, q));
                        assert(false);
                    } else {
                        assert(id_among(rem, rem.len() as int, k));
                        assert(entry_vanished(o, t, k));
                        assert(id_at(o.by_id, k).path =~~= q);
                        assert(entries_contain_path(t.entries, q) && entry_at(t.entries, q).id
                            == k);
                        assert(false);
                    }
                }
            }
            assert(entries_contain_path(f.entries, q));
        }
        if entries_contain_path(f.entries, q) {
            assert(entries_contain_path(o.entries, q) && !update_clears_path(o, rem, u, q));
            if !entries_contain_path(t.entries, q) {
                // The base entry at q vanished, so its id was cleared.
                let k = entry_at(o.entries, q).id;
                assert(ids_contain(o.by_id, k) && id_at(o.by_id, k).path =~~= q) by {
                    let w = choose|w: int|
                        0 <= w < o.entries.len() && #[trigger] o.entries[w].path =~~= q;
                    lemma_unique_entry(o.entries, q, w);
                    assert(ids_contain(o.by_id, o.entries[w].id) && id_at(
                        o.by_id,
                        o.entries[w].id,
                    ).path =~~= o.entries[w].path);
                }
                assert(entry_vanished(o, t, k));
                if u_id_among(u, l, k) {
                    assert(update_clears_id(rem, u, k));
                    assert(update_clears_path(o, rem, u, q));
                    assert(false);
                } else {
                    assert(id_among(rem, rem.len() as int, k));
                    assert(update_clears_id(rem, u, k));
                    assert(update_clears_path(o, rem, u, q));
                    assert(false);
                }
            }
        }
    }
}

/// Values at paths outside the update agree between the applied state and
/// the target.
#[verifier::rlimit(100)]
proof fn lemma_rt_unchanged_values(
    o: SnapshotV,
    t: SnapshotV,
    f: SnapshotV,
    u: Seq<WireEntryV>,
    rem: Seq<u64>,
    av: Seq<Seq<Seq<u8>>>,
)
    requires
        snapshot_indices_valid(o),
        snapshot_indices_valid(t),
        forall|s: int|
            0 <= s < u.len() ==> entry_changed(o, t, #[trigger] u[s].path) && u[s]
                == spec_wire_of_entry(entry_at(t.entries, u[s].path)),
        forall|q: Seq<Seq<u8>>|
            entry_changed(o, t, q) ==> #[trigger] u_path_among(u, u.len() as int, q),
        forall|q: Seq<Seq<u8>>|
            !u_path_among(u, u.len() as int, q) ==> (#[trigger] entries_contain_path(f.entries, q)
                <==> entries_contain_path(o.entries, q) && !update_clears_path(o, rem, u, q)),
        forall|k: u64|
            #[trigger] id_among(rem, rem.len() as int, k) <==> (entry_vanished(o, t, k)
                && !u_id_among(u, u.len() as int, k)),
        forall|q: Seq<Seq<u8>>|
            !u_path_among(u, u.len() as int, q) && entries_contain_path(f.entries, q)
                ==> #[trigger] entry_at(f.entries, q) == entry_at(o.entries, q),
    ensures
        forall|q: Seq<Seq<u8>>|
            !u_path_among(u, u.len() as int, q) && entries_contain_path(f.entries, q)
                ==> #[trigger] entry_at(f.entries, q) == entry_at(t.entries, q),
{
    let ghost l = u.len() as int;
    assert forall|q: Seq<Seq<u8>>|
        !u_path_among(u, l, q) && entries_contain_path(f.entries, q) implies #[trigger] entry_at(
        f.entries,
        q,
    ) == entry_at(t.entries, q) by {
        assert(entries_contain_path(o.entries, q) && !update_clears_path(o, rem, u, q));
        assert(!entry_changed(o, t, q)) by {
            if entry_changed(o, t, q) {
                assert(u_path_among(u, l, q));
            }
        }
        assert(entries_contain_path(t.entries, q)) by {
            if !entries_contain_path(t.entries, q) {
                let k = entry_at(o.entries, q).id;
                assert(ids_contain(o.by_id, k) && id_at(o.by_id, k).path =~~= q) by {
                    let w = choose|w: int|
                        0 <= w < o.entries.len() && #[trigger] o.entries[w].path =~~= q;
                    lemma_unique_entry(o.entries, q, w);
                    assert(ids_contain(o.by_id, o.entries[w].id) && id_at(
                        o.by_id,
                        o.entries[w].id,
                    ).path =~~= o.entries[w].path);
                }
                assert(entry_vanished(o, t, k));
                if u_id_among(u, l, k) {
                    assert(update_clears_id(rem, u, k));
                    assert(update_clears_path(o, rem, u, q));
                } else {
                    assert(id_among(rem, rem.len() as int, k));
                    assert(update_clears_id(rem, u, k));
                    assert(update_clears_path(o, rem, u, q));
                }
                assert(false);
            }
        }
        assert(entry_at(f.entries, q) == entry_at(o.entries, q));
        assert(entry_at(o.entries, q) == entry_at(t.entries, q));
    }
}

/// Updated ids in the applied state hold exactly the target's identity
/// rows.
#[verifier::rlimit(100)]
proof fn lemma_rt_updated_ids(
    o: SnapshotV,
    t: SnapshotV,
    f: SnapshotV,
    u: Seq<WireEntryV>,
    rem: Seq<u64>,
    av: Seq<Seq<Seq<u8>>>,
)
    requires
        snapshot_indices_valid(t),
        snapshot_wire_faithful(t, av),
        u_distinct(u),
        forall|s: int|
            0 <= s < u.len() ==> entry_changed(o, t, #[trigger] u[s].path) && u[s]
                == spec_wire_of_entry(entry_at(t.entries, u[s].path)),
        forall|k: u64| u_id_among(u, u.len() as int, k) ==> #[trigger] ids_contain(f.by_id, k),
        forall|k: u64|
            u_id_among(u, u.len() as int, k) ==> #[trigger] id_at(f.by_id, k) == (PathEntryV {
                id: k,
                path: u_entry_with_id(u, u.len() as int, k).path,
                is_ignored: u_entry_with_id(u, u.len() as int, k).is_ignored,
                scan_id: 0,
            }),
    ensures
        forall|k: u64| u_id_among(u, u.len() as int, k) ==> #[trigger] ids_contain(f.by_id, k),
        forall|k: u64| u_id_among(u, u.len() as int, k) ==> #[trigger] ids_contain(t.by_id, k),
        forall|k: u64|
            u_id_among(u, u.len() as int, k) ==> #[trigger] id_at(f.by_id, k) == id_at(
                t.by_id,
                k,
            ),
{
    let ghost l = u.len() as int;
    // Identity rows: updated ids hold the target's rows.
    assert forall|k: u64| u_id_among(u, l, k) implies #[trigger] ids_contain(f.by_id, k)
        && ids_contain(t.by_id, k) && id_at(f.by_id, k) == id_at(t.by_id, k) by {
        let s = choose|s: int| 0 <= s < l && #[trigger] u[s].id == k;
        assert(u_entry_with_id(u, l, k) == u[s]) by {
            let w2 = choose|w2: int| 0 <= w2 < l && #[trigger] u[w2].id == k;
            if w2 != s {
                if w2 < s {
                    assert(u[w2].id != u[s].id);
                } else {
                    assert(u[s].id != u[w2].id);
                }
            }
        }
        let p = u[s].path;
        assert(entry_changed(o, t, p));
        assert(entries_contain_path(t.entries, p));
        let w = choose|w: int| 0 <= w < t.entries.len() && #[trigger] t.entries[w].path =~~= p;
        lemma_unique_entry(t.entries, p, w);
        assert(u[s] == spec_wire_of_entry(entry_at(t.entries, p)));
        assert(t.entries[w].id == k);
        assert(ids_contain(t.by_id, k) && id_at(t.by_id, k).path =~~= t.entries[w].path);
        let wy = choose|wy: int| 0 <= wy < t.by_id.len() && #[trigger] t.by_id[wy].id == k;
        lemma_unique_id(t.by_id, k, wy);
        lemma_faithful_row(t, av, wy);
        assert(t.by_id[wy].scan_id == 0 && t.by_id[wy].is_ignored == entry_at(
            t.entries,
            t.by_id[wy].path,
        ).is_ignored);
        assert(id_at(t.by_id, k).path =~~= p);
        assert(entry_at(t.entries, id_at(t.by_id, k).path) == entry_at(t.entries, p));
        assert(id_at(t.by_id, k) == (PathEntryV {
            id: k,
            path: u[s].path,
            is_ignored: u[s].is_ignored,
            scan_id: 0,
        })) by {
            assert(u[s].is_ignored == entry_at(t.entries, p).is_ignored);
            assert(t.by_id[wy].path == p);
        }
        assert(id_at(f.by_id, k) == (PathEntryV {
            id: k,
            path: u[s].path,
            is_ignored: u[s].is_ignored,
            scan_id: 0,
        }));
    }

    assert forall|k: u64| u_id_among(u, l, k) implies #[trigger] ids_contain(t.by_id, k) by {
        assert(ids_contain(f.by_id, k));
    }
    assert forall|k: u64| u_id_among(u, l, k) implies #[trigger] id_at(f.by_id, k) == id_at(
        t.by_id,
        k,
    ) by {
        assert(ids_contain(f.by_id, k));
    }

}

/// Ids outside the update agree between the applied state and the target.
#[verifier::rlimit(100)]
proof fn lemma_rt_unchanged_ids(
    o: SnapshotV,
    t: SnapshotV,
    f: SnapshotV,
    u: Seq<WireEntryV>,
    rem: Seq<u64>,
    av: Seq<Seq<Seq<u8>>>,
)
    requires
        snapshot_indices_valid(o),
        snapshot_indices_valid(t),
        forall|s: int|
            0 <= s < u.len() ==> entry_changed(o, t, #[trigger] u[s].path) && u[s]
                == spec_wire_of_entry(entry_at(t.entries, u[s].path)),
        forall|q: Seq<Seq<u8>>|
            entry_changed(o, t, q) ==> #[trigger] u_path_among(u, u.len() as int, q),
        forall|k: u64|
            #[trigger] id_among(rem, rem.len() as int, k) <==> (entry_vanished(o, t, k)
                && !u_id_among(u, u.len() as int, k)),
        forall|k: u64|
            !u_id_among(u, u.len() as int, k) ==> (#[trigger] ids_contain(f.by_id, k)
                <==> ids_contain(o.by_id, k) && !id_among(rem, rem.len() as int, k)
                && !update_evicts_id(o, rem, u, k)),
    ensures
        forall|k: u64|
            !u_id_among(u, u.len() as int, k) ==> (#[trigger] ids_contain(f.by_id, k)
                <==> ids_contain(t.by_id, k)),
{
    let ghost l = u.len() as int;
    // Identity rows: the rest agree between final and target.
    assert forall|k: u64| !u_id_among(u, l, k) implies (#[trigger] ids_contain(f.by_id, k)
        <==> ids_contain(t.by_id, k)) by {
        if ids_contain(t.by_id, k) {
            let wy = choose|wy: int| 0 <= wy < t.by_id.len() && #[trigger] t.by_id[wy].id == k;
            lemma_unique_id(t.by_id, k, wy);
            let p = t.by_id[wy].path;
            assert(entries_contain_path(t.entries, p) && entry_at(t.entries, p).id == k);
            assert(!entry_changed(o, t, p)) by {
                if entry_changed(o, t, p) {
                    assert(u_path_among(u, l, p));
                    let s = choose|s: int| 0 <= s < l && #[trigger] u[s].path =~~= p;
                    assert(u[s] == spec_wire_of_entry(entry_at(t.entries, u[s].path)));
                    assert(u[s].id == entry_at(t.entries, p).id);
                    assert(u_id_among(u, l, k));
                    assert(false);
                }
            }
            assert(entries_contain_path(o.entries, p) && entry_at(o.entries, p) == entry_at(
                t.entries,
                p,
            ));
            assert(ids_contain(o.by_id, k) && id_at(o.by_id, k).path =~~= p) by {
                let w = choose|w: int|
                    0 <= w < o.entries.len() && #[trigger] o.entries[w].path =~~= p;
                lemma_unique_entry(o.entries, p, w);
                assert(o.entries[w].id == k);
                assert(ids_contain(o.by_id, o.entries[w].id) && id_at(
                    o.by_id,
                    o.entries[w].id,
                ).path =~~= o.entries[w].path);
            }
            assert(!id_among(rem, rem.len() as int, k)) by {
                if id_among(rem, rem.len() as int, k) {
                    assert(entry_vanished(o, t, k));
                    assert(id_at(o.by_id, k).path =~~= p);
                    assert(false);
                }
            }
            assert(!update_evicts_id(o, rem, u, k)) by {
                if update_evicts_id(o, rem, u, k) {
                    let s = choose|s: int|
                        0 <= s < u.len() && entries_contain_path(
                            o.entries,
                            #[trigger] u[s].path,
                        ) && !update_clears_path(o, rem, u, u[s].path) && entry_at(
                            o.entries,
                            u[s].path,
                        ).id == k;
                    // The occupant's path is this id's base path.
                    let w = choose|w: int|
                        0 <= w < o.entries.len() && #[trigger] o.entries[w].path =~~= u[s].path;
                    lemma_unique_entry(o.entries, u[s].path, w);
                    assert(o.entries[w].id == k);
                    assert(ids_contain(o.by_id, o.entries[w].id) && id_at(
                        o.by_id,
                        o.entries[w].id,
                    ).path =~~= o.entries[w].path);
                    assert(id_at(o.by_id, k).path =~~= u[s].path);
                    assert(p =~~= u[s].path);
                    assert(entry_changed(o, t, u[s].path));
                    assert(entry_changed(o, t, p));
                    assert(false);
                }
            }
            assert(ids_contain(f.by_id, k));
        }
        if ids_contain(f.by_id, k) {
            assert(ids_contain(o.by_id, k) && !id_among(rem, rem.len() as int, k)
                && !update_evicts_id(o, rem, u, k));
            if !ids_contain(t.by_id, k) {
                assert(entry_vanished(o, t, k)) by {
                    let p = id_at(o.by_id, k).path;
                    if entries_contain_path(t.entries, p) && entry_at(t.entries, p).id == k {
                        let w = choose|w: int|
                            0 <= w < t.entries.len() && #[trigger] t.entries[w].path =~~= p;
                        lemma_unique_entry(t.entries, p, w);
                        assert(ids_contain(t.by_id, t.entries[w].id));
                        assert(false);
                    }
                }
                assert(id_among(rem, rem.len() as int, k));
                assert(false);
            }
        }
    }
}

/// Rows of ids outside the update agree between the applied state and the
/// target.
#[verifier::rlimit(100)]
proof fn lemma_rt_unchanged_rows(
    o: SnapshotV,
    t: SnapshotV,
    f: SnapshotV,
    u: Seq<WireEntryV>,
    rem: Seq<u64>,
    av: Seq<Seq<Seq<u8>>>,
)
    requires
        snapshot_indices_valid(o),
        snapshot_indices_valid(t),
        snapshot_wire_faithful(o, av),
        snapshot_wire_faithful(t, av),
        forall|s: int|
            0 <= s < u.len() ==> entry_changed(o, t, #[trigger] u[s].path) && u[s]
                == spec_wire_of_entry(entry_at(t.entries, u[s].path)),
        forall|q: Seq<Seq<u8>>|
            entry_changed(o, t, q) ==> #[trigger] u_path_among(u, u.len() as int, q),
        forall|k: u64|
            !u_id_among(u, u.len() as int, k) ==> (#[trigger] ids_contain(f.by_id, k)
                <==> ids_contain(o.by_id, k) && !id_among(rem, rem.len() as int, k)
                && !update_evicts_id(o, rem, u, k)),
        forall|k: u64|
            !u_id_among(u, u.len() as int, k) && ids_contain(f.by_id, k) ==> #[trigger] id_at(
                f.by_id,
                k,
            ) == id_at(o.by_id, k),
        forall|k: u64|
            !u_id_among(u, u.len() as int, k) ==> (#[trigger] ids_contain(f.by_id, k)
                <==> ids_contain(t.by_id, k)),
    ensures
        forall|k: u64|
            !u_id_among(u, u.len() as int, k) && ids_contain(f.by_id, k) ==> #[trigger] id_at(
                f.by_id,
                k,
            ) == id_at(t.by_id, k),
{
    let ghost l = u.len() as int;
    assert forall|k: u64|
        !u_id_among(u, l, k) && ids_contain(f.by_id, k) implies #[trigger] id_at(f.by_id, k)
        == id_at(t.by_id, k) by {
        assert(ids_contain(t.by_id, k));
        let wy = choose|wy: int| 0 <= wy < t.by_id.len() && #[trigger] t.by_id[wy].id == k;
        lemma_unique_id(t.by_id, k, wy);
        let p = t.by_id[wy].path;
        assert(entries_contain_path(t.entries, p) && entry_at(t.entries, p).id == k);
        assert(!entry_changed(o, t, p)) by {
            if entry_changed(o, t, p) {
                assert(u_path_among(u, l, p));
                let s = choose|s: int| 0 <= s < l && #[trigger] u[s].path =~~= p;
                assert(u[s] == spec_wire_of_entry(entry_at(t.entries, u[s].path)));
                assert(u[s].id == entry_at(t.entries, p).id);
                assert(u_id_among(u, l, k));
                assert(false);
            }
        }
        assert(entries_contain_path(o.entries, p) && entry_at(o.entries, p) == entry_at(
            t.entries,
            p,
        ));
        assert(ids_contain(o.by_id, k) && id_at(o.by_id, k).path =~~= p) by {
            let w = choose|w: int| 0 <= w < o.entries.len() && #[trigger] o.entries[w].path =~~= p;
            lemma_unique_entry(o.entries, p, w);
            assert(o.entries[w].id == k);
            assert(ids_contain(o.by_id, o.entries[w].id) && id_at(
                o.by_id,
                o.entries[w].id,
            ).path =~~= o.entries[w].path);
        }
        assert(id_at(f.by_id, k) == id_at(o.by_id, k));
        // Both rows carry this id at the same path with generation zero.
        let wo = choose|wo: int| 0 <= wo < o.by_id.len() && #[trigger] o.by_id[wo].id == k;
        lemma_unique_id(o.by_id, k, wo);
        lemma_faithful_row(o, av, wo);
        lemma_faithful_row(t, av, wy);
        assert(o.by_id[wo].scan_id == 0 && o.by_id[wo].is_ignored == entry_at(
            o.entries,
            o.by_id[wo].path,
        ).is_ignored);
        assert(t.by_id[wy].scan_id == 0 && t.by_id[wy].is_ignored == entry_at(
            t.entries,
            t.by_id[wy].path,
        ).is_ignored);
        assert(o.by_id[wo].path == p && t.by_id[wy].path == p);
        assert(entry_at(o.entries, p).is_ignored == entry_at(t.entries, p).is_ignored);
        assert(id_at(o.by_id, k) == id_at(t.by_id, k));
    }
}

/// Joins the six pointwise agreements into equality of the two
/// representations.
#[verifier::rlimit(100)]
proof fn lemma_rt_assemble(
    t: SnapshotV,
    f: SnapshotV,
    u: Seq<WireEntryV>,
)
    requires
        entries_sorted(t.entries),
        entries_sorted(f.entries),
        ids_sorted(t.by_id),
        ids_sorted(f.by_id),
        forall|q: Seq<Seq<u8>>|
            u_path_among(u, u.len() as int, q) ==> #[trigger] entries_contain_path(f.entries, q),
        forall|q: Seq<Seq<u8>>|
            u_path_among(u, u.len() as int, q) ==> #[trigger] entries_contain_path(t.entries, q),
        forall|q: Seq<Seq<u8>>|
            u_path_among(u, u.len() as int, q) ==> #[trigger] entry_at(f.entries, q) == entry_at(
                t.entries,
                q,
            ),
        forall|q: Seq<Seq<u8>>|
            !u_path_among(u, u.len() as int, q) ==> (#[trigger] entries_contain_path(f.entries, q)
                <==> entries_contain_path(t.entries, q)),
        forall|q: Seq<Seq<u8>>|
            !u_path_among(u, u.len() as int, q) && entries_contain_path(f.entries, q)
                ==> #[trigger] entry_at(f.entries, q) == entry_at(t.entries, q),
        forall|k: u64| u_id_among(u, u.len() as int, k) ==> #[trigger] ids_contain(f.by_id, k),
        forall|k: u64| u_id_among(u, u.len() as int, k) ==> #[trigger] ids_contain(t.by_id, k),
        forall|k: u64|
            u_id_among(u, u.len() as int, k) ==> #[trigger] id_at(f.by_id, k) == id_at(
                t.by_id,
                k,
            ),
        forall|k: u64|
            !u_id_among(u, u.len() as int, k) ==> (#[trigger] ids_contain(f.by_id, k)
                <==> ids_contain(t.by_id, k)),
        forall|k: u64|
            !u_id_among(u, u.len() as int, k) && ids_contain(f.by_id, k) ==> #[trigger] id_at(
                f.by_id,
                k,
            ) == id_at(t.by_id, k),
    ensures
        f.entries =~= t.entries,
        f.by_id =~= t.by_id,
{
    let ghost l = u.len() as int;
    assert forall|q: Seq<Seq<u8>>| #[trigger] entries_contain_path(f.entries, q)
        <==> entries_contain_path(t.entries, q) by {
        if u_path_among(u, l, q) {
        }
    }
    assert forall|q: Seq<Seq<u8>>| entries_contain_path(f.entries, q) implies #[trigger] entry_at(
        f.entries,
        q,
    ) == entry_at(t.entries, q) by {
        if u_path_among(u, l, q) {
        }
    }
    lemma_entries_canonical(f.entries, t.entries);
    assert forall|k: u64| #[trigger] ids_contain(f.by_id, k) <==> ids_contain(t.by_id, k) by {
        if u_id_among(u, l, k) {
        }
    }
    assert forall|k: u64| ids_contain(f.by_id, k) implies #[trigger] id_at(f.by_id, k) == id_at(
        t.by_id,
        k,
    ) by {
        if u_id_among(u, l, k) {
        }
    }
    lemma_ids_canonical(f.by_id, t.by_id);
}

/// Round trip of the replication protocol: a delta built from a base
/// mirror and a target snapshot, applied back to that base, leaves
/// exactly the target's path tree and identity index. Both sides must be
/// in wire-faithful form, as every remotely maintained mirror is.
#[verifier::rlimit(100)]
pub proof fn lemma_update_round_trip(
    o: SnapshotV,
    t: SnapshotV,
    f: SnapshotV,
    u: Seq<WireEntryV>,
    rem: Seq<u64>,
    av: Seq<Seq<Seq<u8>>>,
)
    requires
        snapshot_indices_valid(o),
        snapshot_indices_valid(t),
        entries_sorted(f.entries),
        ids_sorted(f.by_id),
        snapshot_wire_faithful(o, av),
        snapshot_wire_faithful(t, av),
        delta_describes(o, t, u, rem),
        apply_describes(o, f, u, rem, av),
    ensures
        f.entries =~= t.entries,
        f.by_id =~= t.by_id,
{
    lemma_rt_updated_paths(o, t, f, u, rem, av);
    lemma_rt_unchanged_paths(o, t, f, u, rem, av);
    lemma_rt_unchanged_values(o, t, f, u, rem, av);
    lemma_rt_updated_ids(o, t, f, u, rem, av);
    lemma_rt_unchanged_ids(o, t, f, u, rem, av);
    lemma_rt_unchanged_rows(o, t, f, u, rem, av);
    lemma_rt_assemble(t, f, u);
}


/// In a sorted status list, dropping the first element keeps every
/// other path with its status.
proof fn lemma_statuses_skip(s: Seq<crate::status::StatusEntryV>)
    requires
        crate::repository::statuses_sorted(s),
        s.len() > 0,
    ensures
        crate::repository::statuses_sorted(s.skip(1)),
        forall|q: Seq<Seq<u8>>|
            #[trigger] crate::repository::statuses_contain_path(s.skip(1), q) <==> (
            crate::repository::statuses_contain_path(s, q) && !(q =~~= s[0].repo_path)),
        forall|q: Seq<Seq<u8>>|
            crate::repository::statuses_contain_path(s.skip(1), q)
                ==> #[trigger] crate::repository::status_at(s.skip(1), q)
                == crate::repository::status_at(s, q),
{
    let s1 = s.skip(1);
    assert(forall|j: int| 0 <= j < s1.len() ==> s1[j] == s[j + 1]);
    assert forall|a: int, b: int| 0 <= a < b < s1.len() implies path_lt(
        #[trigger] s1[a].repo_path,
        #[trigger] s1[b].repo_path,
    ) by {
        assert(path_lt(s[a + 1].repo_path, s[b + 1].repo_path));
    }
    crate::repository::lemma_unique_status(s, s[0].repo_path, 0);
    assert forall|q: Seq<Seq<u8>>| #[trigger] crate::repository::statuses_contain_path(
        s1,
        q,
    ) implies (crate::repository::statuses_contain_path(s, q) && !(q =~~= s[0].repo_path)) by {
        let w = choose|w: int| 0 <= w < s1.len() && #[trigger] s1[w].repo_path =~~= q;
        assert(s[w + 1].repo_path =~~= q);
        if q =~~= s[0].repo_path {
            assert(s[w + 1].repo_path =~~= s[0].repo_path);
        }
    }
    assert forall|q: Seq<Seq<u8>>|
        crate::repository::statuses_contain_path(s, q) && !(q =~~= s[0].repo_path) implies
        #[trigger] crate::repository::statuses_contain_path(s1, q) by {
        let w = choose|w: int| 0 <= w < s.len() && #[trigger] s[w].repo_path =~~= q;
        assert(w != 0);
        assert(s1[w - 1].repo_path =~~= q);
    }
    assert forall|q: Seq<Seq<u8>>| crate::repository::statuses_contain_path(s1, q) implies
        #[trigger] crate::repository::status_at(s1, q) == crate::repository::status_at(
        s,
        q,
    ) by {
        let w = choose|w: int| 0 <= w < s1.len() && #[trigger] s1[w].repo_path =~~= q;
        crate::repository::lemma_unique_status(s1, q, w);
        assert(s[w + 1].repo_path =~~= q);
        crate::repository::lemma_unique_status(s, q, w + 1);
    }
}

/// Two sorted status lists holding the same paths with the same statuses
/// are the same list.
pub proof fn lemma_statuses_canonical(
    s1: Seq<crate::status::StatusEntryV>,
    s2: Seq<crate::status::StatusEntryV>,
)
    requires
        crate::repository::statuses_sorted(s1),
        crate::repository::statuses_sorted(s2),
        forall|q: Seq<Seq<u8>>|
            #[trigger] crate::repository::statuses_contain_path(s1, q)
                <==> crate::repository::statuses_contain_path(s2, q),
        forall|q: Seq<Seq<u8>>|
            crate::repository::statuses_contain_path(s1, q)
                ==> #[trigger] crate::repository::status_at(s1, q)
                == crate::repository::status_at(s2, q),
    ensures
        s1 =~~= s2,
    decreases s1.len(),
{
    if s1.len() == 0 {
        if s2.len() > 0 {
            assert(crate::repository::statuses_contain_path(s2, s2[0].repo_path));
            assert(crate::repository::statuses_contain_path(s1, s2[0].repo_path));
            let w = choose|w: int|
                0 <= w < s1.len() && #[trigger] s1[w].repo_path =~~= s2[0].repo_path;
            assert(false);
        }
        assert(s1 =~~= s2);
    } else {
        assert(crate::repository::statuses_contain_path(s1, s1[0].repo_path));
        assert(crate::repository::statuses_contain_path(s2, s1[0].repo_path));
        assert(s2.len() > 0) by {
            let w = choose|w: int|
                0 <= w < s2.len() && #[trigger] s2[w].repo_path =~~= s1[0].repo_path;
        }
        let w2 = choose|w: int|
            0 <= w < s2.len() && #[trigger] s2[w].repo_path =~~= s1[0].repo_path;
        if w2 != 0 {
            assert(path_lt(s2[0].repo_path, s2[w2].repo_path));
            assert(crate::repository::statuses_contain_path(s2, s2[0].repo_path));
            assert(crate::repository::statuses_contain_path(s1, s2[0].repo_path));
            let w1 = choose|w: int|
                0 <= w < s1.len() && #[trigger] s1[w].repo_path =~~= s2[0].repo_path;
            if w1 != 0 {
                assert(path_lt(s1[0].repo_path, s1[w1].repo_path));
                lemma_path_lt_trans(s1[0].repo_path, s2[0].repo_path, s1[0].repo_path);
                lemma_path_lt_trichotomy(s1[0].repo_path, s1[0].repo_path);
            } else {
                lemma_path_lt_trichotomy(s2[0].repo_path, s1[0].repo_path);
            }
            assert(false);
        }
        assert(s2[0].repo_path =~~= s1[0].repo_path);
        crate::repository::lemma_unique_status(s1, s1[0].repo_path, 0);
        crate::repository::lemma_unique_status(s2, s1[0].repo_path, 0);
        assert(s1[0].status == s2[0].status);
        assert(s1[0] =~~= s2[0]);
        lemma_statuses_skip(s1);
        lemma_statuses_skip(s2);
        assert forall|q: Seq<Seq<u8>>| #[trigger] crate::repository::statuses_contain_path(
            s1.skip(1),
            q,
        ) <==> crate::repository::statuses_contain_path(s2.skip(1), q) by {
            if crate::repository::statuses_contain_path(s1.skip(1), q) {
                assert(crate::repository::statuses_contain_path(s1, q) && !(q
                    =~~= s1[0].repo_path));
                assert(crate::repository::statuses_contain_path(s2, q));
            }
            if crate::repository::statuses_contain_path(s2.skip(1), q) {
                assert(crate::repository::statuses_contain_path(s2, q) && !(q
                    =~~= s2[0].repo_path));
                assert(crate::repository::statuses_contain_path(s1, q));
            }
        }
        assert forall|q: Seq<Seq<u8>>|
            crate::repository::statuses_contain_path(s1.skip(1), q) implies
            #[trigger] crate::repository::status_at(s1.skip(1), q)
            == crate::repository::status_at(s2.skip(1), q) by {
            assert(crate::repository::statuses_contain_path(s1, q));
            assert(crate::repository::status_at(s1.skip(1), q)
                == crate::repository::status_at(s1, q));
            assert(crate::repository::statuses_contain_path(s2.skip(1), q));
            assert(crate::repository::status_at(s2.skip(1), q)
                == crate::repository::status_at(s2, q));
        }
        lemma_statuses_canonical(s1.skip(1), s2.skip(1));
        assert forall|i: int| 0 <= i < s1.len() implies s1[i] =~~= s2[i] by {
            if i > 0 {
                assert(s1.skip(1)[i - 1] =~~= s2.skip(1)[i - 1]);
            }
        }
        assert(s1 =~~= s2);
    }
}

/// What replaying a faithful status diff says per path: every listed
/// path comes back as the target's status, and no other path is touched.
proof fn lemma_replay_of_diff(
    target: Seq<crate::status::StatusEntryV>,
    upd: Seq<crate::update::WireStatusEntryV>,
    q: Seq<Seq<u8>>,
)
    requires
        forall|s: int|
            0 <= s < upd.len() ==> crate::repository::statuses_contain_path(
                target,
                #[trigger] upd[s].repo_path,
            ) && upd[s] == crate::delta::spec_wire_status_of(
                upd[s].repo_path,
                crate::repository::status_at(target, upd[s].repo_path),
            ),
    ensures
        crate::delta::wire_status_path_among(upd, q) ==> crate::repos::replayed_status(upd, q)
            == Some(crate::repository::status_at(target, q)),
        !crate::delta::wire_status_path_among(upd, q) ==> crate::repos::replayed_status(
            upd,
            q,
        ) is None,
    decreases upd.len(),
{
    if upd.len() > 0 {
        let last = upd.last();
        assert(last == upd[upd.len() - 1]);
        let st = crate::repository::status_at(target, last.repo_path);
        assert(last == crate::delta::spec_wire_status_of(last.repo_path, st));
        crate::status::lemma_status_wire_round_trip(st, last.simple_status);
        assert(crate::status::spec_status_from_wire(last.simple_status, last.status) == Ok::<
            crate::status::FileStatus,
            crate::status::StatusDecodeError,
        >(st));
        assert(forall|s: int|
            0 <= s < upd.drop_last().len() ==> #[trigger] upd.drop_last()[s] == upd[s]);
        lemma_replay_of_diff(target, upd.drop_last(), q);
        if last.repo_path =~~= q {
            assert(crate::repos::replayed_status(upd, q) == Some(st));
            assert(crate::delta::wire_status_path_among(upd, q));
        } else {
            assert(crate::repos::replayed_status(upd, q) == crate::repos::replayed_status(
                upd.drop_last(),
                q,
            ));
            assert(crate::delta::wire_status_path_among(upd, q)
                <==> crate::delta::wire_status_path_among(upd.drop_last(), q)) by {
                if crate::delta::wire_status_path_among(upd, q) {
                    let s = choose|s: int|
                        0 <= s < upd.len() && #[trigger] upd[s].repo_path =~~= q;
                    assert(s < upd.len() - 1);
                    assert(upd.drop_last()[s].repo_path =~~= q);
                }
                if crate::delta::wire_status_path_among(upd.drop_last(), q) {
                    let s = choose|s: int|
                        0 <= s < upd.drop_last().len() && #[trigger] upd.drop_last()[s].repo_path
                            =~~= q;
                    assert(upd[s].repo_path =~~= q);
                }
            }
        }
    }
}

/// Round trip of one repository's status replication: a status diff
/// built between two sorted status lists, replayed onto the base, leaves
/// exactly the target's statuses, and the forwarded branch.
#[verifier::rlimit(60)]
pub proof fn lemma_repository_round_trip(
    base: Seq<crate::status::StatusEntryV>,
    target: Seq<crate::status::StatusEntryV>,
    after: crate::repository::RepositoryEntryV,
    w: crate::update::WireRepositoryEntryV,
)
    requires
        crate::repository::statuses_sorted(base),
        crate::repository::statuses_sorted(target),
        crate::repository::statuses_sorted(after.statuses),
        crate::delta::status_diff_describes(base, target, w.updated_statuses, w.removed_statuses),
        crate::repos::repo_delta_applied(base, after, w),
    ensures
        after.statuses =~~= target,
        after.branch == w.branch,
{
    assert forall|q: Seq<Seq<u8>>| #[trigger] crate::repository::statuses_contain_path(
        after.statuses,
        q,
    ) <==> crate::repository::statuses_contain_path(target, q) by {
        lemma_replay_of_diff(target, w.updated_statuses, q);
        if crate::delta::wire_status_path_among(w.updated_statuses, q) {
            assert(crate::repos::replayed_status(w.updated_statuses, q) == Some(
                crate::repository::status_at(target, q),
            ));
            assert(crate::repository::statuses_contain_path(after.statuses, q));
            let s = choose|s: int|
                0 <= s < w.updated_statuses.len() && #[trigger] w.updated_statuses[s].repo_path
                    =~~= q;
            assert(crate::repository::statuses_contain_path(target, q));
        } else {
            assert(crate::repos::replayed_status(w.updated_statuses, q) is None);
            if crate::repository::statuses_contain_path(target, q) {
                // An unchanged target path was already in the base and is
                // not among the removed ones.
                let wt = choose|wt: int|
                    0 <= wt < target.len() && #[trigger] target[wt].repo_path =~~= q;
                crate::repository::lemma_unique_status(target, q, wt);
                assert(crate::repository::statuses_contain_path(base, q)
                    && crate::repository::status_at(base, q) == crate::repository::status_at(
                    target,
                    q,
                )) by {
                    if !(crate::repository::statuses_contain_path(base, q)
                        && crate::repository::status_at(base, q) == target[wt].status) {
                        assert(crate::delta::wire_status_path_among(
                            w.updated_statuses,
                            target[wt].repo_path,
                        ));
                        assert(false);
                    }
                }
                assert(!crate::repos::removed_path_among(w.removed_statuses, q)) by {
                    if crate::repos::removed_path_among(w.removed_statuses, q) {
                        let s = choose|s: int|
                            0 <= s < w.removed_statuses.len()
                                && #[trigger] w.removed_statuses[s] =~~= q;
                        assert(!crate::repository::statuses_contain_path(
                            target,
                            w.removed_statuses[s],
                        ));
                        assert(false);
                    }
                }
                assert(crate::repository::statuses_contain_path(after.statuses, q));
            }
            if crate::repository::statuses_contain_path(after.statuses, q) {
                assert(crate::repository::statuses_contain_path(base, q)
                    && !crate::repos::removed_path_among(w.removed_statuses, q));
                if !crate::repository::statuses_contain_path(target, q) {
                    let wb = choose|wb: int|
                        0 <= wb < base.len() && #[trigger] base[wb].repo_path =~~= q;
                    assert(crate::repos::removed_path_among(
                        w.removed_statuses,
                        base[wb].repo_path,
                    ));
                    assert(false);
                }
            }
        }
    }
    assert forall|q: Seq<Seq<u8>>|
        crate::repository::statuses_contain_path(after.statuses, q) implies
        #[trigger] crate::repository::status_at(after.statuses, q)
        == crate::repository::status_at(target, q) by {
        lemma_replay_of_diff(target, w.updated_statuses, q);
        if crate::delta::wire_status_path_among(w.updated_statuses, q) {
        } else {
            assert(crate::repository::statuses_contain_path(target, q));
            let wt = choose|wt: int|
                0 <= wt < target.len() && #[trigger] target[wt].repo_path =~~= q;
            crate::repository::lemma_unique_status(target, q, wt);
            assert(crate::repository::statuses_contain_path(base, q)
                && crate::repository::status_at(base, q) == crate::repository::status_at(
                target,
                q,
            )) by {
                if !(crate::repository::statuses_contain_path(base, q)
                    && crate::repository::status_at(base, q) == target[wt].status) {
                    assert(crate::delta::wire_status_path_among(
                        w.updated_statuses,
                        target[wt].repo_path,
                    ));
                    assert(false);
                }
            }
            assert(crate::repository::status_at(after.statuses, q)
                == crate::repository::status_at(base, q));
        }
    }
    lemma_statuses_canonical(after.statuses, target);
}

/// A full wire listing is the status diff against an empty base.
proof fn lemma_listing_is_diff_from_empty(
    target: Seq<crate::status::StatusEntryV>,
    upd: Seq<crate::update::WireStatusEntryV>,
    rem: Seq<Seq<Seq<u8>>>,
)
    requires
        crate::repository::statuses_sorted(target),
        crate::delta::status_listing_describes(target, upd, rem),
    ensures
        crate::delta::status_diff_describes(Seq::empty(), target, upd, rem),
{
    assert forall|s: int| 0 <= s < upd.len() implies crate::repository::statuses_contain_path(
        target,
        #[trigger] upd[s].repo_path,
    ) && upd[s] == crate::delta::spec_wire_status_of(
        upd[s].repo_path,
        crate::repository::status_at(target, upd[s].repo_path),
    ) && !(crate::repository::statuses_contain_path(Seq::empty(), upd[s].repo_path)
        && crate::repository::status_at(Seq::empty(), upd[s].repo_path)
        == crate::repository::status_at(target, upd[s].repo_path)) by {
        assert(upd[s] == crate::delta::spec_wire_status_of(
            target[s].repo_path,
            target[s].status,
        ));
        assert(target[s].repo_path =~~= upd[s].repo_path);
        crate::repository::lemma_unique_status(target, target[s].repo_path, s);
        assert(!crate::repository::statuses_contain_path(
            Seq::<crate::status::StatusEntryV>::empty(),
            upd[s].repo_path,
        ));
    }
    assert forall|i: int|
        0 <= i < target.len() && !(crate::repository::statuses_contain_path(
            Seq::<crate::status::StatusEntryV>::empty(),
            #[trigger] target[i].repo_path,
        ) && crate::repository::status_at(Seq::empty(), target[i].repo_path)
            == target[i].status) implies crate::delta::wire_status_path_among(
        upd,
        target[i].repo_path,
    ) by {
        assert(upd[i] == crate::delta::spec_wire_status_of(
            target[i].repo_path,
            target[i].status,
        ));
        assert(upd[i].repo_path =~~= target[i].repo_path);
    }
}

/// In a sorted repository list, dropping the first element keeps every
/// other work directory with its repository.
proof fn lemma_repos_skip(s: Seq<crate::repository::RepositoryEntryV>)
    requires
        crate::snapshot::repos_sorted(s),
        s.len() > 0,
    ensures
        crate::snapshot::repos_sorted(s.skip(1)),
        forall|q: Seq<Seq<u8>>|
            #[trigger] crate::snapshot::repos_contain_path(s.skip(1), q) <==> (
            crate::snapshot::repos_contain_path(s, q) && !(q =~~= s[0].work_directory.path)),
        forall|q: Seq<Seq<u8>>|
            crate::snapshot::repos_contain_path(s.skip(1), q) ==> #[trigger] crate::snapshot::repo_at(
                s.skip(1),
                q,
            ) == crate::snapshot::repo_at(s, q),
{
    let s1 = s.skip(1);
    assert(forall|j: int| 0 <= j < s1.len() ==> s1[j] == s[j + 1]);
    assert forall|a: int, b: int| 0 <= a < b < s1.len() implies path_lt(
        #[trigger] s1[a].work_directory.path,
        #[trigger] s1[b].work_directory.path,
    ) by {
        assert(path_lt(s[a + 1].work_directory.path, s[b + 1].work_directory.path));
    }
    crate::snapshot::lemma_unique_repo(s, s[0].work_directory.path, 0);
    assert forall|q: Seq<Seq<u8>>| #[trigger] crate::snapshot::repos_contain_path(
        s1,
        q,
    ) implies (crate::snapshot::repos_contain_path(s, q) && !(q
        =~~= s[0].work_directory.path)) by {
        let w = choose|w: int| 0 <= w < s1.len() && #[trigger] s1[w].work_directory.path =~~= q;
        assert(s[w + 1].work_directory.path =~~= q);
        if q =~~= s[0].work_directory.path {
            assert(s[w + 1].work_directory.path =~~= s[0].work_directory.path);
        }
    }
    assert forall|q: Seq<Seq<u8>>|
        crate::snapshot::repos_contain_path(s, q) && !(q =~~= s[0].work_directory.path) implies
        #[trigger] crate::snapshot::repos_contain_path(s1, q) by {
        let w = choose|w: int| 0 <= w < s.len() && #[trigger] s[w].work_directory.path =~~= q;
        assert(w != 0);
        assert(s1[w - 1].work_directory.path =~~= q);
    }
    assert forall|q: Seq<Seq<u8>>| crate::snapshot::repos_contain_path(s1, q) implies
        #[trigger] crate::snapshot::repo_at(s1, q) == crate::snapshot::repo_at(s, q) by {
        let w = choose|w: int| 0 <= w < s1.len() && #[trigger] s1[w].work_directory.path =~~= q;
        crate::snapshot::lemma_unique_repo(s1, q, w);
        assert(s[w + 1].work_directory.path =~~= q);
        crate::snapshot::lemma_unique_repo(s, q, w + 1);
    }
}

/// Two sorted repository lists tracking the same work directories with
/// the same repositories are the same list.
pub proof fn lemma_repos_canonical(
    s1: Seq<crate::repository::RepositoryEntryV>,
    s2: Seq<crate::repository::RepositoryEntryV>,
)
    requires
        crate::snapshot::repos_sorted(s1),
        crate::snapshot::repos_sorted(s2),
        forall|q: Seq<Seq<u8>>|
            #[trigger] crate::snapshot::repos_contain_path(s1, q)
                <==> crate::snapshot::repos_contain_path(s2, q),
        forall|q: Seq<Seq<u8>>|
            crate::snapshot::repos_contain_path(s1, q) ==> #[trigger] crate::snapshot::repo_at(
                s1,
                q,
            ) == crate::snapshot::repo_at(s2, q),
    ensures
        s1 =~= s2,
    decreases s1.len(),
{
    if s1.len() == 0 {
        if s2.len() > 0 {
            assert(crate::snapshot::repos_contain_path(s2, s2[0].work_directory.path));
            assert(crate::snapshot::repos_contain_path(s1, s2[0].work_directory.path));
            let w = choose|w: int|
                0 <= w < s1.len() && #[trigger] s1[w].work_directory.path
                    =~~= s2[0].work_directory.path;
            assert(false);
        }
        assert(s1 =~= s2);
    } else {
        assert(crate::snapshot::repos_contain_path(s1, s1[0].work_directory.path));
        assert(crate::snapshot::repos_contain_path(s2, s1[0].work_directory.path));
        assert(s2.len() > 0) by {
            let w = choose|w: int|
                0 <= w < s2.len() && #[trigger] s2[w].work_directory.path
                    =~~= s1[0].work_directory.path;
        }
        let w2 = choose|w: int|
            0 <= w < s2.len() && #[trigger] s2[w].work_directory.path
                =~~= s1[0].work_directory.path;
        if w2 != 0 {
            assert(path_lt(s2[0].work_directory.path, s2[w2].work_directory.path));
            assert(crate::snapshot::repos_contain_path(s2, s2[0].work_directory.path));
            assert(crate::snapshot::repos_contain_path(s1, s2[0].work_directory.path));
            let w1 = choose|w: int|
                0 <= w < s1.len() && #[trigger] s1[w].work_directory.path
                    =~~= s2[0].work_directory.path;
            if w1 != 0 {
                assert(path_lt(s1[0].work_directory.path, s1[w1].work_directory.path));
                lemma_path_lt_trans(
                    s1[0].work_directory.path,
                    s2[0].work_directory.path,
                    s1[0].work_directory.path,
                );
                lemma_path_lt_trichotomy(s1[0].work_directory.path, s1[0].work_directory.path);
            } else {
                lemma_path_lt_trichotomy(
                    s2[0].work_directory.path,
                    s1[0].work_directory.path,
                );
            }
            assert(false);
        }
        assert(s2[0].work_directory.path =~~= s1[0].work_directory.path);
        crate::snapshot::lemma_unique_repo(s1, s1[0].work_directory.path, 0);
        crate::snapshot::lemma_unique_repo(s2, s1[0].work_directory.path, 0);
        assert(s1[0] == s2[0]);
        lemma_repos_skip(s1);
        lemma_repos_skip(s2);
        assert forall|q: Seq<Seq<u8>>| #[trigger] crate::snapshot::repos_contain_path(
            s1.skip(1),
            q,
        ) <==> crate::snapshot::repos_contain_path(s2.skip(1), q) by {
            if crate::snapshot::repos_contain_path(s1.skip(1), q) {
                assert(crate::snapshot::repos_contain_path(s1, q) && !(q
                    =~~= s1[0].work_directory.path));
                assert(crate::snapshot::repos_contain_path(s2, q));
            }
            if crate::snapshot::repos_contain_path(s2.skip(1), q) {
                assert(crate::snapshot::repos_contain_path(s2, q) && !(q
                    =~~= s2[0].work_directory.path));
                assert(crate::snapshot::repos_contain_path(s1, q));
            }
        }
        assert forall|q: Seq<Seq<u8>>|
            crate::snapshot::repos_contain_path(s1.skip(1), q) implies
            #[trigger] crate::snapshot::repo_at(s1.skip(1), q) == crate::snapshot::repo_at(
            s2.skip(1),
            q,
        ) by {
            assert(crate::snapshot::repos_contain_path(s1, q));
            assert(crate::snapshot::repo_at(s1.skip(1), q) == crate::snapshot::repo_at(s1, q));
            assert(crate::snapshot::repos_contain_path(s2.skip(1), q));
            assert(crate::snapshot::repo_at(s2.skip(1), q) == crate::snapshot::repo_at(s2, q));
        }
        lemma_repos_canonical(s1.skip(1), s2.skip(1));
        assert forall|i: int| 0 <= i < s1.len() implies s1[i] == s2[i] by {
            if i > 0 {
                assert(s1.skip(1)[i - 1] == s2.skip(1)[i - 1]);
            }
        }
        assert(s1 =~= s2);
    }
}

/// The repositories of a snapshot stand in lockstep with its path tree:
/// every work-directory id resolves through the identity index to the
/// repository's own work-directory path, no two repositories share an
/// id, and mirrored repositories carry no external location.
pub open spec fn repos_wire_faithful(s: SnapshotV) -> bool {
    &&& forall|i: int|
        0 <= i < s.repos.len() ==> ids_contain(
            s.by_id,
            #[trigger] s.repos[i].work_directory_id,
        )
    &&& forall|i: int|
        0 <= i < s.repos.len() ==> id_at(s.by_id, #[trigger] s.repos[i].work_directory_id).path
            =~~= s.repos[i].work_directory.path
    &&& forall|i: int|
        0 <= i < s.repos.len() ==> #[trigger] s.repos[i].work_directory.location_in_repo is None
    &&& forall|a: int, b: int|
        0 <= a < b < s.repos.len() ==> #[trigger] s.repos[a].work_directory_id
            != #[trigger] s.repos[b].work_directory_id
}

/// Round trip of the repository index: the repository records built from
/// a base mirror and a target snapshot, applied back to that base, leave
/// exactly the target's repositories. Both sides must be repository-
/// faithful; the mirror's identity index must already equal the
/// target's, as the entry round trip leaves it; and a work directory
/// known to both sides keeps its id.
#[verifier::rlimit(100)]
pub proof fn lemma_repos_round_trip(
    o: SnapshotV,
    t: SnapshotV,
    f: SnapshotV,
    urepos: Seq<crate::update::WireRepositoryEntryV>,
    rrepos: Seq<u64>,
)
    requires
        crate::snapshot::repos_sorted(o.repos),
        crate::snapshot::repos_sorted(t.repos),
        crate::snapshot::repos_sorted(f.repos),
        forall|i: int|
            0 <= i < o.repos.len() ==> crate::repository::statuses_sorted(
                #[trigger] o.repos[i].statuses,
            ),
        forall|i: int|
            0 <= i < t.repos.len() ==> crate::repository::statuses_sorted(
                #[trigger] t.repos[i].statuses,
            ),
        forall|i: int|
            0 <= i < f.repos.len() ==> crate::repository::statuses_sorted(
                #[trigger] f.repos[i].statuses,
            ),
        ids_sorted(t.by_id),
        repos_wire_faithful(o),
        repos_wire_faithful(t),
        f.by_id == t.by_id,
        forall|p: Seq<Seq<u8>>|
            crate::snapshot::repos_contain_path(o.repos, p) && crate::snapshot::repos_contain_path(
                t.repos,
                p,
            ) ==> #[trigger] crate::snapshot::repo_at(o.repos, p).work_directory_id
                == crate::snapshot::repo_at(t.repos, p).work_directory_id,
        // What the delta builder produced:
        urepos.len() == t.repos.len(),
        forall|i: int|
            0 <= i < urepos.len() ==> {
                &&& #[trigger] urepos[i].work_directory_id == t.repos[i].work_directory_id
                &&& urepos[i].branch == t.repos[i].branch
                &&& if crate::snapshot::repos_contain_path(
                    o.repos,
                    t.repos[i].work_directory.path,
                ) {
                    crate::delta::status_diff_describes(
                        crate::snapshot::repo_at(o.repos, t.repos[i].work_directory.path).statuses,
                        t.repos[i].statuses,
                        urepos[i].updated_statuses,
                        urepos[i].removed_statuses,
                    )
                } else {
                    crate::delta::status_listing_describes(
                        t.repos[i].statuses,
                        urepos[i].updated_statuses,
                        urepos[i].removed_statuses,
                    )
                }
            },
        forall|k: u64|
            #[trigger] crate::repos::wd_id_among(rrepos, k) <==> (exists|j: int|
                0 <= j < o.repos.len() && #[trigger] o.repos[j].work_directory_id == k
                    && !crate::snapshot::repos_contain_path(
                    t.repos,
                    o.repos[j].work_directory.path,
                )),
        // What the applier left behind:
        forall|p: Seq<Seq<u8>>|
            !crate::repos::record_targets_path(f.by_id, urepos, p) ==> (
            #[trigger] crate::snapshot::repos_contain_path(f.repos, p)
                <==> crate::repos::repo_survives(o.repos, rrepos, p)),
        forall|p: Seq<Seq<u8>>|
            !crate::repos::record_targets_path(f.by_id, urepos, p)
                && crate::snapshot::repos_contain_path(f.repos, p)
                ==> #[trigger] crate::snapshot::repo_at(f.repos, p) == crate::snapshot::repo_at(
                o.repos,
                p,
            ),
        crate::repos::records_separate(f.by_id, urepos) ==> forall|s: int|
            0 <= s < urepos.len() && ids_contain(f.by_id, urepos[s].work_directory_id)
                ==> #[trigger] crate::repos::repo_record_applied(
                o.repos,
                f.repos,
                f.by_id,
                rrepos,
                urepos[s],
            ),
    ensures
        f.repos =~= t.repos,
{
    // Every record resolves to its own target repository's work
    // directory.
    assert forall|s: int| 0 <= s < urepos.len() implies ids_contain(
        f.by_id,
        #[trigger] urepos[s].work_directory_id,
    ) && id_at(f.by_id, urepos[s].work_directory_id).path
        =~~= t.repos[s].work_directory.path by {
        assert(urepos[s].work_directory_id == t.repos[s].work_directory_id);
        assert(ids_contain(t.by_id, t.repos[s].work_directory_id));
        assert(id_at(t.by_id, t.repos[s].work_directory_id).path
            =~~= t.repos[s].work_directory.path);
    }
    assert(crate::repos::records_separate(f.by_id, urepos)) by {
        assert forall|a: int, b: int|
            0 <= a < b < urepos.len() && ids_contain(
                f.by_id,
                #[trigger] urepos[a].work_directory_id,
            ) && ids_contain(f.by_id, #[trigger] urepos[b].work_directory_id) implies !(id_at(
            f.by_id,
            urepos[a].work_directory_id,
        ).path =~~= id_at(f.by_id, urepos[b].work_directory_id).path) by {
            assert(path_lt(
                t.repos[a].work_directory.path,
                t.repos[b].work_directory.path,
            ));
            lemma_path_lt_trichotomy(
                t.repos[a].work_directory.path,
                t.repos[b].work_directory.path,
            );
        }
    }
    // Targeted work directories are exactly the target's.
    assert forall|p: Seq<Seq<u8>>| #[trigger] crate::repos::record_targets_path(
        f.by_id,
        urepos,
        p,
    ) <==> crate::snapshot::repos_contain_path(t.repos, p) by {
        if crate::repos::record_targets_path(f.by_id, urepos, p) {
            let s = choose|s: int|
                0 <= s < urepos.len() && ids_contain(
                    f.by_id,
                    #[trigger] urepos[s].work_directory_id,
                ) && id_at(f.by_id, urepos[s].work_directory_id).path =~~= p;
            assert(t.repos[s].work_directory.path =~~= p);
        }
        if crate::snapshot::repos_contain_path(t.repos, p) {
            let w = choose|w: int|
                0 <= w < t.repos.len() && #[trigger] t.repos[w].work_directory.path =~~= p;
            assert(ids_contain(f.by_id, urepos[w].work_directory_id) && id_at(
                f.by_id,
                urepos[w].work_directory_id,
            ).path =~~= p);
            assert(crate::repos::record_targets_path(f.by_id, urepos, p));
        }
    }
    // Removal hits exactly the base repositories whose work directory the
    // target dropped.
    assert forall|p: Seq<Seq<u8>>|
        crate::snapshot::repos_contain_path(o.repos, p) implies (
    #[trigger] crate::repos::wd_id_among(
        rrepos,
        crate::snapshot::repo_at(o.repos, p).work_directory_id,
    ) <==> !crate::snapshot::repos_contain_path(t.repos, p)) by {
        let w = choose|w: int|
            0 <= w < o.repos.len() && #[trigger] o.repos[w].work_directory.path =~~= p;
        crate::snapshot::lemma_unique_repo(o.repos, p, w);
        let k = o.repos[w].work_directory_id;
        if crate::repos::wd_id_among(rrepos, k) {
            let j = choose|j: int|
                0 <= j < o.repos.len() && #[trigger] o.repos[j].work_directory_id == k
                    && !crate::snapshot::repos_contain_path(
                    t.repos,
                    o.repos[j].work_directory.path,
                );
            assert(j == w) by {
                if j != w {
                    if j < w {
                        assert(o.repos[j].work_directory_id != o.repos[w].work_directory_id);
                    } else {
                        assert(o.repos[w].work_directory_id != o.repos[j].work_directory_id);
                    }
                }
            }
        }
        if !crate::snapshot::repos_contain_path(t.repos, p) {
            assert(o.repos[w].work_directory_id == k && !crate::snapshot::repos_contain_path(
                t.repos,
                o.repos[w].work_directory.path,
            ));
            assert(crate::repos::wd_id_among(rrepos, k));
        }
    }
    // Pointwise agreement of the final and target repositories.
    assert forall|p: Seq<Seq<u8>>| #[trigger] crate::snapshot::repos_contain_path(f.repos, p)
        <==> crate::snapshot::repos_contain_path(t.repos, p) by {
        if crate::snapshot::repos_contain_path(t.repos, p) {
            let w = choose|w: int|
                0 <= w < t.repos.len() && #[trigger] t.repos[w].work_directory.path =~~= p;
            assert(crate::repos::repo_record_applied(o.repos, f.repos, f.by_id, rrepos, urepos[w]));
            assert(id_at(f.by_id, urepos[w].work_directory_id).path =~~= p);
        }
        if crate::snapshot::repos_contain_path(f.repos, p)
            && !crate::snapshot::repos_contain_path(t.repos, p) {
            assert(!crate::repos::record_targets_path(f.by_id, urepos, p));
            assert(crate::repos::repo_survives(o.repos, rrepos, p));
            assert(crate::repos::wd_id_among(
                rrepos,
                crate::snapshot::repo_at(o.repos, p).work_directory_id,
            ));
            assert(false);
        }
    }
    assert forall|p: Seq<Seq<u8>>|
        crate::snapshot::repos_contain_path(f.repos, p) implies #[trigger] crate::snapshot::repo_at(
        f.repos,
        p,
    ) == crate::snapshot::repo_at(t.repos, p) by {
        assert(crate::snapshot::repos_contain_path(t.repos, p));
        let w = choose|w: int|
            0 <= w < t.repos.len() && #[trigger] t.repos[w].work_directory.path =~~= p;
        crate::snapshot::lemma_unique_repo(t.repos, p, w);
        assert(crate::repos::repo_record_applied(o.repos, f.repos, f.by_id, rrepos, urepos[w]));
        assert(id_at(f.by_id, urepos[w].work_directory_id).path =~~= p);
        let after = crate::snapshot::repo_at(f.repos, p);
        let trep = t.repos[w];
        assert(after.branch == urepos[w].branch);
        assert(after.branch == trep.branch);
        if crate::snapshot::repos_contain_path(o.repos, p) {
            // A surviving repository replays the status diff.
            assert(!crate::repos::wd_id_among(
                rrepos,
                crate::snapshot::repo_at(o.repos, p).work_directory_id,
            ));
            assert(crate::repos::repo_survives(o.repos, rrepos, p));
            assert(crate::repos::surviving_statuses(o.repos, rrepos, p)
                == crate::snapshot::repo_at(o.repos, p).statuses);
            let wo = choose|wo: int|
                0 <= wo < o.repos.len() && #[trigger] o.repos[wo].work_directory.path =~~= p;
            crate::snapshot::lemma_unique_repo(o.repos, p, wo);
            lemma_repository_round_trip(
                crate::snapshot::repo_at(o.repos, p).statuses,
                trep.statuses,
                after,
                urepos[w],
            );
            assert(after.statuses =~~= trep.statuses);
            assert(after.work_directory_id == crate::snapshot::repo_at(
                o.repos,
                p,
            ).work_directory_id);
            assert(after.work_directory_id == trep.work_directory_id);
            assert(after.work_directory == crate::snapshot::repo_at(o.repos, p).work_directory);
            assert(o.repos[wo].work_directory.location_in_repo is None);
            assert(trep.work_directory.location_in_repo is None);
            assert(after.work_directory.path =~~= p && trep.work_directory.path =~~= p);
            assert(after.work_directory == trep.work_directory);
            assert(after == trep);
        } else {
            // A fresh work directory replays the full listing.
            assert(!crate::repos::repo_survives(o.repos, rrepos, p));
            assert(crate::repos::surviving_statuses(o.repos, rrepos, p) =~~= Seq::<
                crate::status::StatusEntryV,
            >::empty());
            lemma_listing_is_diff_from_empty(
                trep.statuses,
                urepos[w].updated_statuses,
                urepos[w].removed_statuses,
            );
            lemma_repository_round_trip(
                Seq::empty(),
                trep.statuses,
                after,
                urepos[w],
            );
            assert(after.statuses =~~= trep.statuses);
            assert(after.work_directory_id == urepos[w].work_directory_id);
            assert(after.work_directory_id == trep.work_directory_id);
            assert(after.work_directory == (crate::repository::WorkDirectoryV {
                path: p,
                location_in_repo: None,
            }));
            assert(trep.work_directory.location_in_repo is None);
            assert(trep.work_directory.path =~~= p);
            assert(after.work_directory == trep.work_directory);
            assert(after == trep);
        }
        assert(crate::snapshot::repo_at(t.repos, p) == trep);
    }
    lemma_repos_canonical(f.repos, t.repos);
}

/// The two indices of a well-formed snapshot agree on the set of
/// `(path, id)` pairs.
pub proof fn lemma_indices_agree(s: &crate::snapshot::Snapshot)
    requires
        s.wf(),
    ensures
        indices_agree(s@.entries, s@.by_id),
{
}

/// Looking a tracked path up by its entry's id leads back to the same
/// path.
pub proof fn lemma_path_of_id(s: SnapshotV, q: Seq<Seq<u8>>)
    requires
        snapshot_indices_valid(s),
        entries_contain_path(s.entries, q),
    ensures
        ids_contain(s.by_id, entry_at(s.entries, q).id),
        id_at(s.by_id, entry_at(s.entries, q).id).path =~~= q,
{
    let w = choose|w: int| 0 <= w < s.entries.len() && #[trigger] s.entries[w].path =~~= q;
    lemma_unique_entry(s.entries, q, w);
    assert(ids_contain(s.by_id, s.entries[w].id) && id_at(s.by_id, s.entries[w].id).path
        =~~= s.entries[w].path);
}

/// Looking a tracked id up by its row's path leads back to the same id.
pub proof fn lemma_id_of_path(s: SnapshotV, k: u64)
    requires
        snapshot_indices_valid(s),
        ids_contain(s.by_id, k),
    ensures
        entries_contain_path(s.entries, id_at(s.by_id, k).path),
        entry_at(s.entries, id_at(s.by_id, k).path).id == k,
{
    let w = choose|w: int| 0 <= w < s.by_id.len() && #[trigger] s.by_id[w].id == k;
    lemma_unique_id(s.by_id, k, w);
    assert(entries_contain_path(s.entries, s.by_id[w].path) && entry_at(
        s.entries,
        s.by_id[w].path,
    ).id == s.by_id[w].id);
}

} // verus!


