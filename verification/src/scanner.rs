use vstd::prelude::*;

use crate::entry::{Entry, EntryV, PathChange};
use crate::ProjectEntryId;
use crate::relpath::{path_is_prefix, RelPath};
use crate::snapshot::{entries_contain_path, entry_at, Snapshot};

verus! {

/// The first position holding an entry with this inode; the length when
/// there is none.
pub open spec fn first_inode_match(s: Seq<EntryV>, inode: u64) -> int
    decreases s.len(),
{
    if s.len() == 0 {
        0
    } else if s[0].inode == inode {
        0
    } else {
        1 + first_inode_match(s.skip(1), inode)
    }
}

proof fn lemma_first_inode_match(s: Seq<EntryV>, inode: u64)
    ensures
        0 <= first_inode_match(s, inode) <= s.len(),
        first_inode_match(s, inode) < s.len() ==> s[first_inode_match(s, inode)].inode == inode,
        forall|j: int| 0 <= j < first_inode_match(s, inode) ==> #[trigger] s[j].inode != inode,
    decreases s.len(),
{
    if s.len() > 0 && s[0].inode != inode {
        lemma_first_inode_match(s.skip(1), inode);
        assert forall|j: int| 0 <= j < first_inode_match(s, inode) implies #[trigger] s[j].inode
            != inode by {
            if j > 0 {
                assert(s.skip(1)[j - 1].inode != inode);
            }
        }
    }
}

/// Rename reuse. An entry freshly read from disk keeps the identity of
/// the entry removed in the same batch with the same inode, when the
/// modification time or the path also matches; failing a removed match,
/// it keeps the identity already recorded at its path. Entries without a
/// modification time keep their fresh id.
pub fn reuse_entry_id(entry: &mut Entry, removed: &Vec<Entry>, snapshot: &Snapshot)
    requires
        snapshot.wf(),
    ensures
        final (entry)@.kind == old(entry)@.kind,
        final (entry)@.path == old(entry)@.path,
        final (entry)@.inode == old(entry)@.inode,
        final (entry)@.mtime == old(entry)@.mtime,
        final (entry)@.canonical_path == old(entry)@.canonical_path,
        final (entry)@.is_ignored == old(entry)@.is_ignored,
        final (entry)@.is_always_included == old(entry)@.is_always_included,
        final (entry)@.is_external == old(entry)@.is_external,
        final (entry)@.is_private == old(entry)@.is_private,
        final (entry)@.is_fifo == old(entry)@.is_fifo,
        final (entry)@.size == old(entry)@.size,
        old(entry)@.mtime is None ==> final (entry)@.id == old(entry)@.id,
        old(entry)@.mtime is Some && first_inode_match(
            removed@.map(|_i: int, e: Entry| e@),
            old(entry)@.inode,
        ) < removed@.len() ==> {
            let rm = removed@.map(|_i: int, e: Entry| e@)[first_inode_match(
                removed@.map(|_i: int, e: Entry| e@),
                old(entry)@.inode,
            )];
            final (entry)@.id == if rm.mtime == old(entry)@.mtime || rm.path =~~= old(
                entry,
            )@.path {
                rm.id
            } else {
                old(entry)@.id
            }
        },
        old(entry)@.mtime is Some && first_inode_match(
            removed@.map(|_i: int, e: Entry| e@),
            old(entry)@.inode,
        ) >= removed@.len() ==> final (entry)@.id == if entries_contain_path(
            snapshot@.entries,
            old(entry)@.path,
        ) {
            entry_at(snapshot@.entries, old(entry)@.path).id
        } else {
            old(entry)@.id
        },
    {
        let ghost rv = removed@.map(|_i: int, e: Entry| e@);
        proof {
            lemma_first_inode_match(rv, entry@.inode);
        }
        if entry.mtime.is_none() {
            return ;
        }
        let ghost e0 = entry@;
        let mut i: usize = 0;
        while i < removed.len()
            invariant
                i <= rv.len(),
                rv == removed@.map(|_i: int, e: Entry| e@),
                rv.len() == removed@.len(),
                entry@ == e0,
                e0 == old(entry)@,
                old(entry)@.mtime is Some,
                snapshot.wf(),
                forall|j: int| 0 <= j < i ==> #[trigger] rv[j].inode != entry@.inode,
            decreases rv.len() - i,
        {
            let rm = &removed[i];
            if rm.inode == entry.inode {
                proof {
                    assert(rv[i as int].inode == entry@.inode);
                    lemma_first_inode_match(rv, entry@.inode);
                    assert(first_inode_match(rv, entry@.inode) == i as int) by {
                        let fm = first_inode_match(rv, entry@.inode);
                        if fm < i as int {
                            assert(rv[fm].inode != entry@.inode);
                        }
                    }
                }
                let mtime_matches = match (rm.mtime, entry.mtime) {
                    (Some(a), Some(b)) => a.seconds == b.seconds && a.nanos == b.nanos,
                    (None, None) => true,
                    _ => false,
                };
                if mtime_matches || rm.path.eq_path(&entry.path) {
                    entry.id = rm.id;
                }
                return ;
            }
            i = i + 1;
        }
        let existing = snapshot.entry_for_path(&entry.path);
        match existing {
            Some(e) => {
                entry.id = e.id;
            },
            None => {},
        }
    }

/// Whether the scanner descends into a directory: it is neither external
/// nor ignored (or it is always included), or it is a repository metadata
/// directory, or it is the local settings folder, or it was scanned
/// before, or a pending scan target lies beneath it, or it lies beneath a
/// registered scan prefix.
pub fn should_scan_directory(
    entry: &Entry,
    settings_folder: &Vec<u8>,
    scanned_dirs: &Vec<u64>,
    paths_to_scan: &Vec<RelPath>,
    path_prefixes_to_scan: &Vec<RelPath>,
) -> (r: bool)
    ensures
        r <==> {
            ||| (!entry@.is_external && (!entry@.is_ignored || entry@.is_always_included))
            ||| (entry@.path.len() > 0 && entry@.path.last() =~= seq![
                46u8,
                103u8,
                105u8,
                116u8,
            ])
            ||| (entry@.path.len() > 0 && entry@.path.last() =~= settings_folder@)
            ||| (exists|j: int| 0 <= j < scanned_dirs@.len() && scanned_dirs@[j] == entry@.id)
            ||| (exists|j: int|
                0 <= j < paths_to_scan@.len() && path_is_prefix(
                    entry@.path,
                    #[trigger] paths_to_scan@[j]@,
                ))
            ||| (exists|j: int|
                0 <= j < path_prefixes_to_scan@.len() && path_is_prefix(
                    #[trigger] path_prefixes_to_scan@[j]@,
                    entry@.path,
                ))
        },
{
    if (!entry.is_external && (!entry.is_ignored || entry.is_always_included)) {
        return true;
    }
    match entry.path.file_name() {
        Some(name) => {
            if name.len() == 4 && name[0] == 46u8 && name[1] == 103u8 && name[2] == 105u8
                && name[3] == 116u8 {
                proof {
                    assert(entry@.path.last() =~= seq![46u8, 103u8, 105u8, 116u8]);
                }
                return true;
            }
            if matches!(crate::relpath::bytes_cmp(name, settings_folder), crate::relpath::Order::Equal) {
                proof {
                    assert(entry@.path.last() =~= settings_folder@);
                }
                return true;
            }
        },
        None => {},
    }
    let mut j: usize = 0;
    while j < scanned_dirs.len()
        invariant
            j <= scanned_dirs@.len(),
            forall|x: int| 0 <= x < j ==> scanned_dirs@[x] != entry@.id,
        decreases scanned_dirs@.len() - j,
    {
        if scanned_dirs[j] == entry.id.0 {
            proof {
                assert(scanned_dirs@[j as int] == entry@.id);
            }
            return true;
        }
        j = j + 1;
    }
    let mut j2: usize = 0;
    while j2 < paths_to_scan.len()
        invariant
            j2 <= paths_to_scan@.len(),
            forall|x: int|
                0 <= x < j2 ==> !path_is_prefix(entry@.path, #[trigger] paths_to_scan@[x]@),
        decreases paths_to_scan@.len() - j2,
    {
        if paths_to_scan[j2].starts_with(&entry.path) {
            proof {
                assert(path_is_prefix(entry@.path, paths_to_scan@[j2 as int]@));
            }
            return true;
        }
        j2 = j2 + 1;
    }
    let mut j3: usize = 0;
    while j3 < path_prefixes_to_scan.len()
        invariant
            j3 <= path_prefixes_to_scan@.len(),
            forall|x: int|
                0 <= x < j3 ==> !path_is_prefix(
                    #[trigger] path_prefixes_to_scan@[x]@,
                    entry@.path,
                ),
        decreases path_prefixes_to_scan@.len() - j3,
    {
        if entry.path.starts_with(&path_prefixes_to_scan[j3]) {
            proof {
                assert(path_is_prefix(path_prefixes_to_scan@[j3 as int]@, entry@.path));
            }
            return true;
        }
        j3 = j3 + 1;
    }
    proof {
        if entry@.path.len() > 0 && entry@.path.last() =~= seq![46u8, 103u8, 105u8, 116u8] {
            assert(false);
        }
        if entry@.path.len() > 0 && entry@.path.last() =~= settings_folder@ {
            assert(false);
        }
    }
    false
}

/// On a case-insensitive filesystem, a metadata result whose canonical
/// file name differs from the requested one stands for the old spelling
/// of a case-only rename and reads as gone.
pub fn metadata_reads_as_gone(
    fs_case_sensitive: bool,
    is_symlink: bool,
    requested_name: &Vec<u8>,
    canonical_name: &Vec<u8>,
) -> (r: bool)
    ensures
        r <==> (!fs_case_sensitive && !is_symlink && !(requested_name@ =~= canonical_name@)),
{
    if fs_case_sensitive || is_symlink {
        return false;
    }
    !matches!(crate::relpath::bytes_cmp(requested_name, canonical_name), crate::relpath::Order::Equal)
}


/// Where the scanner stands in its lifecycle; the phase decides how a
/// computed difference is classified.
#[derive(Clone, Copy, Debug, PartialEq, Eq, Structural)]
pub enum ScannerPhase {
    InitialScan,
    EventsReceivedDuringInitialScan,
    Events,
}

/// How one path's difference between the previous and the current
/// snapshot reads, as `(id, change)` records in order.
///
/// With the path on both sides: the same id reads as an update, or as a
/// load when the directory was unloaded before; different ids read as a
/// removal of the old id and an addition of the new one, collapsed to
/// the ambiguous form while events arrive during the initial scan. A
/// side-only path reads as a removal or an addition, the latter as a
/// load during the initial scan or beneath a directory that just loaded.
pub fn classify_change(
    old_entry: Option<&Entry>,
    new_entry: Option<&Entry>,
    phase: ScannerPhase,
    within_newly_loaded_dir: bool,
) -> (r: Vec<(ProjectEntryId, PathChange)>)
    ensures
        match (old_entry, new_entry) {
            (Some(oe), Some(ne)) => {
                if oe@.id != ne@.id {
                    if phase is EventsReceivedDuringInitialScan {
                        r@ =~= seq![
                            (oe.id, PathChange::Removed),
                            (ne.id, PathChange::AddedOrUpdated),
                        ]
                    } else {
                        r@ =~= seq![(oe.id, PathChange::Removed), (ne.id, PathChange::Added)]
                    }
                } else if oe@ != ne@ {
                    if phase is EventsReceivedDuringInitialScan {
                        r@ =~= seq![(ne.id, PathChange::AddedOrUpdated)]
                    } else if oe@.kind is UnloadedDir {
                        r@ =~= seq![(ne.id, PathChange::Loaded)]
                    } else {
                        r@ =~= seq![(ne.id, PathChange::Updated)]
                    }
                } else {
                    r@ =~= Seq::<(ProjectEntryId, PathChange)>::empty()
                }
            },
            (Some(oe), None) => r@ =~= seq![(oe.id, PathChange::Removed)],
            (None, Some(ne)) => {
                if phase is InitialScan || within_newly_loaded_dir {
                    r@ =~= seq![(ne.id, PathChange::Loaded)]
                } else {
                    r@ =~= seq![(ne.id, PathChange::Added)]
                }
            },
            (None, None) => r@ =~= Seq::<(ProjectEntryId, PathChange)>::empty(),
        },
{
    let mut r: Vec<(ProjectEntryId, PathChange)> = Vec::new();
    match (old_entry, new_entry) {
        (Some(oe), Some(ne)) => {
            if oe.id.0 != ne.id.0 {
                r.push((oe.id, PathChange::Removed));
                if matches!(phase, ScannerPhase::EventsReceivedDuringInitialScan) {
                    r.push((ne.id, PathChange::AddedOrUpdated));
                } else {
                    r.push((ne.id, PathChange::Added));
                }
            } else if !crate::delta::entry_eq(oe, ne) {
                if matches!(phase, ScannerPhase::EventsReceivedDuringInitialScan) {
                    r.push((ne.id, PathChange::AddedOrUpdated));
                } else if matches!(oe.kind, crate::entry::EntryKind::UnloadedDir) {
                    r.push((ne.id, PathChange::Loaded));
                } else {
                    r.push((ne.id, PathChange::Updated));
                }
            }
        },
        (Some(oe), None) => {
            r.push((oe.id, PathChange::Removed));
        },
        (None, Some(ne)) => {
            if matches!(phase, ScannerPhase::InitialScan) || within_newly_loaded_dir {
                r.push((ne.id, PathChange::Loaded));
            } else {
                r.push((ne.id, PathChange::Added));
            }
        },
        (None, None) => {},
    }
    r
}


/// Plain filesystem metadata, as the filesystem capability reports it.
#[derive(Clone, Copy, Debug, PartialEq, Eq, Structural)]
pub struct PlainMetadata {
    pub is_dir: bool,
    pub is_symlink: bool,
    pub is_fifo: bool,
    pub inode: u64,
    pub mtime: Option<crate::entry::Mtime>,
    pub len: u64,
}

/// `p` starts `q`, byte for byte.
pub open spec fn bytes_is_prefix(p: Seq<u8>, q: Seq<u8>) -> bool {
    p.len() <= q.len() && forall|i: int| 0 <= i < p.len() ==> p[i] == q[i]
}

pub fn bytes_starts_with(q: &Vec<u8>, p: &Vec<u8>) -> (r: bool)
    ensures
        r == bytes_is_prefix(p@, q@),
{
    if p.len() > q.len() {
        return false;
    }
    let mut i: usize = 0;
    while i < p.len()
        invariant
            i <= p@.len(),
            p@.len() <= q@.len(),
            forall|j: int| 0 <= j < i ==> p@[j] == q@[j],
        decreases p@.len() - i,
    {
        if p[i] != q[i] {
            return false;
        }
        i = i + 1;
    }
    true
}

/// One freshly discovered child, as the directory scan constructs it:
/// pending directory or file by the metadata, ignored by the ignore
/// stack in effect, external when a symlink resolves outside the
/// canonical root (or the parent already lies outside), and flagged
/// against the user's inclusion and privacy sets.
pub fn build_child_entry(
    id: ProjectEntryId,
    path: RelPath,
    meta: &PlainMetadata,
    canonical: Option<Vec<u8>>,
    root_canonical: &Vec<u8>,
    parent_external: bool,
    stack: &crate::gitignore::IgnoreStack,
    always_included: &Vec<RelPath>,
    private_paths: &Vec<RelPath>,
) -> (r: Entry)
    ensures
        r@.id == id.0,
        r@.path == path@,
        r@.kind == (if meta.is_dir {
            crate::entry::EntryKind::PendingDir
        } else {
            crate::entry::EntryKind::File
        }),
        r@.inode == meta.inode,
        r@.mtime == meta.mtime,
        r@.size == meta.len,
        r@.is_fifo == meta.is_fifo,
        r@.canonical_path == (if meta.is_symlink {
            match canonical {
                Some(c) => Some(c@),
                None => None,
            }
        } else {
            None::<Seq<u8>>
        }),
        r@.is_external == (if meta.is_symlink {
            match canonical {
                Some(c) => !bytes_is_prefix(root_canonical@, c@),
                None => parent_external,
            }
        } else {
            parent_external
        }),
        r@.is_ignored == crate::gitignore::stack_verdict(stack.view_entries(), path@, meta.is_dir),
        r@.is_always_included == crate::update::spec_matches_always(
            always_included@.map(|_i: int, p: RelPath| p@),
            path@,
        ),
        r@.is_private == crate::update::spec_matches_always(
            private_paths@.map(|_i: int, p: RelPath| p@),
            path@,
        ),
{
    let is_ignored = stack.is_path_ignored(&path, meta.is_dir);
    let is_always_included = crate::update::matches_always(always_included, &path);
    let is_private = crate::update::matches_always(private_paths, &path);
    let ghost pv = path@;
    let (canonical_path, is_external) = if meta.is_symlink {
        match canonical {
            Some(c) => {
                let ext = !bytes_starts_with(&c, root_canonical);
                (Some(c), ext)
            },
            None => (None, parent_external),
        }
    } else {
        (None, parent_external)
    };
    let r = Entry {
        id,
        kind: if meta.is_dir {
            crate::entry::EntryKind::PendingDir
        } else {
            crate::entry::EntryKind::File
        },
        path,
        inode: meta.inode,
        mtime: meta.mtime,
        canonical_path,
        is_ignored,
        is_always_included,
        is_external,
        is_private,
        is_fifo: meta.is_fifo,
        size: meta.len,
    };
    proof {
        assert(r@.path == pv);
    }
    r
}


/// What stripping the canonical root leaves of a watched absolute path:
/// the empty byte string for the root itself, the remainder behind the
/// separator for a path beneath it, nothing for a path outside.
pub open spec fn stripped_from_root(root: Seq<u8>, abs: Seq<u8>) -> Option<Seq<u8>> {
    if abs =~= root {
        Some(Seq::<u8>::empty())
    } else if bytes_is_prefix(root + seq![47u8], abs) {
        Some(abs.skip(root.len() as int + 1))
    } else {
        None
    }
}

/// The survivors of event triage, per path: events outside the canonical
/// root are dropped, as are paths that do not parse, paths whose parent
/// directory is not a loaded directory, and excluded paths; the rest
/// come back worktree-relative.
pub fn triage_event_path(
    snap: &Snapshot,
    root_canonical: &Vec<u8>,
    abs_path: &Vec<u8>,
    excludes: &Vec<RelPath>,
) -> (r: Option<RelPath>)
    requires
        snap.wf(),
    ensures
        match stripped_from_root(root_canonical@, abs_path@) {
            None => r is None,
            Some(rel) => {
                if rel.len() > 0 && !crate::relpath::path_wf(
                    crate::relpath::split_components(rel),
                ) {
                    r is None
                } else {
                    let p = if rel.len() == 0 {
                        Seq::<Seq<u8>>::empty()
                    } else {
                        crate::relpath::split_components(rel)
                    };
                    if !event_parent_loaded(snap@.entries, p) {
                        r is None
                    } else if crate::update::spec_matches_always(
                        excludes@.map(|_i: int, e: RelPath| e@),
                        p,
                    ) {
                        r is None
                    } else {
                        r matches Some(out) && out@ =~~= p
                    }
                }
            },
        },
{
    let ghost rootv = root_canonical@;
    let rel_bytes: Vec<u8> = if matches!(
        crate::relpath::bytes_cmp(abs_path, root_canonical),
        crate::relpath::Order::Equal,
    ) {
        Vec::new()
    } else {
        let mut sep_root = crate::relpath::clone_bytes(root_canonical);
        sep_root.push(47u8);
        if !bytes_starts_with(abs_path, &sep_root) {
            proof {
                assert(!(abs_path@ =~= rootv));
                assert(!bytes_is_prefix(rootv + seq![47u8], abs_path@)) by {
                    assert(sep_root@ =~= rootv + seq![47u8]);
                }
                assert(stripped_from_root(rootv, abs_path@) is None);
            }
            return None;
        }
        let mut out: Vec<u8> = Vec::new();
        let mut i: usize = sep_root.len();
        proof {
            assert(sep_root@.len() == rootv.len() + 1);
        }
        while i < abs_path.len()
            invariant
                rootv.len() + 1 <= i <= abs_path@.len(),
                out@ =~= abs_path@.subrange(rootv.len() as int + 1, i as int),
            decreases abs_path@.len() - i,
        {
            out.push(abs_path[i]);
            i = i + 1;
        }
        proof {
            assert(out@ =~= abs_path@.skip(rootv.len() as int + 1));
        }
        out
    };
    let ghost relv = rel_bytes@;
    proof {
        assert(stripped_from_root(rootv, abs_path@) == Some(relv));
    }
    let path = match RelPath::parse_bytes(&rel_bytes) {
        Some(p) => p,
        None => {
            return None;
        },
    };
    let loaded = match path.parent() {
        Some(parent) => {
            match snap.entry_for_path(&parent) {
                Some(e) => matches!(e.kind, crate::entry::EntryKind::Dir),
                None => false,
            }
        },
        None => true,
    };
    proof {
        assert(loaded == event_parent_loaded(snap@.entries, path@));
    }
    if !loaded {
        return None;
    }
    if crate::update::matches_always(excludes, &path) {
        return None;
    }
    Some(path)
}

/// The parent directory of an event path is already loaded: tracked with
/// kind directory proper. The root itself has no parent to check.
pub open spec fn event_parent_loaded(entries: Seq<EntryV>, p: Seq<Seq<u8>>) -> bool {
    if p.len() == 0 {
        true
    } else {
        entries_contain_path(entries, p.subrange(0, p.len() - 1)) && entry_at(
            entries,
            p.subrange(0, p.len() - 1),
        ).kind is Dir
    }
}

} // verus!



