use worktree::entry::{Entry, EntryKind, Mtime, PathChange};
use worktree::gitignore::{GitignoreFile, IgnoreStack};
use worktree::relpath::{Order, RelPath};
use worktree::repository::{RepositoryEntry, WorkDirectory};
use worktree::scanner::{
    build_child_entry, classify_change, metadata_reads_as_gone, reuse_entry_id,
    should_scan_directory, triage_event_path, PlainMetadata, ScannerPhase,
};
use worktree::snapshot::Snapshot;
use worktree::status::{
    simple_status_code, status_from_wire, status_to_wire, FileStatus, StatusCode,
    StatusDecodeError, UnmergedStatusCode, WireStatusVariant, WIRE_ADDED, WIRE_CONFLICT,
    WIRE_MODIFIED,
};
use worktree::update::{matches_always, UpdateWorktree, WireEntry};
use worktree::ProjectEntryId;

fn p(s: &str) -> RelPath {
    RelPath::parse(s).unwrap()
}

fn file_entry(id: u64, path: &str, inode: u64) -> Entry {
    Entry {
        id: ProjectEntryId(id),
        kind: EntryKind::File,
        path: p(path),
        inode,
        mtime: Some(Mtime { seconds: 100, nanos: 0 }),
        canonical_path: None,
        is_ignored: false,
        is_always_included: false,
        is_external: false,
        is_private: false,
        is_fifo: false,
        size: 1,
    }
}

fn dir_entry(id: u64, path: &str, inode: u64) -> Entry {
    let mut e = file_entry(id, path, inode);
    e.kind = EntryKind::Dir;
    e
}

#[test]
fn path_parse_and_order() {
    let a = p("src/a.txt");
    assert_eq!(a.components.len(), 2);
    assert!(RelPath::parse("").unwrap().components.is_empty());
    assert!(RelPath::parse("a//b").is_none());
    assert!(RelPath::parse("a/../b").is_none());
    assert!(RelPath::parse("./a").is_none());
    let b = p("src/b.txt");
    assert!(matches!(a.cmp(&b), Order::Less));
    assert!(matches!(b.cmp(&a), Order::Greater));
    assert!(matches!(a.cmp(&p("src/a.txt")), Order::Equal));
    // A directory sorts before everything inside it.
    assert!(matches!(p("src").cmp(&a), Order::Less));
    assert!(a.starts_with(&p("src")));
    assert!(!p("srcx").starts_with(&p("src")));
    assert_eq!(p("src/a.txt").parent().unwrap().components, p("src").components);
    assert_eq!(p("a/b").join(&p("c/d")).components, p("a/b/c/d").components);
    assert_eq!(p("a/b/c").strip_prefix(&p("a")).unwrap().components, p("b/c").components);
}

#[test]
fn status_wire_round_trip() {
    let cases = [
        FileStatus::Untracked,
        FileStatus::Ignored,
        FileStatus::Unmerged {
            first_head: UnmergedStatusCode::Added,
            second_head: UnmergedStatusCode::Deleted,
        },
        FileStatus::Versioned {
            index_status: StatusCode::Modified,
            worktree_status: StatusCode::Unmodified,
        },
    ];
    for st in cases {
        let wire = status_to_wire(st);
        let simple = simple_status_code(st);
        assert_eq!(status_from_wire(simple, Some(wire)), Ok(st));
    }
    // The coarse fallback codes decode to canonical statuses.
    assert_eq!(
        status_from_wire(WIRE_MODIFIED, None),
        Ok(FileStatus::Versioned {
            worktree_status: StatusCode::Modified,
            index_status: StatusCode::Unmodified,
        })
    );
    assert_eq!(
        status_from_wire(WIRE_CONFLICT, None),
        Ok(FileStatus::Unmerged {
            first_head: UnmergedStatusCode::Updated,
            second_head: UnmergedStatusCode::Updated,
        })
    );
    // Codes outside the protocol are rejected.
    assert_eq!(status_from_wire(99, None), Err(StatusDecodeError::InvalidSimpleStatus));
    assert_eq!(
        status_from_wire(
            WIRE_ADDED,
            Some(WireStatusVariant::Unmerged { first_head: 99, second_head: 0 })
        ),
        Err(StatusDecodeError::InvalidUnmergedCode)
    );
    let staged = FileStatus::Versioned {
        index_status: StatusCode::Modified,
        worktree_status: StatusCode::Unmodified,
    };
    let se = worktree::status::StatusEntry { repo_path: p("a"), status: staged };
    assert_eq!(se.is_staged(), Some(true));
}

#[test]
fn create_and_observe() {
    let mut snap = Snapshot::new(1, b"proj".to_vec(), b"/tmp/proj".to_vec());
    assert_eq!(snap.scan_id(), 1);
    assert_eq!(snap.completed_scan_id(), 0);
    snap.begin_scan();
    snap.insert_entry(dir_entry(1, "src", 10), 2);
    snap.insert_entry(file_entry(2, "src/a.txt", 11), 2);
    snap.complete_scan();
    assert_eq!(snap.scan_id(), 2);
    assert_eq!(snap.completed_scan_id(), 2);
    assert_eq!(snap.entry_count(), 2);
    assert_eq!(snap.file_count(), 1);
    assert_eq!(snap.dir_count(), 1);
    let e = snap.entry_for_path(&p("src/a.txt")).unwrap();
    assert_eq!(e.id.0, 2);
    assert_eq!(e.inode, 11);
    assert_eq!(snap.inode_for_path(&p("src")), Some(10));
    // The identity index resolves back to the same path.
    let by_id = snap.entry_for_id(2).unwrap();
    assert!(matches!(by_id.path.cmp(&p("src/a.txt")), Order::Equal));
    assert!(snap.entry_for_path(&p("missing")).is_none());
    assert!(snap.entry_for_id(99).is_none());
    assert!(snap.contains_entry(1));
    let children = snap.child_entries(&p("src"));
    assert_eq!(children.len(), 1);
    assert_eq!(children[0].id.0, 2);
}

#[test]
fn traversal_filters() {
    let mut snap = Snapshot::new(1, b"r".to_vec(), b"/r".to_vec());
    snap.insert_entry(dir_entry(1, "a", 1), 0);
    snap.insert_entry(file_entry(2, "a/f", 2), 0);
    let mut ignored = file_entry(3, "a/g", 3);
    ignored.is_ignored = true;
    snap.insert_entry(ignored, 0);
    let files = snap.files(true, 0);
    assert_eq!(files.len(), 2);
    let visible_files = snap.files(false, 0);
    assert_eq!(visible_files.len(), 1);
    assert_eq!(visible_files[0].id.0, 2);
    let dirs = snap.directories(true, 0);
    assert_eq!(dirs.len(), 1);
    assert_eq!(snap.visible_file_count(), 1);
    assert_eq!(snap.visible_entry_count(), 2);
    // A counted start offset skips into the filtered sequence.
    let from_second = snap.entries(true, 1);
    assert_eq!(from_second.len(), 2);
    assert_eq!(from_second[0].id.0, 2);
}

#[test]
fn delete_removes_subtree() {
    let mut snap = Snapshot::new(1, b"r".to_vec(), b"/r".to_vec());
    snap.insert_entry(dir_entry(1, "a", 1), 0);
    snap.insert_entry(file_entry(2, "a/x", 2), 0);
    snap.insert_entry(file_entry(3, "b", 3), 0);
    let removed = snap.delete_entry(1).unwrap();
    assert!(matches!(removed.cmp(&p("a")), Order::Equal));
    assert!(snap.entry_for_path(&p("a")).is_none());
    assert!(snap.entry_for_path(&p("a/x")).is_none());
    assert!(snap.entry_for_id(2).is_none());
    assert_eq!(snap.entry_for_path(&p("b")).unwrap().id.0, 3);
    assert!(snap.delete_entry(42).is_none());
}

#[test]
fn rename_reuse_by_inode() {
    // A path removed in the batch reappears elsewhere with the same inode
    // and mtime: the new entry keeps the removed entry's id.
    let snap = Snapshot::new(1, b"r".to_vec(), b"/r".to_vec());
    let removed = vec![file_entry(42, "a/x", 1001)];
    let mut fresh = file_entry(7, "b/x", 1001);
    reuse_entry_id(&mut fresh, &removed, &snap);
    assert_eq!(fresh.id.0, 42);

    // Same inode but different mtime and different path: no reuse.
    let mut other = file_entry(8, "c/y", 1001);
    other.mtime = Some(Mtime { seconds: 999, nanos: 0 });
    reuse_entry_id(&mut other, &removed, &snap);
    assert_eq!(other.id.0, 8);

    // Same inode, different mtime, same path: reuse.
    let mut same_path = file_entry(9, "a/x", 1001);
    same_path.mtime = Some(Mtime { seconds: 999, nanos: 0 });
    reuse_entry_id(&mut same_path, &removed, &snap);
    assert_eq!(same_path.id.0, 42);
}

#[test]
fn reuse_existing_id_at_path() {
    let mut snap = Snapshot::new(1, b"r".to_vec(), b"/r".to_vec());
    snap.insert_entry(file_entry(5, "f", 50), 0);
    let mut fresh = file_entry(99, "f", 51);
    reuse_entry_id(&mut fresh, &Vec::new(), &snap);
    assert_eq!(fresh.id.0, 5);
}

#[test]
fn case_only_rename() {
    // The canonical name disagrees in case on a case-insensitive
    // filesystem, so the old spelling reads as gone.
    assert!(metadata_reads_as_gone(false, false, &b"README.md".to_vec(), &b"readme.md".to_vec()));
    assert!(!metadata_reads_as_gone(true, false, &b"README.md".to_vec(), &b"readme.md".to_vec()));
    assert!(!metadata_reads_as_gone(false, false, &b"readme.md".to_vec(), &b"readme.md".to_vec()));

    // The rename then lands as remove-old-case plus add-new-case in one
    // batch, and the inode carries the id across.
    let mut snap = Snapshot::new(1, b"r".to_vec(), b"/r".to_vec());
    snap.insert_entry(file_entry(7, "README.md", 70), 0);
    let removed_entry = {
        let e = snap.entry_for_path(&p("README.md")).unwrap();
        e.clone_entry()
    };
    snap.remove_entry_by_id(7);
    let removed = vec![removed_entry];
    let mut fresh = file_entry(8, "readme.md", 70);
    reuse_entry_id(&mut fresh, &removed, &snap);
    assert_eq!(fresh.id.0, 7);
    snap.insert_entry(fresh, 0);
    assert_eq!(snap.entry_count(), 1);
    assert_eq!(snap.entry_for_path(&p("readme.md")).unwrap().id.0, 7);
}

#[test]
fn remote_apply() {
    let mut remote = Snapshot::new(9, b"r".to_vec(), b"/r".to_vec());
    let update = UpdateWorktree {
        project_id: 1,
        worktree_id: 9,
        abs_path: b"/r".to_vec(),
        root_name: b"r".to_vec(),
        updated_entries: vec![
            WireEntry {
                id: 1,
                is_dir: true,
                path: p("a"),
                inode: 1,
                mtime: None,
                is_ignored: false,
                is_external: false,
                is_fifo: false,
                size: 0,
                canonical_path: None,
            },
            WireEntry {
                id: 2,
                is_dir: false,
                path: p("a/b"),
                inode: 2,
                mtime: None,
                is_ignored: false,
                is_external: false,
                is_fifo: false,
                size: 3,
                canonical_path: None,
            },
        ],
        removed_entries: Vec::new(),
        scan_id: 5,
        is_last_update: true,
        updated_repositories: Vec::new(),
        removed_repositories: Vec::new(),
    };
    assert!(remote.apply_remote_update(&update, &Vec::new()).is_ok());
    assert_eq!(remote.scan_id(), 5);
    assert_eq!(remote.completed_scan_id(), 5);
    assert_eq!(remote.entry_for_path(&p("a/b")).unwrap().id.0, 2);
    assert!(remote.repository_for_path(&p("a/b")).is_none());

    // A mismatched worktree id is refused and changes nothing.
    let mut wrong = Snapshot::new(8, b"r".to_vec(), b"/r".to_vec());
    assert!(wrong.apply_remote_update(&update, &Vec::new()).is_err());
    assert_eq!(wrong.entry_count(), 0);
}

#[test]
fn build_update_round_trip() {
    // A mirror caught up by one delta matches the target on every lookup.
    let always: Vec<RelPath> = Vec::new();
    let mut base = Snapshot::new(3, b"r".to_vec(), b"/r".to_vec());
    base.insert_entry(dir_entry(1, "a", 1), 0);
    base.insert_entry(file_entry(2, "a/x", 2), 0);
    base.insert_entry(file_entry(3, "b", 3), 0);
    base.complete_scan();

    let mut target = Snapshot::new(3, b"r".to_vec(), b"/r".to_vec());
    target.insert_entry(dir_entry(1, "a", 1), 0);
    // a/x moved to a/y with its id; b is gone; c is new.
    target.insert_entry(file_entry(2, "a/y", 2), 0);
    target.insert_entry(file_entry(4, "c", 4), 0);
    target.begin_scan();
    target.complete_scan();

    let update = worktree::delta::build_update(&base, &target, 1);
    assert_eq!(update.scan_id, target.scan_id());
    assert!(update.is_last_update);
    assert!(base.apply_remote_update(&update, &always).is_ok());
    assert_eq!(base.entry_count(), target.entry_count());
    assert!(base.entry_for_path(&p("a/x")).is_none());
    assert_eq!(base.entry_for_path(&p("a/y")).unwrap().id.0, 2);
    assert_eq!(base.entry_for_path(&p("c")).unwrap().id.0, 4);
    assert!(base.entry_for_id(3).is_none());
    assert_eq!(base.scan_id(), target.scan_id());
    assert_eq!(base.completed_scan_id(), target.completed_scan_id());
}

#[test]
fn repository_external_to_root() {
    // The repository root lies above the worktree root: the work
    // directory is the root itself and repo paths carry the location
    // inside the repository.
    let wd = WorkDirectory { path: RelPath::root(), location_in_repo: Some(p("src")) };
    let rp = wd.relativize(&p("main.rs")).unwrap();
    assert!(matches!(rp.cmp(&p("src/main.rs")), Order::Equal));
    let back = wd.unrelativize(&rp).unwrap();
    assert!(matches!(back.cmp(&p("main.rs")), Order::Equal));
    assert!(wd.unrelativize(&p("elsewhere/file")).is_none());

    let mut repo = RepositoryEntry {
        work_directory_id: ProjectEntryId(1),
        work_directory: wd,
        branch: Some(b"main".to_vec()),
        statuses_by_path: Vec::new(),
    };
    let st = FileStatus::Versioned {
        index_status: StatusCode::Unmodified,
        worktree_status: StatusCode::Modified,
    };
    repo.set_status(&p("src/main.rs"), st);
    assert_eq!(repo.status_len(), 1);
    let found = repo.status_for_path(&p("src/main.rs")).unwrap();
    assert_eq!(found.status, st);

    let mut snap = Snapshot::new(1, b"src".to_vec(), b"/proj/src".to_vec());
    snap.insert_entry(dir_entry(1, "", 1), 0);
    snap.add_repository(repo);
    assert_eq!(snap.status_for_file(&p("main.rs")), Some(st));
    assert_eq!(snap.status_for_file(&p("other.rs")), None);
}

#[test]
fn deepest_repository_wins() {
    let mut snap = Snapshot::new(1, b"r".to_vec(), b"/r".to_vec());
    snap.insert_entry(dir_entry(1, "", 1), 0);
    snap.insert_entry(dir_entry(2, "sub", 2), 0);
    snap.add_repository(RepositoryEntry {
        work_directory_id: ProjectEntryId(1),
        work_directory: WorkDirectory { path: RelPath::root(), location_in_repo: None },
        branch: None,
        statuses_by_path: Vec::new(),
    });
    snap.add_repository(RepositoryEntry {
        work_directory_id: ProjectEntryId(2),
        work_directory: WorkDirectory { path: p("sub"), location_in_repo: None },
        branch: None,
        statuses_by_path: Vec::new(),
    });
    let rep = snap.repository_for_path(&p("sub/file")).unwrap();
    assert_eq!(rep.work_directory_id.0, 2);
    let rep2 = snap.repository_for_path(&p("top/file")).unwrap();
    assert_eq!(rep2.work_directory_id.0, 1);
}

#[test]
fn ignore_propagation() {
    // `.gitignore` holding `build/` makes the build directory ignored,
    // and nothing else.
    let file = GitignoreFile::parse(vec!["build/".to_string()]).unwrap();
    let mut stack = IgnoreStack::none();
    assert!(!stack.is_path_ignored(&p("build"), true));
    stack.append(RelPath::root(), file);
    assert!(stack.is_path_ignored(&p("build"), true));
    // A file beneath the ignored directory is not matched on its own:
    // the scanner never descends into an ignored directory, so the file
    // stays absent from the tree.
    assert!(!stack.is_path_ignored(&p("build/x"), false));
    assert!(!stack.is_path_ignored(&p("src"), true));
    assert!(!stack.is_path_ignored(&p("buildx"), true));

    // A deeper whitelist overrides an outer ignore.
    let outer = GitignoreFile::parse(vec!["*.log".to_string()]).unwrap();
    let inner = GitignoreFile::parse(vec!["!keep.log".to_string()]).unwrap();
    let mut stack2 = IgnoreStack::none();
    stack2.append(RelPath::root(), outer);
    stack2.append(p("sub"), inner);
    assert!(stack2.is_path_ignored(&p("sub/noise.log"), false));
    assert!(!stack2.is_path_ignored(&p("sub/keep.log"), false));
}

#[test]
fn scan_directory_policy() {
    let sf = b".settings".to_vec();
    let plain = dir_entry(1, "src", 1);
    assert!(should_scan_directory(&plain, &sf, &Vec::new(), &Vec::new(), &Vec::new()));
    let mut hidden = dir_entry(2, "build", 2);
    hidden.is_ignored = true;
    assert!(!should_scan_directory(&hidden, &sf, &Vec::new(), &Vec::new(), &Vec::new()));
    // Ever-scanned directories stay scanned.
    assert!(should_scan_directory(&hidden, &sf, &vec![2], &Vec::new(), &Vec::new()));
    // A pending scan target beneath the directory forces the descent.
    assert!(should_scan_directory(&hidden, &sf, &Vec::new(), &vec![p("build/x")], &Vec::new()));
    // A registered prefix above it does too.
    assert!(should_scan_directory(&hidden, &sf, &Vec::new(), &Vec::new(), &vec![p("build")]));
    // The repository metadata directory is always entered.
    let mut dotgit = dir_entry(3, ".git", 3);
    dotgit.is_ignored = true;
    assert!(should_scan_directory(&dotgit, &sf, &Vec::new(), &Vec::new(), &Vec::new()));
    // So is the local settings folder.
    let mut settings = dir_entry(4, "a/.settings", 4);
    settings.is_ignored = true;
    assert!(should_scan_directory(&settings, &sf, &Vec::new(), &Vec::new(), &Vec::new()));
    let mut included = hidden.clone_entry();
    included.is_always_included = true;
    assert!(should_scan_directory(&included, &sf, &Vec::new(), &Vec::new(), &Vec::new()));
}

#[test]
fn always_included_matching() {
    let always = vec![p("vendor")];
    assert!(matches_always(&always, &p("vendor/lib.rs")));
    assert!(matches_always(&always, &p("vendor")));
    assert!(!matches_always(&always, &p("src/lib.rs")));
}

#[test]
fn repository_status_delta() {
    // Applying a repository delta replaces the branch, drops removed
    // statuses and installs updated ones.
    let mut repo = RepositoryEntry {
        work_directory_id: ProjectEntryId(1),
        work_directory: WorkDirectory { path: RelPath::root(), location_in_repo: None },
        branch: Some(b"old".to_vec()),
        statuses_by_path: Vec::new(),
    };
    repo.set_status(&p("gone.rs"), FileStatus::Untracked);
    repo.set_status(&p("kept.rs"), FileStatus::Untracked);
    let wire = worktree::update::WireRepositoryEntry {
        work_directory_id: 1,
        branch: Some(b"new".to_vec()),
        updated_statuses: vec![worktree::update::WireStatusEntry {
            repo_path: p("kept.rs"),
            simple_status: WIRE_CONFLICT,
            status: None,
        }],
        removed_statuses: vec![p("gone.rs")],
    };
    worktree::repos::apply_repository_delta(&mut repo, &wire);
    assert_eq!(repo.branch, Some(b"new".to_vec()));
    assert!(repo.status_for_path(&p("gone.rs")).is_none());
    let kept = repo.status_for_path(&p("kept.rs")).unwrap();
    assert_eq!(
        kept.status,
        FileStatus::Unmerged {
            first_head: UnmergedStatusCode::Updated,
            second_head: UnmergedStatusCode::Updated,
        }
    );
}

#[test]
fn absolutize_paths() {
    let snap = Snapshot::new(1, b"proj".to_vec(), b"/home/u/proj".to_vec());
    assert_eq!(snap.absolutize(&p("src/a.txt")), b"/home/u/proj/src/a.txt".to_vec());
    // The empty relative path is the root itself.
    assert_eq!(snap.absolutize(&RelPath::root()), b"/home/u/proj".to_vec());
}

#[test]
fn observed_snapshot_threshold() {
    let mut snap = Snapshot::new(1, b"r".to_vec(), b"/r".to_vec());
    assert!(!snap.observed_snapshot(1));
    snap.complete_scan();
    assert!(snap.observed_snapshot(1));
    assert!(!snap.observed_snapshot(2));
}

#[test]
fn apply_removals_and_repositories() {
    let mut remote = Snapshot::new(4, b"r".to_vec(), b"/r".to_vec());
    let seed = UpdateWorktree {
        project_id: 1,
        worktree_id: 4,
        abs_path: b"/r".to_vec(),
        root_name: b"r".to_vec(),
        updated_entries: vec![
            WireEntry {
                id: 1,
                is_dir: true,
                path: RelPath::root(),
                inode: 1,
                mtime: None,
                is_ignored: false,
                is_external: false,
                is_fifo: false,
                size: 0,
                canonical_path: None,
            },
            WireEntry {
                id: 2,
                is_dir: false,
                path: p("doomed"),
                inode: 2,
                mtime: None,
                is_ignored: false,
                is_external: false,
                is_fifo: false,
                size: 0,
                canonical_path: None,
            },
        ],
        removed_entries: Vec::new(),
        scan_id: 1,
        is_last_update: true,
        updated_repositories: vec![worktree::update::WireRepositoryEntry {
            work_directory_id: 1,
            branch: Some(b"main".to_vec()),
            updated_statuses: vec![worktree::update::WireStatusEntry {
                repo_path: p("doomed"),
                simple_status: WIRE_ADDED,
                status: None,
            }],
            removed_statuses: Vec::new(),
        }],
        removed_repositories: Vec::new(),
    };
    assert!(remote.apply_remote_update(&seed, &Vec::new()).is_ok());
    assert_eq!(remote.entry_count(), 2);
    let rep = remote.repository_for_path(&p("doomed")).unwrap();
    assert_eq!(rep.work_directory_id.0, 1);
    assert_eq!(rep.branch, Some(b"main".to_vec()));

    let tear_down = UpdateWorktree {
        project_id: 1,
        worktree_id: 4,
        abs_path: b"/r".to_vec(),
        root_name: b"r".to_vec(),
        updated_entries: Vec::new(),
        removed_entries: vec![2],
        scan_id: 2,
        is_last_update: true,
        updated_repositories: Vec::new(),
        removed_repositories: vec![1],
    };
    assert!(remote.apply_remote_update(&tear_down, &Vec::new()).is_ok());
    assert!(remote.entry_for_id(2).is_none());
    assert!(remote.repository_for_path(&p("anything")).is_none());
    assert_eq!(remote.completed_scan_id(), 2);
}

#[test]
fn change_classification() {
    let old_e = file_entry(1, "a", 1);
    let mut new_e = file_entry(1, "a", 1);
    new_e.size = 2;
    // Same id, different contents: an update.
    let r = classify_change(Some(&old_e), Some(&new_e), ScannerPhase::Events, false);
    assert_eq!(r.len(), 1);
    assert_eq!(r[0], (ProjectEntryId(1), PathChange::Updated));
    // Different ids: a removal then an addition.
    let replacement = file_entry(2, "a", 9);
    let r = classify_change(Some(&old_e), Some(&replacement), ScannerPhase::Events, false);
    assert_eq!(r, vec![
        (ProjectEntryId(1), PathChange::Removed),
        (ProjectEntryId(2), PathChange::Added),
    ]);
    // During the overlap of events and the initial scan, the ambiguity
    // is kept.
    let r = classify_change(
        Some(&old_e),
        Some(&replacement),
        ScannerPhase::EventsReceivedDuringInitialScan,
        false,
    );
    assert_eq!(r[1], (ProjectEntryId(2), PathChange::AddedOrUpdated));
    // An unloaded directory filling in reads as a load.
    let mut unloaded = dir_entry(3, "d", 3);
    unloaded.kind = EntryKind::UnloadedDir;
    let loaded = dir_entry(3, "d", 3);
    let r = classify_change(Some(&unloaded), Some(&loaded), ScannerPhase::Events, false);
    assert_eq!(r, vec![(ProjectEntryId(3), PathChange::Loaded)]);
    // A brand-new path during the initial scan is a load, later an
    // addition.
    let r = classify_change(None, Some(&loaded), ScannerPhase::InitialScan, false);
    assert_eq!(r, vec![(ProjectEntryId(3), PathChange::Loaded)]);
    let r = classify_change(None, Some(&loaded), ScannerPhase::Events, false);
    assert_eq!(r, vec![(ProjectEntryId(3), PathChange::Added)]);
    // A vanished path is a removal; identical sides are silent.
    let r = classify_change(Some(&old_e), None, ScannerPhase::Events, false);
    assert_eq!(r, vec![(ProjectEntryId(1), PathChange::Removed)]);
    assert!(classify_change(Some(&old_e), Some(&old_e), ScannerPhase::Events, false).is_empty());
}

#[test]
fn lowest_tracked_ancestor() {
    let mut snap = Snapshot::new(1, b"r".to_vec(), b"/r".to_vec());
    snap.insert_entry(dir_entry(1, "a", 1), 0);
    snap.insert_entry(dir_entry(2, "a/b", 2), 0);
    let anc = snap.lowest_ancestor(&p("a/b/c/d.txt"));
    assert!(matches!(anc.cmp(&p("a/b")), Order::Equal));
    // Nothing tracked: the root itself.
    let anc2 = snap.lowest_ancestor(&p("x/y"));
    assert!(anc2.components.is_empty());
}

#[test]
fn event_triage() {
    let mut snap = Snapshot::new(1, b"r".to_vec(), b"/r".to_vec());
    snap.insert_entry(dir_entry(1, "", 1), 0);
    snap.insert_entry(dir_entry(2, "src", 2), 0);
    let root = b"/r".to_vec();
    let excludes = vec![p("target")];
    // A path under a loaded directory survives, worktree-relative.
    let got = triage_event_path(&snap, &root, &b"/r/src/main.rs".to_vec(), &excludes).unwrap();
    assert!(matches!(got.cmp(&p("src/main.rs")), Order::Equal));
    // Outside the root: dropped.
    assert!(triage_event_path(&snap, &root, &b"/elsewhere/f".to_vec(), &excludes).is_none());
    // Beneath an unloaded (untracked) directory: dropped.
    assert!(triage_event_path(&snap, &root, &b"/r/ghost/f".to_vec(), &excludes).is_none());
    // Excluded: dropped.
    assert!(triage_event_path(&snap, &root, &b"/r/target".to_vec(), &excludes).is_none());
}

#[test]
fn scan_child_construction() {
    let file = GitignoreFile::parse(vec!["*.tmp".to_string()]).unwrap();
    let mut stack = IgnoreStack::none();
    stack.append(RelPath::root(), file);
    let meta = PlainMetadata {
        is_dir: false,
        is_symlink: false,
        is_fifo: false,
        inode: 9,
        mtime: Some(Mtime { seconds: 5, nanos: 0 }),
        len: 12,
    };
    let e = build_child_entry(
        ProjectEntryId(3),
        p("junk.tmp"),
        &meta,
        None,
        &b"/r".to_vec(),
        false,
        &stack,
        &Vec::new(),
        &Vec::new(),
    );
    assert!(e.is_ignored);
    assert_eq!(e.kind, EntryKind::File);
    assert_eq!(e.inode, 9);
    assert_eq!(e.size, 12);
    // A symlink resolving outside the canonical root is external.
    let link_meta = PlainMetadata { is_symlink: true, ..meta };
    let ext = build_child_entry(
        ProjectEntryId(4),
        p("link"),
        &link_meta,
        Some(b"/outside/place".to_vec()),
        &b"/r".to_vec(),
        false,
        &stack,
        &Vec::new(),
        &Vec::new(),
    );
    assert!(ext.is_external);
    assert_eq!(ext.canonical_path, Some(b"/outside/place".to_vec()));
    let inside = build_child_entry(
        ProjectEntryId(5),
        p("link2"),
        &link_meta,
        Some(b"/r/sub".to_vec()),
        &b"/r".to_vec(),
        false,
        &stack,
        &Vec::new(),
        &Vec::new(),
    );
    assert!(!inside.is_external);
}

#[test]
fn repository_round_trip_through_update() {
    // The repository side of replication: statuses and branch carried by
    // a delta land exactly on the mirror.
    let always: Vec<RelPath> = Vec::new();
    let st_mod = FileStatus::Versioned {
        index_status: StatusCode::Unmodified,
        worktree_status: StatusCode::Modified,
    };
    let mut base = Snapshot::new(6, b"r".to_vec(), b"/r".to_vec());
    base.insert_entry(dir_entry(1, "", 1), 0);
    base.complete_scan();
    let mut mirror = Snapshot::new(6, b"r".to_vec(), b"/r".to_vec());

    let mut target = Snapshot::new(6, b"r".to_vec(), b"/r".to_vec());
    target.insert_entry(dir_entry(1, "", 1), 0);
    let mut repo = RepositoryEntry {
        work_directory_id: ProjectEntryId(1),
        work_directory: WorkDirectory { path: RelPath::root(), location_in_repo: None },
        branch: Some(b"main".to_vec()),
        statuses_by_path: Vec::new(),
    };
    repo.set_status(&p("new.rs"), FileStatus::Untracked);
    repo.set_status(&p("edited.rs"), st_mod);
    target.add_repository(repo);
    target.complete_scan();

    // Catch the mirror up in two hops: base state, then the target.
    let first = worktree::delta::build_update(&mirror, &base, 1);
    assert!(mirror.apply_remote_update(&first, &always).is_ok());
    let second = worktree::delta::build_update(&mirror, &target, 1);
    assert_eq!(second.updated_repositories.len(), 1);
    assert!(mirror.apply_remote_update(&second, &always).is_ok());
    assert_eq!(mirror.status_for_file(&p("edited.rs")), Some(st_mod));
    assert_eq!(mirror.status_for_file(&p("new.rs")), Some(FileStatus::Untracked));
    assert_eq!(mirror.status_for_file(&p("other.rs")), None);
    let rep = mirror.repository_for_path(&p("new.rs")).unwrap();
    assert_eq!(rep.branch, Some(b"main".to_vec()));
    assert_eq!(rep.status_len(), 2);

    // Dropping a status travels too.
    let mut target2 = Snapshot::new(6, b"r".to_vec(), b"/r".to_vec());
    target2.insert_entry(dir_entry(1, "", 1), 0);
    let mut repo2 = RepositoryEntry {
        work_directory_id: ProjectEntryId(1),
        work_directory: WorkDirectory { path: RelPath::root(), location_in_repo: None },
        branch: Some(b"main".to_vec()),
        statuses_by_path: Vec::new(),
    };
    repo2.set_status(&p("edited.rs"), st_mod);
    target2.add_repository(repo2);
    target2.begin_scan();
    target2.complete_scan();
    let third = worktree::delta::build_update(&mirror, &target2, 1);
    assert!(mirror.apply_remote_update(&third, &always).is_ok());
    assert_eq!(mirror.status_for_file(&p("new.rs")), None);
    assert_eq!(mirror.status_for_file(&p("edited.rs")), Some(st_mod));
}
