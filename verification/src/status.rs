use vstd::prelude::*;

use crate::relpath::RelPath;

verus! {

/// Wire code for an added / created state.
pub const WIRE_ADDED: i32 = 0;

/// Wire code for a modified state.
pub const WIRE_MODIFIED: i32 = 1;

/// Wire code for a merge conflict.
pub const WIRE_CONFLICT: i32 = 2;

/// Wire code for a deleted state.
pub const WIRE_DELETED: i32 = 3;

/// Wire code for an updated state of an unmerged head.
pub const WIRE_UPDATED: i32 = 4;

/// Wire code for a type-changed state.
pub const WIRE_TYPE_CHANGED: i32 = 5;

/// Wire code for a renamed state.
pub const WIRE_RENAMED: i32 = 6;

/// Wire code for a copied state.
pub const WIRE_COPIED: i32 = 7;

/// Wire code for an unmodified state.
pub const WIRE_UNMODIFIED: i32 = 8;

/// The state of one side of an unmerged path.
#[derive(Clone, Copy, Debug, PartialEq, Eq, Structural)]
pub enum UnmergedStatusCode {
    Added,
    Updated,
    Deleted,
}

/// The state of a tracked path in the index or in the work tree.
#[derive(Clone, Copy, Debug, PartialEq, Eq, Structural)]
pub enum StatusCode {
    Unmodified,
    Modified,
    TypeChanged,
    Added,
    Deleted,
    Renamed,
    Copied,
}

/// The full status of one path in a repository.
#[derive(Clone, Copy, Debug, PartialEq, Eq, Structural)]
pub enum FileStatus {
    Untracked,
    Ignored,
    Unmerged { first_head: UnmergedStatusCode, second_head: UnmergedStatusCode },
    Versioned { index_status: StatusCode, worktree_status: StatusCode },
}

/// The status payload as carried on the wire: a coarse fallback code plus
/// the full tagged variant.
#[derive(Clone, Copy, Debug, PartialEq, Eq, Structural)]
pub enum WireStatusVariant {
    Untracked,
    Ignored,
    Unmerged { first_head: i32, second_head: i32 },
    Versioned { index_status: i32, worktree_status: i32 },
}

/// Decoding failure: a code or variant outside the protocol.
#[derive(Clone, Copy, Debug, PartialEq, Eq, Structural)]
pub enum StatusDecodeError {
    InvalidSimpleStatus,
    InvalidUnmergedCode,
    InvalidTrackedCode,
}

pub open spec fn spec_unmerged_to_wire(code: UnmergedStatusCode) -> i32 {
    match code {
        UnmergedStatusCode::Added => WIRE_ADDED,
        UnmergedStatusCode::Deleted => WIRE_DELETED,
        UnmergedStatusCode::Updated => WIRE_UPDATED,
    }
}

pub open spec fn spec_tracked_to_wire(code: StatusCode) -> i32 {
    match code {
        StatusCode::Added => WIRE_ADDED,
        StatusCode::Deleted => WIRE_DELETED,
        StatusCode::Modified => WIRE_MODIFIED,
        StatusCode::Renamed => WIRE_RENAMED,
        StatusCode::TypeChanged => WIRE_TYPE_CHANGED,
        StatusCode::Copied => WIRE_COPIED,
        StatusCode::Unmodified => WIRE_UNMODIFIED,
    }
}

pub open spec fn spec_status_to_wire(status: FileStatus) -> WireStatusVariant {
    match status {
        FileStatus::Untracked => WireStatusVariant::Untracked,
        FileStatus::Ignored => WireStatusVariant::Ignored,
        FileStatus::Unmerged { first_head, second_head } => WireStatusVariant::Unmerged {
            first_head: spec_unmerged_to_wire(first_head),
            second_head: spec_unmerged_to_wire(second_head),
        },
        FileStatus::Versioned { index_status, worktree_status } => WireStatusVariant::Versioned {
            index_status: spec_tracked_to_wire(index_status),
            worktree_status: spec_tracked_to_wire(worktree_status),
        },
    }
}

/// The coarse single-code fallback: untracked and ignored paths read as
/// added, unmerged paths as a conflict, and tracked paths report the work
/// tree status unless it is unmodified, in which case the index status.
pub open spec fn spec_simple_status(status: FileStatus) -> i32 {
    match status {
        FileStatus::Untracked => WIRE_ADDED,
        FileStatus::Ignored => WIRE_ADDED,
        FileStatus::Unmerged { .. } => WIRE_CONFLICT,
        FileStatus::Versioned { index_status, worktree_status } => if worktree_status
            != StatusCode::Unmodified {
            spec_tracked_to_wire(worktree_status)
        } else {
            spec_tracked_to_wire(index_status)
        },
    }
}

pub open spec fn spec_unmerged_from_wire(code: i32) -> Result<
    UnmergedStatusCode,
    StatusDecodeError,
> {
    if code == WIRE_ADDED {
        Ok(UnmergedStatusCode::Added)
    } else if code == WIRE_UPDATED {
        Ok(UnmergedStatusCode::Updated)
    } else if code == WIRE_DELETED {
        Ok(UnmergedStatusCode::Deleted)
    } else {
        Err(StatusDecodeError::InvalidUnmergedCode)
    }
}

pub open spec fn spec_tracked_from_wire(code: i32) -> Result<StatusCode, StatusDecodeError> {
    if code == WIRE_MODIFIED {
        Ok(StatusCode::Modified)
    } else if code == WIRE_TYPE_CHANGED {
        Ok(StatusCode::TypeChanged)
    } else if code == WIRE_ADDED {
        Ok(StatusCode::Added)
    } else if code == WIRE_DELETED {
        Ok(StatusCode::Deleted)
    } else if code == WIRE_RENAMED {
        Ok(StatusCode::Renamed)
    } else if code == WIRE_COPIED {
        Ok(StatusCode::Copied)
    } else if code == WIRE_UNMODIFIED {
        Ok(StatusCode::Unmodified)
    } else {
        Err(StatusDecodeError::InvalidTrackedCode)
    }
}

/// Decoding of the wire payload. Without the full variant, only the four
/// coarse codes are meaningful; each maps to a canonical full status.
pub open spec fn spec_status_from_wire(simple_status: i32, status: Option<WireStatusVariant>) -> Result<FileStatus, StatusDecodeError> {
    match status {
        None => {
            if simple_status == WIRE_ADDED {
                Ok(
                    FileStatus::Versioned {
                        worktree_status: StatusCode::Added,
                        index_status: StatusCode::Unmodified,
                    },
                )
            } else if simple_status == WIRE_MODIFIED {
                Ok(
                    FileStatus::Versioned {
                        worktree_status: StatusCode::Modified,
                        index_status: StatusCode::Unmodified,
                    },
                )
            } else if simple_status == WIRE_CONFLICT {
                Ok(
                    FileStatus::Unmerged {
                        first_head: UnmergedStatusCode::Updated,
                        second_head: UnmergedStatusCode::Updated,
                    },
                )
            } else if simple_status == WIRE_DELETED {
                Ok(
                    FileStatus::Versioned {
                        worktree_status: StatusCode::Deleted,
                        index_status: StatusCode::Unmodified,
                    },
                )
            } else {
                Err(StatusDecodeError::InvalidSimpleStatus)
            }
        },
        Some(WireStatusVariant::Untracked) => Ok(FileStatus::Untracked),
        Some(WireStatusVariant::Ignored) => Ok(FileStatus::Ignored),
        Some(WireStatusVariant::Unmerged { first_head, second_head }) => {
            match (spec_unmerged_from_wire(first_head), spec_unmerged_from_wire(second_head)) {
                (Ok(a), Ok(b)) => Ok(FileStatus::Unmerged { first_head: a, second_head: b }),
                (Err(e), _) => Err(e),
                (_, Err(e)) => Err(e),
            }
        },
        Some(WireStatusVariant::Versioned { index_status, worktree_status }) => {
            match (spec_tracked_from_wire(index_status), spec_tracked_from_wire(worktree_status)) {
                (Ok(a), Ok(b)) => Ok(
                    FileStatus::Versioned { index_status: a, worktree_status: b },
                ),
                (Err(e), _) => Err(e),
                (_, Err(e)) => Err(e),
            }
        },
    }
}

pub fn unmerged_status_to_wire(code: UnmergedStatusCode) -> (r: i32)
    ensures
        r == spec_unmerged_to_wire(code),
{
    match code {
        UnmergedStatusCode::Added => WIRE_ADDED,
        UnmergedStatusCode::Deleted => WIRE_DELETED,
        UnmergedStatusCode::Updated => WIRE_UPDATED,
    }
}

pub fn tracked_status_to_wire(code: StatusCode) -> (r: i32)
    ensures
        r == spec_tracked_to_wire(code),
{
    match code {
        StatusCode::Added => WIRE_ADDED,
        StatusCode::Deleted => WIRE_DELETED,
        StatusCode::Modified => WIRE_MODIFIED,
        StatusCode::Renamed => WIRE_RENAMED,
        StatusCode::TypeChanged => WIRE_TYPE_CHANGED,
        StatusCode::Copied => WIRE_COPIED,
        StatusCode::Unmodified => WIRE_UNMODIFIED,
    }
}

pub fn status_to_wire(status: FileStatus) -> (r: WireStatusVariant)
    ensures
        r == spec_status_to_wire(status),
{
    match status {
        FileStatus::Untracked => WireStatusVariant::Untracked,
        FileStatus::Ignored => WireStatusVariant::Ignored,
        FileStatus::Unmerged { first_head, second_head } => WireStatusVariant::Unmerged {
            first_head: unmerged_status_to_wire(first_head),
            second_head: unmerged_status_to_wire(second_head),
        },
        FileStatus::Versioned { index_status, worktree_status } => WireStatusVariant::Versioned {
            index_status: tracked_status_to_wire(index_status),
            worktree_status: tracked_status_to_wire(worktree_status),
        },
    }
}

pub fn simple_status_code(status: FileStatus) -> (r: i32)
    ensures
        r == spec_simple_status(status),
{
    match status {
        FileStatus::Untracked => WIRE_ADDED,
        FileStatus::Ignored => WIRE_ADDED,
        FileStatus::Unmerged { .. } => WIRE_CONFLICT,
        FileStatus::Versioned { index_status, worktree_status } => {
            if !matches!(worktree_status, StatusCode::Unmodified) {
                tracked_status_to_wire(worktree_status)
            } else {
                tracked_status_to_wire(index_status)
            }
        },
    }
}

pub fn unmerged_status_from_wire(code: i32) -> (r: Result<UnmergedStatusCode, StatusDecodeError>)
    ensures
        r == spec_unmerged_from_wire(code),
{
    if code == WIRE_ADDED {
        Ok(UnmergedStatusCode::Added)
    } else if code == WIRE_UPDATED {
        Ok(UnmergedStatusCode::Updated)
    } else if code == WIRE_DELETED {
        Ok(UnmergedStatusCode::Deleted)
    } else {
        Err(StatusDecodeError::InvalidUnmergedCode)
    }
}

pub fn tracked_status_from_wire(code: i32) -> (r: Result<StatusCode, StatusDecodeError>)
    ensures
        r == spec_tracked_from_wire(code),
{
    if code == WIRE_MODIFIED {
        Ok(StatusCode::Modified)
    } else if code == WIRE_TYPE_CHANGED {
        Ok(StatusCode::TypeChanged)
    } else if code == WIRE_ADDED {
        Ok(StatusCode::Added)
    } else if code == WIRE_DELETED {
        Ok(StatusCode::Deleted)
    } else if code == WIRE_RENAMED {
        Ok(StatusCode::Renamed)
    } else if code == WIRE_COPIED {
        Ok(StatusCode::Copied)
    } else if code == WIRE_UNMODIFIED {
        Ok(StatusCode::Unmodified)
    } else {
        Err(StatusDecodeError::InvalidTrackedCode)
    }
}

pub fn status_from_wire(simple_status: i32, status: Option<WireStatusVariant>) -> (r: Result<
    FileStatus,
    StatusDecodeError,
>)
    ensures
        r == spec_status_from_wire(simple_status, status),
{
    match status {
        None => {
            if simple_status == WIRE_ADDED {
                Ok(
                    FileStatus::Versioned {
                        worktree_status: StatusCode::Added,
                        index_status: StatusCode::Unmodified,
                    },
                )
            } else if simple_status == WIRE_MODIFIED {
                Ok(
                    FileStatus::Versioned {
                        worktree_status: StatusCode::Modified,
                        index_status: StatusCode::Unmodified,
                    },
                )
            } else if simple_status == WIRE_CONFLICT {
                Ok(
                    FileStatus::Unmerged {
                        first_head: UnmergedStatusCode::Updated,
                        second_head: UnmergedStatusCode::Updated,
                    },
                )
            } else if simple_status == WIRE_DELETED {
                Ok(
                    FileStatus::Versioned {
                        worktree_status: StatusCode::Deleted,
                        index_status: StatusCode::Unmodified,
                    },
                )
            } else {
                Err(StatusDecodeError::InvalidSimpleStatus)
            }
        },
        Some(WireStatusVariant::Untracked) => Ok(FileStatus::Untracked),
        Some(WireStatusVariant::Ignored) => Ok(FileStatus::Ignored),
        Some(WireStatusVariant::Unmerged { first_head, second_head }) => {
            match unmerged_status_from_wire(first_head) {
                Ok(a) => match unmerged_status_from_wire(second_head) {
                    Ok(b) => Ok(FileStatus::Unmerged { first_head: a, second_head: b }),
                    Err(e) => Err(e),
                },
                Err(e) => Err(e),
            }
        },
        Some(WireStatusVariant::Versioned { index_status, worktree_status }) => {
            match tracked_status_from_wire(index_status) {
                Ok(a) => match tracked_status_from_wire(worktree_status) {
                    Ok(b) => Ok(FileStatus::Versioned { index_status: a, worktree_status: b }),
                    Err(e) => Err(e),
                },
                Err(e) => Err(e),
            }
        },
    }
}

/// A full status survives the trip onto the wire and back: encoding a
/// status and decoding the result yields the same status, whatever coarse
/// fallback code travels beside it.
pub proof fn lemma_status_wire_round_trip(status: FileStatus, simple: i32)
    ensures
        spec_status_from_wire(simple, Some(spec_status_to_wire(status))) == Ok::<
            FileStatus,
            StatusDecodeError,
        >(status),
{
}

/// One recorded status of one path, relative to the repository root.
#[derive(Debug)]
pub struct StatusEntry {
    pub repo_path: RelPath,
    pub status: FileStatus,
}

/// The mathematical value of a `StatusEntry`.
pub struct StatusEntryV {
    pub repo_path: Seq<Seq<u8>>,
    pub status: FileStatus,
}

impl View for StatusEntry {
    type V = StatusEntryV;

    open spec fn view(&self) -> StatusEntryV {
        StatusEntryV { repo_path: self.repo_path@, status: self.status }
    }
}

impl StatusEntry {
    pub fn clone_status_entry(&self) -> (r: StatusEntry)
        ensures
            r@ == self@,
    {
        let r = StatusEntry { repo_path: self.repo_path.clone_path(), status: self.status };
        proof {
            assert(r@.repo_path =~~= self@.repo_path);
            assert(r@ == self@);
        }
        r
    }

    /// Whether the path has changes staged in the index; `None` when that
    /// cannot be told from the status alone.
    pub fn is_staged(&self) -> (r: Option<bool>)
        ensures
            r == spec_is_staged(self.status),
    {
        match self.status {
            FileStatus::Untracked => Some(false),
            FileStatus::Ignored => Some(false),
            FileStatus::Unmerged { .. } => None,
            FileStatus::Versioned { index_status, worktree_status } => {
                let staged = !matches!(index_status, StatusCode::Unmodified);
                let unstaged = !matches!(worktree_status, StatusCode::Unmodified);
                if staged && !unstaged {
                    Some(true)
                } else if !staged {
                    Some(false)
                } else {
                    None
                }
            },
        }
    }
}

/// Whether a status speaks of staged changes only (`Some(true)`), of no
/// staged changes (`Some(false)`), or of a mix that cannot be classified.
pub open spec fn spec_is_staged(status: FileStatus) -> Option<bool> {
    match status {
        FileStatus::Untracked => Some(false),
        FileStatus::Ignored => Some(false),
        FileStatus::Unmerged { .. } => None,
        FileStatus::Versioned { index_status, worktree_status } => {
            if index_status != StatusCode::Unmodified && worktree_status == StatusCode::Unmodified {
                Some(true)
            } else if index_status == StatusCode::Unmodified {
                Some(false)
            } else {
                None
            }
        },
    }
}

} // verus!
