//! The data model: file entries, synchronization options, the actions the
//! engine decides on, and the engine's error type.

use vstd::prelude::*;
use vstd::string::StringExecFns;

verus! {

/// One file known to either tree. `path` is the full, forward-slash path as
/// the tree listing gave it (rooted at that tree's root); `name` is the final
/// path component. Identity for matching is `(parent directory, name)`:
/// `size` and `modified` are payload, not identity.
pub struct SyncEntry {
    pub path: String,
    pub name: String,
    pub size: u64,
    pub modified: i64,
}

/// Mathematical image of a `SyncEntry`.
pub ghost struct EntryModel {
    pub path: Seq<char>,
    pub name: Seq<char>,
    pub size: u64,
    pub modified: i64,
}

impl View for SyncEntry {
    type V = EntryModel;

    open spec fn view(&self) -> EntryModel {
        EntryModel {
            path: self.path@,
            name: self.name@,
            size: self.size,
            modified: self.modified,
        }
    }
}

impl DeepView for SyncEntry {
    type V = EntryModel;

    open spec fn deep_view(&self) -> EntryModel {
        self@
    }
}

impl Clone for SyncEntry {
    fn clone(&self) -> (r: Self)
        ensures
            r@ == self@,
    {
        SyncEntry {
            path: self.path.clone(),
            name: self.name.clone(),
            size: self.size,
            modified: self.modified,
        }
    }
}

/// Which side is the source of the transfer: `Pull` copies from the remote
/// tree to the local one, `Push` the other way round.
#[derive(Clone, Copy, PartialEq, Eq, Structural, Debug)]
pub enum Direction {
    Pull,
    Push,
}

/// Immutable configuration of one run.
pub struct SyncOptions {
    pub direction: Direction,
    /// Imprint each copied file's source modification time on the destination.
    pub propagate_mtime: bool,
    /// Remove destination files and directories that have no source counterpart.
    pub delete_orphans: bool,
    /// Relative directory paths starting with any of these are skipped.
    pub ignored_prefixes: Vec<String>,
}

/// Mathematical image of `SyncOptions`.
pub ghost struct OptionsModel {
    pub direction: Direction,
    pub propagate_mtime: bool,
    pub delete_orphans: bool,
    pub ignored_prefixes: Seq<Seq<char>>,
}

impl View for SyncOptions {
    type V = OptionsModel;

    open spec fn view(&self) -> OptionsModel {
        OptionsModel {
            direction: self.direction,
            propagate_mtime: self.propagate_mtime,
            delete_orphans: self.delete_orphans,
            ignored_prefixes: self.ignored_prefixes.deep_view(),
        }
    }
}

/// Why a file is copied.
#[derive(Clone, Copy, PartialEq, Eq, Structural, Debug)]
pub enum Reason {
    /// No destination file matches the source file's identity.
    DoesNotExist,
    /// A destination file matches but its size differs.
    SizeMismatch,
    /// Sizes are equal but the source file is strictly newer.
    Newer,
}

/// One step of the synchronization plan, to be applied in order by an
/// unverified driver holding the real trees.
pub enum Action {
    /// Transfer one file's bytes from `src` (a source-tree path) to `dest`
    /// (a destination-tree path). When `preserve_mtime` is set the transfer
    /// primitive itself must imprint the source modification time.
    CopyFile { src: String, dest: String, reason: Reason, preserve_mtime: bool },
    /// Explicitly set a destination file's modification time.
    SetModifiedTime { path: String, modified: i64 },
    /// Create a directory on the destination (must succeed if it exists).
    CreateDir { path: String },
    /// Remove one destination file.
    RemoveFile { path: String },
    /// Remove a destination directory recursively; failures here are
    /// non-fatal and must not abort the run.
    RemoveDir { path: String },
    /// Report that a source directory was skipped because it matched an
    /// ignored prefix; no mutation.
    SkipIgnored { dir: String },
}

/// Mathematical image of an `Action`.
pub ghost enum ActionModel {
    CopyFile { src: Seq<char>, dest: Seq<char>, reason: Reason, preserve_mtime: bool },
    SetModifiedTime { path: Seq<char>, modified: i64 },
    CreateDir { path: Seq<char> },
    RemoveFile { path: Seq<char> },
    RemoveDir { path: Seq<char> },
    SkipIgnored { dir: Seq<char> },
}

impl View for Action {
    type V = ActionModel;

    open spec fn view(&self) -> ActionModel {
        match self {
            Action::CopyFile { src, dest, reason, preserve_mtime } => ActionModel::CopyFile {
                src: src@,
                dest: dest@,
                reason: *reason,
                preserve_mtime: *preserve_mtime,
            },
            Action::SetModifiedTime { path, modified } => ActionModel::SetModifiedTime {
                path: path@,
                modified: *modified,
            },
            Action::CreateDir { path } => ActionModel::CreateDir { path: path@ },
            Action::RemoveFile { path } => ActionModel::RemoveFile { path: path@ },
            Action::RemoveDir { path } => ActionModel::RemoveDir { path: path@ },
            Action::SkipIgnored { dir } => ActionModel::SkipIgnored { dir: dir@ },
        }
    }
}

impl DeepView for Action {
    type V = ActionModel;

    open spec fn deep_view(&self) -> ActionModel {
        self@
    }
}

/// The one error the engine itself raises: a listed entry's path does not
/// fall under its declared root, so bucket keys would be meaningless. Fatal.
#[derive(Debug)]
pub enum SyncError {
    NotUnderRoot { path: String, root: String },
}

impl SyncError {
    /// A human-readable description of the error.
    pub fn message(&self) -> (r: String)
        ensures
            self matches SyncError::NotUnderRoot { path, root } ==> r@ == "listed path '"@
                + (self->NotUnderRoot_path)@ + "' is not under root '"@
                + (self->NotUnderRoot_root)@ + "'"@,
    {
        match self {
            SyncError::NotUnderRoot { path, root } => String::from_str("listed path '").concat(
                path.as_str(),
            ).concat("' is not under root '").concat(root.as_str()).concat("'"),
        }
    }
}

} // verus!
