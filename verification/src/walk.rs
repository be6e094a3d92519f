//! The decisions of a walk over the granted folder, one directory entry at a
//! time. The caller lists directories and reads files; what each entry means
//! for the index is decided here.
use vstd::prelude::*;
use crate::strings::str_equals;
use crate::vfs::PathComponent;
use crate::workspace::{
    extension_of, is_markdown_extension, saturating_sum, WorkspaceIndex, WorkspaceLimits,
};
use crate::strings::ascii_lowercase;

verus! {

/// Two path components are the same component.
pub open spec fn same_component(a: PathComponent, b: PathComponent) -> bool {
    match (a, b) {
        (PathComponent::Prefix(x), PathComponent::Prefix(y)) => x@ == y@,
        (PathComponent::RootDir, PathComponent::RootDir) => true,
        (PathComponent::CurDir, PathComponent::CurDir) => true,
        (PathComponent::ParentDir, PathComponent::ParentDir) => true,
        (PathComponent::Normal(x), PathComponent::Normal(y)) => x@ == y@,
        _ => false,
    }
}

fn component_equals(a: &PathComponent, b: &PathComponent) -> (r: bool)
    ensures
        r == same_component(*a, *b),
{
    match (a, b) {
        (PathComponent::Prefix(x), PathComponent::Prefix(y)) => str_equals(x.as_str(), y.as_str()),
        (PathComponent::RootDir, PathComponent::RootDir) => true,
        (PathComponent::CurDir, PathComponent::CurDir) => true,
        (PathComponent::ParentDir, PathComponent::ParentDir) => true,
        (PathComponent::Normal(x), PathComponent::Normal(y)) => str_equals(x.as_str(), y.as_str()),
        _ => false,
    }
}

/// Whether a resolved path lies inside the granted folder: the folder's
/// components begin the path's, as `Path::starts_with` compares them.
pub fn is_within_root(root: &[PathComponent], path: &[PathComponent]) -> (b: bool)
    ensures
        b == (root@.len() <= path@.len() && forall|i: int|
            0 <= i < root@.len() ==> same_component(#[trigger] root@[i], path@[i])),
{
    if root.len() > path.len() {
        return false;
    }
    let mut i: usize = 0;
    while i < root.len()
        invariant
            root@.len() <= path@.len(),
            i <= root@.len(),
            forall|j: int| 0 <= j < i ==> same_component(#[trigger] root@[j], path@[j]),
        decreases root@.len() - i,
    {
        if !component_equals(&root[i], &path[i]) {
            return false;
        }
        i = i + 1;
    }
    true
}

/// What a directory entry is on disk.
#[derive(Clone, Copy, Debug, PartialEq, Eq, Structural)]
pub enum EntryKind {
    Directory,
    File,
    Other,
}

/// What the walk learnt of one directory entry. A `None` is something the
/// system could not tell: the entry's resolved path, its kind or its size.
#[derive(Clone, Debug)]
pub struct WalkEntry {
    pub name: String,
    /// Whether the resolved entry lies inside the granted folder.
    pub inside_root: Option<bool>,
    pub kind: Option<EntryKind>,
    /// The path relative to the folder, `/`-separated.
    pub relative_path: Option<String>,
    pub byte_len: Option<u64>,
}

/// What the walk does with an entry.
#[derive(Clone, Copy, Debug, PartialEq, Eq, Structural)]
pub enum WalkAction {
    /// Pass over it without counting it.
    Ignore,
    /// It could not be used; it was counted as skipped.
    Skipped,
    /// Walk into the directory later.
    Descend,
    /// A limit was reached: end the walk.
    Stop,
    /// Read the note (or reuse an earlier reading).
    Read,
}

/// The action for an entry and the index after it: folders of other tools
/// are passed over; an entry that cannot be resolved, lies outside the
/// folder or has no known kind is skipped; directories are walked into; only
/// Markdown files go on, until the file limit stops the walk; a note is then
/// admitted by its size against the note and scan budgets.
pub open spec fn walk_outcome(index: WorkspaceIndex, e: WalkEntry, limits: WorkspaceLimits) -> (WalkAction, WorkspaceIndex) {
    let skip = WorkspaceIndex { skipped: (index.skipped + 1) as usize, ..index };
    if e.name@ == ".git"@ || e.name@ == ".obsidian"@ {
        (WalkAction::Ignore, index)
    } else if e.inside_root != Some(true) || e.kind is None {
        (WalkAction::Skipped, skip)
    } else if e.kind == Some(EntryKind::Directory) {
        (WalkAction::Descend, index)
    } else if e.kind != Some(EntryKind::File) || !(e.relative_path matches Some(p) && (extension_of(p@) matches Some(x)
        && is_markdown_extension(ascii_lowercase(x)))) {
        (WalkAction::Ignore, index)
    } else if index.notes@.len() >= limits.max_files {
        (WalkAction::Stop, WorkspaceIndex { truncated: true, ..index })
    } else {
        match e.byte_len {
            None => (WalkAction::Skipped, skip),
            Some(n) => if n > limits.max_note_bytes {
                (WalkAction::Skipped, skip)
            } else if saturating_sum(index.scanned_bytes, n) > limits.max_scanned_bytes {
                (WalkAction::Stop, WorkspaceIndex { scan_truncated: true, ..index })
            } else {
                (WalkAction::Read, WorkspaceIndex { scanned_bytes: saturating_sum(index.scanned_bytes, n) as u64, ..index })
            },
        }
    }
}

/// Decides on one directory entry and records it in the index.
pub fn walk_step(index: &mut WorkspaceIndex, entry: &WalkEntry, limits: WorkspaceLimits) -> (a: WalkAction)
    requires
        old(index).skipped < usize::MAX,
    ensures
        (a, *final(index)) == walk_outcome(*old(index), *entry, limits),
{
    if crate::workspace::is_ignored_entry_name(entry.name.as_str()) {
        return WalkAction::Ignore;
    }
    let kind = match (entry.inside_root, entry.kind) {
        (Some(true), Some(k)) => k,
        _ => {
            index.record_skip();
            return WalkAction::Skipped;
        },
    };
    let markdown = match kind {
        EntryKind::Directory => return WalkAction::Descend,
        EntryKind::File => match &entry.relative_path {
            Some(p) => crate::workspace::is_markdown_path(p.as_str()),
            None => false,
        },
        EntryKind::Other => false,
    };
    if !markdown {
        return WalkAction::Ignore;
    }
    if index.reached_file_limit(limits) {
        return WalkAction::Stop;
    }
    let n = match entry.byte_len {
        Some(n) => n,
        None => {
            index.record_skip();
            return WalkAction::Skipped;
        },
    };
    match index.admit_note_bytes(n, limits) {
        crate::workspace::NoteAdmission::Skip => WalkAction::Skipped,
        crate::workspace::NoteAdmission::Stop => WalkAction::Stop,
        crate::workspace::NoteAdmission::Read => WalkAction::Read,
    }
}

/// The texts of a list of paths.
pub open spec fn path_texts(v: Seq<String>) -> Seq<Seq<char>> {
    v.map_values(|p: String| p@)
}

/// Whether a directory is met for the first time; if so it is remembered,
/// so that a directory reached twice (through a link) is walked once.
pub fn first_visit(visited: &mut Vec<String>, directory: &str) -> (b: bool)
    ensures
        b == !path_texts(old(visited)@).contains(directory@),
        b ==> path_texts(final(visited)@) == path_texts(old(visited)@).push(directory@),
        !b ==> final(visited)@ == old(visited)@,
{
    let mut i: usize = 0;
    while i < visited.len()
        invariant
            i <= visited@.len(),
            forall|j: int| 0 <= j < i ==> visited@[j]@ != directory@,
        decreases visited@.len() - i,
    {
        if str_equals(visited[i].as_str(), directory) {
            proof {
                assert(path_texts(visited@)[i as int] == directory@);
            }
            return false;
        }
        i = i + 1;
    }
    proof {
        assert forall|j: int| 0 <= j < path_texts(visited@).len() implies path_texts(visited@)[j] != directory@ by {
            assert(visited@[j]@ != directory@);
        }
    }
    let ghost before = visited@;
    visited.push(directory.to_owned());
    proof {
        assert(path_texts(visited@) =~= path_texts(before).push(directory@));
    }
    true
}

} // verus!
