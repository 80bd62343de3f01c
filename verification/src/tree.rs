//! What a file tree is and what the commands' steps do to one.
//!
//! Paths are compared as written: two spellings of one place are two paths.
//! A tree knows directories, files and symbolic links, and nothing of owners
//! or permissions. A file or a link can stand at a path whose parents the
//! tree does not hold; directories are made with their parents.

use vstd::prelude::*;
use vstd::utf8::*;

use crate::commands::ActionView;
use crate::error::KpvError;
use crate::listing::DirEntry;
use crate::paths::joined;

verus! {

/// What a path holds, as plain values.
pub ghost enum NodeView {
    Dir,
    File { content: Seq<u8> },
    Link { target: Seq<char> },
}

/// A file tree: what each path holds.
pub type Tree = Map<Seq<char>, NodeView>;

/// `path` is `dir` or lies in it.
pub open spec fn is_below(path: Seq<char>, dir: Seq<char>) -> bool {
    path == dir || (0 < dir.len() < path.len() && path.take(dir.len() as int) == dir && (dir.last()
        == '/' || path[dir.len() as int] == '/'))
}

/// `dir` is among the directories that creating `path` with all its parents
/// makes: `path` itself, and each part of it that ends before a separator
/// and not in one.
pub open spec fn is_made_with(dir: Seq<char>, path: Seq<char>) -> bool {
    dir.len() > 0 && (dir == path || (dir.len() < path.len() && path.take(dir.len() as int) == dir
        && path[dir.len() as int] == '/' && dir.last() != '/'))
}

/// Nothing but directories stands where creating `path` needs directories.
pub open spec fn dirs_free(tree: Tree, path: Seq<char>) -> bool {
    forall|dir: Seq<char>|
        #![trigger is_made_with(dir, path)]
        is_made_with(dir, path) && tree.dom().contains(dir) ==> tree[dir] is Dir
}

/// The tree with the directories of `path` that are no longer than `upto`.
pub open spec fn with_dirs_upto(tree: Tree, path: Seq<char>, upto: int) -> Tree {
    Map::new(
        |p: Seq<char>| tree.dom().contains(p) || (is_made_with(p, path) && p.len() <= upto),
        |p: Seq<char>|
            if tree.dom().contains(p) {
                tree[p]
            } else {
                NodeView::Dir
            },
    )
}

/// The tree with `path` and all its parents as directories.
pub open spec fn with_dirs(tree: Tree, path: Seq<char>) -> Tree {
    with_dirs_upto(tree, path, path.len() as int)
}

/// The tree without `dir` and all that lies in it.
pub open spec fn without_dir(tree: Tree, dir: Seq<char>) -> Tree {
    Map::new(|p: Seq<char>| tree.dom().contains(p) && !is_below(p, dir), |p: Seq<char>| tree[p])
}

/// The bytes read at `path`: those of the file there, or of the file that a
/// link there points to.
pub open spec fn contents(tree: Tree, path: Seq<char>) -> Option<Seq<u8>> {
    if !tree.dom().contains(path) {
        None
    } else {
        match tree[path] {
            NodeView::File { content } => Some(content),
            NodeView::Link { target } => if tree.dom().contains(target) {
                match tree[target] {
                    NodeView::File { content } => Some(content),
                    _ => None,
                }
            } else {
                None
            },
            NodeView::Dir => None,
        }
    }
}

/// A file that holds `content`.
pub open spec fn file_of(content: Seq<u8>) -> NodeView {
    NodeView::File { content }
}

/// A link that points to `target`.
pub open spec fn link_to(target: Seq<char>) -> NodeView {
    NodeView::Link { target }
}

/// A file can be written at `path`: nothing is there, or a file is.
pub open spec fn can_write(tree: Tree, path: Seq<char>) -> bool {
    !tree.dom().contains(path) || tree[path] is File
}

/// The tree after a step, or `None` where the tree refuses the step.
pub open spec fn applied(tree: Tree, action: ActionView) -> Option<Tree> {
    match action {
        ActionView::CreateDirAll { path } => if dirs_free(tree, path) {
            Some(with_dirs(tree, path))
        } else {
            None
        },
        ActionView::CopyFile { from, to } => match contents(tree, from) {
            Some(content) => if can_write(tree, to) {
                Some(tree.insert(to, file_of(content)))
            } else {
                None
            },
            None => None,
        },
        ActionView::Symlink { target, link } => if tree.dom().contains(link) {
            None
        } else {
            Some(tree.insert(link, link_to(target)))
        },
        ActionView::RemoveDirAll { path } => if tree.dom().contains(path) && tree[path] is Dir {
            Some(without_dir(tree, path))
        } else {
            None
        },
    }
}

/// The tree after the steps of a plan, taken in order, or `None` where one
/// of them is refused.
pub open spec fn applied_all(tree: Tree, steps: Seq<ActionView>) -> Option<Tree>
    decreases steps.len(),
{
    if steps.len() == 0 {
        Some(tree)
    } else {
        match applied(tree, steps[0]) {
            Some(next) => applied_all(next, steps.skip(1)),
            None => None,
        }
    }
}

/// Creating `path` with its parents stops after the parts of `path` that
/// are no longer than `upto`: they can be directories, and the next longer
/// part holds something else.
pub open spec fn stops_after(tree: Tree, path: Seq<char>, upto: int) -> bool {
    &&& 0 <= upto < path.len()
    &&& forall|dir: Seq<char>|
        #![trigger is_made_with(dir, path)]
        is_made_with(dir, path) && dir.len() <= upto && tree.dom().contains(dir)
            ==> tree[dir] is Dir
    &&& is_made_with(path.take(upto + 1), path)
    &&& tree.dom().contains(path.take(upto + 1))
    &&& !(tree[path.take(upto + 1)] is Dir)
}

/// What a refused step leaves behind: the directories that it made before
/// it was stopped, and nothing else.
pub open spec fn left_by_refused(before: Tree, after: Tree, action: ActionView) -> bool {
    match action {
        ActionView::CreateDirAll { path } => exists|upto: int|
            #![trigger with_dirs_upto(before, path, upto)]
            stops_after(before, path, upto) && after == with_dirs_upto(before, path, upto),
        _ => after == before,
    }
}

/// The kinds of things that a path can hold.
#[derive(Clone, Copy, Debug, PartialEq, Eq, Structural)]
pub enum Kind {
    Dir,
    File,
    Link,
}

/// The kind of what is at `path`.
pub open spec fn kind_at(tree: Tree, path: Seq<char>) -> Option<Kind> {
    if !tree.dom().contains(path) {
        None
    } else {
        match tree[path] {
            NodeView::Dir => Some(Kind::Dir),
            NodeView::File { .. } => Some(Kind::File),
            NodeView::Link { .. } => Some(Kind::Link),
        }
    }
}

/// The step that makes a directory with its parents.
pub open spec fn mkdir_step(path: Seq<char>) -> ActionView {
    ActionView::CreateDirAll { path }
}

/// The step that copies a file.
pub open spec fn copy_step(from: Seq<char>, to: Seq<char>) -> ActionView {
    ActionView::CopyFile { from, to }
}

/// The step that makes a link.
pub open spec fn link_step(target: Seq<char>, link: Seq<char>) -> ActionView {
    ActionView::Symlink { target, link }
}

/// The step that removes a directory.
pub open spec fn remove_step(path: Seq<char>) -> ActionView {
    ActionView::RemoveDirAll { path }
}

/// How a step ends on a tree: done, with the tree as the step leaves it, or
/// refused with `KpvError::Io`.
pub open spec fn is_outcome(
    done: Result<(), KpvError>,
    before: Tree,
    after: Tree,
    action: ActionView,
) -> bool {
    match applied(before, action) {
        Some(tree) => done is Ok && after == tree,
        None => done == Err::<(), KpvError>(KpvError::Io) && left_by_refused(before, after, action),
    }
}

/// A name that one entry of a directory can have: not empty, no separator.
pub open spec fn is_child_name(name: Seq<char>) -> bool {
    name.len() > 0 && !name.contains('/')
}

/// The name of an entry, as text.
pub open spec fn entry_name(entry: DirEntry) -> Seq<char> {
    decode_utf8(entry.name@)
}

/// One of the entries has the name `name`.
pub open spec fn listed(entries: Seq<DirEntry>, name: Seq<char>) -> bool {
    exists|k: int| 0 <= k < entries.len() && entry_name(#[trigger] entries[k]) == name
}

/// `entries` is a listing of the directory `dir`: one entry for each path
/// of the tree that stands directly in `dir`, with its name in UTF-8 and
/// with whether it is a directory. The order of the entries is left open.
pub open spec fn lists(tree: Tree, dir: Seq<char>, entries: Seq<DirEntry>) -> bool {
    &&& forall|k: int|
        0 <= k < entries.len() ==> {
            let entry = #[trigger] entries[k];
            &&& valid_utf8(entry.name@)
            &&& is_child_name(entry_name(entry))
            &&& tree.dom().contains(joined(dir, entry_name(entry)))
            &&& entry.is_dir == (tree[joined(dir, entry_name(entry))] is Dir)
        }
    &&& forall|name: Seq<char>|
        is_child_name(name) && tree.dom().contains(#[trigger] joined(dir, name)) ==> listed(
            entries,
            name,
        )
    &&& forall|k1: int, k2: int|
        0 <= k1 < k2 < entries.len() ==> entry_name(#[trigger] entries[k1]) != entry_name(
            #[trigger] entries[k2],
        )
}

/// What a plan with a refused step may leave behind: the tree after the
/// steps before the refused one, with what the refused step left.
pub open spec fn left_by_refused_plan(before: Tree, after: Tree, steps: Seq<ActionView>) -> bool
    decreases steps.len(),
{
    if steps.len() == 0 {
        false
    } else {
        match applied(before, steps[0]) {
            Some(next) => left_by_refused_plan(next, after, steps.skip(1)),
            None => left_by_refused(before, after, steps[0]),
        }
    }
}

/// How a plan ends on a tree: done, with the tree as its steps leave it, or
/// refused at one of them with `KpvError::Io`.
pub open spec fn is_plan_outcome(
    done: Result<(), KpvError>,
    before: Tree,
    after: Tree,
    steps: Seq<ActionView>,
) -> bool {
    match applied_all(before, steps) {
        Some(tree) => done is Ok && after == tree,
        None => done == Err::<(), KpvError>(KpvError::Io) && left_by_refused_plan(
            before,
            after,
            steps,
        ),
    }
}

} // verus!
