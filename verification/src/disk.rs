//! An in-memory file tree on which the commands' steps can be carried out.
//!
//! A step that the tree refuses fails with `KpvError::Io`.

use vstd::prelude::*;
use vstd::slice::*;
use vstd::string::*;
use vstd::utf8::*;

use crate::commands::{steps_view, Action};
use crate::error::KpvError;
use crate::listing::DirEntry;
use crate::paths::{join, joined, lemma_joined_splits};
use crate::tree::{
    applied_all, can_write, contents, copy_step, dirs_free, entry_name, file_of, is_below,
    is_child_name, is_made_with, is_outcome, is_plan_outcome, kind_at, left_by_refused_plan,
    link_step, listed, lists, mkdir_step, remove_step, stops_after, with_dirs, with_dirs_upto,
    without_dir, Kind, NodeView, Tree,
};

verus! {

/// What a path holds.
#[derive(Clone, Debug, PartialEq, Eq)]
pub enum Node {
    Dir,
    File { content: Vec<u8> },
    Link { target: String },
}

impl View for Node {
    type V = NodeView;

    open spec fn view(&self) -> NodeView {
        match self {
            Node::Dir => NodeView::Dir,
            Node::File { content } => NodeView::File { content: content@ },
            Node::Link { target } => NodeView::Link { target: target@ },
        }
    }
}

/// One path of the tree with what it holds.
struct Slot {
    path: String,
    node: Node,
}

/// No path stands twice.
spec fn distinct(slots: Seq<Slot>) -> bool {
    forall|i: int, j: int|
        0 <= i < j < slots.len() ==> (#[trigger] slots[i]).path@ != (#[trigger] slots[j]).path@
}

/// Some slot is for `path`.
spec fn holds(slots: Seq<Slot>, path: Seq<char>) -> bool {
    exists|i: int| 0 <= i < slots.len() && (#[trigger] slots[i]).path@ == path
}

/// The first slot for `path`.
spec fn slot_of(slots: Seq<Slot>, path: Seq<char>) -> int {
    choose|i: int| 0 <= i < slots.len() && (#[trigger] slots[i]).path@ == path
}

/// The tree that the slots spell out.
spec fn tree_of(slots: Seq<Slot>) -> Tree {
    Map::new(|p: Seq<char>| holds(slots, p), |p: Seq<char>| slots[slot_of(slots, p)].node@)
}

proof fn lemma_tree_at(slots: Seq<Slot>, i: int)
    requires
        distinct(slots),
        0 <= i < slots.len(),
    ensures
        tree_of(slots).dom().contains(slots[i].path@),
        tree_of(slots)[slots[i].path@] == slots[i].node@,
{
    let p = slots[i].path@;
    assert(holds(slots, p));
    let k = slot_of(slots, p);
    assert(0 <= k < slots.len() && slots[k].path@ == p);
    if k < i {
        assert(slots[k].path@ != slots[i].path@);
    } else if i < k {
        assert(slots[i].path@ != slots[k].path@);
    }
}

proof fn lemma_tree_push(slots: Seq<Slot>, slot: Slot)
    requires
        distinct(slots),
        !holds(slots, slot.path@),
    ensures
        distinct(slots.push(slot)),
        tree_of(slots.push(slot)) == tree_of(slots).insert(slot.path@, slot.node@),
{
    let after = slots.push(slot);
    assert forall|i: int, j: int| 0 <= i < j < after.len() implies (#[trigger] after[i]).path@ != (
    #[trigger] after[j]).path@ by {
        if j == slots.len() {
            assert(slots[i].path@ != slot.path@);
        } else {
            assert(slots[i].path@ != slots[j].path@);
        }
    }
    assert forall|p: Seq<char>| holds(after, p) <==> (holds(slots, p) || p == slot.path@) by {
        if holds(after, p) {
            let k = slot_of(after, p);
            if k < slots.len() {
                assert(slots[k].path@ == p);
            }
        }
        if holds(slots, p) {
            let k = slot_of(slots, p);
            assert(after[k].path@ == p);
        }
        if p == slot.path@ {
            assert(after[slots.len() as int].path@ == p);
        }
    }
    assert forall|p: Seq<char>| holds(after, p) implies #[trigger] tree_of(after)[p] == tree_of(
        slots,
    ).insert(slot.path@, slot.node@)[p] by {
        let k = slot_of(after, p);
        lemma_tree_at(after, k);
        if k < slots.len() {
            lemma_tree_at(slots, k);
        }
    }
    assert(tree_of(after) =~= tree_of(slots).insert(slot.path@, slot.node@));
}

proof fn lemma_tree_remove(slots: Seq<Slot>, i: int)
    requires
        distinct(slots),
        0 <= i < slots.len(),
    ensures
        distinct(slots.remove(i)),
        !holds(slots.remove(i), slots[i].path@),
        tree_of(slots.remove(i)) == tree_of(slots).remove(slots[i].path@),
{
    let after = slots.remove(i);
    let gone = slots[i].path@;
    assert forall|a: int| 0 <= a < after.len() implies (#[trigger] after[a]) == slots[if a < i {
        a
    } else {
        a + 1
    }] by {}
    assert forall|a: int, b: int| 0 <= a < b < after.len() implies (#[trigger] after[a]).path@ != (
    #[trigger] after[b]).path@ by {
        let a0 = if a < i { a } else { a + 1 };
        let b0 = if b < i { b } else { b + 1 };
        assert(slots[a0].path@ != slots[b0].path@);
    }
    assert forall|p: Seq<char>| holds(after, p) <==> (holds(slots, p) && p != gone) by {
        if holds(after, p) {
            let k = slot_of(after, p);
            let k0 = if k < i { k } else { k + 1 };
            assert(slots[k0].path@ == p);
            if k0 < i {
                assert(slots[k0].path@ != slots[i].path@);
            } else {
                assert(slots[i].path@ != slots[k0].path@);
            }
        }
        if holds(slots, p) && p != gone {
            let k = slot_of(slots, p);
            let k1 = if k < i { k } else { k - 1 };
            assert(after[k1].path@ == p);
        }
    }
    assert forall|p: Seq<char>| holds(after, p) implies #[trigger] tree_of(after)[p] == tree_of(
        slots,
    )[p] by {
        let k = slot_of(after, p);
        let k0 = if k < i { k } else { k + 1 };
        lemma_tree_at(after, k);
        lemma_tree_at(slots, k0);
    }
    assert(tree_of(after) =~= tree_of(slots).remove(gone));
}

/// The slot for `path`, where there is one.
fn find(slots: &Vec<Slot>, path: &String) -> (found: Option<usize>)
    ensures
        match found {
            Some(i) => i < slots@.len() && slots@[i as int].path@ == path@,
            None => !holds(slots@, path@),
        },
{
    let mut i: usize = 0;
    while i < slots.len()
        invariant
            i <= slots@.len(),
            forall|k: int| 0 <= k < i ==> (#[trigger] slots@[k]).path@ != path@,
        decreases slots@.len() - i,
    {
        if slots[i].path == *path {
            return Some(i);
        }
        i += 1;
    }
    None
}

/// Lets `path` hold `node`, whatever it held.
fn put(slots: &mut Vec<Slot>, path: String, node: Node)
    requires
        distinct(old(slots)@),
    ensures
        distinct(final(slots)@),
        tree_of(final(slots)@) == tree_of(old(slots)@).insert(path@, node@),
{
    let ghost before = slots@;
    if let Some(i) = find(slots, &path) {
        proof {
            lemma_tree_remove(before, i as int);
        }
        slots.remove(i);
    }
    let ghost middle = slots@;
    let slot = Slot { path, node };
    proof {
        lemma_tree_push(middle, slot);
        assert(tree_of(middle).insert(slot.path@, slot.node@) =~= tree_of(before).insert(
            slot.path@,
            slot.node@,
        ));
    }
    slots.push(slot);
}

/// Whether `path` is `dir` or lies in it.
fn below(path: &str, dir: &str) -> (yes: bool)
    ensures
        yes == is_below(path@, dir@),
{
    let len_path: usize = path.unicode_len();
    let len_dir: usize = dir.unicode_len();
    if len_path < len_dir {
        return false;
    }
    let mut i: usize = 0;
    while i < len_dir
        invariant
            len_path == path@.len(),
            len_dir == dir@.len(),
            len_dir <= len_path,
            i <= len_dir,
            forall|k: int| 0 <= k < i ==> path@[k] == dir@[k],
        decreases len_dir - i,
    {
        if path.get_char(i) != dir.get_char(i) {
            proof {
                assert(path@.take(len_dir as int)[i as int] != dir@[i as int]);
            }
            return false;
        }
        i += 1;
    }
    proof {
        assert(path@.take(len_dir as int) =~= dir@);
    }
    if len_path == len_dir {
        proof {
            assert(path@.take(len_dir as int) =~= path@);
        }
        return true;
    }
    len_dir > 0 && (dir.get_char(len_dir - 1) == '/' || path.get_char(len_dir) == '/')
}

/// Takes out `dir` and every slot in it.
fn remove_below(slots: &mut Vec<Slot>, dir: &str)
    requires
        distinct(old(slots)@),
    ensures
        distinct(final(slots)@),
        tree_of(final(slots)@) == without_dir(tree_of(old(slots)@), dir@),
{
    let ghost before = tree_of(slots@);
    let mut i: usize = 0;
    while i < slots.len()
        invariant
            distinct(slots@),
            i <= slots@.len(),
            forall|k: int| 0 <= k < i ==> !is_below((#[trigger] slots@[k]).path@, dir@),
            forall|p: Seq<char>| #[trigger]
                tree_of(slots@).dom().contains(p) ==> before.dom().contains(p) && tree_of(
                    slots@,
                )[p] == before[p],
            forall|p: Seq<char>| #[trigger]
                before.dom().contains(p) && !is_below(p, dir@) ==> tree_of(slots@).dom().contains(
                    p,
                ),
        decreases slots@.len() - i,
    {
        if below(slots[i].path.as_str(), dir) {
            proof {
                lemma_tree_remove(slots@, i as int);
            }
            slots.remove(i);
        } else {
            i += 1;
        }
    }
    proof {
        assert forall|p: Seq<char>| tree_of(slots@).dom().contains(p) implies !is_below(
            p,
            dir@,
        ) by {
            let k = slot_of(slots@, p);
            assert(slots@[k].path@ == p);
        }
        assert(tree_of(slots@) =~= without_dir(before, dir@));
    }
}

/// Makes `path` and its parents directories, as far as nothing is in the
/// way. Stops at the first part of `path` that holds something else.
fn make_dirs(slots: &mut Vec<Slot>, path: &str) -> (done: bool)
    requires
        distinct(old(slots)@),
    ensures
        distinct(final(slots)@),
        done == dirs_free(tree_of(old(slots)@), path@),
        done ==> tree_of(final(slots)@) == with_dirs(tree_of(old(slots)@), path@),
        !done ==> exists|upto: int|
            #![trigger with_dirs_upto(tree_of(old(slots)@), path@, upto)]
            stops_after(tree_of(old(slots)@), path@, upto) && tree_of(final(slots)@)
                == with_dirs_upto(tree_of(old(slots)@), path@, upto),
{
    let ghost before = tree_of(slots@);
    let n: usize = path.unicode_len();
    let mut i: usize = 0;
    proof {
        assert(tree_of(slots@) =~= with_dirs_upto(before, path@, 0));
    }
    while i < n
        invariant
            n == path@.len(),
            i <= n,
            distinct(slots@),
            before == tree_of(old(slots)@),
            tree_of(slots@) == with_dirs_upto(before, path@, i as int),
            forall|d: Seq<char>|
                #![trigger is_made_with(d, path@)]
                is_made_with(d, path@) && d.len() <= i && before.dom().contains(d)
                    ==> before[d] is Dir,
        decreases n - i,
    {
        i += 1;
        let ghost part = path@.take(i as int);
        let ghost so_far = tree_of(slots@);
        proof {
            assert forall|d: Seq<char>|
                #![trigger is_made_with(d, path@)]
                is_made_with(d, path@) && d.len() == i implies d == part by {
                if d == path@ {
                    assert(path@.take(i as int) =~= path@);
                }
            }
            assert(so_far == with_dirs_upto(before, path@, i as int - 1));
        }
        if i == n || (path.get_char(i) == '/' && path.get_char(i - 1) != '/') {
            let prefix = String::from_str(path.substring_char(0, i));
            proof {
                assert(prefix@ =~= part);
                if i == n {
                    assert(part =~= path@);
                }
                assert(is_made_with(part, path@));
            }
            match find(slots, &prefix) {
                Some(k) => {
                    proof {
                        lemma_tree_at(slots@, k as int);
                    }
                    match slots[k].node {
                        Node::Dir => {
                            proof {
                                assert(so_far[part] is Dir);
                                assert(so_far =~= with_dirs_upto(before, path@, i as int));
                            }
                        },
                        _ => {
                            proof {
                                assert(so_far.dom().contains(part));
                                assert(before.dom().contains(part));
                                assert(!(before[part] is Dir));
                                assert(!dirs_free(before, path@));
                                assert(stops_after(before, path@, i as int - 1));
                                assert(so_far == with_dirs_upto(before, path@, i as int - 1));
                            }
                            return false;
                        },
                    }
                },
                None => {
                    let slot = Slot { path: prefix, node: Node::Dir };
                    proof {
                        lemma_tree_push(slots@, slot);
                        assert(!so_far.dom().contains(part));
                        assert(so_far.insert(part, NodeView::Dir) =~= with_dirs_upto(
                            before,
                            path@,
                            i as int,
                        ));
                    }
                    slots.push(slot);
                },
            }
            proof {
                assert(tree_of(slots@) =~= with_dirs_upto(before, path@, i as int));
            }
        } else {
            proof {
                assert(!is_made_with(part, path@));
                assert(tree_of(slots@) =~= with_dirs_upto(before, path@, i as int));
            }
        }
    }
    true
}

/// The name under which `path` stands directly in the directory whose
/// paths start with `prefix`, where it does.
fn child_of(prefix: &str, path: &str) -> (name: Option<String>)
    ensures
        match name {
            Some(n) => is_child_name(n@) && path@ == prefix@ + n@,
            None => forall|n: Seq<char>| #[trigger] is_child_name(n) ==> path@ != prefix@ + n,
        },
{
    let len_prefix: usize = prefix.unicode_len();
    let len_path: usize = path.unicode_len();
    if len_path <= len_prefix {
        proof {
            assert forall|n: Seq<char>| #[trigger] is_child_name(n) implies path@ != prefix@
                + n by {
                assert((prefix@ + n).len() > path@.len());
            }
        }
        return None;
    }
    let mut i: usize = 0;
    while i < len_prefix
        invariant
            len_prefix == prefix@.len(),
            len_path == path@.len(),
            len_prefix < len_path,
            i <= len_prefix,
            forall|k: int| 0 <= k < i ==> path@[k] == prefix@[k],
        decreases len_prefix - i,
    {
        if path.get_char(i) != prefix.get_char(i) {
            proof {
                assert forall|n: Seq<char>| #[trigger] is_child_name(n) implies path@ != prefix@
                    + n by {
                    assert((prefix@ + n)[i as int] == prefix@[i as int]);
                }
            }
            return None;
        }
        i += 1;
    }
    let mut j: usize = len_prefix;
    while j < len_path
        invariant
            len_prefix == prefix@.len(),
            len_path == path@.len(),
            len_prefix <= j <= len_path,
            forall|k: int| len_prefix <= k < j ==> path@[k] != '/',
        decreases len_path - j,
    {
        if path.get_char(j) == '/' {
            proof {
                assert forall|n: Seq<char>| #[trigger] is_child_name(n) implies path@ != prefix@
                    + n by {
                    if path@ == prefix@ + n {
                        assert(n[j - len_prefix] == (prefix@ + n)[j as int]);
                        assert(n.contains('/'));
                    }
                }
            }
            return None;
        }
        j += 1;
    }
    let name = String::from_str(path.substring_char(len_prefix, len_path));
    proof {
        assert(path@ =~= prefix@ + name@);
        assert forall|k: int| 0 <= k < name@.len() implies name@[k] != '/' by {
            assert(name@[k] == path@[len_prefix + k]);
        }
    }
    Some(name)
}

/// An in-memory file tree.
pub struct Disk {
    slots: Vec<Slot>,
}

impl View for Disk {
    type V = Tree;

    closed spec fn view(&self) -> Tree {
        tree_of(self.slots@)
    }
}

impl Disk {
    #[verifier::type_invariant]
    spec fn well_formed(&self) -> bool {
        distinct(self.slots@)
    }

    /// A tree that holds nothing.
    pub fn new() -> (disk: Disk)
        ensures
            disk@ == Map::<Seq<char>, NodeView>::empty(),
    {
        let disk = Disk { slots: Vec::new() };
        proof {
            assert(tree_of(disk.slots@) =~= Map::<Seq<char>, NodeView>::empty());
        }
        disk
    }

    /// Hands the slots out, leaving none.
    fn take_slots(&mut self) -> (slots: Vec<Slot>)
        ensures
            slots@ == old(self).slots@,
            distinct(slots@),
    {
        proof {
            use_type_invariant(&*self);
        }
        let mut slots: Vec<Slot> = Vec::new();
        core::mem::swap(&mut self.slots, &mut slots);
        slots
    }

    /// Takes the slots back.
    fn set_slots(&mut self, slots: Vec<Slot>)
        requires
            distinct(slots@),
        ensures
            final(self).slots@ == slots@,
    {
        let mut slots = slots;
        core::mem::swap(&mut self.slots, &mut slots);
    }

    /// Whether anything is at `path`.
    pub fn contains(&self, path: &str) -> (found: bool)
        ensures
            found == self@.dom().contains(path@),
    {
        let owned = String::from_str(path);
        find(&self.slots, &owned).is_some()
    }

    /// Writes a file at `path`, replacing the file that was there. Refused
    /// where a directory or a link is at `path`.
    pub fn write_file(&mut self, path: &str, content: &[u8]) -> (done: Result<(), KpvError>)
        ensures
            can_write(old(self)@, path@) ==> done is Ok && final(self)@ == old(self)@.insert(
                path@,
                file_of(content@),
            ),
            !can_write(old(self)@, path@) ==> done == Err::<(), KpvError>(KpvError::Io)
                && final(self)@ == old(self)@,
    {
        let mut slots = self.take_slots();
        let owned = String::from_str(path);
        let free = match find(&slots, &owned) {
            Some(i) => {
                proof {
                    lemma_tree_at(slots@, i as int);
                }
                match slots[i].node {
                    Node::File { .. } => true,
                    _ => false,
                }
            },
            None => true,
        };
        if free {
            put(&mut slots, owned, Node::File { content: slice_to_vec(content) });
        }
        self.set_slots(slots);
        if free {
            Ok(())
        } else {
            Err(KpvError::Io)
        }
    }

    /// What is at `path`, where anything is.
    pub fn node_kind(&self, path: &str) -> (kind: Option<Kind>)
        ensures
            kind == kind_at(self@, path@),
    {
        proof {
            use_type_invariant(self);
        }
        let owned = String::from_str(path);
        match find(&self.slots, &owned) {
            Some(i) => {
                proof {
                    lemma_tree_at(self.slots@, i as int);
                }
                match self.slots[i].node {
                    Node::Dir => Some(Kind::Dir),
                    Node::File { .. } => Some(Kind::File),
                    Node::Link { .. } => Some(Kind::Link),
                }
            },
            None => None,
        }
    }

    /// The bytes read at `path`: those of the file there, or of the file
    /// that a link there points to.
    pub fn read_file(&self, path: &str) -> (bytes: Option<Vec<u8>>)
        ensures
            match contents(self@, path@) {
                Some(content) => bytes matches Some(b) && b@ == content,
                None => bytes is None,
            },
    {
        proof {
            use_type_invariant(self);
        }
        let owned = String::from_str(path);
        let i = match find(&self.slots, &owned) {
            Some(i) => i,
            None => { return None; },
        };
        proof {
            lemma_tree_at(self.slots@, i as int);
        }
        match &self.slots[i].node {
            Node::File { content } => Some(slice_to_vec(content.as_slice())),
            Node::Link { target } => {
                let j = match find(&self.slots, target) {
                    Some(j) => j,
                    None => { return None; },
                };
                proof {
                    lemma_tree_at(self.slots@, j as int);
                }
                match &self.slots[j].node {
                    Node::File { content } => Some(slice_to_vec(content.as_slice())),
                    _ => None,
                }
            },
            Node::Dir => None,
        }
    }

    /// Copies the bytes read at `from` to a file at `to`. Refused where no
    /// bytes can be read at `from` or no file can be written at `to`.
    pub fn copy_file(&mut self, from: &str, to: &str) -> (done: Result<(), KpvError>)
        ensures
            is_outcome(done, old(self)@, final(self)@, copy_step(from@, to@)),
    {
        let content = match self.read_file(from) {
            Some(c) => c,
            None => { return Err(KpvError::Io); },
        };
        self.write_file(to, content.as_slice())
    }

    /// Puts a link at `link` that points to `target`. Refused where
    /// anything is at `link`.
    pub fn symlink(&mut self, target: &str, link: &str) -> (done: Result<(), KpvError>)
        ensures
            is_outcome(done, old(self)@, final(self)@, link_step(target@, link@)),
    {
        if self.contains(link) {
            return Err(KpvError::Io);
        }
        let mut slots = self.take_slots();
        put(&mut slots, String::from_str(link), Node::Link { target: String::from_str(target) });
        self.set_slots(slots);
        Ok(())
    }

    /// Removes the directory at `path` with all that lies in it. Refused
    /// where no directory is at `path`.
    pub fn remove_dir_all(&mut self, path: &str) -> (done: Result<(), KpvError>)
        ensures
            is_outcome(done, old(self)@, final(self)@, remove_step(path@)),
    {
        match self.node_kind(path) {
            Some(Kind::Dir) => {},
            _ => { return Err(KpvError::Io); },
        }
        let mut slots = self.take_slots();
        remove_below(&mut slots, path);
        self.set_slots(slots);
        Ok(())
    }

    /// Makes a directory at `path`, and at each part of `path` that ends
    /// before a separator, the shorter ones first. Refused where one of
    /// them holds something else; the directories made until then stay.
    pub fn create_dir_all(&mut self, path: &str) -> (done: Result<(), KpvError>)
        ensures
            is_outcome(done, old(self)@, final(self)@, mkdir_step(path@)),
    {
        let mut slots = self.take_slots();
        let made = make_dirs(&mut slots, path);
        self.set_slots(slots);
        if made {
            Ok(())
        } else {
            Err(KpvError::Io)
        }
    }

    /// Carries out one step.
    pub fn apply(&mut self, action: &Action) -> (done: Result<(), KpvError>)
        ensures
            is_outcome(done, old(self)@, final(self)@, action@),
    {
        match action {
            Action::CreateDirAll { path } => self.create_dir_all(path.as_str()),
            Action::CopyFile { from, to } => self.copy_file(from.as_str(), to.as_str()),
            Action::Symlink { target, link } => self.symlink(target.as_str(), link.as_str()),
            Action::RemoveDirAll { path } => self.remove_dir_all(path.as_str()),
        }
    }

    /// Carries out the steps of a plan in order, up to the first that is
    /// refused.
    pub fn apply_all(&mut self, steps: &Vec<Action>) -> (done: Result<(), KpvError>)
        ensures
            is_plan_outcome(done, old(self)@, final(self)@, steps_view(steps@)),
    {
        let ghost start = self@;
        let ghost all = steps_view(steps@);
        let mut i: usize = 0;
        proof {
            assert(all.skip(0) =~= all);
        }
        while i < steps.len()
            invariant
                i <= steps@.len(),
                all == steps_view(steps@),
                start == old(self)@,
                applied_all(start, all) == applied_all(self@, all.skip(i as int)),
                forall|after: Tree| #[trigger]
                    left_by_refused_plan(self@, after, all.skip(i as int))
                        ==> left_by_refused_plan(start, after, all),
            decreases steps@.len() - i,
        {
            let ghost here = self@;
            proof {
                assert(all.skip(i as int).len() > 0);
                assert(all.skip(i as int)[0] == steps@[i as int]@);
                assert(all.skip(i as int).skip(1) =~= all.skip(i as int + 1));
            }
            match self.apply(&steps[i]) {
                Ok(()) => {},
                Err(e) => {
                    proof {
                        assert(left_by_refused_plan(here, self@, all.skip(i as int)));
                    }
                    return Err(e);
                },
            }
            proof {
                assert forall|after: Tree| #[trigger]
                    left_by_refused_plan(self@, after, all.skip(i as int + 1))
                        implies left_by_refused_plan(start, after, all) by {
                    assert(left_by_refused_plan(here, after, all.skip(i as int)));
                }
            }
            i += 1;
        }
        Ok(())
    }

    /// The entries of the directory `dir`: what stands directly in it.
    pub fn read_dir(&self, dir: &str) -> (entries: Vec<DirEntry>)
        ensures
            lists(self@, dir@, entries@),
    {
        proof {
            use_type_invariant(self);
            reveal_strlit("");
            assert(""@ =~= Seq::<char>::empty());
        }
        let prefix = join(dir, "");
        let mut entries: Vec<DirEntry> = Vec::new();
        let ghost mut from: Seq<int> = Seq::empty();
        let mut i: usize = 0;
        while i < self.slots.len()
            invariant
                i <= self.slots@.len(),
                distinct(self.slots@),
                prefix@ == joined(dir@, Seq::empty()),
                from.len() == entries@.len(),
                forall|k: int| 0 <= k < from.len() ==> 0 <= #[trigger] from[k] < i,
                forall|k: int|
                    0 <= k < entries@.len() ==> {
                        let entry = #[trigger] entries@[k];
                        &&& 0 <= from[k] < i
                        &&& valid_utf8(entry.name@)
                        &&& is_child_name(entry_name(entry))
                        &&& self.slots@[from[k]].path@ == prefix@ + entry_name(entry)
                        &&& entry.is_dir == (self.slots@[from[k]].node@ is Dir)
                    },
                forall|k1: int, k2: int|
                    0 <= k1 < k2 < from.len() ==> #[trigger] from[k1] < #[trigger] from[k2],
                forall|s: int, n: Seq<char>|
                    #![trigger self.slots@[s], is_child_name(n)]
                    0 <= s < i && is_child_name(n) && self.slots@[s].path@ == prefix@ + n
                        ==> listed(entries@, n),
            decreases self.slots@.len() - i,
        {
            let slot = &self.slots[i];
            if let Some(name) = child_of(prefix.as_str(), slot.path.as_str()) {
                let is_dir = match slot.node {
                    Node::Dir => true,
                    _ => false,
                };
                let bytes = name.as_str().as_bytes_vec();
                let ghost earlier = entries@;
                let entry = DirEntry { name: bytes, is_dir };
                proof {
                    encode_utf8_valid_utf8(name@);
                    encode_utf8_decode_utf8(name@);
                    assert(entry_name(entry) == name@);
                }
                entries.push(entry);
                proof {
                    let ghost from_earlier = from;
                    from = from.push(i as int);
                    assert forall|k: int| 0 <= k < entries@.len() implies {
                        let entry = #[trigger] entries@[k];
                        &&& 0 <= from[k] < i + 1
                        &&& valid_utf8(entry.name@)
                        &&& is_child_name(entry_name(entry))
                        &&& self.slots@[from[k]].path@ == prefix@ + entry_name(entry)
                        &&& entry.is_dir == (self.slots@[from[k]].node@ is Dir)
                    } by {
                        if k < earlier.len() {
                            assert(entries@[k] == earlier[k]);
                            assert(from[k] == from_earlier[k]);
                        }
                    }
                    assert forall|n: Seq<char>| listed(earlier, n) implies listed(entries@, n) by {
                        let k = choose|k: int|
                            0 <= k < earlier.len() && entry_name(#[trigger] earlier[k]) == n;
                        assert(entry_name(entries@[k]) == n);
                    }
                    assert(entry_name(entries@[earlier.len() as int]) == name@);
                    assert(listed(entries@, name@));
                    assert forall|s: int, n: Seq<char>|
                        #![trigger self.slots@[s], is_child_name(n)]
                        0 <= s < i + 1 && is_child_name(n) && self.slots@[s].path@ == prefix@
                            + n implies listed(entries@, n) by {
                        if s == i {
                            assert((prefix@ + n).skip(prefix@.len() as int) =~= n);
                            assert((prefix@ + name@).skip(prefix@.len() as int) =~= name@);
                        } else {
                            assert(listed(earlier, n));
                        }
                    }
                }
            }
            i += 1;
        }
        proof {
            let tree = self@;
            assert forall|k: int| 0 <= k < entries@.len() implies {
                let entry = #[trigger] entries@[k];
                &&& valid_utf8(entry.name@)
                &&& is_child_name(entry_name(entry))
                &&& tree.dom().contains(joined(dir@, entry_name(entry)))
                &&& entry.is_dir == (tree[joined(dir@, entry_name(entry))] is Dir)
            } by {
                lemma_joined_splits(dir@, entry_name(entries@[k]));
                lemma_tree_at(self.slots@, from[k]);
            }
            assert forall|name: Seq<char>|
                is_child_name(name) && tree.dom().contains(
                    #[trigger] joined(dir@, name),
                ) implies listed(entries@, name) by {
                lemma_joined_splits(dir@, name);
                let s = slot_of(self.slots@, joined(dir@, name));
                assert(self.slots@[s].path@ == prefix@ + name);
            }
            assert forall|k1: int, k2: int| 0 <= k1 < k2 < entries@.len() implies entry_name(
                #[trigger] entries@[k1],
            ) != entry_name(#[trigger] entries@[k2]) by {
                assert(from[k1] < from[k2]);
                assert(self.slots@[from[k1]].path@ != self.slots@[from[k2]].path@);
            }
        }
        entries
    }
}

} // verus!
