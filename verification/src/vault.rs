//! The commands carried out on an in-memory tree: what is found is looked up
//! in the tree, the command decides, and its steps are applied to the tree.

use vstd::prelude::*;

use crate::commands::{
    delete, delete_decision, link, link_decision, list, save, save_decision, steps_view, Action,
    ActionView, Target,
};
use crate::disk::Disk;
use crate::error::KpvError;
use crate::listing::{
    key_names, lemma_key_names_contains, lemma_key_names_distinct, lemma_same_keys, shows_key,
    sorted, texts,
};
use crate::paths::{joined, key_dir, key_dir_of, stored_file, stored_file_of};
use crate::tree::{applied_all, entry_name, is_child_name, is_plan_outcome, listed, Tree};

verus! {

/// The tree after a command that went through, or why it did not: the
/// decision's error where it has one, `KpvError::Io` where the tree refuses
/// a step.
pub open spec fn ran(tree: Tree, decision: Result<Seq<ActionView>, KpvError>) -> Result<
    Tree,
    KpvError,
> {
    match decision {
        Err(e) => Err(e),
        Ok(steps) => match applied_all(tree, steps) {
            Some(after) => Ok(after),
            None => Err(KpvError::Io),
        },
    }
}

/// The tree after `save` of the file at `source`.
pub open spec fn saved(tree: Tree, root: Seq<char>, key: Seq<char>, source: Seq<char>) -> Result<
    Tree,
    KpvError,
> {
    ran(tree, save_decision(root, key, source, tree.dom().contains(source)))
}

/// The tree after `link` at `dest`.
pub open spec fn linked(tree: Tree, root: Seq<char>, key: Seq<char>, dest: Seq<char>) -> Result<
    Tree,
    KpvError,
> {
    ran(
        tree,
        link_decision(
            root,
            key,
            dest,
            tree.dom().contains(stored_file_of(root, key)),
            tree.dom().contains(dest),
        ),
    )
}

/// The tree after `delete`.
pub open spec fn deleted(tree: Tree, root: Seq<char>, key: Seq<char>) -> Result<Tree, KpvError> {
    ran(tree, delete_decision(root, key, tree.dom().contains(key_dir_of(root, key))))
}

/// `name` is a key of the vault at `root`: the root is there, and `name` is
/// a directory that stands directly in it.
pub open spec fn is_key_of(tree: Tree, root: Seq<char>, name: Seq<char>) -> bool {
    &&& tree.dom().contains(root)
    &&& is_child_name(name)
    &&& tree.dom().contains(joined(root, name))
    &&& tree[joined(root, name)] is Dir
}

/// `keys` is the listing of the vault at `root`: its keys, each once, in
/// order.
pub open spec fn is_listing(tree: Tree, root: Seq<char>, keys: Seq<Seq<char>>) -> bool {
    &&& sorted(keys)
    &&& keys.no_duplicates()
    &&& forall|name: Seq<char>| keys.contains(name) <==> is_key_of(tree, root, name)
}

/// How a command ends on a tree: with its decision's error and the tree as
/// it was, or as the decision's plan ends.
pub open spec fn is_run(
    done: Result<(), KpvError>,
    before: Tree,
    after: Tree,
    decision: Result<Seq<ActionView>, KpvError>,
) -> bool {
    match decision {
        Err(e) => done == Err::<(), KpvError>(e) && after == before,
        Ok(steps) => is_plan_outcome(done, before, after, steps),
    }
}

/// Whether a command ended as `want` says: with that tree, or with that
/// error.
pub open spec fn agrees(
    done: Result<(), KpvError>,
    after: Tree,
    want: Result<Tree, KpvError>,
) -> bool {
    match want {
        Ok(tree) => done is Ok && after == tree,
        Err(e) => done == Err::<(), KpvError>(e),
    }
}

/// What a plan holds, as plain values.
pub open spec fn plan_view(plan: Result<Vec<Action>, KpvError>) -> Result<
    Seq<ActionView>,
    KpvError,
> {
    match plan {
        Ok(steps) => Ok(steps_view(steps@)),
        Err(e) => Err(e),
    }
}

impl Disk {
    /// Carries out what a command decided.
    fn run(&mut self, plan: Result<Vec<Action>, KpvError>) -> (done: Result<(), KpvError>)
        ensures
            is_run(done, old(self)@, final(self)@, plan_view(plan)),
    {
        match plan {
            Ok(steps) => self.apply_all(&steps),
            Err(e) => Err(e),
        }
    }

    /// Saves the file at `source` under the target's key.
    pub fn save(&mut self, target: &Target, source: &str) -> (done: Result<(), KpvError>)
        ensures
            is_run(
                done,
                old(self)@,
                final(self)@,
                save_decision(
                    target.root@,
                    target.key@,
                    source@,
                    old(self)@.dom().contains(source@),
                ),
            ),
            agrees(done, final(self)@, saved(old(self)@, target.root@, target.key@, source@)),
    {
        let source_exists = self.contains(source);
        self.run(save(target, source, source_exists))
    }

    /// Puts a link to the stored file of the target's key at `dest`.
    pub fn link(&mut self, target: &Target, dest: &str) -> (done: Result<(), KpvError>)
        ensures
            is_run(
                done,
                old(self)@,
                final(self)@,
                link_decision(
                    target.root@,
                    target.key@,
                    dest@,
                    old(self)@.dom().contains(stored_file_of(target.root@, target.key@)),
                    old(self)@.dom().contains(dest@),
                ),
            ),
            agrees(done, final(self)@, linked(old(self)@, target.root@, target.key@, dest@)),
    {
        let stored = stored_file(target.root.as_str(), target.key.as_str());
        let stored_exists = self.contains(stored.as_str());
        let dest_exists = self.contains(dest);
        self.run(link(target, dest, stored_exists, dest_exists))
    }

    /// Deletes the target's key.
    pub fn delete(&mut self, target: &Target) -> (done: Result<(), KpvError>)
        ensures
            is_run(
                done,
                old(self)@,
                final(self)@,
                delete_decision(
                    target.root@,
                    target.key@,
                    old(self)@.dom().contains(key_dir_of(target.root@, target.key@)),
                ),
            ),
            agrees(done, final(self)@, deleted(old(self)@, target.root@, target.key@)),
    {
        let dir = key_dir(target.root.as_str(), target.key.as_str());
        let dir_exists = self.contains(dir.as_str());
        self.run(delete(target, dir_exists))
    }

    /// Lists the keys of the vault at `root`.
    pub fn list(&self, root: &str) -> (keys: Vec<String>)
        ensures
            is_listing(self@, root@, texts(keys@)),
    {
        let root_exists = self.contains(root);
        let entries = self.read_dir(root);
        let keys = list(root_exists, &entries);
        proof {
            let names = texts(keys@);
            if root_exists {
                lemma_same_keys(names, key_names(entries@));
                lemma_key_names_distinct(entries@);
                assert forall|name: Seq<char>| names.contains(name) <==> is_key_of(
                    self@,
                    root@,
                    name,
                ) by {
                    lemma_key_names_contains(entries@, name);
                    if is_key_of(self@, root@, name) {
                        assert(listed(entries@, name));
                        let k = choose|k: int|
                            0 <= k < entries@.len() && entry_name(#[trigger] entries@[k]) == name;
                        assert(shows_key(entries@[k]));
                    }
                }
            } else {
                assert forall|name: Seq<char>| !names.contains(name) by {}
            }
        }
        keys
    }
}

} // verus!
