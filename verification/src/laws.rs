//! What holds of the commands on every tree.
//!
//! Each law is about the tree before a command and the tree that the
//! command leaves, as `vault` states them.

use vstd::prelude::*;
use vstd::seq_lib::*;

use crate::commands::{delete_steps, link_steps, save_steps, ActionView};
use crate::error::KpvError;
use crate::listing::{key_le, lemma_sorted_listing_unique, sorted};
use crate::paths::{joined, key_dir_of, stored_file_of, vault_root_of};
use crate::tree::{
    applied, applied_all, can_write, contents, copy_step, dirs_free, file_of, is_below,
    is_child_name, is_made_with, kind_at, link_step, link_to, mkdir_step, remove_step, with_dirs,
    without_dir, Kind, Tree,
};
use crate::vault::{deleted, is_key_of, is_listing, linked, saved};

verus! {

/// A root that names a directory by its own name: not empty, and not ending
/// in a separator.
pub open spec fn is_plain_root(root: Seq<char>) -> bool {
    root.len() > 0 && root.last() != '/'
}

/// Nothing is at `root` or in it.
pub open spec fn is_fresh(tree: Tree, root: Seq<char>) -> bool {
    forall|path: Seq<char>| #[trigger] tree.dom().contains(path) ==> !is_below(path, root)
}

/// The vault's root below any home directory is a plain root.
pub proof fn lemma_vault_root_is_plain(home: Seq<char>)
    ensures
        is_plain_root(vault_root_of(home)),
{
    reveal_strlit("kpv");
    let config = joined(home, ".config"@);
    let root = vault_root_of(home);
    assert("kpv"@.len() == 3);
    assert("kpv"@[2] == 'v');
    assert(root.last() == 'v');
}

/// A plan of one step does what the step does.
proof fn lemma_one_step(tree: Tree, step: ActionView)
    ensures
        applied_all(tree, seq![step]) == applied(tree, step),
{
    reveal_with_fuel(applied_all, 2);
    assert(seq![step].skip(1).len() == 0);
}

/// The plan of `save` makes the directories, then copies.
proof fn lemma_save_plan(tree: Tree, root: Seq<char>, key: Seq<char>, source: Seq<char>)
    ensures
        applied_all(tree, save_steps(root, key, source)) == match applied(
            tree,
            mkdir_step(key_dir_of(root, key)),
        ) {
            Some(next) => applied(next, copy_step(source, stored_file_of(root, key))),
            None => None,
        },
{
    reveal_with_fuel(applied_all, 3);
    let steps = save_steps(root, key, source);
    assert(steps[0] == mkdir_step(key_dir_of(root, key)));
    assert(steps.skip(1)[0] == copy_step(source, stored_file_of(root, key)));
    assert(steps.skip(1).skip(1).len() == 0);
}

/// What `save` leaves: the tree with the key's directories, and with the
/// source's bytes in the stored file.
proof fn lemma_saved_tree(
    tree: Tree,
    root: Seq<char>,
    key: Seq<char>,
    source: Seq<char>,
    after: Tree,
)
    requires
        saved(tree, root, key, source) == Ok::<Tree, KpvError>(after),
    ensures
        tree.dom().contains(source),
        dirs_free(tree, key_dir_of(root, key)),
        contents(with_dirs(tree, key_dir_of(root, key)), source) is Some,
        can_write(with_dirs(tree, key_dir_of(root, key)), stored_file_of(root, key)),
        after == with_dirs(tree, key_dir_of(root, key)).insert(
            stored_file_of(root, key),
            file_of(contents(with_dirs(tree, key_dir_of(root, key)), source).unwrap()),
        ),
{
    lemma_save_plan(tree, root, key, source);
}

/// Making directories changes nothing that was there, so nothing that is
/// read.
proof fn lemma_dirs_keep_contents(tree: Tree, dir: Seq<char>, path: Seq<char>)
    requires
        contents(tree, path) is Some,
    ensures
        contents(with_dirs(tree, dir), path) == contents(tree, path),
{
}

/// The stored file lies in the key's directory and is longer than its path.
proof fn lemma_stored_below(root: Seq<char>, key: Seq<char>)
    ensures
        stored_file_of(root, key).len() > key_dir_of(root, key).len(),
        key_dir_of(root, key).len() > 0 ==> is_below(
            stored_file_of(root, key),
            key_dir_of(root, key),
        ),
        forall|dir: Seq<char>| #[trigger]
            is_made_with(dir, key_dir_of(root, key)) ==> dir != stored_file_of(root, key),
{
    reveal_strlit(".env");
    let dir = key_dir_of(root, key);
    let stored = stored_file_of(root, key);
    assert(".env"@.len() == 4);
    if dir.len() > 0 {
        assert(stored.take(dir.len() as int) =~= dir);
        if dir.last() != '/' {
            assert(stored[dir.len() as int] == '/');
        }
    }
}

/// Round trip: after `save`, the stored file of the key holds the bytes
/// that the source held.
pub proof fn law_save_round_trip(
    tree: Tree,
    root: Seq<char>,
    key: Seq<char>,
    source: Seq<char>,
    content: Seq<u8>,
    after: Tree,
)
    requires
        contents(tree, source) == Some(content),
        saved(tree, root, key, source) == Ok::<Tree, KpvError>(after),
    ensures
        contents(after, stored_file_of(root, key)) == Some(content),
        kind_at(after, stored_file_of(root, key)) == Some(Kind::File),
{
    lemma_saved_tree(tree, root, key, source, after);
    lemma_dirs_keep_contents(tree, key_dir_of(root, key), source);
}

/// `save` leaves the source as it was, unless the source is the stored
/// file itself.
pub proof fn law_save_keeps_source(
    tree: Tree,
    root: Seq<char>,
    key: Seq<char>,
    source: Seq<char>,
    after: Tree,
)
    requires
        saved(tree, root, key, source) == Ok::<Tree, KpvError>(after),
    ensures
        contents(after, source) == contents(tree, source),
        source != stored_file_of(root, key) ==> after[source] == tree[source],
{
    lemma_saved_tree(tree, root, key, source, after);
    lemma_dirs_keep_contents(tree, key_dir_of(root, key), source);
}

/// Overwrite: where a key was saved and the source then holds other bytes,
/// a second `save` goes through and leaves the stored file with the second
/// bytes only.
pub proof fn law_save_overwrites(
    tree: Tree,
    root: Seq<char>,
    key: Seq<char>,
    source: Seq<char>,
    first: Tree,
    content: Seq<u8>,
)
    requires
        saved(tree, root, key, source) == Ok::<Tree, KpvError>(first),
    ensures
        saved(first.insert(source, file_of(content)), root, key, source) matches Ok(second)
            && contents(second, stored_file_of(root, key)) == Some(content),
{
    let dir = key_dir_of(root, key);
    let stored = stored_file_of(root, key);
    let rewritten = first.insert(source, file_of(content));
    lemma_saved_tree(tree, root, key, source, first);
    lemma_stored_below(root, key);
    lemma_save_plan(rewritten, root, key, source);
    assert forall|d: Seq<char>| #[trigger]
        is_made_with(d, dir) && rewritten.dom().contains(d) implies rewritten[d] is Dir by {
        assert(d != stored);
        if d == source {
            assert(tree[d] is Dir);
        }
        assert(with_dirs(tree, dir)[d] is Dir);
    }
    assert(dirs_free(rewritten, dir));
    let made = with_dirs(rewritten, dir);
    assert(contents(made, source) == Some(content));
    assert(can_write(made, stored));
}

/// `link` is refused where the key has no stored file, and where anything
/// is at the destination, whether the key has a stored file or not.
pub proof fn law_link_refused(tree: Tree, root: Seq<char>, key: Seq<char>, dest: Seq<char>)
    ensures
        !tree.dom().contains(stored_file_of(root, key)) ==> linked(tree, root, key, dest) == Err::<
            Tree,
            KpvError,
        >(KpvError::StoredFileNotFound),
        tree.dom().contains(dest) ==> linked(tree, root, key, dest) is Err,
        tree.dom().contains(dest) && tree.dom().contains(stored_file_of(root, key)) ==> linked(
            tree,
            root,
            key,
            dest,
        ) == Err::<Tree, KpvError>(KpvError::DestinationExists),
{
}

/// A key that was never saved cannot be linked: in a vault with a plain
/// root that holds nothing, `link` finds no stored file.
pub proof fn law_link_needs_save(tree: Tree, root: Seq<char>, key: Seq<char>, dest: Seq<char>)
    requires
        is_plain_root(root),
        is_fresh(tree, root),
    ensures
        linked(tree, root, key, dest) == Err::<Tree, KpvError>(KpvError::StoredFileNotFound),
{
    let dir = key_dir_of(root, key);
    let stored = stored_file_of(root, key);
    lemma_stored_below(root, key);
    assert(dir.take(root.len() as int) =~= root);
    assert(stored.take(root.len() as int) =~= root);
    assert(stored[root.len() as int] == '/');
    assert(is_below(stored, root));
}

/// After `link`, the destination is a link to the key's stored file and
/// the stored file is as it was. Where the stored file is a file, as `save`
/// leaves it, what is read at the destination is what the stored file
/// holds.
pub proof fn law_link_resolves(
    tree: Tree,
    root: Seq<char>,
    key: Seq<char>,
    dest: Seq<char>,
    after: Tree,
)
    requires
        linked(tree, root, key, dest) == Ok::<Tree, KpvError>(after),
    ensures
        after.dom().contains(dest),
        after[dest] == link_to(stored_file_of(root, key)),
        after[stored_file_of(root, key)] == tree[stored_file_of(root, key)],
        kind_at(tree, stored_file_of(root, key)) == Some(Kind::File) ==> contents(after, dest)
            == contents(after, stored_file_of(root, key)) && contents(after, dest) == contents(
            tree,
            stored_file_of(root, key),
        ),
{
    lemma_one_step(tree, link_step(stored_file_of(root, key), dest));
    assert(link_steps(root, key, dest) =~= seq![link_step(stored_file_of(root, key), dest)]);
}

/// In a vault with a plain root, `delete` removes the key's directory with
/// all that lies in it, and nothing else: the key is no longer a key of the
/// vault, its stored file is gone, and `link` of the key finds no stored
/// file.
pub proof fn law_delete_forgets(
    tree: Tree,
    root: Seq<char>,
    key: Seq<char>,
    dest: Seq<char>,
    after: Tree,
)
    requires
        is_plain_root(root),
        deleted(tree, root, key) == Ok::<Tree, KpvError>(after),
    ensures
        after == without_dir(tree, key_dir_of(root, key)),
        !after.dom().contains(key_dir_of(root, key)),
        !after.dom().contains(stored_file_of(root, key)),
        !is_key_of(after, root, key),
        linked(after, root, key, dest) == Err::<Tree, KpvError>(KpvError::StoredFileNotFound),
        forall|keys: Seq<Seq<char>>| is_listing(after, root, keys) ==> !keys.contains(key),
{
    lemma_one_step(tree, remove_step(key_dir_of(root, key)));
    assert(delete_steps(root, key) =~= seq![remove_step(key_dir_of(root, key))]);
    lemma_stored_below(root, key);
}

/// `delete` is refused with `KeyNotFound` where the key has no directory,
/// and then leaves the tree as it was.
pub proof fn law_delete_needs_key(tree: Tree, root: Seq<char>, key: Seq<char>)
    requires
        !tree.dom().contains(key_dir_of(root, key)),
    ensures
        deleted(tree, root, key) == Err::<Tree, KpvError>(KpvError::KeyNotFound),
{
}

/// Two lists without repeats that hold the same keys hold each as often as
/// the other.
proof fn lemma_same_members(x: Seq<Seq<char>>, y: Seq<Seq<char>>)
    requires
        x.no_duplicates(),
        y.no_duplicates(),
        forall|key: Seq<char>| x.contains(key) <==> y.contains(key),
    ensures
        x.to_multiset() == y.to_multiset(),
{
    x.lemma_multiset_has_no_duplicates();
    y.lemma_multiset_has_no_duplicates();
    assert forall|key: Seq<char>| x.to_multiset().count(key) == y.to_multiset().count(key) by {
        to_multiset_contains(x, key);
        to_multiset_contains(y, key);
    }
    assert(x.to_multiset() =~= y.to_multiset());
}

/// A vault has one listing: the tree fixes the keys and their order.
pub proof fn law_listing_unique(tree: Tree, root: Seq<char>, x: Seq<Seq<char>>, y: Seq<Seq<char>>)
    requires
        is_listing(tree, root, x),
        is_listing(tree, root, y),
    ensures
        x == y,
{
    lemma_same_members(x, y);
    lemma_sorted_listing_unique(x, y);
}

/// A vault whose root is not there lists no keys.
pub proof fn law_fresh_vault_lists_nothing(tree: Tree, root: Seq<char>, keys: Seq<Seq<char>>)
    requires
        !tree.dom().contains(root),
        is_listing(tree, root, keys),
    ensures
        keys == Seq::<Seq<char>>::empty(),
{
    if keys.len() > 0 {
        assert(keys.contains(keys[0]));
    }
    assert(keys =~= Seq::<Seq<char>>::empty());
}

/// Below a plain root, a name's path is the root, a separator, the name.
proof fn lemma_child_path(root: Seq<char>, name: Seq<char>)
    requires
        is_plain_root(root),
    ensures
        joined(root, name) == root + seq!['/'] + name,
        joined(root, name).len() == root.len() + 1 + name.len(),
        joined(root, name).take(root.len() as int) == root,
        joined(root, name)[root.len() as int] == '/',
        joined(root, name).skip(root.len() as int + 1) == name,
        is_below(joined(root, name), root),
        is_made_with(root, joined(root, name)),
        is_child_name(name) ==> is_plain_root(joined(root, name)),
{
    let path = joined(root, name);
    assert(path.take(root.len() as int) =~= root);
    assert(path.skip(root.len() as int + 1) =~= name);
    if is_child_name(name) {
        assert(path.last() == name.last());
        assert(name.contains(name.last()));
    }
}

/// Of the directories made for a key with a plain name, only the key's own
/// stands directly in the root.
proof fn lemma_made_child(root: Seq<char>, key: Seq<char>, name: Seq<char>)
    requires
        is_plain_root(root),
        is_child_name(key),
        is_child_name(name),
        is_made_with(joined(root, name), joined(root, key)),
    ensures
        name == key,
{
    lemma_child_path(root, name);
    lemma_child_path(root, key);
    let path = joined(root, name);
    let dir = joined(root, key);
    if path != dir {
        assert(dir[path.len() as int] == key[name.len() as int]);
        assert(key.contains('/'));
    }
}

/// The stored file of a key with a plain name does not stand directly in
/// the root.
proof fn lemma_stored_is_no_child(root: Seq<char>, key: Seq<char>, name: Seq<char>)
    requires
        is_plain_root(root),
        is_child_name(key),
        is_child_name(name),
    ensures
        joined(root, name) != stored_file_of(root, key),
{
    reveal_strlit(".env");
    lemma_child_path(root, name);
    lemma_child_path(root, key);
    lemma_child_path(joined(root, key), ".env"@);
    let stored = stored_file_of(root, key);
    if joined(root, name) == stored {
        let at = (root.len() + 1 + key.len()) as int;
        assert(stored[at] == '/');
        assert(name[key.len() as int] == stored[at]);
        assert(name.contains('/'));
    }
}

/// The keys of a vault after `save` of a key with a plain name: those it
/// had, and the saved one.
proof fn lemma_keys_after_save(
    tree: Tree,
    root: Seq<char>,
    key: Seq<char>,
    source: Seq<char>,
    after: Tree,
    name: Seq<char>,
)
    requires
        is_plain_root(root),
        is_child_name(key),
        is_child_name(name),
        saved(tree, root, key, source) == Ok::<Tree, KpvError>(after),
    ensures
        after.dom().contains(root),
        (after.dom().contains(joined(root, name)) && after[joined(root, name)] is Dir) <==> (name
            == key || (tree.dom().contains(joined(root, name)) && tree[joined(root, name)] is Dir)),
{
    let dir = key_dir_of(root, key);
    let path = joined(root, name);
    lemma_saved_tree(tree, root, key, source, after);
    lemma_stored_below(root, key);
    lemma_stored_is_no_child(root, key, name);
    lemma_child_path(root, key);
    assert(is_made_with(dir, dir));
    if is_made_with(path, dir) {
        lemma_made_child(root, key, name);
    }
}

/// After `save` of two keys with plain names into a vault with a plain root
/// that held nothing, the vault lists the two keys, the smaller one first.
/// A key with a separator in it is listed by its first directory instead.
pub proof fn law_two_saves_listed(
    tree: Tree,
    root: Seq<char>,
    first_key: Seq<char>,
    second_key: Seq<char>,
    source: Seq<char>,
    middle: Tree,
    after: Tree,
    keys: Seq<Seq<char>>,
)
    requires
        is_plain_root(root),
        is_fresh(tree, root),
        is_child_name(first_key),
        is_child_name(second_key),
        first_key != second_key,
        key_le(first_key, second_key),
        saved(tree, root, first_key, source) == Ok::<Tree, KpvError>(middle),
        saved(middle, root, second_key, source) == Ok::<Tree, KpvError>(after),
        is_listing(after, root, keys),
    ensures
        keys == seq![first_key, second_key],
{
    let both = seq![first_key, second_key];
    assert forall|name: Seq<char>| both.contains(name) <==> is_key_of(after, root, name) by {
        if is_child_name(name) {
            lemma_keys_after_save(tree, root, first_key, source, middle, name);
            lemma_keys_after_save(middle, root, second_key, source, after, name);
            lemma_child_path(root, name);
            assert(!tree.dom().contains(joined(root, name)));
        }
        lemma_keys_after_save(middle, root, second_key, source, after, second_key);
        if name == first_key {
            assert(both[0] == name);
        }
        if name == second_key {
            assert(both[1] == name);
        }
    }
    assert(both.no_duplicates());
    assert(sorted(both));
    law_listing_unique(after, root, keys, both);
}

} // verus!
