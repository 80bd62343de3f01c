//! The keys that the entries of the vault's root show, in order.

use vstd::prelude::*;
use vstd::relations::*;
use vstd::seq_lib::*;
use vstd::string::*;
use vstd::utf8::*;

use crate::keys::decoded;

verus! {

/// One entry of a directory, as read from disk: its name in bytes, and
/// whether it is a directory.
#[derive(Clone, Debug, PartialEq, Eq)]
pub struct DirEntry {
    pub name: Vec<u8>,
    pub is_dir: bool,
}

/// The order of keys: character by character, by code point; a key comes
/// before those that it starts.
pub open spec fn key_le(a: Seq<char>, b: Seq<char>) -> bool
    decreases a.len(),
{
    if a.len() == 0 {
        true
    } else if b.len() == 0 {
        false
    } else if a[0] == b[0] {
        key_le(a.skip(1), b.skip(1))
    } else {
        (a[0] as u32) < (b[0] as u32)
    }
}

/// The order of keys as a relation.
pub open spec fn key_order() -> spec_fn(Seq<char>, Seq<char>) -> bool {
    |a: Seq<char>, b: Seq<char>| key_le(a, b)
}

/// Each key comes no later than the keys after it.
pub open spec fn sorted(keys: Seq<Seq<char>>) -> bool {
    forall|i: int, j: int|
        0 <= i < j < keys.len() ==> key_le(#[trigger] keys[i], #[trigger] keys[j])
}

/// The texts of a list of keys.
pub open spec fn texts(keys: Seq<String>) -> Seq<Seq<char>> {
    Seq::new(keys.len(), |i: int| keys[i]@)
}

/// An entry shows a key when it is a directory whose name is text.
pub open spec fn shows_key(entry: DirEntry) -> bool {
    entry.is_dir && valid_utf8(entry.name@)
}

/// The keys that a directory's entries show, in the entries' order.
pub open spec fn key_names(entries: Seq<DirEntry>) -> Seq<Seq<char>>
    decreases entries.len(),
{
    if entries.len() == 0 {
        Seq::empty()
    } else {
        let before = key_names(entries.drop_last());
        if shows_key(entries.last()) {
            before.push(decode_utf8(entries.last().name@))
        } else {
            before
        }
    }
}

/// Every key is at its own place in the order.
pub proof fn lemma_key_le_reflexive(a: Seq<char>)
    ensures
        key_le(a, a),
    decreases a.len(),
{
    if a.len() > 0 {
        lemma_key_le_reflexive(a.skip(1));
    }
}

/// Of two keys one comes no later than the other.
pub proof fn lemma_key_le_total(a: Seq<char>, b: Seq<char>)
    ensures
        key_le(a, b) || key_le(b, a),
    decreases a.len(),
{
    if a.len() > 0 && b.len() > 0 {
        if a[0] == b[0] {
            lemma_key_le_total(a.skip(1), b.skip(1));
        } else {
            char_u32_cast(a[0], a[0] as u32);
            char_u32_cast(b[0], b[0] as u32);
        }
    }
}

/// Two keys of which each comes no later than the other are one key.
pub proof fn lemma_key_le_antisymmetric(a: Seq<char>, b: Seq<char>)
    requires
        key_le(a, b),
        key_le(b, a),
    ensures
        a == b,
    decreases a.len(),
{
    if a.len() > 0 {
        lemma_key_le_antisymmetric(a.skip(1), b.skip(1));
        assert(a =~= seq![a[0]] + a.skip(1));
        assert(b =~= seq![b[0]] + b.skip(1));
    }
    assert(a =~= b);
}

/// The order passes through a key in the middle.
pub proof fn lemma_key_le_transitive(a: Seq<char>, b: Seq<char>, c: Seq<char>)
    requires
        key_le(a, b),
        key_le(b, c),
    ensures
        key_le(a, c),
    decreases a.len(),
{
    if a.len() > 0 && a[0] == b[0] && b[0] == c[0] {
        lemma_key_le_transitive(a.skip(1), b.skip(1), c.skip(1));
    }
}

/// The order of keys is a total order.
pub proof fn lemma_key_order_total()
    ensures
        total_ordering(key_order()),
{
    let r = key_order();
    assert forall|x: Seq<char>| #[trigger] r(x, x) by {
        lemma_key_le_reflexive(x);
    }
    assert forall|x: Seq<char>, y: Seq<char>| #[trigger] r(x, y) && #[trigger] r(y, x) implies x
        == y by {
        lemma_key_le_antisymmetric(x, y);
    }
    assert forall|x: Seq<char>, y: Seq<char>, z: Seq<char>| #[trigger]
        r(x, y) && #[trigger] r(y, z) implies r(x, z) by {
        lemma_key_le_transitive(x, y, z);
    }
    assert forall|x: Seq<char>, y: Seq<char>| #[trigger] r(x, y) || #[trigger] r(y, x) by {
        lemma_key_le_total(x, y);
    }
}

/// Two sorted lists that hold the same keys, each as often as the other, are
/// one list: the keys in a listing fix the listing.
pub proof fn lemma_sorted_listing_unique(x: Seq<Seq<char>>, y: Seq<Seq<char>>)
    requires
        sorted(x),
        sorted(y),
        x.to_multiset() == y.to_multiset(),
    ensures
        x == y,
{
    lemma_key_order_total();
    assert(sorted_by(x, key_order()));
    assert(sorted_by(y, key_order()));
    lemma_sorted_unique(x, y, key_order());
}

/// A key is among those that the entries show exactly when an entry that
/// shows a key has it as its name.
pub proof fn lemma_key_names_contains(entries: Seq<DirEntry>, name: Seq<char>)
    ensures
        key_names(entries).contains(name) <==> exists|k: int|
            0 <= k < entries.len() && shows_key(#[trigger] entries[k]) && decode_utf8(
                entries[k].name@,
            ) == name,
    decreases entries.len(),
{
    if entries.len() > 0 {
        let before = entries.drop_last();
        let last = entries.last();
        lemma_key_names_contains(before, name);
        if key_names(entries).contains(name) {
            let i = choose|i: int|
                0 <= i < key_names(entries).len() && key_names(entries)[i] == name;
            if shows_key(last) && i == key_names(before).len() {
                assert(shows_key(entries[entries.len() - 1]));
            } else {
                assert(key_names(before)[i] == name);
                assert(key_names(before).contains(name));
                let k = choose|k: int|
                    0 <= k < before.len() && shows_key(#[trigger] before[k]) && decode_utf8(
                        before[k].name@,
                    ) == name;
                assert(shows_key(entries[k]));
            }
        }
        if exists|k: int|
            0 <= k < entries.len() && shows_key(#[trigger] entries[k]) && decode_utf8(
                entries[k].name@,
            ) == name {
            let k = choose|k: int|
                0 <= k < entries.len() && shows_key(#[trigger] entries[k]) && decode_utf8(
                    entries[k].name@,
                ) == name;
            if k == entries.len() - 1 {
                assert(key_names(entries)[key_names(before).len() as int] == name);
            } else {
                assert(shows_key(before[k]));
                let i = choose|i: int|
                    0 <= i < key_names(before).len() && key_names(before)[i] == name;
                assert(key_names(entries)[i] == name);
            }
        }
    }
}

/// Entries with different names show each key once.
pub proof fn lemma_key_names_distinct(entries: Seq<DirEntry>)
    requires
        forall|k1: int, k2: int|
            0 <= k1 < k2 < entries.len() ==> decode_utf8((#[trigger] entries[k1]).name@)
                != decode_utf8((#[trigger] entries[k2]).name@),
    ensures
        key_names(entries).no_duplicates(),
    decreases entries.len(),
{
    if entries.len() > 0 {
        let before = entries.drop_last();
        let last = entries.last();
        assert forall|k1: int, k2: int| 0 <= k1 < k2 < before.len() implies decode_utf8(
            (#[trigger] before[k1]).name@,
        ) != decode_utf8((#[trigger] before[k2]).name@) by {
            assert(before[k1] == entries[k1]);
            assert(before[k2] == entries[k2]);
        }
        lemma_key_names_distinct(before);
        if shows_key(last) {
            let name = decode_utf8(last.name@);
            lemma_key_names_contains(before, name);
            if key_names(before).contains(name) {
                let k = choose|k: int|
                    0 <= k < before.len() && shows_key(#[trigger] before[k]) && decode_utf8(
                        before[k].name@,
                    ) == name;
                assert(before[k] == entries[k]);
                assert(decode_utf8(entries[k].name@) != decode_utf8(
                    entries[entries.len() - 1].name@,
                ));
            }
            let names = key_names(entries);
            assert forall|i: int, j: int| 0 <= i < names.len() && 0 <= j < names.len() && i
                != j implies names[i] != names[j] by {
                if i == names.len() - 1 {
                    assert(key_names(before)[j] == names[j]);
                } else if j == names.len() - 1 {
                    assert(key_names(before)[i] == names[i]);
                } else {
                    assert(key_names(before)[i] == names[i]);
                    assert(key_names(before)[j] == names[j]);
                }
            }
        }
    }
}

/// Two lists that hold the same keys, each as often as the other, hold the
/// same keys, and neither holds a key twice unless the other does.
pub proof fn lemma_same_keys(x: Seq<Seq<char>>, y: Seq<Seq<char>>)
    requires
        x.to_multiset() == y.to_multiset(),
    ensures
        forall|key: Seq<char>| x.contains(key) <==> y.contains(key),
        y.no_duplicates() ==> x.no_duplicates(),
{
    assert forall|key: Seq<char>| x.contains(key) <==> y.contains(key) by {
        to_multiset_contains(x, key);
        to_multiset_contains(y, key);
    }
    if y.no_duplicates() {
        y.lemma_multiset_has_no_duplicates();
        x.lemma_multiset_has_no_duplicates_conv();
    }
}

/// Whether `a` comes no later than `b` in the order of keys.
pub fn key_precedes(a: &str, b: &str) -> (le: bool)
    ensures
        le == key_le(a@, b@),
{
    let len_a: usize = a.unicode_len();
    let len_b: usize = b.unicode_len();
    let mut i: usize = 0;
    proof {
        assert(a@.skip(0) =~= a@);
        assert(b@.skip(0) =~= b@);
    }
    while i < len_a && i < len_b
        invariant
            len_a == a@.len(),
            len_b == b@.len(),
            i <= len_a,
            i <= len_b,
            key_le(a@, b@) == key_le(a@.skip(i as int), b@.skip(i as int)),
        decreases len_a - i,
    {
        let ca = a.get_char(i);
        let cb = b.get_char(i);
        proof {
            assert(a@.skip(i as int)[0] == ca);
            assert(b@.skip(i as int)[0] == cb);
            assert(a@.skip(i as int).skip(1) =~= a@.skip(i as int + 1));
            assert(b@.skip(i as int).skip(1) =~= b@.skip(i as int + 1));
        }
        if ca != cb {
            return (ca as u32) < (cb as u32);
        }
        i += 1;
    }
    i == len_a
}

/// Puts a key at its place in a sorted list.
fn insert_sorted(keys: &mut Vec<String>, key: String)
    requires
        sorted(texts(old(keys)@)),
    ensures
        sorted(texts(final(keys)@)),
        texts(final(keys)@).to_multiset() == texts(old(keys)@).to_multiset().insert(key@),
{
    let ghost before = texts(keys@);
    let mut pos: usize = 0;
    while pos < keys.len() && key_precedes(keys[pos].as_str(), key.as_str())
        invariant
            pos <= keys@.len(),
            texts(keys@) == before,
            forall|j: int| 0 <= j < pos ==> key_le(#[trigger] before[j], key@),
        decreases keys@.len() - pos,
    {
        pos += 1;
    }
    keys.insert(pos, key);
    proof {
        let after = texts(keys@);
        assert(after =~= before.insert(pos as int, key@));
        to_multiset_insert(before, pos as int, key@);
        assert forall|i: int, j: int| 0 <= i < j < after.len() implies key_le(
            #[trigger] after[i],
            #[trigger] after[j],
        ) by {
            if j == pos {
            } else if i == pos {
                lemma_key_le_total(before[pos as int], key@);
                if j - 1 > pos {
                    lemma_key_le_transitive(key@, before[pos as int], before[j - 1]);
                }
            } else if i < pos && j < pos {
            } else if i < pos {
            } else {
            }
        }
    }
}

/// The keys that a directory's entries show, sorted: the names of the
/// directories among them. An entry whose name is not text is passed over.
pub fn sorted_keys(entries: &Vec<DirEntry>) -> (keys: Vec<String>)
    ensures
        sorted(texts(keys@)),
        texts(keys@).to_multiset() == key_names(entries@).to_multiset(),
{
    let mut keys: Vec<String> = Vec::new();
    proof {
        assert(entries@.take(0) =~= Seq::<DirEntry>::empty());
        assert(texts(keys@) =~= key_names(entries@.take(0)));
    }
    let mut idx: usize = 0;
    while idx < entries.len()
        invariant
            idx <= entries@.len(),
            sorted(texts(keys@)),
            texts(keys@).to_multiset() == key_names(entries@.take(idx as int)).to_multiset(),
        decreases entries@.len() - idx,
    {
        let entry = &entries[idx];
        proof {
            assert(entries@.take(idx as int + 1).drop_last() =~= entries@.take(idx as int));
            assert(entries@.take(idx as int + 1).last() == entries@[idx as int]);
            key_names(entries@.take(idx as int)).to_multiset_ensures();
        }
        if entry.is_dir {
            if let Some(text) = decoded(entry.name.as_slice()) {
                insert_sorted(&mut keys, String::from_str(text));
            }
        }
        idx += 1;
    }
    proof {
        assert(entries@.take(idx as int) =~= entries@);
    }
    keys
}

} // verus!
