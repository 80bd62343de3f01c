//! Where the vault and its entries live.
//!
//! A path is text with `/` between its components. Nothing here looks at the
//! file system.

use vstd::prelude::*;
use vstd::string::*;

use crate::error::KpvError;

verus! {

/// `name` placed below `base`: a separator goes between the two unless `base`
/// is empty or already ends in one.
pub open spec fn joined(base: Seq<char>, name: Seq<char>) -> Seq<char> {
    if base.len() == 0 || base.last() == '/' {
        base + name
    } else {
        base + seq!['/'] + name
    }
}

/// The vault's root for a given home directory.
pub open spec fn vault_root_of(home: Seq<char>) -> Seq<char> {
    joined(joined(home, ".config"@), "kpv"@)
}

/// The directory that holds a key's entry.
pub open spec fn key_dir_of(root: Seq<char>, key: Seq<char>) -> Seq<char> {
    joined(root, key)
}

/// The file kept for a key.
pub open spec fn stored_file_of(root: Seq<char>, key: Seq<char>) -> Seq<char> {
    joined(key_dir_of(root, key), ".env"@)
}

/// A path below `base` is the path of `base` as a directory, then the name.
pub proof fn lemma_joined_splits(base: Seq<char>, name: Seq<char>)
    ensures
        joined(base, name) == joined(base, Seq::empty()) + name,
{
    assert(joined(base, name) =~= joined(base, Seq::empty()) + name);
}

/// Places `name` below `base`.
pub fn join(base: &str, name: &str) -> (path: String)
    ensures
        path@ == joined(base@, name@),
{
    let n: usize = base.unicode_len();
    let mut path = String::from_str(base);
    if n > 0 && base.get_char(n - 1) != '/' {
        proof {
            reveal_strlit("/");
            assert("/"@ =~= seq!['/']);
        }
        path.append("/");
    }
    path.append(name);
    path
}

/// The vault's root, `<home>/.config/kpv`. The directory is not created.
pub fn vault_root(home: Option<&str>) -> (root: Result<String, KpvError>)
    ensures
        match home {
            Some(h) => root matches Ok(r) && r@ == vault_root_of(h@),
            None => root == Err::<String, KpvError>(KpvError::HomeNotFound),
        },
{
    match home {
        Some(h) => {
            let config = join(h, ".config");
            Ok(join(config.as_str(), "kpv"))
        },
        None => Err(KpvError::HomeNotFound),
    }
}

/// The directory of a key's entry: the key is used as written, below the root.
pub fn key_dir(root: &str, key: &str) -> (dir: String)
    ensures
        dir@ == key_dir_of(root@, key@),
{
    join(root, key)
}

/// The file kept for a key: `.env` in the key's directory.
pub fn stored_file(root: &str, key: &str) -> (file: String)
    ensures
        file@ == stored_file_of(root@, key@),
{
    let dir = key_dir(root, key);
    join(dir.as_str(), ".env")
}

} // verus!
