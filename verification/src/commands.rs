//! The four commands as decisions: from what was found on disk to the steps
//! to take, or to the reason why none is taken.
//!
//! Nothing here reads or writes a file. The caller looks up what a command
//! asks about, hands it over, and carries out the steps that come back, in
//! order, stopping at the first that fails.

use vstd::prelude::*;
use vstd::string::*;

use crate::error::KpvError;
use crate::keys::{key_text, path_bytes, resolve_key, resolved_key};
use crate::listing::{key_names, sorted, sorted_keys, texts, DirEntry};
use crate::paths::{key_dir, key_dir_of, stored_file, stored_file_of, vault_root, vault_root_of};

verus! {

/// One step on the file system.
#[derive(Clone, Debug, PartialEq, Eq)]
pub enum Action {
    /// Create the directory and every missing directory above it.
    CreateDirAll { path: String },
    /// Copy a file's bytes, replacing what the destination held.
    CopyFile { from: String, to: String },
    /// Create a symbolic link at `link` that points to `target`.
    Symlink { target: String, link: String },
    /// Remove the directory with all that is in it.
    RemoveDirAll { path: String },
}

/// A step, with its paths as text.
pub ghost enum ActionView {
    CreateDirAll { path: Seq<char> },
    CopyFile { from: Seq<char>, to: Seq<char> },
    Symlink { target: Seq<char>, link: Seq<char> },
    RemoveDirAll { path: Seq<char> },
}

impl View for Action {
    type V = ActionView;

    open spec fn view(&self) -> ActionView {
        match self {
            Action::CreateDirAll { path } => ActionView::CreateDirAll { path: path@ },
            Action::CopyFile { from, to } => ActionView::CopyFile { from: from@, to: to@ },
            Action::Symlink { target, link } => ActionView::Symlink {
                target: target@,
                link: link@,
            },
            Action::RemoveDirAll { path } => ActionView::RemoveDirAll { path: path@ },
        }
    }
}

/// The steps of a plan, each by its view.
pub open spec fn steps_view(steps: Seq<Action>) -> Seq<ActionView> {
    Seq::new(steps.len(), |i: int| steps[i]@)
}

/// What a command works on: the vault's root and the key.
#[derive(Clone, Debug, PartialEq, Eq)]
pub struct Target {
    pub root: String,
    pub key: String,
}

/// The `.env` file of the working directory, as the commands name it where
/// they are given no other place.
pub open spec fn working_env() -> Seq<char> {
    ".env"@
}

/// The `.env` file of the working directory.
pub fn working_env_file() -> (path: String)
    ensures
        path@ == working_env(),
{
    String::from_str(".env")
}

/// The target that a home directory, a given key and a working directory
/// lead to. A missing home directory is reported before a bad key.
pub open spec fn resolved_target(
    home: Option<Seq<char>>,
    key: Option<Seq<char>>,
    cwd: Option<Seq<u8>>,
) -> Result<(Seq<char>, Seq<char>), KpvError> {
    match home {
        None => Err(KpvError::HomeNotFound),
        Some(h) => match resolved_key(key, cwd) {
            Err(e) => Err(e),
            Ok(k) => Ok((vault_root_of(h), k)),
        },
    }
}

/// The steps that save a key: make its directory, then copy the source
/// into it.
pub open spec fn save_steps(root: Seq<char>, key: Seq<char>, source: Seq<char>) -> Seq<
    ActionView,
> {
    seq![
        ActionView::CreateDirAll { path: key_dir_of(root, key) },
        ActionView::CopyFile { from: source, to: stored_file_of(root, key) },
    ]
}

/// The step that links a key: a link at `dest` to the stored file.
pub open spec fn link_steps(root: Seq<char>, key: Seq<char>, dest: Seq<char>) -> Seq<ActionView> {
    seq![ActionView::Symlink { target: stored_file_of(root, key), link: dest }]
}

/// The step that deletes a key: remove its directory.
pub open spec fn delete_steps(root: Seq<char>, key: Seq<char>) -> Seq<ActionView> {
    seq![ActionView::RemoveDirAll { path: key_dir_of(root, key) }]
}

/// What `save` decides.
pub open spec fn save_decision(
    root: Seq<char>,
    key: Seq<char>,
    source: Seq<char>,
    source_exists: bool,
) -> Result<Seq<ActionView>, KpvError> {
    if source_exists {
        Ok(save_steps(root, key, source))
    } else {
        Err(KpvError::SourceNotFound)
    }
}

/// What `link` decides. A missing stored file is reported before a
/// destination that is taken.
pub open spec fn link_decision(
    root: Seq<char>,
    key: Seq<char>,
    dest: Seq<char>,
    stored_exists: bool,
    dest_exists: bool,
) -> Result<Seq<ActionView>, KpvError> {
    if !stored_exists {
        Err(KpvError::StoredFileNotFound)
    } else if dest_exists {
        Err(KpvError::DestinationExists)
    } else {
        Ok(link_steps(root, key, dest))
    }
}

/// What `delete` decides.
pub open spec fn delete_decision(root: Seq<char>, key: Seq<char>, dir_exists: bool) -> Result<
    Seq<ActionView>,
    KpvError,
> {
    if dir_exists {
        Ok(delete_steps(root, key))
    } else {
        Err(KpvError::KeyNotFound)
    }
}

/// Whether a plan is the one that a decision describes.
pub open spec fn is_decision(
    got: Result<Vec<Action>, KpvError>,
    want: Result<Seq<ActionView>, KpvError>,
) -> bool {
    match want {
        Ok(steps) => got matches Ok(plan) && steps_view(plan@) == steps,
        Err(e) => got matches Err(g) && g == e,
    }
}

/// Whether a target is the one that a resolution describes.
pub open spec fn is_target(
    got: Result<Target, KpvError>,
    want: Result<(Seq<char>, Seq<char>), KpvError>,
) -> bool {
    match want {
        Ok(pair) => got matches Ok(t) && t.root@ == pair.0 && t.key@ == pair.1,
        Err(e) => got matches Err(g) && g == e,
    }
}

/// What an optional home directory holds.
pub open spec fn home_text(home: Option<&str>) -> Option<Seq<char>> {
    match home {
        Some(h) => Some(h@),
        None => None,
    }
}

/// Finds what a command works on: the vault's root below `home`, and the key
/// given or else derived from the working directory `cwd`.
pub fn resolve(home: Option<&str>, key: Option<&str>, cwd: Option<&[u8]>) -> (target: Result<
    Target,
    KpvError,
>)
    ensures
        is_target(target, resolved_target(home_text(home), key_text(key), path_bytes(cwd))),
{
    let root = match vault_root(home) {
        Ok(r) => r,
        Err(e) => { return Err(e); },
    };
    match resolve_key(key, cwd) {
        Ok(k) => Ok(Target { root, key: k }),
        Err(e) => Err(e),
    }
}

/// Save: copy the file at `source`, the working `.env`, to the key's stored
/// file, making the key's directory first. `source_exists` says whether
/// anything is at `source`. The source is left as it is.
pub fn save(target: &Target, source: &str, source_exists: bool) -> (plan: Result<
    Vec<Action>,
    KpvError,
>)
    ensures
        is_decision(plan, save_decision(target.root@, target.key@, source@, source_exists)),
{
    if !source_exists {
        return Err(KpvError::SourceNotFound);
    }
    let root = target.root.as_str();
    let key = target.key.as_str();
    let mut steps: Vec<Action> = Vec::new();
    steps.push(Action::CreateDirAll { path: key_dir(root, key) });
    steps.push(Action::CopyFile { from: String::from_str(source), to: stored_file(root, key) });
    proof {
        assert(steps_view(steps@) =~= save_steps(target.root@, target.key@, source@));
    }
    Ok(steps)
}

/// Link: put a symbolic link to the key's stored file at `dest`, the
/// working `.env`. `stored_exists` says whether the stored file is there,
/// `dest_exists` whether anything is at `dest`. Nothing is ever replaced.
pub fn link(target: &Target, dest: &str, stored_exists: bool, dest_exists: bool) -> (plan: Result<
    Vec<Action>,
    KpvError,
>)
    ensures
        is_decision(
            plan,
            link_decision(target.root@, target.key@, dest@, stored_exists, dest_exists),
        ),
{
    if !stored_exists {
        return Err(KpvError::StoredFileNotFound);
    }
    if dest_exists {
        return Err(KpvError::DestinationExists);
    }
    let mut steps: Vec<Action> = Vec::new();
    steps.push(
        Action::Symlink {
            target: stored_file(target.root.as_str(), target.key.as_str()),
            link: String::from_str(dest),
        },
    );
    proof {
        assert(steps_view(steps@) =~= link_steps(target.root@, target.key@, dest@));
    }
    Ok(steps)
}

/// List: the keys of the vault, sorted. `root_exists` says whether the
/// vault's root is there, `entries` what it holds. A vault that was never
/// saved to has no keys.
pub fn list(root_exists: bool, entries: &Vec<DirEntry>) -> (keys: Vec<String>)
    ensures
        sorted(texts(keys@)),
        root_exists ==> texts(keys@).to_multiset() == key_names(entries@).to_multiset(),
        !root_exists ==> keys@.len() == 0,
{
    if root_exists {
        sorted_keys(entries)
    } else {
        Vec::new()
    }
}

/// Delete: remove the key's directory with all that is in it. `dir_exists`
/// says whether that directory is there.
pub fn delete(target: &Target, dir_exists: bool) -> (plan: Result<Vec<Action>, KpvError>)
    ensures
        is_decision(plan, delete_decision(target.root@, target.key@, dir_exists)),
{
    if !dir_exists {
        return Err(KpvError::KeyNotFound);
    }
    let mut steps: Vec<Action> = Vec::new();
    steps.push(Action::RemoveDirAll { path: key_dir(target.root.as_str(), target.key.as_str()) });
    proof {
        assert(steps_view(steps@) =~= delete_steps(target.root@, target.key@));
    }
    Ok(steps)
}

} // verus!
