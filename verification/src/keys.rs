//! The key that a command works on: the one given, or else the name of the
//! working directory.

use vstd::prelude::*;
use vstd::slice::*;
use vstd::string::*;
use vstd::utf8::*;

use crate::error::KpvError;

verus! {

/// The byte that separates the components of a path, `/`.
pub const SEPARATOR: u8 = 47;

/// The byte `.`.
pub const DOT: u8 = 46;

/// How many bytes of a path remain once the separators at its end are dropped.
pub open spec fn trimmed_len(path: Seq<u8>) -> nat
    decreases path.len(),
{
    if path.len() > 0 && path.last() == SEPARATOR {
        trimmed_len(path.drop_last())
    } else {
        path.len()
    }
}

/// Where the last component starts in a path that ends with it.
pub open spec fn component_start(path: Seq<u8>) -> nat
    decreases path.len(),
{
    if path.len() > 0 && path.last() != SEPARATOR {
        component_start(path.drop_last())
    } else {
        path.len()
    }
}

/// The final component of a path: what stands between the last separator
/// that something follows and the separators at the end. Empty where the path
/// is empty or made of separators only.
pub open spec fn final_component(path: Seq<u8>) -> Seq<u8> {
    let trimmed = path.take(trimmed_len(path) as int);
    trimmed.skip(component_start(trimmed) as int)
}

/// `.` and `..`: components that name no directory of their own.
pub open spec fn is_dot_name(name: Seq<u8>) -> bool {
    name == seq![DOT] || name == seq![DOT, DOT]
}

/// The key that a working directory gives, or the reason why it gives none.
pub open spec fn derived_key(cwd: Option<Seq<u8>>) -> Result<Seq<char>, KpvError> {
    match cwd {
        None => Err(KpvError::InvalidWorkingDirectory),
        Some(path) => {
            let name = final_component(path);
            if name.len() == 0 || is_dot_name(name) {
                Err(KpvError::InvalidWorkingDirectory)
            } else if !valid_utf8(name) {
                Err(KpvError::NonTextDirectoryName)
            } else {
                Ok(decode_utf8(name))
            }
        },
    }
}

/// The key that a command works on: the one given, else the derived one.
pub open spec fn resolved_key(key: Option<Seq<char>>, cwd: Option<Seq<u8>>) -> Result<
    Seq<char>,
    KpvError,
> {
    match key {
        Some(k) => Ok(k),
        None => derived_key(cwd),
    }
}

/// What an optional path holds.
pub open spec fn path_bytes(cwd: Option<&[u8]>) -> Option<Seq<u8>> {
    match cwd {
        Some(p) => Some(p@),
        None => None,
    }
}

/// What an optional key holds.
pub open spec fn key_text(key: Option<&str>) -> Option<Seq<char>> {
    match key {
        Some(k) => Some(k@),
        None => None,
    }
}

/// Whether a result holds the key, or the error, that `want` names.
pub open spec fn is_key_result(
    got: Result<String, KpvError>,
    want: Result<Seq<char>, KpvError>,
) -> bool {
    match want {
        Ok(k) => got matches Ok(s) && s@ == k,
        Err(e) => got matches Err(g) && g == e,
    }
}

/// A path is what precedes its final component, that component, and
/// separators; the component holds no separator, and a separator stands
/// before it unless it starts the path.
pub proof fn lemma_final_component_shape(path: Seq<u8>)
    ensures
        ({
            let end = trimmed_len(path) as int;
            let start = component_start(path.take(end)) as int;
            &&& 0 <= start <= end <= path.len()
            &&& final_component(path) == path.subrange(start, end)
            &&& forall|i: int| end <= i < path.len() ==> path[i] == SEPARATOR
            &&& forall|i: int| start <= i < end ==> path[i] != SEPARATOR
            &&& start > 0 ==> path[start - 1] == SEPARATOR
            &&& end > 0 ==> path[end - 1] != SEPARATOR
        }),
{
    lemma_trimmed_shape(path);
    let end = trimmed_len(path) as int;
    lemma_start_shape(path.take(end));
    let start = component_start(path.take(end)) as int;
    assert(path.take(end).skip(start) =~= path.subrange(start, end));
    assert forall|i: int| start <= i < end implies path[i] != SEPARATOR by {
        assert(path.take(end)[i] == path[i]);
    }
    if start > 0 {
        assert(path.take(end)[start - 1] == path[start - 1]);
    }
}

proof fn lemma_trimmed_shape(path: Seq<u8>)
    ensures
        trimmed_len(path) <= path.len(),
        forall|i: int| trimmed_len(path) <= i < path.len() ==> path[i] == SEPARATOR,
        trimmed_len(path) > 0 ==> path[trimmed_len(path) - 1] != SEPARATOR,
    decreases path.len(),
{
    if path.len() > 0 && path.last() == SEPARATOR {
        let rest = path.drop_last();
        lemma_trimmed_shape(rest);
        assert forall|i: int| trimmed_len(path) <= i < path.len() implies path[i] == SEPARATOR by {
            if i < rest.len() {
                assert(rest[i] == path[i]);
            }
        }
        if trimmed_len(path) > 0 {
            assert(rest[trimmed_len(rest) - 1] == path[trimmed_len(path) - 1]);
        }
    }
}

proof fn lemma_start_shape(path: Seq<u8>)
    ensures
        component_start(path) <= path.len(),
        forall|i: int| component_start(path) <= i < path.len() ==> path[i] != SEPARATOR,
        component_start(path) > 0 ==> path[component_start(path) - 1] == SEPARATOR,
    decreases path.len(),
{
    if path.len() > 0 && path.last() != SEPARATOR {
        let rest = path.drop_last();
        lemma_start_shape(rest);
        assert forall|i: int| component_start(path) <= i < path.len() implies path[i]
            != SEPARATOR by {
            if i < rest.len() {
                assert(rest[i] == path[i]);
            }
        }
        if component_start(path) > 0 {
            assert(rest[component_start(rest) - 1] == path[component_start(path) - 1]);
        }
    }
}

/// `std::str::from_utf8`: the bytes read as text. There is a text exactly
/// when the bytes are well-formed UTF-8, and its encoding is those bytes.
#[verifier::external_body]
fn text_of<'a>(bytes: &'a [u8]) -> (text: Option<&'a str>)
    ensures
        text.is_some() == valid_utf8(bytes@),
        text matches Some(s) ==> s.spec_bytes() == bytes@,
{
    match std::str::from_utf8(bytes) {
        Ok(s) => Some(s),
        Err(_) => None,
    }
}

/// The bytes read as text, with the text stated by its characters.
pub(crate) fn decoded<'a>(bytes: &'a [u8]) -> (text: Option<&'a str>)
    ensures
        text.is_some() == valid_utf8(bytes@),
        text matches Some(s) ==> s@ == decode_utf8(bytes@),
{
    let text = text_of(bytes);
    proof {
        if let Some(s) = text {
            encode_utf8_decode_utf8(s@);
        }
    }
    text
}

/// The name of the working directory, as the key to use where none is given.
///
/// `cwd` is the working directory's path in bytes, `None` where it could not
/// be read. A path without a final component, or with `.` or `..` as its
/// final component, gives no key.
pub fn derive_key_name(cwd: Option<&[u8]>) -> (key: Result<String, KpvError>)
    ensures
        is_key_result(key, derived_key(path_bytes(cwd))),
{
    let path = match cwd {
        Some(p) => p,
        None => { return Err(KpvError::InvalidWorkingDirectory); },
    };
    let mut end: usize = path.len();
    proof {
        assert(path@.take(end as int) =~= path@);
    }
    while end > 0 && path[end - 1] == SEPARATOR
        invariant
            end <= path@.len(),
            trimmed_len(path@) == trimmed_len(path@.take(end as int)),
        decreases end,
    {
        proof {
            assert(path@.take(end as int).drop_last() =~= path@.take(end as int - 1));
        }
        end -= 1;
    }
    let ghost trimmed = path@.take(end as int);
    let mut start: usize = end;
    proof {
        assert(trimmed.take(start as int) =~= trimmed);
    }
    while start > 0 && path[start - 1] != SEPARATOR
        invariant
            start <= end <= path@.len(),
            trimmed == path@.take(end as int),
            component_start(trimmed) == component_start(trimmed.take(start as int)),
        decreases start,
    {
        proof {
            assert(trimmed.take(start as int).drop_last() =~= trimmed.take(start as int - 1));
        }
        start -= 1;
    }
    proof {
        assert(trimmed.take(end as int) =~= trimmed);
        assert(trimmed.skip(start as int) =~= path@.subrange(start as int, end as int));
    }
    if start == end {
        return Err(KpvError::InvalidWorkingDirectory);
    }
    let name = slice_subrange(path, start, end);
    let dots = (name.len() == 1 && name[0] == DOT) || (name.len() == 2 && name[0] == DOT
        && name[1] == DOT);
    proof {
        assert(dots ==> name@ =~= seq![DOT] || name@ =~= seq![DOT, DOT]);
        assert(seq![DOT].len() == 1 && seq![DOT, DOT].len() == 2);
    }
    if dots {
        return Err(KpvError::InvalidWorkingDirectory);
    }
    match decoded(name) {
        Some(text) => Ok(String::from_str(text)),
        None => Err(KpvError::NonTextDirectoryName),
    }
}

/// The key that a command works on: `key` where one is given, else the name
/// of the working directory.
pub fn resolve_key(key: Option<&str>, cwd: Option<&[u8]>) -> (resolved: Result<String, KpvError>)
    ensures
        is_key_result(resolved, resolved_key(key_text(key), path_bytes(cwd))),
{
    match key {
        Some(k) => Ok(String::from_str(k)),
        None => derive_key_name(cwd),
    }
}

} // verus!
