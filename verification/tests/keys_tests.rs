use kpv::error::KpvError;
use kpv::keys::{derive_key_name, resolve_key};

#[test]
fn key_is_the_name_of_the_working_directory() {
    assert_eq!(derive_key_name(Some(b"/home/u/my-project")), Ok("my-project".to_string()));
    assert_eq!(derive_key_name(Some(b"relative/dir")), Ok("dir".to_string()));
    assert_eq!(derive_key_name(Some(b"single")), Ok("single".to_string()));
}

#[test]
fn trailing_separators_are_passed_over() {
    assert_eq!(derive_key_name(Some(b"/home/u/my-project/")), Ok("my-project".to_string()));
    assert_eq!(derive_key_name(Some(b"/home/u/my-project///")), Ok("my-project".to_string()));
}

#[test]
fn unknown_working_directory_gives_no_key() {
    assert_eq!(derive_key_name(None), Err(KpvError::InvalidWorkingDirectory));
}

#[test]
fn path_without_a_name_gives_no_key() {
    assert_eq!(derive_key_name(Some(b"/")), Err(KpvError::InvalidWorkingDirectory));
    assert_eq!(derive_key_name(Some(b"///")), Err(KpvError::InvalidWorkingDirectory));
    assert_eq!(derive_key_name(Some(b"")), Err(KpvError::InvalidWorkingDirectory));
}

#[test]
fn dot_components_give_no_key() {
    assert_eq!(derive_key_name(Some(b"/home/u/..")), Err(KpvError::InvalidWorkingDirectory));
    assert_eq!(derive_key_name(Some(b"..")), Err(KpvError::InvalidWorkingDirectory));
    assert_eq!(derive_key_name(Some(b".")), Err(KpvError::InvalidWorkingDirectory));
    assert_eq!(derive_key_name(Some(b"/home/u/./")), Err(KpvError::InvalidWorkingDirectory));
    assert_eq!(derive_key_name(Some(b"/home/u/...")), Ok("...".to_string()));
    assert_eq!(derive_key_name(Some(b"/home/u/.hidden")), Ok(".hidden".to_string()));
}

#[test]
fn name_that_is_not_text_gives_no_key() {
    assert_eq!(
        derive_key_name(Some(&[b'/', b't', b'/', 0xff, 0xfe])),
        Err(KpvError::NonTextDirectoryName)
    );
    assert_eq!(
        derive_key_name(Some(&[b'/', b't', b'/', b'a', 0xc3])),
        Err(KpvError::NonTextDirectoryName)
    );
}

#[test]
fn only_the_final_component_has_to_be_text() {
    assert_eq!(derive_key_name(Some(&[b'/', 0xff, b'/', b'o', b'k'])), Ok("ok".to_string()));
}

#[test]
fn name_beyond_ascii_is_decoded() {
    let path = "/tmp/プロジェクト-é".as_bytes();
    assert_eq!(derive_key_name(Some(path)), Ok("プロジェクト-é".to_string()));
}

#[test]
fn given_key_wins_over_the_working_directory() {
    assert_eq!(resolve_key(Some("chosen"), Some(b"/home/u/other")), Ok("chosen".to_string()));
    assert_eq!(resolve_key(Some("chosen"), None), Ok("chosen".to_string()));
}

#[test]
fn missing_key_is_derived() {
    assert_eq!(resolve_key(None, Some(b"/home/u/other")), Ok("other".to_string()));
    assert_eq!(resolve_key(None, None), Err(KpvError::InvalidWorkingDirectory));
}

#[test]
fn given_key_is_taken_as_written() {
    assert_eq!(resolve_key(Some("../../etc"), None), Ok("../../etc".to_string()));
    assert_eq!(resolve_key(Some(""), None), Ok("".to_string()));
}
