use kpv::commands::{delete, link, resolve, save, working_env_file, Action, Target};
use kpv::error::KpvError;

fn target(key: &str) -> Target {
    Target { root: "/h/.config/kpv".to_string(), key: key.to_string() }
}

#[test]
fn resolve_finds_root_and_key() {
    let found = resolve(Some("/home/u"), Some("proj"), None);
    assert_eq!(
        found,
        Ok(Target { root: "/home/u/.config/kpv".to_string(), key: "proj".to_string() })
    );
}

#[test]
fn resolve_derives_a_missing_key() {
    let found = resolve(Some("/home/u"), None, Some(b"/work/api-server"));
    assert_eq!(
        found,
        Ok(Target { root: "/home/u/.config/kpv".to_string(), key: "api-server".to_string() })
    );
}

#[test]
fn resolve_reports_a_missing_home_first() {
    assert_eq!(resolve(None, Some("proj"), None), Err(KpvError::HomeNotFound));
    assert_eq!(resolve(None, None, None), Err(KpvError::HomeNotFound));
    assert_eq!(resolve(None, None, Some(&[0xff])), Err(KpvError::HomeNotFound));
}

#[test]
fn resolve_reports_a_bad_working_directory() {
    assert_eq!(resolve(Some("/home/u"), None, None), Err(KpvError::InvalidWorkingDirectory));
    assert_eq!(resolve(Some("/home/u"), None, Some(b"/")), Err(KpvError::InvalidWorkingDirectory));
    assert_eq!(
        resolve(Some("/home/u"), None, Some(&[b'/', 0xff])),
        Err(KpvError::NonTextDirectoryName)
    );
}

#[test]
fn working_env_is_dot_env() {
    assert_eq!(working_env_file(), ".env");
}

#[test]
fn save_makes_the_directory_then_copies() {
    let plan = save(&target("test-project"), ".env", true);
    assert_eq!(
        plan,
        Ok(vec![
            Action::CreateDirAll { path: "/h/.config/kpv/test-project".to_string() },
            Action::CopyFile {
                from: ".env".to_string(),
                to: "/h/.config/kpv/test-project/.env".to_string(),
            },
        ])
    );
}

#[test]
fn save_needs_a_source() {
    assert_eq!(save(&target("test-project"), ".env", false), Err(KpvError::SourceNotFound));
}

#[test]
fn link_points_at_the_stored_file() {
    let plan = link(&target("db-project"), ".env", true, false);
    assert_eq!(
        plan,
        Ok(vec![Action::Symlink {
            target: "/h/.config/kpv/db-project/.env".to_string(),
            link: ".env".to_string(),
        }])
    );
}

#[test]
fn link_needs_a_stored_file() {
    assert_eq!(link(&target("k"), ".env", false, false), Err(KpvError::StoredFileNotFound));
}

#[test]
fn link_never_replaces() {
    assert_eq!(link(&target("k"), ".env", true, true), Err(KpvError::DestinationExists));
}

#[test]
fn link_fails_on_a_taken_destination_whether_the_key_exists_or_not() {
    assert!(link(&target("k"), ".env", true, true).is_err());
    assert!(link(&target("k"), ".env", false, true).is_err());
    assert_eq!(link(&target("k"), ".env", false, true), Err(KpvError::StoredFileNotFound));
}

#[test]
fn delete_removes_the_key_directory() {
    assert_eq!(
        delete(&target("old"), true),
        Ok(vec![Action::RemoveDirAll { path: "/h/.config/kpv/old".to_string() }])
    );
}

#[test]
fn delete_needs_the_key() {
    assert_eq!(delete(&target("old"), false), Err(KpvError::KeyNotFound));
}

#[test]
fn keys_are_not_checked() {
    let plan = save(&target("../../etc"), ".env", true);
    assert_eq!(
        plan,
        Ok(vec![
            Action::CreateDirAll { path: "/h/.config/kpv/../../etc".to_string() },
            Action::CopyFile {
                from: ".env".to_string(),
                to: "/h/.config/kpv/../../etc/.env".to_string(),
            },
        ])
    );
}
