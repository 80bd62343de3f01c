use kpv::error::KpvError;
use kpv::paths::{join, key_dir, stored_file, vault_root};

#[test]
fn join_puts_one_separator_between() {
    assert_eq!(join("/home/u", ".config"), "/home/u/.config");
    assert_eq!(join("/home/u/", ".config"), "/home/u/.config");
    assert_eq!(join("", "name"), "name");
    assert_eq!(join("/", "name"), "/name");
    assert_eq!(join("base", ""), "base/");
}

#[test]
fn vault_root_is_below_home() {
    assert_eq!(vault_root(Some("/home/u")), Ok("/home/u/.config/kpv".to_string()));
}

#[test]
fn vault_root_needs_a_home() {
    assert_eq!(vault_root(None), Err(KpvError::HomeNotFound));
}

#[test]
fn key_entry_paths() {
    assert_eq!(key_dir("/h/.config/kpv", "test-project"), "/h/.config/kpv/test-project");
    assert_eq!(
        stored_file("/h/.config/kpv", "test-project"),
        "/h/.config/kpv/test-project/.env"
    );
}

#[test]
fn key_with_separators_is_a_relative_path() {
    assert_eq!(key_dir("/v", "a/b"), "/v/a/b");
    assert_eq!(stored_file("/v", "a/b"), "/v/a/b/.env");
}
