use kpv::error::KpvError;
use kpv::report::{deleted_line, error_line, linked_line, listing_lines, saved_line};

#[test]
fn save_reports_source_and_key() {
    assert_eq!(saved_line("test-project"), "✅ Saved: ./.env -> 'test-project'");
}

#[test]
fn link_reports_key_and_destination() {
    assert_eq!(linked_line("db-project"), "🔗 Linked: 'db-project' -> ./.env");
}

#[test]
fn delete_reports_the_key() {
    assert_eq!(deleted_line("old"), "🗑️  Deleted: 'old'");
}

#[test]
fn listing_has_a_line_for_each_key() {
    let keys = vec!["a".to_string(), "b".to_string()];
    assert_eq!(listing_lines(&keys), vec!["📦 Saved keys:", "- a", "- b"]);
}

#[test]
fn empty_listing_says_none() {
    assert_eq!(listing_lines(&Vec::new()), vec!["📦 Saved keys:", "(none)"]);
}

#[test]
fn error_line_has_the_prefix() {
    assert_eq!(
        error_line(KpvError::SourceNotFound),
        "Error: No .env file found in current directory"
    );
}

#[test]
fn every_error_has_its_message() {
    assert_eq!(KpvError::HomeNotFound.message(), "Could not determine home directory");
    assert_eq!(
        KpvError::InvalidWorkingDirectory.message(),
        "Could not determine current directory name"
    );
    assert_eq!(
        KpvError::NonTextDirectoryName.message(),
        "Current directory name is not valid UTF-8"
    );
    assert_eq!(KpvError::SourceNotFound.message(), "No .env file found in current directory");
    assert_eq!(KpvError::StoredFileNotFound.message(), "No saved .env file for this key");
    assert_eq!(
        KpvError::DestinationExists.message(),
        ".env file already exists in current directory"
    );
    assert_eq!(KpvError::KeyNotFound.message(), "No such key in the vault");
    assert_eq!(KpvError::Io.message(), "The file system refused the operation");
}
