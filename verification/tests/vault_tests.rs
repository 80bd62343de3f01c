use kpv::commands::{resolve, Target};
use kpv::disk::Disk;
use kpv::tree::Kind;
use kpv::error::KpvError;
use kpv::paths::{join, stored_file, vault_root};
use kpv::report::{deleted_line, error_line, linked_line, listing_lines, saved_line};

struct Output {
    success: bool,
    stdout: String,
    stderr: String,
}

fn finish(result: Result<Vec<String>, KpvError>) -> Output {
    match result {
        Ok(lines) => Output { success: true, stdout: lines.join("\n"), stderr: String::new() },
        Err(e) => Output { success: false, stdout: String::new(), stderr: error_line(e) },
    }
}

fn run(disk: &mut Disk, home: &str, work_dir: &str, args: &[&str]) -> Output {
    let env = join(work_dir, ".env");
    let cwd = Some(work_dir.as_bytes());
    let key = args.get(1).copied();
    let result = match args[0] {
        "save" => resolve(Some(home), key, cwd)
            .and_then(|t| disk.save(&t, &env).map(|_| vec![saved_line(&t.key)])),
        "link" => resolve(Some(home), key, cwd)
            .and_then(|t| disk.link(&t, &env).map(|_| vec![linked_line(&t.key)])),
        "list" => vault_root(Some(home)).map(|root| listing_lines(&disk.list(&root))),
        "delete" => resolve(Some(home), key, cwd)
            .and_then(|t| disk.delete(&t).map(|_| vec![deleted_line(&t.key)])),
        other => panic!("no such command: {}", other),
    };
    finish(result)
}

fn target(root: &str, key: &str) -> Target {
    Target { root: root.to_string(), key: key.to_string() }
}

#[test]
fn test_save_and_list() {
    let mut disk = Disk::new();
    disk.write_file("/t/work/.env", b"API_KEY=secret123\n").unwrap();

    let output = run(&mut disk, "/t", "/t/work", &["save", "test-project"]);
    assert!(output.success);
    assert!(output.stdout.contains("Saved: ./.env -> 'test-project'"));

    assert!(disk.contains("/t/.config/kpv/test-project/.env"));

    let output = run(&mut disk, "/t", "/t/work", &["list"]);
    assert!(output.success);
    assert!(output.stdout.contains("test-project"));
}

#[test]
fn test_link() {
    let mut disk = Disk::new();
    disk.write_file("/t/save_dir/.env", b"DATABASE_URL=postgres://localhost\n").unwrap();
    run(&mut disk, "/t", "/t/save_dir", &["save", "db-project"]);

    let output = run(&mut disk, "/t", "/t/work", &["link", "db-project"]);
    assert!(output.success);
    assert!(output.stdout.contains("Linked: 'db-project' -> ./.env"));

    assert!(disk.contains("/t/work/.env"));
    assert_eq!(disk.node_kind("/t/work/.env"), Some(Kind::Link));
}

#[test]
fn test_save_without_env_file() {
    let mut disk = Disk::new();
    let output = run(&mut disk, "/t", "/t/work", &["save", "test-project"]);
    assert!(!output.success);
    assert!(output.stderr.contains("No .env file found"));
}

#[test]
fn test_link_existing_env_error() {
    let mut disk = Disk::new();
    disk.write_file("/t/save_dir/.env", b"TEST=value\n").unwrap();
    run(&mut disk, "/t", "/t/save_dir", &["save", "existing-project"]);
    disk.write_file("/t/work/.env", b"").unwrap();

    let output = run(&mut disk, "/t", "/t/work", &["link", "existing-project"]);
    assert!(!output.success);
    assert!(output.stderr.contains(".env file already exists"));
}

#[test]
fn test_list_empty() {
    let mut disk = Disk::new();
    let output = run(&mut disk, "/t", "/t/work", &["list"]);
    assert!(output.success);
    assert!(output.stdout.contains("Saved keys:"));
    assert!(output.stdout.contains("(none)"));
}

#[test]
fn saved_bytes_are_read_back() {
    let contents: [&[u8]; 4] = [b"", b"A=1", b"API_KEY=secret123\nB=2\n", &[0, 255, 10, 13, 128]];
    for key in ["k", "with space", "a/b", "日本"] {
        for content in contents {
            let mut disk = Disk::new();
            disk.write_file("/w/.env", content).unwrap();
            let t = target("/h/.config/kpv", key);
            assert_eq!(disk.save(&t, "/w/.env"), Ok(()));
            assert_eq!(disk.read_file(&stored_file(&t.root, &t.key)), Some(content.to_vec()));
            assert_eq!(disk.read_file("/w/.env"), Some(content.to_vec()));
        }
    }
}

#[test]
fn second_save_replaces_the_first() {
    let mut disk = Disk::new();
    let t = target("/h/.config/kpv", "proj");
    disk.write_file("/w/.env", b"FIRST=1\nLONGER=line\n").unwrap();
    assert_eq!(disk.save(&t, "/w/.env"), Ok(()));
    disk.write_file("/w/.env", b"SECOND=2").unwrap();
    assert_eq!(disk.save(&t, "/w/.env"), Ok(()));
    assert_eq!(disk.read_file("/h/.config/kpv/proj/.env"), Some(b"SECOND=2".to_vec()));
    assert_eq!(disk.list("/h/.config/kpv"), vec!["proj"]);
}

#[test]
fn link_without_a_save_fails() {
    let mut disk = Disk::new();
    let t = target("/h/.config/kpv", "never-saved");
    assert_eq!(disk.link(&t, "/w/.env"), Err(KpvError::StoredFileNotFound));
    assert!(!disk.contains("/w/.env"));
}

#[test]
fn link_onto_an_existing_env_fails() {
    let mut disk = Disk::new();
    let t = target("/h/.config/kpv", "proj");
    disk.write_file("/w/.env", b"LOCAL=1").unwrap();
    assert_eq!(disk.link(&t, "/w/.env"), Err(KpvError::StoredFileNotFound));
    assert_eq!(disk.save(&t, "/w/.env"), Ok(()));
    assert_eq!(disk.link(&t, "/w/.env"), Err(KpvError::DestinationExists));
    assert_eq!(disk.read_file("/w/.env"), Some(b"LOCAL=1".to_vec()));
    assert_eq!(disk.node_kind("/w/.env"), Some(Kind::File));
}

#[test]
fn link_reads_what_was_saved() {
    let mut disk = Disk::new();
    let t = target("/h/.config/kpv", "proj");
    disk.write_file("/a/.env", b"TOKEN=abc").unwrap();
    assert_eq!(disk.save(&t, "/a/.env"), Ok(()));
    assert_eq!(disk.link(&t, "/b/.env"), Ok(()));
    assert_eq!(disk.node_kind("/b/.env"), Some(Kind::Link));
    assert_eq!(disk.read_file("/b/.env"), Some(b"TOKEN=abc".to_vec()));
    assert_eq!(disk.read_file("/b/.env"), disk.read_file("/h/.config/kpv/proj/.env"));
    assert_eq!(disk.read_file("/a/.env"), Some(b"TOKEN=abc".to_vec()));
}

#[test]
fn link_follows_a_later_save() {
    let mut disk = Disk::new();
    let t = target("/h/.config/kpv", "proj");
    disk.write_file("/a/.env", b"V=1").unwrap();
    disk.save(&t, "/a/.env").unwrap();
    disk.link(&t, "/b/.env").unwrap();
    disk.write_file("/a/.env", b"V=2").unwrap();
    disk.save(&t, "/a/.env").unwrap();
    assert_eq!(disk.read_file("/b/.env"), Some(b"V=2".to_vec()));
}

#[test]
fn fresh_vault_lists_nothing() {
    let disk = Disk::new();
    assert!(disk.list("/h/.config/kpv").is_empty());
}

#[test]
fn two_saves_are_listed_in_order() {
    let mut disk = Disk::new();
    disk.write_file("/w/.env", b"X=1").unwrap();
    disk.save(&target("/h/.config/kpv", "k2"), "/w/.env").unwrap();
    disk.save(&target("/h/.config/kpv", "k1"), "/w/.env").unwrap();
    assert_eq!(disk.list("/h/.config/kpv"), vec!["k1", "k2"]);
}

#[test]
fn listing_is_sorted_whatever_the_order_of_saves() {
    let mut disk = Disk::new();
    disk.write_file("/w/.env", b"X=1").unwrap();
    for key in ["zeta", "Alpha", "mid", "alpha", "10", "9", "beta"] {
        disk.save(&target("/h/.config/kpv", key), "/w/.env").unwrap();
    }
    assert_eq!(
        disk.list("/h/.config/kpv"),
        vec!["10", "9", "Alpha", "alpha", "beta", "mid", "zeta"]
    );
}

#[test]
fn nested_key_lists_its_first_directory() {
    let mut disk = Disk::new();
    disk.write_file("/w/.env", b"X=1").unwrap();
    disk.save(&target("/h/.config/kpv", "team/api"), "/w/.env").unwrap();
    assert_eq!(disk.list("/h/.config/kpv"), vec!["team"]);
    assert_eq!(disk.read_file("/h/.config/kpv/team/api/.env"), Some(b"X=1".to_vec()));
}

#[test]
fn files_in_the_root_are_not_listed() {
    let mut disk = Disk::new();
    disk.write_file("/w/.env", b"X=1").unwrap();
    disk.save(&target("/h/.config/kpv", "proj"), "/w/.env").unwrap();
    disk.write_file("/h/.config/kpv/README", b"notes").unwrap();
    assert_eq!(disk.list("/h/.config/kpv"), vec!["proj"]);
}

#[test]
fn delete_removes_the_key() {
    let mut disk = Disk::new();
    disk.write_file("/w/.env", b"X=1").unwrap();
    let keep = target("/h/.config/kpv", "keep");
    let gone = target("/h/.config/kpv", "gone");
    disk.save(&keep, "/w/.env").unwrap();
    disk.save(&gone, "/w/.env").unwrap();
    assert_eq!(disk.delete(&gone), Ok(()));
    assert!(!disk.contains("/h/.config/kpv/gone"));
    assert!(!disk.contains("/h/.config/kpv/gone/.env"));
    assert_eq!(disk.list("/h/.config/kpv"), vec!["keep"]);
    assert_eq!(disk.link(&gone, "/other/.env"), Err(KpvError::StoredFileNotFound));
    assert_eq!(disk.read_file("/h/.config/kpv/keep/.env"), Some(b"X=1".to_vec()));
    assert_eq!(disk.read_file("/w/.env"), Some(b"X=1".to_vec()));
}

#[test]
fn delete_spares_keys_that_start_alike() {
    let mut disk = Disk::new();
    disk.write_file("/w/.env", b"X=1").unwrap();
    disk.save(&target("/h/.config/kpv", "app"), "/w/.env").unwrap();
    disk.save(&target("/h/.config/kpv", "app2"), "/w/.env").unwrap();
    disk.save(&target("/h/.config/kpv", "app/sub"), "/w/.env").unwrap();
    assert_eq!(disk.delete(&target("/h/.config/kpv", "app")), Ok(()));
    assert_eq!(disk.list("/h/.config/kpv"), vec!["app2"]);
    assert!(!disk.contains("/h/.config/kpv/app/sub/.env"));
}

#[test]
fn delete_of_a_missing_key_fails() {
    let mut disk = Disk::new();
    assert_eq!(disk.delete(&target("/h/.config/kpv", "nothing")), Err(KpvError::KeyNotFound));
    disk.write_file("/w/.env", b"X=1").unwrap();
    disk.save(&target("/h/.config/kpv", "proj"), "/w/.env").unwrap();
    assert_eq!(disk.delete(&target("/h/.config/kpv", "other")), Err(KpvError::KeyNotFound));
    assert_eq!(disk.list("/h/.config/kpv"), vec!["proj"]);
}

#[test]
fn delete_then_save_again() {
    let mut disk = Disk::new();
    let t = target("/h/.config/kpv", "proj");
    disk.write_file("/w/.env", b"X=1").unwrap();
    disk.save(&t, "/w/.env").unwrap();
    disk.delete(&t).unwrap();
    assert!(disk.list("/h/.config/kpv").is_empty());
    disk.write_file("/w/.env", b"X=2").unwrap();
    disk.save(&t, "/w/.env").unwrap();
    assert_eq!(disk.read_file("/h/.config/kpv/proj/.env"), Some(b"X=2".to_vec()));
}

#[test]
fn scenario_save_then_list() {
    let mut disk = Disk::new();
    disk.write_file("/home/u/work/.env", b"API_KEY=secret123").unwrap();
    let output = run(&mut disk, "/home/u", "/home/u/work", &["save", "test-project"]);
    assert!(output.success);
    assert_eq!(
        disk.read_file("/home/u/.config/kpv/test-project/.env"),
        Some(b"API_KEY=secret123".to_vec())
    );
    let output = run(&mut disk, "/home/u", "/home/u/work", &["list"]);
    assert!(output.success);
    assert_eq!(output.stdout, "📦 Saved keys:\n- test-project");
}

#[test]
fn scenario_save_without_a_key_uses_the_directory_name() {
    let mut disk = Disk::new();
    disk.write_file("/home/u/api-server/.env", b"LISTEN=8080").unwrap();
    let output = run(&mut disk, "/home/u", "/home/u/api-server", &["save"]);
    assert!(output.success);
    assert_eq!(output.stdout, "✅ Saved: ./.env -> 'api-server'");
    assert_eq!(
        disk.read_file("/home/u/.config/kpv/api-server/.env"),
        Some(b"LISTEN=8080".to_vec())
    );
}

#[test]
fn scenario_delete_reports_the_key() {
    let mut disk = Disk::new();
    disk.write_file("/w/.env", b"X=1").unwrap();
    run(&mut disk, "/home/u", "/w", &["save", "old"]);
    let output = run(&mut disk, "/home/u", "/w", &["delete", "old"]);
    assert!(output.success);
    assert!(output.stdout.contains("Deleted: 'old'"));
    let output = run(&mut disk, "/home/u", "/w", &["delete", "old"]);
    assert!(!output.success);
    assert_eq!(output.stderr, "Error: No such key in the vault");
}
