use kpv::commands::Action;
use kpv::disk::Disk;
use kpv::tree::Kind;
use kpv::error::KpvError;
use kpv::listing::DirEntry;

fn names(mut entries: Vec<DirEntry>) -> Vec<(String, bool)> {
    entries.sort_by(|a, b| a.name.cmp(&b.name));
    entries.into_iter().map(|e| (String::from_utf8(e.name).unwrap(), e.is_dir)).collect()
}

#[test]
fn new_disk_holds_nothing() {
    let disk = Disk::new();
    assert!(!disk.contains("/"));
    assert!(!disk.contains(""));
    assert_eq!(disk.node_kind("/a"), None);
    assert_eq!(disk.read_file("/a"), None);
    assert!(disk.read_dir("/").is_empty());
}

#[test]
fn written_file_is_read_back() {
    let mut disk = Disk::new();
    assert_eq!(disk.write_file("/a/f", b"one"), Ok(()));
    assert_eq!(disk.read_file("/a/f"), Some(b"one".to_vec()));
    assert_eq!(disk.node_kind("/a/f"), Some(Kind::File));
    assert_eq!(disk.write_file("/a/f", b"two"), Ok(()));
    assert_eq!(disk.read_file("/a/f"), Some(b"two".to_vec()));
}

#[test]
fn file_is_not_written_over_a_directory_or_a_link() {
    let mut disk = Disk::new();
    disk.create_dir_all("/a/dir").unwrap();
    assert_eq!(disk.write_file("/a/dir", b"x"), Err(KpvError::Io));
    assert_eq!(disk.node_kind("/a/dir"), Some(Kind::Dir));
    disk.symlink("/target", "/a/link").unwrap();
    assert_eq!(disk.write_file("/a/link", b"x"), Err(KpvError::Io));
    assert_eq!(disk.node_kind("/a/link"), Some(Kind::Link));
}

#[test]
fn create_dir_all_makes_the_parents() {
    let mut disk = Disk::new();
    assert_eq!(disk.create_dir_all("/h/.config/kpv/proj"), Ok(()));
    for path in ["/h", "/h/.config", "/h/.config/kpv", "/h/.config/kpv/proj"] {
        assert_eq!(disk.node_kind(path), Some(Kind::Dir));
    }
    assert!(!disk.contains("/"));
    assert!(!disk.contains("/h/"));
    assert!(!disk.contains("/h/.config/kpv/pro"));
    assert_eq!(disk.create_dir_all("/h/.config/kpv/proj"), Ok(()));
    assert_eq!(disk.create_dir_all("rel/dir"), Ok(()));
    assert_eq!(disk.node_kind("rel"), Some(Kind::Dir));
    assert_eq!(disk.node_kind("rel/dir"), Some(Kind::Dir));
}

#[test]
fn create_dir_all_stops_at_a_file() {
    let mut disk = Disk::new();
    disk.write_file("/h/file", b"x").unwrap();
    assert_eq!(disk.create_dir_all("/h/file/sub"), Err(KpvError::Io));
    assert_eq!(disk.node_kind("/h"), Some(Kind::Dir));
    assert_eq!(disk.node_kind("/h/file"), Some(Kind::File));
    assert!(!disk.contains("/h/file/sub"));
    assert_eq!(disk.create_dir_all("/h/file"), Err(KpvError::Io));
}

#[test]
fn copy_takes_the_bytes() {
    let mut disk = Disk::new();
    disk.write_file("/a", b"bytes").unwrap();
    assert_eq!(disk.copy_file("/a", "/b"), Ok(()));
    assert_eq!(disk.read_file("/b"), Some(b"bytes".to_vec()));
    assert_eq!(disk.read_file("/a"), Some(b"bytes".to_vec()));
    assert_eq!(disk.copy_file("/missing", "/c"), Err(KpvError::Io));
    assert!(!disk.contains("/c"));
    disk.create_dir_all("/d").unwrap();
    assert_eq!(disk.copy_file("/a", "/d"), Err(KpvError::Io));
    assert_eq!(disk.copy_file("/d", "/e"), Err(KpvError::Io));
}

#[test]
fn copy_reads_through_a_link() {
    let mut disk = Disk::new();
    disk.write_file("/stored", b"kept").unwrap();
    disk.symlink("/stored", "/link").unwrap();
    assert_eq!(disk.copy_file("/link", "/copy"), Ok(()));
    assert_eq!(disk.read_file("/copy"), Some(b"kept".to_vec()));
    assert_eq!(disk.node_kind("/copy"), Some(Kind::File));
}

#[test]
fn dangling_link_reads_nothing() {
    let mut disk = Disk::new();
    assert_eq!(disk.symlink("/nowhere", "/link"), Ok(()));
    assert!(disk.contains("/link"));
    assert_eq!(disk.read_file("/link"), None);
    assert_eq!(disk.symlink("/elsewhere", "/link"), Err(KpvError::Io));
}

#[test]
fn remove_dir_all_takes_what_lies_in_it() {
    let mut disk = Disk::new();
    disk.create_dir_all("/v/a/deep").unwrap();
    disk.write_file("/v/a/.env", b"1").unwrap();
    disk.write_file("/v/a/deep/f", b"2").unwrap();
    disk.write_file("/v/ab", b"3").unwrap();
    disk.create_dir_all("/v/b").unwrap();
    assert_eq!(disk.remove_dir_all("/v/a"), Ok(()));
    for path in ["/v/a", "/v/a/.env", "/v/a/deep", "/v/a/deep/f"] {
        assert!(!disk.contains(path));
    }
    assert_eq!(disk.read_file("/v/ab"), Some(b"3".to_vec()));
    assert_eq!(disk.node_kind("/v/b"), Some(Kind::Dir));
    assert_eq!(disk.node_kind("/v"), Some(Kind::Dir));
}

#[test]
fn remove_dir_all_needs_a_directory() {
    let mut disk = Disk::new();
    disk.write_file("/v/f", b"1").unwrap();
    assert_eq!(disk.remove_dir_all("/v/f"), Err(KpvError::Io));
    assert_eq!(disk.remove_dir_all("/v/missing"), Err(KpvError::Io));
    assert_eq!(disk.read_file("/v/f"), Some(b"1".to_vec()));
}

#[test]
fn read_dir_shows_what_stands_in_the_directory() {
    let mut disk = Disk::new();
    disk.create_dir_all("/v/b/inner").unwrap();
    disk.create_dir_all("/v/a").unwrap();
    disk.write_file("/v/file", b"x").unwrap();
    disk.symlink("/v/file", "/v/link").unwrap();
    disk.write_file("/w/other", b"y").unwrap();
    assert_eq!(
        names(disk.read_dir("/v")),
        vec![
            ("a".to_string(), true),
            ("b".to_string(), true),
            ("file".to_string(), false),
            ("link".to_string(), false),
        ]
    );
    assert_eq!(names(disk.read_dir("/v/")), names(disk.read_dir("/v")));
    assert_eq!(names(disk.read_dir("/v/b")), vec![("inner".to_string(), true)]);
    assert!(disk.read_dir("/v/a").is_empty());
    assert!(disk.read_dir("/nowhere").is_empty());
}

#[test]
fn read_dir_gives_names_in_utf8() {
    let mut disk = Disk::new();
    disk.create_dir_all("/v/日本語").unwrap();
    let entries = disk.read_dir("/v");
    assert_eq!(entries, vec![DirEntry { name: "日本語".as_bytes().to_vec(), is_dir: true }]);
}

#[test]
fn apply_all_stops_at_the_first_refusal() {
    let mut disk = Disk::new();
    disk.write_file("/src", b"x").unwrap();
    let steps = vec![
        Action::CreateDirAll { path: "/v/k".to_string() },
        Action::CopyFile { from: "/missing".to_string(), to: "/v/k/.env".to_string() },
        Action::CopyFile { from: "/src".to_string(), to: "/v/k/late".to_string() },
    ];
    assert_eq!(disk.apply_all(&steps), Err(KpvError::Io));
    assert_eq!(disk.node_kind("/v/k"), Some(Kind::Dir));
    assert!(!disk.contains("/v/k/.env"));
    assert!(!disk.contains("/v/k/late"));
}

#[test]
fn apply_carries_out_each_kind_of_step() {
    let mut disk = Disk::new();
    disk.write_file("/src", b"x").unwrap();
    assert_eq!(disk.apply(&Action::CreateDirAll { path: "/v/k".to_string() }), Ok(()));
    assert_eq!(
        disk.apply(&Action::CopyFile { from: "/src".to_string(), to: "/v/k/.env".to_string() }),
        Ok(())
    );
    assert_eq!(
        disk.apply(&Action::Symlink { target: "/v/k/.env".to_string(), link: "/l".to_string() }),
        Ok(())
    );
    assert_eq!(disk.read_file("/l"), Some(b"x".to_vec()));
    assert_eq!(disk.apply(&Action::RemoveDirAll { path: "/v/k".to_string() }), Ok(()));
    assert_eq!(disk.read_file("/l"), None);
    assert_eq!(disk.apply_all(&Vec::new()), Ok(()));
}
