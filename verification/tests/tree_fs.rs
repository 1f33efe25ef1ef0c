use flex_updater_mc::convert::load_directory;
use flex_updater_mc::tree::validate_segment;
use flex_updater_mc::tree::runtime_files_tree;
use flex_updater_mc::fetcher::DummyUrlFetcher;
use flex_updater_mc::memfs::OnMemoryFsHandler;
use flex_updater_mc::tree::Dir;
use flex_updater_mc::tree::File;
use flex_updater_mc::tree::Path;
use flex_updater_mc::tree::Permission;

#[test]
fn test_vpath_creation() {
    let path = Path::new();
    assert!(path.is_empty());

    let path = Path::from_str("foo/bar/baz");
    assert_eq!(path.components(), &vec!["foo", "bar", "baz"]);

    let path = Path::from_str("/foo/bar/");
    assert_eq!(path.components(), &vec!["foo", "bar"]);

    let path = Path::from_str("");
    assert!(path.is_empty());
}

#[test]
fn test_vpath_operations() {
    let mut path = Path::new();
    path.push("foo".to_string());
    path.push("bar".to_string());
    assert_eq!(path.components(), &vec!["foo", "bar"]);

    assert_eq!(path.pop(), Some("bar".to_string()));
    assert_eq!(path.components(), &vec!["foo"]);
}

#[test]
fn test_vdir_basic_operations() {
    let mut root = Dir::new();
    let file = File::inline(b"hello world".to_vec(), Permission::read_write());

    assert!(root.put_file(&Path::from_str("test.txt"), file).is_ok());

    let retrieved = root.get_file(&Path::from_str("test.txt"));
    assert!(retrieved.is_some());
    match retrieved.unwrap() {
        File::Inline(data, _) => assert_eq!(data, b"hello world"),
        _ => panic!("Expected inline file"),
    }

    let file2 = File::inline(b"conflict".to_vec(), Permission::read_write());
    assert!(root.put_file(&Path::from_str("test.txt"), file2).is_ok());
}

#[test]
fn test_vdir_nested_operations() {
    let mut root = Dir::new();
    let file = File::inline(b"nested file".to_vec(), Permission::read_write());

    assert!(root.put_file(&Path::from_str("dir1/dir2/nested.txt"), file).is_ok());

    let retrieved = root.get_file(&Path::from_str("dir1/dir2/nested.txt"));
    assert!(retrieved.is_some());

    let dir = root.get_dir(&Path::from_str("dir1"));
    assert!(dir.is_some());

    let nested_dir = root.get_dir(&Path::from_str("dir1/dir2"));
    assert!(nested_dir.is_some());
}

#[test]
fn test_vdir_deletion() {
    let mut root = Dir::new();
    let file = File::inline(b"to be deleted".to_vec(), Permission::read_write());

    assert!(root.put_file(&Path::from_str("temp.txt"), file).is_ok());
    assert!(root.get_file(&Path::from_str("temp.txt")).is_some());

    assert!(root.delete(&Path::from_str("temp.txt")));
    assert!(root.get_file(&Path::from_str("temp.txt")).is_none());

    assert!(!root.delete(&Path::from_str("nonexistent.txt")));
}

#[test]
fn test_vdir_nested_deletion() {
    let mut root = Dir::new();
    let file = File::inline(b"nested deletion".to_vec(), Permission::read_write());

    assert!(root.put_file(&Path::from_str("a/b/c.txt"), file).is_ok());
    assert!(root.get_file(&Path::from_str("a/b/c.txt")).is_some());

    assert!(root.delete(&Path::from_str("a/b/c.txt")));
    assert!(root.get_file(&Path::from_str("a/b/c.txt")).is_none());

    assert!(root.get_dir(&Path::from_str("a/b")).is_some());
}

#[test]
fn test_path_conflict_scenarios() {
    let mut root = Dir::new();
    let file = File::inline(b"file content".to_vec(), Permission::read_write());

    assert!(root.put_file(&Path::from_str("overwrite"), file).is_ok());

    let dir = Dir::new();
    assert!(root.put_dir(&Path::from_str("overwrite"), dir).is_ok());
}

#[test]
fn test_put_through_file_is_a_conflict() {
    let mut root = Dir::new();
    let file = File::inline(b"leaf".to_vec(), Permission::read_write());
    assert!(root.put_file(&Path::from_str("a"), file).is_ok());
    let below = File::inline(b"deeper".to_vec(), Permission::read_write());
    assert!(root.put_file(&Path::from_str("a/b"), below).is_err());
    match root.get_file(&Path::from_str("a")) {
        Some(File::Inline(data, _)) => assert_eq!(data, b"leaf"),
        _ => panic!("Expected the original leaf to survive the conflict"),
    }
}

#[test]
fn test_complex_directory_structure() {
    let mut root = Dir::new();

    let files = vec![
        ("src/main.rs", "fn main() {}"),
        ("src/lib.rs", "pub mod test;"),
        ("tests/integration.rs", "#[test] fn test() {}"),
        ("Cargo.toml", "[package]\nname = \"test\""),
        ("README.md", "# Test Project"),
    ];

    for (path, content) in files.iter() {
        let file = File::inline(content.as_bytes().to_vec(), Permission::read_write());
        assert!(root.put_file(&Path::from_str(path), file).is_ok());
    }

    for (path, content) in files.iter() {
        let retrieved = root.get_file(&Path::from_str(path));
        assert!(retrieved.is_some());
        match retrieved.unwrap() {
            File::Inline(data, _) => assert_eq!(data, content.as_bytes()),
            _ => panic!("Expected inline file"),
        }
    }

    assert!(root.get_dir(&Path::from_str("src")).is_some());
    assert!(root.get_dir(&Path::from_str("tests")).is_some());
}

#[test]
fn test_mount_round_trip() {
    let mut tree = Dir::new();
    tree.put_file(
        &Path::from_str("a.txt"),
        File::inline(b"hi".to_vec(), Permission::read_write()),
    )
    .unwrap();
    tree.put_file(
        &Path::from_str("sub/b.txt"),
        File::inline(b"there".to_vec(), Permission::read_write()),
    )
    .unwrap();

    let mut fs = OnMemoryFsHandler::new();
    let fetcher = DummyUrlFetcher::new();
    let base = Path::from_str("tmp/T");
    tree.mount_to(&mut fs, &base, &fetcher).unwrap();

    assert!(fs.is_file(&Path::from_str("tmp/T/a.txt")));
    assert_eq!(fs.read(&Path::from_str("tmp/T/a.txt")).unwrap(), b"hi".to_vec());
    assert_eq!(fs.read(&Path::from_str("tmp/T/sub/b.txt")).unwrap(), b"there".to_vec());
    assert!(fs.is_dir(&Path::from_str("tmp/T/sub")));

    let loaded = load_directory(&fs, &base).unwrap();
    match loaded.get_file(&Path::from_str("a.txt")) {
        Some(File::Inline(data, _)) => assert_eq!(data, b"hi"),
        _ => panic!("Expected a.txt back as an inline leaf"),
    }
    match loaded.get_file(&Path::from_str("sub/b.txt")) {
        Some(File::Inline(data, _)) => assert_eq!(data, b"there"),
        _ => panic!("Expected sub/b.txt back as an inline leaf"),
    }
    assert!(loaded.get_dir(&Path::from_str("sub")).is_some());
}

#[test]
fn test_mount_resolves_local_and_url_leaves() {
    let mut fs = OnMemoryFsHandler::new();
    fs.write(&Path::from_str("srcdir/origin.bin"), b"payload", false).unwrap();
    let mut fetcher = DummyUrlFetcher::new();
    fetcher.add_data("https://host/blob".to_string(), b"fetched".to_vec());

    let mut tree = Dir::new();
    tree.put_file(
        &Path::from_str("copied.bin"),
        File::Path("srcdir/origin.bin".to_string(), Permission::read_write()),
    )
    .unwrap();
    tree.put_file(
        &Path::from_str("downloaded.bin"),
        File::Url("https://host/blob".to_string(), Permission::executable()),
    )
    .unwrap();

    let base = Path::from_str("out");
    tree.mount_to(&mut fs, &base, &fetcher).unwrap();
    assert_eq!(fs.read(&Path::from_str("out/copied.bin")).unwrap(), b"payload".to_vec());
    assert_eq!(fs.read(&Path::from_str("out/downloaded.bin")).unwrap(), b"fetched".to_vec());
}

#[test]
fn test_dummy_url_fetcher_success() {
    let mut fetcher = DummyUrlFetcher::new();
    let test_data = b"test data".to_vec();
    fetcher.add_data("https://example.com".to_string(), test_data.clone());
    let result = fetcher.fetch_binary("https://example.com");
    assert!(result.is_ok());
    assert_eq!(result.unwrap(), test_data);
}

#[test]
fn test_dummy_url_fetcher_not_found() {
    let fetcher = DummyUrlFetcher::new();
    let result = fetcher.fetch_binary("https://example.com");
    assert!(result.is_err());
}

#[test]
fn test_on_memory_fs_handler_write_read() {
    let mut fs_handler = OnMemoryFsHandler::new();
    let file_path = Path::from_str("test.txt");
    let data = b"hello world";
    fs_handler.write(&file_path, data, false).unwrap();
    let read_data = fs_handler.read(&file_path).unwrap();
    assert_eq!(data, &read_data[..]);
}

#[test]
fn test_on_memory_fs_handler_mkdir_list() {
    let mut fs_handler = OnMemoryFsHandler::new();
    fs_handler.mkdir(&Path::from_str("root/subdir")).unwrap();
    let entries = fs_handler.list_entries(&Path::from_str("root"));
    assert!(entries.iter().any(|n| n == "subdir"));
}

#[test]
fn test_segment_naming_rules() {
    assert!(validate_segment("server.jar"));
    assert!(validate_segment("DIM-1"));
    assert!(!validate_segment(""));
    assert!(!validate_segment("a/b"));
    assert!(!validate_segment("a:b"));
    assert!(!validate_segment("what?"));
    assert!(!validate_segment("."));
    assert!(!validate_segment(".."));
    assert!(!validate_segment("trailing."));
    assert!(!validate_segment("trailing "));
    assert!(!validate_segment("CON"));
    assert!(!validate_segment("con.txt"));
    assert!(!validate_segment("Com1"));
    assert!(!validate_segment("lpt9.log"));
    assert!(validate_segment("console"));
    assert!(validate_segment("com0"));
    assert!(validate_segment("lpt10"));
}

#[test]
fn test_from_segments_validates() {
    let ok = Path::from_segments(vec!["world".to_string(), "region".to_string()]);
    assert!(ok.is_ok());
    assert_eq!(ok.unwrap().components(), &vec!["world", "region"]);
    let bad = Path::from_segments(vec!["world".to_string(), "..".to_string()]);
    assert!(bad.is_err());
}

#[test]
fn test_runtime_files_tree_rows() {
    let rows: Vec<(String, bool, String, bool)> = vec![
        (String::from("jre"), true, String::new(), false),
        (
            String::from("jre/bin/java"),
            false,
            String::from("https://example.invalid/java"),
            true,
        ),
        (String::from("jre/legal"), true, String::new(), false),
        (
            String::from("jre/release"),
            false,
            String::from("https://example.invalid/release"),
            false,
        ),
        (String::from("jre/missing"), false, String::new(), false),
    ];
    let tree = runtime_files_tree(&rows).expect("rows mount");
    let bin = Path::from_str("jre/bin/java");
    match tree.get_file(&bin) {
        Some(File::Url(u, p)) => {
            assert_eq!(u.as_str(), "https://example.invalid/java");
            assert!(p.is_executable());
        }
        other => panic!("unexpected entry: {other:?}"),
    }
    let rel = Path::from_str("jre/release");
    match tree.get_file(&rel) {
        Some(File::Url(u, p)) => {
            assert_eq!(u.as_str(), "https://example.invalid/release");
            assert!(!p.is_executable());
        }
        other => panic!("unexpected entry: {other:?}"),
    }
    assert!(tree.get_file(&Path::from_str("jre/missing")).is_none());
}

#[test]
fn test_runtime_files_tree_conflict() {
    let rows: Vec<(String, bool, String, bool)> = vec![
        (
            String::from("a"),
            false,
            String::from("https://example.invalid/a"),
            false,
        ),
        (
            String::from("a/b"),
            false,
            String::from("https://example.invalid/b"),
            false,
        ),
    ];
    let err = runtime_files_tree(&rows).expect_err("file below file conflicts");
    assert!(err.contains("Conflicting runtime entry"));
}
