use fs_embed::dir::{Dir, EmbedRecord};

/// Builds the embedded table mirroring the fixture tree: two files at the
/// top level, two in a subdirectory, and an override layer.
fn embedded_dir() -> Dir {
    let records = vec![
        EmbedRecord {
            path: "alpha.txt".to_string(),
            contents: b"Hello from alpha!\n".to_vec(),
            modified: Some(1_700_000_000),
        },
        EmbedRecord {
            path: "beta.txt".to_string(),
            contents: b"Beta file content\n".to_vec(),
            modified: Some(1_700_000_000),
        },
        EmbedRecord {
            path: "subdir/gamma.txt".to_string(),
            contents: b"Gamma in subdir\n".to_vec(),
            modified: Some(1_700_000_000),
        },
        EmbedRecord {
            path: "subdir/delta.txt".to_string(),
            contents: b"Delta in subdir\n".to_vec(),
            modified: Some(1_700_000_000),
        },
        EmbedRecord {
            path: "override/alpha.txt".to_string(),
            contents: b"Overridden alpha!\n".to_vec(),
            modified: Some(1_700_000_000),
        },
        EmbedRecord {
            path: "override/epsilon.txt".to_string(),
            contents: b"Epsilon!\n".to_vec(),
            modified: Some(1_700_000_000),
        },
    ];
    Dir::from_embedded(records, "data")
}

fn base_name(p: &str) -> String {
    p.rsplit('/').next().unwrap().to_string()
}

/// Checks that embedded directory entries include expected files and subdirectories.
#[test]
fn test_embedded_dir_entries() {
    let dir = embedded_dir();
    let entries = dir.entries();
    let names: Vec<_> = entries.iter().map(|e| base_name(e.path())).collect();
    assert!(names.contains(&"alpha.txt".to_string()));
    assert!(names.contains(&"beta.txt".to_string()));
    assert!(names.contains(&"subdir".to_string()));
}

/// Checks that a file can be retrieved and its contents read correctly from embedded dir.
#[test]
fn test_embedded_get_file() {
    let dir = embedded_dir();
    let file = dir.get_file("alpha.txt");
    assert!(file.is_some());
    let file = file.unwrap();
    assert_eq!(file.file_name(), Some("alpha.txt".to_string()));
    let content = file.read_str().unwrap();
    assert_eq!(content.trim(), "Hello from alpha!");
}

/// Checks that getting a non-existent file from embedded dir returns None.
#[test]
fn test_embedded_get_file_not_found() {
    let dir = embedded_dir();
    assert!(dir.get_file("notfound.txt").is_none());
}

/// Checks that embedded subdirectory entries and files are accessible and correct.
#[test]
fn test_embedded_subdir_entries_and_file() {
    let dir = embedded_dir();
    let subdir_entry = dir
        .entries()
        .into_iter()
        .find(|e| e.is_dir() && base_name(e.path()) == "subdir")
        .expect("subdir missing");
    let root_dir = subdir_entry.into_dir().unwrap();
    let sub_entries = root_dir.entries();
    let names: Vec<_> = sub_entries.iter().map(|e| base_name(e.path())).collect();
    assert!(
        names.contains(&"gamma.txt".to_string()),
        "gamma.txt missing in subdir {names:?}"
    );
    let gamma = root_dir.get_file("gamma.txt").expect("gamma.txt missing");
    let content = gamma.read_str().unwrap();
    assert!(content.contains("Gamma in subdir"));
}

/// Even inside a subdirectory, lookups are joined onto the subdirectory's
/// own path, so a bare name resolves against the full table path.
#[test]
fn test_include_dir_quirk() {
    let dir = embedded_dir();
    let subdir_entry = dir
        .entries()
        .into_iter()
        .find(|e| e.is_dir() && base_name(e.path()) == "subdir")
        .expect("subdir missing");
    let subdir = subdir_entry.into_dir().unwrap();
    let file = subdir.get_file("gamma.txt").expect("gamma.txt missing");
    assert!(file.is_embedded());
}

/// Checks that walk() finds all files in the embedded directory tree.
#[test]
fn test_embedded_walk_flat() {
    let dir = embedded_dir();
    let mut walk = dir.walk();
    let mut names: Vec<String> = Vec::new();
    while let Some(f) = walk.next() {
        names.push(f.file_name().unwrap());
    }
    assert!(names.contains(&"alpha.txt".to_string()));
    assert!(names.contains(&"beta.txt".to_string()));
    assert!(names.contains(&"gamma.txt".to_string()));
    assert!(names.contains(&"delta.txt".to_string()));
}

/// Checks that file metadata (size, etc.) is accessible and valid for embedded file.
#[test]
fn test_embedded_file_metadata() {
    let dir = embedded_dir();
    let file = dir.get_file("alpha.txt").unwrap();
    let meta = file.metadata().unwrap();
    assert!(meta.size > 0);
}

/// Checks that file extension is correctly returned for embedded file.
#[test]
fn test_embedded_file_extension() {
    let dir = embedded_dir();
    let file = dir.get_file("alpha.txt").unwrap();
    assert_eq!(file.extension(), Some("txt".to_string()));
}

/// Checks that absolute_path() is not absolute for an embedded file.
#[test]
fn test_embedded_file_absolute_path() {
    let dir = embedded_dir();
    let file = dir.get_file("alpha.txt").unwrap();
    let abs = file.absolute_path();
    assert!(
        !std::path::Path::new(&abs).is_absolute(),
        "Embedded file should not have an absolute path"
    );
}

/// Checks that is_embedded() returns true for embedded Dir, File, and DirEntry.
#[test]
fn test_embedded_is_embedded_true() {
    let dir = embedded_dir();
    assert!(dir.is_embedded());
    let file = dir.get_file("alpha.txt").unwrap();
    assert!(file.is_embedded());
    for entry in dir.entries() {
        assert!(entry.is_embedded());
    }
}

/// Checks that the embedded macro-equivalent root resolves files in any build mode.
#[test]
fn test_fs_embed_basic() {
    let dir = embedded_dir();
    let file = dir.get_file("alpha.txt").unwrap();
    let content = file.read_str().unwrap();
    assert!(content.contains("Hello from alpha!"));
}

/// Checks that a missing file resolves to None on an embedded root.
#[test]
fn test_fs_embed_missing_file() {
    let dir = embedded_dir();
    assert!(dir.get_file("notfound.txt").is_none());
}
