use fs_embed::dir::{Dir, DirSet};

/// Writes the fixture tree into a fresh temporary directory:
/// alpha.txt, beta.txt, subdir/{gamma,delta}.txt and an override layer with
/// its own alpha.txt and epsilon.txt.
fn make_fixture() -> tempfile::TempDir {
    let tmp = tempfile::Builder::new()
        .prefix("fs_embed_fixture_")
        .tempdir()
        .expect("create temp dir");
    let root = tmp.path();
    fs_err::write(root.join("alpha.txt"), b"Hello from alpha!\n").unwrap();
    fs_err::write(root.join("beta.txt"), b"Beta file content\n").unwrap();
    fs_err::create_dir_all(root.join("subdir")).unwrap();
    fs_err::write(root.join("subdir/gamma.txt"), b"Gamma in subdir\n").unwrap();
    fs_err::write(root.join("subdir/delta.txt"), b"Delta in subdir\n").unwrap();
    fs_err::create_dir_all(root.join("override")).unwrap();
    fs_err::write(root.join("override/alpha.txt"), b"Overridden alpha!\n").unwrap();
    fs_err::write(root.join("override/epsilon.txt"), b"Epsilon!\n").unwrap();
    tmp
}

fn test_dir(tmp: &tempfile::TempDir) -> Dir {
    Dir::from_str(tmp.path().to_str().unwrap())
}

fn test_override_dir(tmp: &tempfile::TempDir) -> Dir {
    Dir::from_str(tmp.path().join("override").to_str().unwrap())
}

fn base_name(p: &str) -> String {
    p.rsplit('/').next().unwrap().to_string()
}

fn collect_walk(mut w: fs_embed::dir::DirWalk) -> Vec<fs_embed::dir::File> {
    let mut out = Vec::new();
    while let Some(f) = w.next() {
        out.push(f);
    }
    out
}

fn collect_override(mut w: fs_embed::dir::OverrideWalk) -> Vec<fs_embed::dir::File> {
    let mut out = Vec::new();
    while let Some(f) = w.next() {
        out.push(f);
    }
    out
}

/// Checks that get_dir returns a subdirectory and its entries can be listed.
#[test]
fn test_get_dir() {
    let tmp = make_fixture();
    let dir = test_dir(&tmp);
    let subdir = dir.get_dir("subdir");
    assert!(subdir.is_some());
    let subdir = subdir.unwrap();
    let entries = subdir.entries();
    let names: Vec<_> = entries.iter().map(|e| base_name(e.path())).collect();
    assert!(names.contains(&"gamma.txt".to_string()));
    assert!(names.contains(&"delta.txt".to_string()));
}

/// Checks that get_dir returns None for a non-existent subdirectory.
#[test]
fn test_get_dir_not_found() {
    let tmp = make_fixture();
    let dir = test_dir(&tmp);
    assert!(dir.get_dir("not_a_dir").is_none());
}

/// Checks that DirSet::get_dir returns the highest-precedence subdirectory.
#[test]
fn test_dirset_get_dir_override() {
    let tmp = make_fixture();
    let set = DirSet::new(vec![test_dir(&tmp), test_override_dir(&tmp)]);
    let subdir = set.get_dir("subdir");
    assert!(subdir.is_some());
    let subdir = subdir.unwrap();
    let entries = subdir.entries();
    let names: Vec<_> = entries.iter().map(|e| base_name(e.path())).collect();
    assert!(names.contains(&"gamma.txt".to_string()));
    assert!(names.contains(&"delta.txt".to_string()));
}

/// Checks that DirSet::get_dir returns None for a non-existent subdirectory.
#[test]
fn test_dirset_get_dir_not_found() {
    let tmp = make_fixture();
    let set = DirSet::new(vec![test_dir(&tmp), test_override_dir(&tmp)]);
    assert!(set.get_dir("not_a_dir").is_none());
}

/// Checks that directory entries include expected files and subdirectories.
#[test]
fn test_dir_entries() {
    let tmp = make_fixture();
    let dir = test_dir(&tmp);
    let entries = dir.entries();
    let names: Vec<_> = entries.iter().map(|e| base_name(e.path())).collect();
    assert!(names.contains(&"alpha.txt".to_string()));
    assert!(names.contains(&"beta.txt".to_string()));
    assert!(names.contains(&"subdir".to_string()));
}

/// Checks that a file can be retrieved and its contents read correctly.
#[test]
fn test_get_file() {
    let tmp = make_fixture();
    let dir = test_dir(&tmp);
    let file = dir.get_file("alpha.txt");
    assert!(file.is_some());
    let file = file.unwrap();
    assert_eq!(file.file_name(), Some("alpha.txt".to_string()));
    let content = file.read_str().unwrap();
    assert_eq!(content.trim(), "Hello from alpha!");
}

/// Checks that getting a non-existent file returns None.
#[test]
fn test_get_file_not_found() {
    let tmp = make_fixture();
    let dir = test_dir(&tmp);
    assert!(dir.get_file("notfound.txt").is_none());
}

/// Checks that walk() finds all files in the directory tree.
#[test]
fn test_walk_flat() {
    let tmp = make_fixture();
    let dir = test_dir(&tmp);
    let files = collect_walk(dir.walk());
    let names: Vec<_> = files.iter().map(|f| f.file_name().unwrap()).collect();
    assert!(names.contains(&"alpha.txt".to_string()));
    assert!(names.contains(&"beta.txt".to_string()));
    assert!(names.contains(&"gamma.txt".to_string()));
    assert!(names.contains(&"delta.txt".to_string()));
}

/// Checks that walk_override() yields overridden and new files as expected.
#[test]
fn test_walk_override() {
    let tmp = make_fixture();
    let set = DirSet::new(vec![test_dir(&tmp), test_override_dir(&tmp)]);
    let files = collect_override(set.walk_override());
    let mut found_alpha = false;
    let mut found_epsilon = false;
    for f in files {
        if f.file_name() == Some("alpha.txt".to_string()) {
            let content = f.read_str().unwrap();
            assert_eq!(content.trim(), "Overridden alpha!");
            found_alpha = true;
        }
        if f.file_name() == Some("epsilon.txt".to_string()) {
            found_epsilon = true;
        }
    }
    assert!(found_alpha);
    assert!(found_epsilon);
}

/// Checks that get_file returns the overridden file from the higher-precedence root.
#[test]
fn test_dirset_get_file_override() {
    let tmp = make_fixture();
    let set = DirSet::new(vec![test_dir(&tmp), test_override_dir(&tmp)]);
    let file = set.get_file("alpha.txt").unwrap();
    let content = file.read_str().unwrap();
    assert_eq!(content.trim(), "Overridden alpha!");
}

/// Checks that get_file returns a non-overridden file from the lower-precedence root.
#[test]
fn test_dirset_get_file_non_override() {
    let tmp = make_fixture();
    let set = DirSet::new(vec![test_dir(&tmp), test_override_dir(&tmp)]);
    let file = set.get_file("beta.txt").unwrap();
    let content = file.read_str().unwrap();
    assert_eq!(content.trim(), "Beta file content");
}

/// Checks that entries() returns all immediate entries from all roots.
#[test]
fn test_dirset_entries() {
    let tmp = make_fixture();
    let set = DirSet::new(vec![test_dir(&tmp), test_override_dir(&tmp)]);
    let entries = set.entries();
    let names: Vec<_> = entries.iter().map(|e| base_name(e.path())).collect();
    assert!(names.contains(&"alpha.txt".to_string()));
    assert!(names.contains(&"beta.txt".to_string()));
    assert!(names.contains(&"subdir".to_string()));
    assert!(names.contains(&"epsilon.txt".to_string()));
}

/// Checks that file metadata (size, etc.) is accessible and valid.
#[test]
fn test_file_metadata() {
    let tmp = make_fixture();
    let dir = test_dir(&tmp);
    let file = dir.get_file("alpha.txt").unwrap();
    let meta = file.metadata().unwrap();
    assert!(meta.size > 0);
}

/// Checks that file extension is correctly returned.
#[test]
fn test_file_extension() {
    let tmp = make_fixture();
    let dir = test_dir(&tmp);
    let file = dir.get_file("alpha.txt").unwrap();
    assert_eq!(file.extension(), Some("txt".to_string()));
}

/// Checks that absolute_path() returns an absolute path for a file.
#[test]
fn test_file_absolute_path() {
    let tmp = make_fixture();
    let dir = test_dir(&tmp);
    let file = dir.get_file("alpha.txt").unwrap();
    let abs = file.absolute_path();
    assert!(std::path::Path::new(&abs).is_absolute());
}

/// Checks that is_embedded() returns false for a directory from the filesystem.
#[test]
fn test_dir_is_embedded_false() {
    let tmp = make_fixture();
    let dir = test_dir(&tmp);
    assert!(!dir.is_embedded());
}

/// Checks that is_embedded() returns false for a file from the filesystem.
#[test]
fn test_file_is_embedded_false() {
    let tmp = make_fixture();
    let dir = test_dir(&tmp);
    let file = dir.get_file("alpha.txt").unwrap();
    assert!(!file.is_embedded());
}

/// Checks that DirEntry correctly identifies files and directories.
#[test]
fn test_direntry_is_file_and_dir() {
    let tmp = make_fixture();
    let dir = test_dir(&tmp);
    let entries = dir.entries();
    let mut found_file = false;
    let mut found_dir = false;
    for e in entries {
        if e.is_file() {
            found_file = true;
        }
        if e.is_dir() {
            found_dir = true;
        }
    }
    assert!(found_file);
    assert!(found_dir);
}

/// Checks that DirEntry can be converted into File or Dir as appropriate.
#[test]
fn test_direntry_into_file_and_dir() {
    let tmp = make_fixture();
    let dir = test_dir(&tmp);
    for entry in dir.entries() {
        if entry.is_file() {
            assert!(entry.clone().into_file().is_some());
        }
        if entry.is_dir() {
            assert!(entry.clone().into_dir().is_some());
        }
    }
}

/// Checks that path() and absolute_path() on DirEntry do not panic.
#[test]
fn test_direntry_path_and_absolute_path() {
    let tmp = make_fixture();
    let dir = test_dir(&tmp);
    for entry in dir.entries() {
        let _ = entry.path();
        let _ = entry.absolute_path();
    }
}

/// Checks that walk() on DirSet finds all files from all roots.
#[test]
fn test_dirset_walk_all_files() {
    let tmp = make_fixture();
    let set = DirSet::new(vec![test_dir(&tmp), test_override_dir(&tmp)]);
    let files = collect_walk(set.walk());
    let mut found_alpha = false;
    let mut found_beta = false;
    let mut found_epsilon = false;
    for f in files {
        if f.file_name() == Some("alpha.txt".to_string()) {
            found_alpha = true;
        }
        if f.file_name() == Some("beta.txt".to_string()) {
            found_beta = true;
        }
        if f.file_name() == Some("epsilon.txt".to_string()) {
            found_epsilon = true;
        }
    }
    assert!(found_alpha);
    assert!(found_beta);
    assert!(found_epsilon);
}

/// Checks that walk_override() yields unique files by relative path.
#[test]
fn test_dirset_walk_override_unique() {
    let tmp = make_fixture();
    let set = DirSet::new(vec![test_dir(&tmp), test_override_dir(&tmp)]);
    let files = collect_override(set.walk_override());
    let mut seen: Vec<String> = Vec::new();
    for f in files {
        let path = f.path().to_string();
        assert!(!seen.contains(&path));
        seen.push(path);
    }
}

/// Checks that walk() yields at least as many files as walk_override().
#[test]
fn test_dirset_walk_vs_walk_override() {
    let tmp = make_fixture();
    let set = DirSet::new(vec![test_dir(&tmp), test_override_dir(&tmp)]);
    let all = collect_walk(set.walk());
    let unique = collect_override(set.walk_override());
    assert!(all.len() >= unique.len());
}

/// Checks that DirSet behaves correctly when empty.
#[test]
fn test_dirset_empty() {
    let set = DirSet::new(vec![]);
    assert_eq!(set.entries().len(), 0);
    assert!(set.get_file("alpha.txt").is_none());
    assert_eq!(collect_walk(set.walk()).len(), 0);
    assert_eq!(collect_override(set.walk_override()).len(), 0);
}

/// Checks that override order in DirSet affects which file is returned.
#[test]
fn test_dirset_ordering_override() {
    let tmp = make_fixture();
    let set1 = DirSet::new(vec![test_override_dir(&tmp), test_dir(&tmp)]);
    let set2 = DirSet::new(vec![test_dir(&tmp), test_override_dir(&tmp)]);
    let file1 = set1.get_file("alpha.txt").unwrap().read_str().unwrap();
    let file2 = set2.get_file("alpha.txt").unwrap().read_str().unwrap();
    assert_ne!(file1, file2);
}

/// Checks that File implements PartialEq correctly for same file.
#[test]
fn test_file_partial_eq() {
    let tmp = make_fixture();
    let dir = test_dir(&tmp);
    let f1 = dir.get_file("alpha.txt").unwrap();
    let f2 = dir.get_file("alpha.txt").unwrap();
    assert_eq!(f1, f2);
}

/// Checks that Dir implements PartialEq correctly for same directory.
#[test]
fn test_dir_partial_eq() {
    let tmp = make_fixture();
    let d1 = test_dir(&tmp);
    let d2 = test_dir(&tmp);
    assert_eq!(d1, d2);
}

/// Checks that DirEntry implements PartialEq for entries with same path.
#[test]
fn test_direntry_partial_eq() {
    let tmp = make_fixture();
    let dir = test_dir(&tmp);
    let entries = dir.entries();
    for e1 in &entries {
        for e2 in &entries {
            if e1.path() == e2.path() {
                assert_eq!(e1, e2);
            }
        }
    }
}

/// Checks that file contents can be read as bytes.
#[test]
fn test_file_read_bytes() {
    let tmp = make_fixture();
    let dir = test_dir(&tmp);
    let file = dir.get_file("alpha.txt").unwrap();
    let bytes = file.read_bytes().unwrap();
    assert!(!bytes.is_empty());
}

/// Checks that reading a file with invalid UTF-8 returns an error.
#[test]
fn test_file_read_str_invalid_utf8() {
    let temp_dir = tempfile::Builder::new()
        .prefix("fs_embed_test_bad_utf8_")
        .tempdir()
        .expect("create temp dir");
    let file_path = temp_dir.path().join("bad_utf8.bin");
    fs_err::write(&file_path, [0xff, 0xfe, 0xfd]).unwrap();
    let dir = Dir::from_path(temp_dir.path().to_str().unwrap());
    let file = dir.get_file("bad_utf8.bin").unwrap();
    assert!(file.read_str().is_err());
}

/// Checks that is_embedded() is false for all DirEntry from filesystem.
#[test]
fn test_direntry_is_embedded_false() {
    let tmp = make_fixture();
    let dir = test_dir(&tmp);
    for entry in dir.entries() {
        assert!(!entry.is_embedded());
    }
}
