use fs_embed::silo::{DynSilo, EmbedEntry, Silo, SiloSet};

fn entry(path: &str, contents: &[u8]) -> EmbedEntry {
    EmbedEntry {
        path: path.to_string(),
        contents: contents.to_vec(),
        size: contents.len(),
        modified: 1_700_000_000,
    }
}

fn collect_iter(mut it: fs_embed::silo::SiloIter) -> Vec<fs_embed::silo::File> {
    let mut out = Vec::new();
    while let Some(f) = it.next() {
        out.push(f);
    }
    out
}

fn collect_override(mut it: fs_embed::silo::SiloOverrideIter) -> Vec<fs_embed::silo::File> {
    let mut out = Vec::new();
    while let Some(f) = it.next() {
        out.push(f);
    }
    out
}

/// An embedded silo resolves a defined path to its entry and a missing path
/// to None.
#[test]
fn test_silo_embed_get_file() {
    let silo = Silo::from_embedded(
        vec![entry("alpha.txt", b"Hello from alpha!\n"), entry("beta.txt", b"beta")],
        "data",
    );
    let f = silo.get_file("alpha.txt").unwrap();
    assert!(f.is_embedded());
    assert_eq!(f.path(), "alpha.txt");
    assert_eq!(f.read_bytes().unwrap(), b"Hello from alpha!\n".to_vec());
    assert!(silo.get_file("notfound.txt").is_none());
}

/// SiloSet::get_file searches from the highest-precedence silo down, and
/// reversing the silo order reverses the winner.
#[test]
fn test_silo_set_override() {
    let s1 = Silo::from_embedded(vec![entry("alpha.txt", b"one")], "r1");
    let s2 = Silo::from_embedded(vec![entry("alpha.txt", b"two")], "r2");
    let set12 = SiloSet::new(vec![s1.clone(), s2.clone()]);
    let set21 = SiloSet::new(vec![s2, s1]);
    assert_eq!(set12.get_file("alpha.txt").unwrap().read_bytes().unwrap(), b"two".to_vec());
    assert_eq!(set21.get_file("alpha.txt").unwrap().read_bytes().unwrap(), b"one".to_vec());
}

/// iter() yields every file of every silo, duplicates included;
/// iter_override() yields each relative path once.
#[test]
fn test_silo_iter_and_override() {
    let s1 = Silo::from_embedded(vec![entry("a.txt", b"1"), entry("b.txt", b"2")], "r1");
    let s2 = Silo::from_embedded(vec![entry("a.txt", b"3")], "r2");
    let set = SiloSet::new(vec![s1, s2]);
    let all = collect_iter(set.iter());
    assert_eq!(all.len(), 3);
    let unique = collect_override(set.iter_override());
    assert_eq!(unique.len(), 2);
    let mut seen: Vec<String> = Vec::new();
    for f in &unique {
        let p = f.path().to_string();
        assert!(!seen.contains(&p));
        seen.push(p);
    }
    let winner = unique.iter().find(|f| f.path() == "a.txt").unwrap();
    assert_eq!(winner.read_bytes().unwrap(), b"3".to_vec());
}

/// An empty silo set answers every query with nothing.
#[test]
fn test_silo_set_empty() {
    let set = SiloSet::new(vec![]);
    assert!(set.get_file("alpha.txt").is_none());
    assert_eq!(collect_iter(set.iter()).len(), 0);
    assert_eq!(collect_override(set.iter_override()).len(), 0);
}

/// A dynamic silo resolves files below its root on disk.
#[test]
fn test_dyn_silo_get_file_and_iter() {
    let tmp = tempfile::tempdir().unwrap();
    fs_err::write(tmp.path().join("alpha.txt"), b"Hello from alpha!\n").unwrap();
    fs_err::create_dir_all(tmp.path().join("subdir")).unwrap();
    fs_err::write(tmp.path().join("subdir/gamma.txt"), b"Gamma in subdir\n").unwrap();

    let silo = DynSilo::new(tmp.path().to_str().unwrap());
    let f = silo.get_file("alpha.txt").unwrap();
    assert_eq!(f.path(), "alpha.txt");
    assert!(silo.get_file("notfound.txt").is_none());

    let root = Silo::from_path(tmp.path().to_str().unwrap());
    let files = collect_iter(root.iter());
    let mut paths: Vec<String> = files.iter().map(|f| f.path().to_string()).collect();
    paths.sort();
    assert_eq!(paths, vec!["alpha.txt".to_string(), "subdir/gamma.txt".to_string()]);
    for f in &files {
        assert!(!f.is_embedded());
        assert!(f.absolute_path().is_some());
    }
}

/// Path identity for silo files: an embedded and a dynamic handle at the
/// same relative path compare equal.
#[test]
fn test_silo_file_identity() {
    let tmp = tempfile::tempdir().unwrap();
    fs_err::write(tmp.path().join("alpha.txt"), b"disk\n").unwrap();
    let embedded = Silo::from_embedded(vec![entry("alpha.txt", b"baked\n")], "data");
    let dynamic = Silo::from_path(tmp.path().to_str().unwrap());
    let a = embedded.get_file("alpha.txt").unwrap();
    let b = dynamic.get_file("alpha.txt").unwrap();
    assert_eq!(a, b);
}

/// into_dynamic turns an embedded silo into one over its source path, and
/// auto_dynamic obeys the build-mode flag.
#[test]
fn test_silo_into_dynamic() {
    let tmp = tempfile::tempdir().unwrap();
    fs_err::write(tmp.path().join("alpha.txt"), b"Hello from alpha!\n").unwrap();
    let embedded = Silo::from_embedded(
        vec![entry("alpha.txt", b"Hello from alpha!\n")],
        tmp.path().to_str().unwrap(),
    );
    assert!(embedded.is_embedded());
    let dynamic = embedded.clone().into_dynamic();
    assert!(dynamic.is_dynamic());
    let text = dynamic.get_file("alpha.txt").unwrap().read_bytes().unwrap();
    assert_eq!(text, b"Hello from alpha!\n".to_vec());
    assert!(embedded.clone().auto_dynamic(false).is_embedded());
    assert!(embedded.auto_dynamic(true).is_dynamic());
}

/// The entries of an embedded silo come back in table order from iter().
#[test]
fn test_silo_embed_iter_order() {
    let silo = Silo::from_embedded(
        vec![entry("a.txt", b"1"), entry("b.txt", b"2"), entry("c.txt", b"3")],
        "data",
    );
    let files = collect_iter(silo.iter());
    let paths: Vec<&str> = files.iter().map(|f| f.path()).collect();
    assert_eq!(paths, vec!["a.txt", "b.txt", "c.txt"]);
}
