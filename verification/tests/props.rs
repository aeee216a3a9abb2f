use fs_embed::dir::{Dir, DirSet, EmbedRecord};
use fs_embed::error::Error;

fn record(path: &str, contents: &[u8]) -> EmbedRecord {
    EmbedRecord {
        path: path.to_string(),
        contents: contents.to_vec(),
        modified: Some(1_700_000_000),
    }
}

fn collect_walk(mut w: fs_embed::dir::DirWalk) -> Vec<fs_embed::dir::File> {
    let mut out = Vec::new();
    while let Some(f) = w.next() {
        out.push(f);
    }
    out
}

fn collect_override(mut w: fs_embed::dir::OverrideWalk) -> Vec<fs_embed::dir::File> {
    let mut out = Vec::new();
    while let Some(f) = w.next() {
        out.push(f);
    }
    out
}

/// Path identity: an embedded and a dynamic file with identical relative
/// paths compare equal, though backing and contents differ.
#[test]
fn test_path_identity_across_backings() {
    let tmp = tempfile::tempdir().unwrap();
    fs_err::write(tmp.path().join("alpha.txt"), b"on disk\n").unwrap();
    let embedded = Dir::from_embedded(vec![record("alpha.txt", b"baked in\n")], "data");
    let dynamic = Dir::from_path(tmp.path().to_str().unwrap());
    let a = embedded.get_file("alpha.txt").unwrap();
    let b = dynamic.get_file("alpha.txt").unwrap();
    assert_eq!(a, b);
    let c = embedded.get_file("alpha.txt").unwrap();
    assert_eq!(a, c);
}

/// Override precedence: with two embedded roots that both define alpha.txt,
/// the later root wins, and reversing the order reverses the winner.
#[test]
fn test_override_precedence_reverses() {
    let r1 = Dir::from_embedded(vec![record("alpha.txt", b"one")], "r1");
    let r2 = Dir::from_embedded(vec![record("alpha.txt", b"two")], "r2");
    let set12 = DirSet::new(vec![r1.clone(), r2.clone()]);
    let set21 = DirSet::new(vec![r2, r1]);
    let c12 = set12.get_file("alpha.txt").unwrap().read_bytes().unwrap();
    let c21 = set21.get_file("alpha.txt").unwrap().read_bytes().unwrap();
    assert_eq!(c12, b"two".to_vec());
    assert_eq!(c21, b"one".to_vec());
}

/// Walk versus override-walk cardinality: always at least as many, equal
/// exactly when no relative path repeats across roots.
#[test]
fn test_walk_cardinality() {
    let r1 = Dir::from_embedded(vec![record("a.txt", b"1"), record("b.txt", b"2")], "r1");
    let r2 = Dir::from_embedded(vec![record("a.txt", b"3"), record("c.txt", b"4")], "r2");
    let overlapping = DirSet::new(vec![r1.clone(), r2]);
    let all = collect_walk(overlapping.walk()).len();
    let unique = collect_override(overlapping.walk_override()).len();
    assert!(all >= unique);
    assert_eq!(all, 4);
    assert_eq!(unique, 3);

    let r3 = Dir::from_embedded(vec![record("d.txt", b"5")], "r3");
    let disjoint = DirSet::new(vec![r1, r3]);
    let all2 = collect_walk(disjoint.walk()).len();
    let unique2 = collect_override(disjoint.walk_override()).len();
    assert_eq!(all2, unique2);
}

/// The override walk on embedded roots yields each path's winner: the
/// highest-precedence root's copy, in both orders.
#[test]
fn test_walk_override_winner_embedded() {
    let r1 = Dir::from_embedded(vec![record("alpha.txt", b"low")], "r1");
    let r2 = Dir::from_embedded(vec![record("alpha.txt", b"high")], "r2");
    let set = DirSet::new(vec![r1.clone(), r2.clone()]);
    let files = collect_override(set.walk_override());
    assert_eq!(files.len(), 1);
    assert_eq!(files[0].read_bytes().unwrap(), b"high".to_vec());
    let set_rev = DirSet::new(vec![r2, r1]);
    let files_rev = collect_override(set_rev.walk_override());
    assert_eq!(files_rev.len(), 1);
    assert_eq!(files_rev[0].read_bytes().unwrap(), b"low".to_vec());
}

/// Round-trip read: the fixture contents come back trimmed for both an
/// embedded and a dynamic backing of the identical tree.
#[test]
fn test_round_trip_read() {
    let tmp = tempfile::tempdir().unwrap();
    fs_err::write(tmp.path().join("alpha.txt"), b"Hello from alpha!\n").unwrap();
    let embedded = Dir::from_embedded(vec![record("alpha.txt", b"Hello from alpha!\n")], "data");
    let dynamic = Dir::from_path(tmp.path().to_str().unwrap());
    for dir in [embedded, dynamic] {
        let text = dir.get_file("alpha.txt").unwrap().read_str().unwrap();
        assert_eq!(text.trim(), "Hello from alpha!");
    }
}

/// into_dynamic equivalence: the embedded directory and its dynamic
/// conversion resolve the same relative paths, with identical bytes.
#[test]
fn test_into_dynamic_equivalence() {
    let tmp = tempfile::tempdir().unwrap();
    fs_err::write(tmp.path().join("alpha.txt"), b"alpha bytes\n").unwrap();
    fs_err::create_dir_all(tmp.path().join("subdir")).unwrap();
    fs_err::write(tmp.path().join("subdir/gamma.txt"), b"gamma bytes\n").unwrap();
    let table = vec![
        record("alpha.txt", b"alpha bytes\n"),
        record("subdir/gamma.txt", b"gamma bytes\n"),
    ];
    let embedded = Dir::from_embedded(table, tmp.path().to_str().unwrap());
    let dynamic = embedded.clone().into_dynamic();
    assert!(!dynamic.is_embedded());

    let mut embedded_paths: Vec<String> = collect_walk(embedded.walk())
        .iter()
        .map(|f| f.path().to_string())
        .collect();
    let mut dynamic_paths: Vec<String> = collect_walk(dynamic.walk())
        .iter()
        .map(|f| f.path().to_string())
        .collect();
    embedded_paths.sort();
    dynamic_paths.sort();
    assert_eq!(embedded_paths, dynamic_paths);

    for p in &embedded_paths {
        let be = embedded.get_file(p).unwrap().read_bytes().unwrap();
        let bd = dynamic.get_file(p).unwrap().read_bytes().unwrap();
        assert_eq!(be, bd);
    }
}

/// Invalid UTF-8 handling: read_str fails with a decode error while
/// read_bytes succeeds and returns exactly the original bytes.
#[test]
fn test_invalid_utf8_embedded() {
    let dir = Dir::from_embedded(vec![record("bad.bin", &[0xff, 0xfe, 0xfd])], "data");
    let file = dir.get_file("bad.bin").unwrap();
    let bytes = file.read_bytes().unwrap();
    assert_eq!(bytes, vec![0xff, 0xfe, 0xfd]);
    match file.read_str() {
        Err(Error::DecodeError { .. }) => {},
        other => panic!("expected a decode error, got {:?}", other.map(|_| ())),
    }
}

/// Reading text decodes UTF-8 rather than copying bytes: a two-byte
/// encoding comes back as one character.
#[test]
fn test_read_str_decodes_utf8() {
    let dir = Dir::from_embedded(
        vec![record("accent.txt", "h\u{e9}llo".as_bytes())],
        "data",
    );
    let file = dir.get_file("accent.txt").unwrap();
    let text = file.read_str().unwrap();
    assert_eq!(text, "h\u{e9}llo");
    assert_eq!(text.chars().count(), 5);
    assert_eq!(file.read_bytes().unwrap().len(), 6);
}

/// An embedded file baked in without a modification time reports its
/// metadata as unavailable.
#[test]
fn test_metadata_unavailable() {
    let dir = Dir::from_embedded(
        vec![EmbedRecord {
            path: "bare.txt".to_string(),
            contents: b"x".to_vec(),
            modified: None,
        }],
        "data",
    );
    let file = dir.get_file("bare.txt").unwrap();
    match file.metadata() {
        Err(Error::MetadataUnavailable) => {},
        other => panic!("expected unavailable metadata, got {:?}", other.map(|_| ())),
    }
}

/// A dynamic file whose backing disappears from disk reports an I/O error
/// on the next read; the handle itself stays valid.
#[test]
fn test_io_error_on_vanished_file() {
    let tmp = tempfile::tempdir().unwrap();
    fs_err::write(tmp.path().join("gone.txt"), b"soon gone").unwrap();
    let dir = Dir::from_path(tmp.path().to_str().unwrap());
    let file = dir.get_file("gone.txt").unwrap();
    fs_err::remove_file(tmp.path().join("gone.txt")).unwrap();
    match file.read_bytes() {
        Err(Error::IoError { .. }) => {},
        other => panic!("expected an I/O error, got {:?}", other.map(|_| ())),
    }
}

/// auto_dynamic leaves the backing embedded when the build-mode flag says
/// release, and converts when it says debug.
#[test]
fn test_auto_dynamic_flag() {
    let embedded = Dir::from_embedded(vec![record("alpha.txt", b"x")], "data");
    assert!(embedded.clone().auto_dynamic(false).is_embedded());
    assert!(!embedded.auto_dynamic(true).is_embedded());
}
