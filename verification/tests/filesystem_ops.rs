//! Filesystem helpers over the in-memory filesystem.

use wasmer_core::vfs::{
    create_dir_all, create_white_out, has_white_out, is_dir, is_file, is_white_out, path_exists,
    remove_white_out, touch, FsError, MemFs,
};

#[test]
fn create_dir_all_makes_every_ancestor() {
    let mut fs = MemFs::new();
    touch(&mut fs, "/file.txt").unwrap();

    assert!(!path_exists(&fs, "/really/nested/directory"));
    create_dir_all(&mut fs, "/really/nested/directory").unwrap();
    assert!(path_exists(&fs, "/really/nested/directory"));
    assert!(is_dir(&fs, "/really/nested"));

    // It's okay to create the same directory multiple times
    create_dir_all(&mut fs, "/really/nested/directory").unwrap();

    // You can't create a directory on top of a file
    assert_eq!(
        create_dir_all(&mut fs, "/file.txt").unwrap_err(),
        FsError::BaseNotDirectory
    );
    assert_eq!(
        create_dir_all(&mut fs, "/file.txt/invalid/path").unwrap_err(),
        FsError::BaseNotDirectory
    );
}

#[test]
fn create_dir_all_rejects_escaping_paths() {
    let mut fs = MemFs::new();
    assert_eq!(
        create_dir_all(&mut fs, "../outside").unwrap_err(),
        FsError::InvalidInput
    );
}

#[test]
fn touch_makes_a_file() {
    let mut fs = MemFs::new();
    touch(&mut fs, "/file.txt").unwrap();
    assert!(is_file(&fs, "/file.txt"));
    assert!(!is_dir(&fs, "/file.txt"));
    // Touching it again leaves it in place.
    touch(&mut fs, "/file.txt").unwrap();
    assert!(is_file(&fs, "/file.txt"));
}

#[test]
fn existence_and_kinds() {
    let mut fs = MemFs::new();
    assert!(path_exists(&fs, "/"));
    assert!(is_dir(&fs, "/"));
    assert!(!is_file(&fs, "/"));
    create_dir_all(&mut fs, "/a/b").unwrap();
    touch(&mut fs, "/a/b/c.txt").unwrap();
    assert!(is_dir(&fs, "/a/b"));
    assert!(is_file(&fs, "/a/b/c.txt"));
    assert!(!path_exists(&fs, "/a/b/missing"));
    assert!(!path_exists(&fs, "../escape"));
}

#[test]
fn whiteouts_hide_and_reappear() {
    let mut fs = MemFs::new();
    create_dir_all(&mut fs, "/data").unwrap();
    assert!(!has_white_out(&fs, "/data/item"));

    create_white_out(&mut fs, "/data/item").unwrap();
    assert!(has_white_out(&fs, "/data/item"));
    assert!(is_file(&fs, "/data/.wh.item"));

    // A second whiteout of the same path must not be created.
    assert!(create_white_out(&mut fs, "/data/item").is_err());

    remove_white_out(&mut fs, "/data/item");
    assert!(!has_white_out(&fs, "/data/item"));
    assert!(!path_exists(&fs, "/data/.wh.item"));
}

#[test]
fn white_out_markers_are_recognised() {
    assert_eq!(
        is_white_out("/data/.wh.item"),
        Some("/data/item".to_string())
    );
    assert_eq!(is_white_out(".wh.item"), Some("item".to_string()));
    assert_eq!(is_white_out("data/.wh.item/"), Some("data/item".to_string()));
    assert_eq!(is_white_out("/data/item"), None);
    assert_eq!(is_white_out("/data/.wh."), None);
    assert_eq!(is_white_out("/"), None);
}

#[test]
fn white_out_markers_round_trip() {
    // Prefixing a file name with the marker and stripping it again
    // gives the path back unchanged.
    for p in ["/data/item", "data/item", "/a/b/c", "item"] {
        let (dir, name) = p.rsplit_once('/').unwrap_or(("", p));
        let marked = if dir.is_empty() {
            format!(".wh.{name}")
        } else {
            format!("{dir}/.wh.{name}")
        };
        assert_eq!(is_white_out(&marked), Some(p.to_string()));
    }
}

#[test]
fn whiting_out_the_root_is_rejected() {
    let mut fs = MemFs::new();
    assert_eq!(
        create_white_out(&mut fs, "/").unwrap_err(),
        FsError::EntryNotFound
    );
    assert_eq!(
        create_white_out(&mut fs, "../x").unwrap_err(),
        FsError::InvalidInput
    );
}
