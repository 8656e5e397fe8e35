//! Lexical path cleaning.

use wasmer_core::vfs::{clean_safely, FsError, PathClean};

#[test]
fn test_empty_path_is_current_dir() {
    assert_eq!(clean_safely(""), Ok(String::from(".")));
}

#[test]
fn test_root_is_current_dir() {
    assert_eq!(clean_safely("/"), Ok(String::from(".")));
}

#[test]
fn test_clean_paths_dont_change() {
    let tests = vec![
        (".", Ok(String::from("."))),
        ("..", Err(FsError::InvalidInput)),
        ("/", Ok(String::from("."))),
    ];

    for test in tests {
        assert_eq!(clean_safely(test.0), test.1);
    }
}

#[test]
fn test_replace_multiple_slashes() {
    let tests = vec![
        ("/", Ok(String::from("."))),
        ("//", Ok(String::from("."))),
        ("///", Ok(String::from("."))),
        (".//", Ok(String::from("."))),
        ("//..", Err(FsError::InvalidInput)),
        ("..//", Err(FsError::InvalidInput)),
        ("/..//", Err(FsError::InvalidInput)),
        ("/.//./", Ok(String::from("."))),
        ("././/./", Ok(String::from("."))),
        ("path//to///thing", Ok(String::from("path/to/thing"))),
        ("/path//to///thing", Ok(String::from("path/to/thing"))),
    ];

    for test in tests {
        assert_eq!(clean_safely(test.0), test.1, "test: {}", test.0);
    }
}

#[test]
fn test_eliminate_current_dir() {
    let tests = vec![
        ("./", "."),
        ("/./", "."),
        ("./test", "test"),
        ("./test/./path", "test/path"),
        ("/test/./path/", "test/path"),
        ("test/path/.", "test/path"),
    ];

    for test in tests {
        assert_eq!(clean_safely(test.0), Ok(String::from(test.1)));
    }
}

#[test]
fn test_eliminate_parent_dir() {
    let tests = vec![
        ("/..", Err(FsError::InvalidInput)),
        ("/../test", Err(FsError::InvalidInput)),
        ("test/..", Ok(String::from("."))),
        ("test/path/..", Ok(String::from("test"))),
        ("test/../path", Ok(String::from("path"))),
        ("/test/../path", Ok(String::from("path"))),
        ("test/path/../../", Ok(String::from("."))),
        ("test/path/../../..", Err(FsError::InvalidInput)),
        ("/test/path/../../..", Err(FsError::InvalidInput)),
        ("/test/path/../../../..", Err(FsError::InvalidInput)),
        ("test/path/../../../..", Err(FsError::InvalidInput)),
        (
            "test/path/../../another/path",
            Ok(String::from("another/path")),
        ),
        (
            "test/path/../../another/path/..",
            Ok(String::from("another")),
        ),
        ("../test", Err(FsError::InvalidInput)),
        ("../test/", Err(FsError::InvalidInput)),
        ("../test/path", Err(FsError::InvalidInput)),
        ("../test/..", Err(FsError::InvalidInput)),
    ];

    for test in tests {
        assert_eq!(clean_safely(test.0), test.1, "test: {}", test.0);
    }
}

#[test]
fn test_pathbuf_trait() {
    assert_eq!(
        String::from("/test/../path/").clean_safely(),
        Ok(String::from("path"))
    );
}

#[test]
fn test_path_trait() {
    assert_eq!(
        "/test/../path/".clean_safely(),
        Ok(String::from("path"))
    );
}
