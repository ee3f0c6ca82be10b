use upload_server::storage::{Directory, StorageError};

#[test]
fn new_directory_is_empty() {
    let dir = Directory::new();
    assert!(!dir.contains("anything"));
    assert_eq!(dir.read("anything"), None);
}

#[test]
fn create_then_append_then_read() {
    let mut dir = Directory::new();
    assert_eq!(dir.create_new("f.txt"), Ok(()));
    assert!(dir.contains("f.txt"));
    assert_eq!(dir.read("f.txt"), Some(&Vec::new()));
    assert_eq!(dir.append("f.txt", &b"ab".to_vec()), Ok(()));
    assert_eq!(dir.append("f.txt", &b"cd".to_vec()), Ok(()));
    assert_eq!(dir.read("f.txt"), Some(&b"abcd".to_vec()));
}

#[test]
fn exclusive_creation_refuses_an_existing_name() {
    let mut dir = Directory::new();
    assert_eq!(dir.create_new("f.txt"), Ok(()));
    assert_eq!(dir.append("f.txt", &b"kept".to_vec()), Ok(()));
    assert_eq!(dir.create_new("f.txt"), Err(StorageError::AlreadyExists));
    assert_eq!(dir.read("f.txt"), Some(&b"kept".to_vec()));
}

#[test]
fn append_to_a_missing_name_is_refused() {
    let mut dir = Directory::new();
    assert_eq!(dir.append("missing", &b"x".to_vec()), Err(StorageError::NotFound));
    assert!(!dir.contains("missing"));
}

#[test]
fn distinct_names_hold_distinct_contents() {
    let mut dir = Directory::new();
    assert_eq!(dir.create_new("a"), Ok(()));
    assert_eq!(dir.create_new("b"), Ok(()));
    assert_eq!(dir.append("a", &b"1".to_vec()), Ok(()));
    assert_eq!(dir.append("b", &b"2".to_vec()), Ok(()));
    assert_eq!(dir.read("a"), Some(&b"1".to_vec()));
    assert_eq!(dir.read("b"), Some(&b"2".to_vec()));
}
