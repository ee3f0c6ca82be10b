use upload_server::handler::{handle_post, plan_request, response_body, FilePlan, RequestOutcome};
use upload_server::storage::Directory;

#[test]
fn plan_picks_the_name_parameter() {
    let plan = plan_request(Some("name=foo.txt"));
    assert!(matches!(plan, FilePlan::CreateFile { name } if name == "foo.txt"));
}

#[test]
fn plan_without_name_does_no_file_work() {
    assert!(matches!(plan_request(Some("a=1&b=2")), FilePlan::NoFile));
    assert!(matches!(plan_request(None), FilePlan::NoFile));
    assert!(matches!(plan_request(Some("")), FilePlan::NoFile));
}

#[test]
fn plan_with_malformed_name_pair_does_no_file_work() {
    assert!(matches!(plan_request(Some("name=a=b")), FilePlan::NoFile));
    assert!(matches!(plan_request(Some("name")), FilePlan::NoFile));
}

#[test]
fn plan_takes_the_last_name() {
    let plan = plan_request(Some("name=first.txt&name=second.txt"));
    assert!(matches!(plan, FilePlan::CreateFile { name } if name == "second.txt"));
}

#[test]
fn response_is_ok() {
    assert_eq!(response_body(), "OK".to_string());
}

#[test]
fn missing_name_responds_ok_and_creates_nothing() {
    let mut dir = Directory::new();
    let chunks: Vec<Vec<u8>> = vec![b"ignored".to_vec()];
    let outcome = handle_post(&mut dir, Some("a=1"), &chunks);
    assert!(outcome.is_ok_response());
    assert!(!dir.contains("a"));
    assert!(!dir.contains("1"));
    assert_eq!(dir.read("a"), None);
}

#[test]
fn named_upload_writes_all_chunks_in_order() {
    let mut dir = Directory::new();
    let chunks: Vec<Vec<u8>> = vec![b"he".to_vec(), b"ll".to_vec(), b"o".to_vec()];
    let outcome = handle_post(&mut dir, Some("name=foo.txt"), &chunks);
    assert!(outcome.is_ok_response());
    assert_eq!(dir.read("foo.txt"), Some(&b"hello".to_vec()));
}

#[test]
fn empty_body_creates_an_empty_file() {
    let mut dir = Directory::new();
    let chunks: Vec<Vec<u8>> = Vec::new();
    let outcome = handle_post(&mut dir, Some("name=empty.bin"), &chunks);
    assert!(outcome.is_ok_response());
    assert!(dir.contains("empty.bin"));
    assert_eq!(dir.read("empty.bin"), Some(&Vec::new()));
}

#[test]
fn repeated_upload_aborts_and_keeps_the_first_file() {
    let mut dir = Directory::new();
    let first: Vec<Vec<u8>> = vec![b"hello".to_vec()];
    let outcome = handle_post(&mut dir, Some("name=a.txt"), &first);
    assert!(outcome.is_ok_response());
    assert_eq!(dir.read("a.txt"), Some(&b"hello".to_vec()));

    let second: Vec<Vec<u8>> = vec![b"world".to_vec()];
    let outcome = handle_post(&mut dir, Some("name=a.txt"), &second);
    assert!(matches!(outcome, RequestOutcome::Aborted));
    assert_eq!(dir.read("a.txt"), Some(&b"hello".to_vec()));
}

#[test]
fn uploads_with_different_names_do_not_interfere() {
    let mut dir = Directory::new();
    let one: Vec<Vec<u8>> = vec![b"one".to_vec()];
    let two: Vec<Vec<u8>> = vec![b"two".to_vec()];
    assert!(handle_post(&mut dir, Some("name=one.txt"), &one).is_ok_response());
    assert!(handle_post(&mut dir, Some("name=two.txt"), &two).is_ok_response());
    assert_eq!(dir.read("one.txt"), Some(&b"one".to_vec()));
    assert_eq!(dir.read("two.txt"), Some(&b"two".to_vec()));
}
