use upload_server::query::parse_query_params;

#[test]
fn two_well_formed_pairs() {
    let params = parse_query_params(Some("a=1&b=2"));
    assert_eq!(params.len(), 2);
    assert_eq!(params.get("a"), Some(&"1".to_string()));
    assert_eq!(params.get("b"), Some(&"2".to_string()));
    assert_eq!(params.get("c"), None);
}

#[test]
fn pair_with_two_equals_is_dropped() {
    let params = parse_query_params(Some("a=1=2&b=3"));
    assert_eq!(params.len(), 1);
    assert_eq!(params.get("a"), None);
    assert_eq!(params.get("b"), Some(&"3".to_string()));
}

#[test]
fn pair_without_equals_is_dropped() {
    let params = parse_query_params(Some("justakey&b=3"));
    assert_eq!(params.len(), 1);
    assert_eq!(params.get("justakey"), None);
    assert_eq!(params.get("b"), Some(&"3".to_string()));
}

#[test]
fn empty_query_yields_no_pairs() {
    let params = parse_query_params(Some(""));
    assert_eq!(params.len(), 0);
}

#[test]
fn absent_query_yields_no_pairs() {
    let params = parse_query_params(None);
    assert_eq!(params.len(), 0);
    assert_eq!(params.get("name"), None);
}

#[test]
fn later_duplicate_key_wins() {
    let params = parse_query_params(Some("a=1&a=2"));
    assert_eq!(params.get("a"), Some(&"2".to_string()));
}

#[test]
fn empty_key_and_empty_value_are_kept() {
    let params = parse_query_params(Some("=v&k="));
    assert_eq!(params.get(""), Some(&"v".to_string()));
    assert_eq!(params.get("k"), Some(&"".to_string()));
}

#[test]
fn values_are_not_percent_decoded() {
    let params = parse_query_params(Some("name=a%20b.txt"));
    assert_eq!(params.get("name"), Some(&"a%20b.txt".to_string()));
}
