use upload_server::config::resolve_config;

#[test]
fn given_output_directory_is_used() {
    let config = resolve_config(Some("/tmp/up".to_string()), "/home/user".to_string());
    assert_eq!(config.output_dir, "/tmp/up");
}

#[test]
fn missing_output_directory_defaults_to_current_dir() {
    let config = resolve_config(None, "/home/user".to_string());
    assert_eq!(config.output_dir, "/home/user");
}
