use minikernel::logging::log_file_name;

#[test]
fn file_name_after_last_slash() {
    assert_eq!(log_file_name(Some("memory/src/phys.rs")), "phys.rs");
    assert_eq!(log_file_name(Some("/abs/path/main.rs")), "main.rs");
}

#[test]
fn file_name_without_slash() {
    assert_eq!(log_file_name(Some("main.rs")), "main.rs");
    assert_eq!(log_file_name(Some("")), "");
}

#[test]
fn file_name_of_directory_is_empty() {
    assert_eq!(log_file_name(Some("src/")), "");
    assert_eq!(log_file_name(Some("/")), "");
}

#[test]
fn file_name_non_ascii() {
    assert_eq!(log_file_name(Some("内核/日志.rs")), "日志.rs");
}

#[test]
fn file_name_unknown() {
    assert_eq!(log_file_name(None), "???");
}
