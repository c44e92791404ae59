use gitwalk::host::{host_name_or_default, hostname};

#[test]
fn a_found_name_is_kept() {
    assert_eq!(host_name_or_default(Some(String::from("build-7"))), "build-7");
    assert_eq!(host_name_or_default(Some(String::new())), "");
}

#[test]
fn a_failed_lookup_falls_back_to_localhost() {
    assert_eq!(host_name_or_default(None), "localhost");
}

#[test]
fn hostname_answers_without_panicking() {
    let first = hostname();
    let second = hostname();
    assert_eq!(first, second);
}
