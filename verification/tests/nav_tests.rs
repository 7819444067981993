use rofi_files::nav::{
    choose_cursor, classify_target, file_uri, is_executable, resolve_target, Action,
};

fn bv(s: &str) -> Vec<u8> {
    s.as_bytes().to_vec()
}

#[test]
fn executable_file_is_spawned() {
    assert_eq!(classify_target(true, false, 0o755), Action::Execute);
}

#[test]
fn any_single_execute_bit_counts() {
    assert!(is_executable(0o100));
    assert!(is_executable(0o010));
    assert!(is_executable(0o001));
    assert!(!is_executable(0o644));
    assert!(!is_executable(0o000));
}

#[test]
fn plain_file_goes_to_open_helper() {
    assert_eq!(classify_target(true, false, 0o644), Action::OpenWithHelper);
}

#[test]
fn directory_is_listed() {
    assert_eq!(classify_target(false, true, 0), Action::ShowListing);
}

#[test]
fn dangling_target_is_ignored() {
    assert_eq!(classify_target(false, false, 0), Action::Ignore);
}

#[test]
fn valid_last_directory_is_resumed() {
    let cursor = choose_cursor(true, bv("/data/music"), bv("/home/someone"));
    assert_eq!(cursor, bv("/data/music"));
}

#[test]
fn invalid_last_directory_falls_back_to_home() {
    let cursor = choose_cursor(false, bv("/gone"), bv("/home/someone"));
    assert_eq!(cursor, bv("/home/someone"));
}

#[test]
fn absolute_argument_replaces_cursor() {
    assert_eq!(resolve_target(&bv("/home/someone"), &bv("/etc")), bv("/etc"));
}

#[test]
fn relative_argument_is_appended() {
    assert_eq!(
        resolve_target(&bv("/home/someone"), &bv("music")),
        bv("/home/someone/music")
    );
}

#[test]
fn trailing_slash_is_not_doubled() {
    assert_eq!(resolve_target(&bv("/"), &bv("tmp")), bv("/tmp"));
}

#[test]
fn file_uri_prefixes_path() {
    assert_eq!(file_uri(&bv("/home/someone/a.txt")), bv("file:///home/someone/a.txt"));
}
