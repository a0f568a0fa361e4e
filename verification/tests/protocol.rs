use workspace::protocol::{cd_command, contains_newline, run_line};
use workspace::record::Workspace;

#[test]
fn run_line_prefixes_the_sentinel() {
    let line = run_line(&b"cd /tmp".to_vec());
    assert_eq!(line, b"RUN>cd /tmp".to_vec());
}

#[test]
fn run_line_has_no_embedded_newline() {
    let line = run_line(&b"cd /tmp/some dir".to_vec());
    assert!(!line.contains(&b'\n'));
}

#[test]
fn cd_command_prefixes_cd() {
    assert_eq!(cd_command(&b"/tmp/proj".to_vec()), b"cd /tmp/proj".to_vec());
}

#[test]
fn open_builds_the_change_directory_line() {
    let ws = Workspace::new(b"/tmp/proj".to_vec());
    assert_eq!(ws.open(), b"RUN>cd /tmp/proj".to_vec());
}

#[test]
fn newline_detection() {
    assert!(contains_newline(&b"a\nb".to_vec()));
    assert!(!contains_newline(&b"ab".to_vec()));
    assert!(!contains_newline(&Vec::new()));
}
