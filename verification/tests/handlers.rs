use workspace::handlers::{add, open_decide, same_path_names, OpenOutcome};
use workspace::record::{Error, Workspace};
use workspace::store::{all, get, Registry};

fn run_line_of(outcome: OpenOutcome) -> Option<Vec<u8>> {
    match outcome {
        OpenOutcome::Run(line) => Some(line),
        OpenOutcome::Fail(_) => None,
    }
}

fn failure_of(outcome: OpenOutcome) -> Option<Error> {
    match outcome {
        OpenOutcome::Run(_) => None,
        OpenOutcome::Fail(e) => Some(e),
    }
}

#[test]
fn open_unknown_name_is_not_found() {
    let outcome = open_decide(None, false);
    assert_eq!(failure_of(outcome), Some(Error::NotFound));
}

#[test]
fn open_bad_record_reports_its_error() {
    let outcome = open_decide(Some(Err(Error::Parse)), true);
    assert_eq!(failure_of(outcome), Some(Error::Parse));
    let outcome = open_decide(Some(Err(Error::Read)), true);
    assert_eq!(failure_of(outcome), Some(Error::Read));
}

#[test]
fn open_vanished_path_is_moved_or_missing_and_emits_nothing() {
    let ws = Workspace::new(b"/tmp/gone".to_vec());
    let outcome = open_decide(Some(Ok(ws)), false);
    match outcome {
        OpenOutcome::Fail(e) => assert_eq!(e, Error::MovedOrMissing),
        OpenOutcome::Run(_) => panic!("no sentinel line may be emitted for a vanished path"),
    }
}

#[test]
fn open_good_record_emits_exactly_the_change_directory_line() {
    let ws = Workspace::new(b"/tmp/proj".to_vec());
    let outcome = open_decide(Some(Ok(ws)), true);
    assert_eq!(run_line_of(outcome), Some(b"RUN>cd /tmp/proj".to_vec()));
}

#[test]
fn open_path_with_newline_is_refused() {
    let ws = Workspace::new(b"/tmp/a\nb".to_vec());
    let outcome = open_decide(Some(Ok(ws)), true);
    assert_eq!(failure_of(outcome), Some(Error::Io));
}

#[test]
fn same_path_names_picks_matching_good_rows() {
    let rows = vec![
        (
            Some("here".to_string()),
            Ok(Workspace::new(b"/tmp/proj".to_vec())),
        ),
        (
            Some("elsewhere".to_string()),
            Ok(Workspace::new(b"/other".to_vec())),
        ),
        (Some("broken".to_string()), Err(Error::Parse)),
        (None, Ok(Workspace::new(b"/tmp/proj".to_vec()))),
        (
            Some("twin".to_string()),
            Ok(Workspace::new(b"/tmp/proj".to_vec())),
        ),
    ];
    let names = same_path_names(&rows, &b"/tmp/proj".to_vec());
    assert_eq!(names, vec!["here".to_string(), "twin".to_string()]);
}

#[test]
fn scenario_add_then_open() {
    // add("proj") while the working directory is /tmp/proj ...
    let mut reg = Registry::new();
    assert!(add(&mut reg, "proj", b"/tmp/proj".to_vec()).is_ok());

    // ... leaves a record file proj.toml whose body holds the path ...
    assert_eq!(reg.entries.len(), 1);
    assert_eq!(reg.entries[0].name, "proj.toml");
    assert_eq!(
        reg.entries[0].content.as_ref().unwrap(),
        &b"path = \"/tmp/proj\"\n".to_vec()
    );

    // ... and open("proj") emits exactly the line RUN>cd /tmp/proj.
    let found = get(&reg, "proj");
    let outcome = open_decide(found, true);
    assert_eq!(run_line_of(outcome), Some(b"RUN>cd /tmp/proj".to_vec()));
}

#[test]
fn listing_shows_every_registration() {
    let mut reg = Registry::new();
    assert!(add(&mut reg, "one", b"/first".to_vec()).is_ok());
    assert!(add(&mut reg, "two", b"/second".to_vec()).is_ok());
    let rows = all(&reg);
    assert_eq!(rows.len(), 2);
    assert_eq!(rows[0].0.as_deref(), Some("one"));
    assert_eq!(rows[0].1.as_ref().unwrap().path, b"/first".to_vec());
    assert_eq!(rows[1].0.as_deref(), Some("two"));
    assert_eq!(rows[1].1.as_ref().unwrap().path, b"/second".to_vec());
}

#[test]
fn error_messages_name_the_failure() {
    assert!(Error::NotFound.message().contains("not exist"));
    assert!(Error::AlreadyExists.message().contains("already"));
    assert!(Error::MovedOrMissing.message().contains("moved"));
    assert!(Error::Read.message().contains("read"));
    assert!(Error::Parse.message().contains("parse"));
    assert!(Error::Io.message().contains("write"));
    assert!(Error::HomeDirectoryUnavailable.message().contains("home"));
}
