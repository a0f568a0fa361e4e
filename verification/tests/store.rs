use workspace::codec::encode;
use workspace::handlers::add;
use workspace::record::{Error, Workspace};
use workspace::store::{
    all, delete, file_name, file_path, get, is_valid_name, record_exists, RawEntry, Registry,
};

fn registered(reg: &mut Registry, name: &str, path: &[u8]) {
    assert!(add(reg, name, path.to_vec()).is_ok());
}

#[test]
fn add_then_get_returns_the_working_directory() {
    let mut reg = Registry::new();
    registered(&mut reg, "x", b"/tmp/workdir");
    let got = get(&reg, "x").unwrap().unwrap();
    assert_eq!(got.path, b"/tmp/workdir".to_vec());
}

#[test]
fn add_twice_fails_and_keeps_the_first_record() {
    let mut reg = Registry::new();
    registered(&mut reg, "x", b"/tmp/first");
    let second = add(&mut reg, "x", b"/tmp/second".to_vec());
    assert_eq!(second.unwrap_err(), Error::AlreadyExists);
    let got = get(&reg, "x").unwrap().unwrap();
    assert_eq!(got.path, b"/tmp/first".to_vec());
}

#[test]
fn delete_unregistered_fails_with_not_found() {
    let mut reg = Registry::new();
    assert_eq!(delete(&mut reg, "x").unwrap_err(), Error::NotFound);
}

#[test]
fn delete_then_get_finds_nothing() {
    let mut reg = Registry::new();
    registered(&mut reg, "x", b"/tmp/workdir");
    assert!(delete(&mut reg, "x").is_ok());
    assert!(get(&reg, "x").is_none());
    assert!(!record_exists(&reg, "x"));
}

#[test]
fn write_overwrites_in_place() {
    let mut reg = Registry::new();
    registered(&mut reg, "x", b"/old");
    let ws = Workspace::new(b"/new".to_vec());
    workspace::store::write(&mut reg, &ws, "x");
    let got = get(&reg, "x").unwrap().unwrap();
    assert_eq!(got.path, b"/new".to_vec());
    assert_eq!(reg.entries.len(), 1);
}

#[test]
fn get_on_unregistered_is_none() {
    let reg = Registry::new();
    assert!(get(&reg, "nope").is_none());
}

#[test]
fn exists_follows_the_registry() {
    let mut reg = Registry::new();
    assert!(!record_exists(&reg, "x"));
    registered(&mut reg, "x", b"/tmp");
    assert!(record_exists(&reg, "x"));
    assert!(!record_exists(&reg, "y"));
}

#[test]
fn get_reports_a_corrupt_record() {
    let reg = Registry {
        entries: vec![RawEntry {
            name: "bad.toml".to_string(),
            is_file: true,
            content: Some(b"junk".to_vec()),
        }],
    };
    assert_eq!(get(&reg, "bad").unwrap().unwrap_err(), Error::Parse);
}

#[test]
fn get_reports_an_unreadable_record() {
    let reg = Registry {
        entries: vec![RawEntry {
            name: "locked.toml".to_string(),
            is_file: true,
            content: None,
        }],
    };
    assert_eq!(get(&reg, "locked").unwrap().unwrap_err(), Error::Read);
}

#[test]
fn list_of_empty_registry_is_empty() {
    let reg = Registry::new();
    assert!(all(&reg).is_empty());
}

#[test]
fn list_isolates_a_corrupt_record() {
    let entries = vec![
        RawEntry {
            name: "alpha.toml".to_string(),
            is_file: true,
            content: Some(encode(&Workspace::new(b"/a".to_vec()))),
        },
        RawEntry {
            name: "broken.toml".to_string(),
            is_file: true,
            content: Some(b"not a record at all".to_vec()),
        },
        RawEntry {
            name: "beta.toml".to_string(),
            is_file: true,
            content: Some(encode(&Workspace::new(b"/b".to_vec()))),
        },
    ];
    let reg = Registry { entries };
    let rows = all(&reg);
    assert_eq!(rows.len(), 3);
    assert_eq!(rows[0].0.as_deref(), Some("alpha"));
    assert_eq!(rows[0].1.as_ref().unwrap().path, b"/a".to_vec());
    assert_eq!(rows[1].0.as_deref(), Some("broken"));
    assert_eq!(*rows[1].1.as_ref().unwrap_err(), Error::Parse);
    assert_eq!(rows[2].0.as_deref(), Some("beta"));
    assert_eq!(rows[2].1.as_ref().unwrap().path, b"/b".to_vec());
}

#[test]
fn list_reports_unreadable_files_and_skips_foreign_entries() {
    let entries = vec![
        RawEntry {
            name: "notes.txt".to_string(),
            is_file: true,
            content: Some(b"plain text".to_vec()),
        },
        RawEntry {
            name: "sub.toml".to_string(),
            is_file: false,
            content: None,
        },
        RawEntry {
            name: "locked.toml".to_string(),
            is_file: true,
            content: None,
        },
        RawEntry {
            name: "good.toml".to_string(),
            is_file: true,
            content: Some(encode(&Workspace::new(b"/g".to_vec()))),
        },
        RawEntry {
            name: ".toml".to_string(),
            is_file: true,
            content: Some(b"hidden".to_vec()),
        },
    ];
    let reg = Registry { entries };
    let rows = all(&reg);
    assert_eq!(rows.len(), 2);
    assert_eq!(rows[0].0.as_deref(), Some("locked"));
    assert_eq!(*rows[0].1.as_ref().unwrap_err(), Error::Read);
    assert_eq!(rows[1].0.as_deref(), Some("good"));
    assert_eq!(rows[1].1.as_ref().unwrap().path, b"/g".to_vec());
}

#[test]
fn file_path_is_the_record_location() {
    assert_eq!(
        file_path("/home/me/.workspace", "proj"),
        "/home/me/.workspace/proj.toml"
    );
    assert_eq!(file_name("proj"), "proj.toml");
}

#[test]
fn name_validity() {
    assert!(is_valid_name("proj"));
    assert!(is_valid_name("p.j"));
    assert!(!is_valid_name(""));
    assert!(!is_valid_name("a/b"));
    assert!(!is_valid_name("/"));
}
