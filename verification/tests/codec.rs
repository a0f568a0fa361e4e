use workspace::codec::{decode, encode};
use workspace::record::{Error, Workspace};

#[test]
fn encode_emits_one_path_line() {
    let ws = Workspace::new(b"/tmp/proj".to_vec());
    let enc = encode(&ws);
    assert_eq!(enc, b"path = \"/tmp/proj\"\n".to_vec());
}

#[test]
fn round_trip_simple() {
    let ws = Workspace::new(b"/tmp/proj".to_vec());
    let back = decode(&encode(&ws)).unwrap();
    assert_eq!(back.path, b"/tmp/proj".to_vec());
}

#[test]
fn round_trip_escaped_bytes() {
    let path = b"/odd \\ dir \"quoted\"\nwith\tcontrol\rbytes".to_vec();
    let ws = Workspace::new(path.clone());
    let enc = encode(&ws);
    // the single newline is the line terminator: nothing embedded
    assert_eq!(enc.iter().filter(|&&b| b == b'\n').count(), 1);
    assert_eq!(*enc.last().unwrap(), b'\n');
    let back = decode(&enc).unwrap();
    assert_eq!(back.path, path);
}

#[test]
fn round_trip_empty_path() {
    let ws = Workspace::new(Vec::new());
    let enc = encode(&ws);
    assert_eq!(enc, b"path = \"\"\n".to_vec());
    let back = decode(&enc).unwrap();
    assert_eq!(back.path, Vec::<u8>::new());
}

#[test]
fn round_trip_non_utf8_path() {
    let path = vec![47u8, 0xff, 0xfe, 47u8, 0x80];
    let ws = Workspace::new(path.clone());
    let back = decode(&encode(&ws)).unwrap();
    assert_eq!(back.path, path);
}

#[test]
fn decode_ignores_unknown_fields() {
    let content = b"name = \"proj\"\npath = \"/a/b\"\nextra = 3\n".to_vec();
    let back = decode(&content).unwrap();
    assert_eq!(back.path, b"/a/b".to_vec());
}

#[test]
fn decode_without_final_newline() {
    let content = b"path = \"/a/b\"".to_vec();
    let back = decode(&content).unwrap();
    assert_eq!(back.path, b"/a/b".to_vec());
}

#[test]
fn decode_missing_path_fails() {
    let content = b"name = \"proj\"\n".to_vec();
    assert_eq!(decode(&content).unwrap_err(), Error::Parse);
}

#[test]
fn decode_empty_fails() {
    assert_eq!(decode(&Vec::new()).unwrap_err(), Error::Parse);
}

#[test]
fn decode_unknown_escape_fails() {
    let content = b"path = \"\\q\"\n".to_vec();
    assert_eq!(decode(&content).unwrap_err(), Error::Parse);
}

#[test]
fn decode_dangling_escape_fails() {
    let content = b"path = \"\\".to_vec();
    assert_eq!(decode(&content).unwrap_err(), Error::Parse);
}

#[test]
fn decode_unterminated_string_fails() {
    let content = b"path = \"/a/b\n".to_vec();
    assert_eq!(decode(&content).unwrap_err(), Error::Parse);
}

#[test]
fn decode_stray_quote_fails() {
    let content = b"path = \"/a\"b\"\n".to_vec();
    assert_eq!(decode(&content).unwrap_err(), Error::Parse);
}

#[test]
fn decode_garbage_fails() {
    let content = b"\x00\x01\x02 not a record".to_vec();
    assert_eq!(decode(&content).unwrap_err(), Error::Parse);
}

#[test]
fn encoded_record_is_toml() {
    let ws = Workspace::new(b"/tmp/has \\ and \"q\"".to_vec());
    let text = String::from_utf8(encode(&ws)).unwrap();
    let value: toml::Value = toml::from_str(&text).unwrap();
    assert_eq!(
        value.get("path").unwrap().as_str().unwrap(),
        "/tmp/has \\ and \"q\""
    );
}

#[test]
fn decode_accepts_what_toml_writes() {
    let mut table = toml::Table::new();
    table.insert(
        "path".to_string(),
        toml::Value::String("/somewhere/else".to_string()),
    );
    let text = toml::to_string(&table).unwrap();
    let back = decode(&text.into_bytes()).unwrap();
    assert_eq!(back.path, b"/somewhere/else".to_vec());
}
