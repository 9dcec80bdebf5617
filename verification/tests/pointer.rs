use std::str::FromStr;

use bigjson::JsonPointer;
use bigjson::parse_json_pointer;

fn jp(s: &str) -> JsonPointer {
    JsonPointer::from_str(s).expect("valid json pointer")
}

#[test]
fn as_ref() {
    let pointer: JsonPointer = "/a/b/c".parse().unwrap();
    let pointer_ref = pointer.as_ref();

    assert_eq!(pointer_ref.to_string(), "/a/b/c");

    let (parent, key) = pointer_ref.split_last().unwrap();
    assert_eq!(parent.to_string(), "/a/b");
    assert_eq!(key, "c");
}

#[test]
fn with_prefix() {
    let prefix: JsonPointer = "/a/b/c".parse().unwrap();
    let pointer: JsonPointer = "/d/e/f".parse().unwrap();
    let pointer_ref = pointer.with_prefix(&prefix);

    assert_eq!(pointer_ref.to_string(), "/a/b/c/d/e/f");

    let (parent, key) = pointer_ref.split_last().unwrap();
    assert_eq!(parent.to_string(), "/a/b/c/d/e");
    assert_eq!(key, "f");

    let (parent, key) = parent.split_last().unwrap();
    assert_eq!(parent.to_string(), "/a/b/c/d");
    assert_eq!(key, "e");

    let (parent, key) = parent.split_last().unwrap();
    assert_eq!(parent.to_string(), "/a/b/c");
    assert_eq!(key, "d");

    let (parent, key) = parent.split_last().unwrap();
    assert_eq!(parent.to_string(), "/a/b");
    assert_eq!(key, "c");
}

#[test]
fn test_starts_with() {
    assert!(jp("/a/b/c").as_ref().starts_with(jp("/a/b").as_ref()));

    assert!(jp("/a/b/c").as_ref().starts_with(jp("/a/b/c").as_ref()));

    assert!(jp("/c").with_prefix(&jp("/a/b")).starts_with(jp("/a/b").as_ref()));

    assert!(jp("/c").with_prefix(&jp("/a/b")).starts_with(jp("/a/b/c").as_ref()));

    assert!(!jp("/c").with_prefix(&jp("/a1/b")).starts_with(jp("/a/b").as_ref()));

    assert!(!jp("/c").with_prefix(&jp("/a/b1")).starts_with(jp("/a/b").as_ref()));

    assert!(jp("/c/d/e").with_prefix(&jp("/a/b")).starts_with(jp("/a/b/c/d/e").as_ref()));

    assert!(jp("/c/d/e").with_prefix(&jp("/a/b")).starts_with(jp("/a").as_ref()));

    assert!(jp("/c/d/e").as_ref().starts_with(jp("").as_ref()));
}

#[test]
fn test_strip_prefix() {
    assert_eq!(
        jp("/a/b/c").as_ref().strip_prefix(jp("/a/b").as_ref()).unwrap().to_owned(),
        jp("/c")
    );

    assert_eq!(
        jp("/a/b/c").as_ref().strip_prefix(jp("/a/b/c").as_ref()).unwrap().to_owned(),
        jp("")
    );

    assert_eq!(
        jp("/c").with_prefix(&jp("/a/b")).strip_prefix(jp("/a/b").as_ref()).unwrap().to_owned(),
        jp("/c")
    );

    assert_eq!(
        jp("/c").with_prefix(&jp("/a/b")).strip_prefix(jp("/a/b/c").as_ref()).unwrap().to_owned(),
        jp("")
    );

    assert!(jp("/c").with_prefix(&jp("/a1/b")).strip_prefix(jp("/a/b").as_ref()).is_none());

    assert!(jp("/c").with_prefix(&jp("/a/b1")).strip_prefix(jp("/a/b").as_ref()).is_none());

    assert_eq!(
        jp("/c/d/e")
            .with_prefix(&jp("/a/b"))
            .strip_prefix(jp("/a/b/c/d/e").as_ref())
            .unwrap()
            .to_owned(),
        jp("")
    );

    assert_eq!(
        jp("/c/d/e").with_prefix(&jp("/a/b")).strip_prefix(jp("/a").as_ref()).unwrap().to_owned(),
        jp("/b/c/d/e")
    );

    assert_eq!(
        jp("/a/b/c").as_ref().strip_prefix(jp("").as_ref()).unwrap().to_owned(),
        jp("/a/b/c")
    );
}

fn check(input: &str, segments: &[String]) {
    assert_eq!(parse_json_pointer(input).unwrap(), segments);
}

#[test]
fn test_parser() {
    check("", &[]);
    check("/foo", &["foo".to_string()]);
    check("/foo/0", &["foo".to_string(), "0".to_string()]);
    check("/", &["".to_string()]);
    check("/a~1b", &["a/b".to_string()]);
    check("/c%d", &["c%d".to_string()]);
    check("/e^f", &["e^f".to_string()]);
    check("/g|h", &["g|h".to_string()]);
    check("/ ", &[" ".to_string()]);
    check("/m~0n", &["m~n".to_string()]);
    check(
        "/a~c/~1bc/~2d",
        &["a~c".to_string(), "/bc".to_string(), "~2d".to_string()],
    );
}

#[test]
fn test_parser_rejects_missing_slash() {
    assert!(parse_json_pointer("foo").is_err());
    assert!(parse_json_pointer("a/b").is_err());
}

#[test]
fn test_print_escapes_round_trip() {
    // Escape pairs decode and re-encode without loss.
    for wire in ["", "/a~1b", "/m~0n", "/a/b/c", "/~0~1", "/"] {
        let p = jp(wire);
        assert_eq!(p.to_string(), wire);
        assert_eq!(jp(&p.to_string()), p);
    }
    // A segment holding a bare tilde prints escaped and parses back.
    let p = jp("/a~c");
    assert_eq!(p.to_string(), "/a~0c");
    assert_eq!(jp(&p.to_string()), p);
}
