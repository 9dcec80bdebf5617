use std::str::FromStr;

use bigjson::Json;
use bigjson::JsonPatch;
use bigjson::JsonPointer;
use bigjson::MemDb;
use bigjson::MemDbError;
use bigjson::json_eq;

fn jp(s: &str) -> JsonPointer {
    JsonPointer::from_str(s).expect("valid json pointer")
}

fn num(n: i64) -> Json {
    Json::Num(n.to_string())
}

fn text(s: &str) -> Json {
    Json::Str(s.to_string())
}

fn obj(entries: Vec<(&str, Json)>) -> Json {
    let mut v = Vec::new();
    for (k, value) in entries {
        v.push((k.to_string(), value));
    }
    Json::Obj(v)
}

fn empty_obj() -> Json {
    Json::Obj(Vec::new())
}

#[test]
fn add_and_get() {
    let mut db = MemDb::default();
    db.patch(None, vec![JsonPatch::Add { path: jp("/a"), value: num(1) }]).unwrap();
    assert_eq!(db.get(&jp("/a")), Some(&num(1)));
    assert_eq!(db.get(&jp("/b")), None);
}

#[test]
fn add_overwrites_and_appends() {
    let mut db = MemDb::default();
    db.patch(
        None,
        vec![
            JsonPatch::Add { path: jp("/room"), value: Json::Arr(Vec::new()) },
            JsonPatch::Add { path: jp("/room/-"), value: text("hi") },
            JsonPatch::Add { path: jp("/room/-"), value: text("there") },
            JsonPatch::Add { path: jp("/room/0"), value: text("first") },
        ],
    )
    .unwrap();
    assert_eq!(
        db.get(&jp("/room")),
        Some(&Json::Arr(vec![text("first"), text("hi"), text("there")]))
    );
}

#[test]
fn test_against_missing_path_compares_to_null() {
    // The first operation fails: a missing path reads as null, and an
    // empty object is not null, so the whole batch is rejected.
    let mut db = MemDb::default();
    let r = db.patch(
        None,
        vec![
            JsonPatch::Test { path: jp("/room"), value: empty_obj() },
            JsonPatch::Add { path: jp("/room"), value: Json::Arr(Vec::new()) },
        ],
    );
    assert_eq!(r, Err(MemDbError::TestFailed));
    assert_eq!(db.get(&jp("/room")), None);

    // Testing the missing path against null succeeds.
    let r2 = db.patch(
        None,
        vec![JsonPatch::Test { path: jp("/room"), value: Json::Null }],
    );
    assert!(r2.is_ok());
}

#[test]
fn rollback_restores_document() {
    // The second operation fails, so the first is rolled back.
    let mut db = MemDb::default();
    let r = db.patch(
        None,
        vec![
            JsonPatch::Add { path: jp("/x"), value: num(1) },
            JsonPatch::Add { path: jp("/y/z"), value: num(2) },
        ],
    );
    assert_eq!(r, Err(MemDbError::PathNotFound { path: jp("/y") }));
    assert_eq!(db.get(&jp("/x")), None);
    assert!(json_eq(db.root(), &empty_obj()));
}

#[test]
fn rollback_restores_across_kinds() {
    let mut db = MemDb::new(obj(vec![
        ("a", obj(vec![("b", num(1))])),
        ("k", Json::Arr(vec![num(7), num(8)])),
    ]));
    let before = bigjson::deep_clone(db.root());
    let r = db.patch(
        None,
        vec![
            JsonPatch::Replace { path: jp("/a/b"), value: num(2) },
            JsonPatch::Remove { path: jp("/k/0") },
            JsonPatch::Move { from: jp("/a"), path: jp("/moved") },
            JsonPatch::Copy { from: jp("/k"), path: jp("/copied") },
            JsonPatch::Add { path: jp("/nope/deep"), value: num(3) },
        ],
    );
    assert_eq!(r, Err(MemDbError::PathNotFound { path: jp("/nope") }));
    assert!(json_eq(db.root(), &before));
}

#[test]
fn remove_errors() {
    let mut db = MemDb::new(obj(vec![("a", num(1))]));
    assert_eq!(
        db.patch(None, vec![JsonPatch::Remove { path: jp("") }]),
        Err(MemDbError::EmptyPath)
    );
    assert_eq!(
        db.patch(None, vec![JsonPatch::Remove { path: jp("/b") }]),
        Err(MemDbError::PathNotFound { path: jp("/b") })
    );
    assert_eq!(
        db.patch(None, vec![JsonPatch::Remove { path: jp("/a/x") }]),
        Err(MemDbError::NotAContainer { path: jp("/a") })
    );
}

#[test]
fn array_index_errors() {
    let mut db = MemDb::new(obj(vec![("k", Json::Arr(vec![num(1)]))]));
    assert_eq!(
        db.patch(None, vec![JsonPatch::Add { path: jp("/k/5"), value: num(9) }]),
        Err(MemDbError::InvalidIndex { path: jp("/k"), index: "5".to_string() })
    );
    assert_eq!(
        db.patch(None, vec![JsonPatch::Remove { path: jp("/k/x") }]),
        Err(MemDbError::InvalidIndex { path: jp("/k"), index: "x".to_string() })
    );
}

#[test]
fn move_into_own_descendant_is_rejected() {
    let mut db = MemDb::new(obj(vec![("a", obj(vec![("b", num(1))]))]));
    let before = bigjson::deep_clone(db.root());
    let r = db.patch(
        None,
        vec![JsonPatch::Move { from: jp("/a"), path: jp("/a/c") }],
    );
    assert_eq!(r, Err(MemDbError::PathNotFound { path: jp("/a") }));
    assert!(json_eq(db.root(), &before));
}

#[test]
fn move_and_copy_apply() {
    let mut db = MemDb::new(obj(vec![
        ("a", obj(vec![("b", num(1))])),
        ("k", num(5)),
    ]));
    db.patch(
        None,
        vec![
            JsonPatch::Move { from: jp("/a/b"), path: jp("/moved") },
            JsonPatch::Copy { from: jp("/k"), path: jp("/copied") },
        ],
    )
    .unwrap();
    assert_eq!(db.get(&jp("/moved")), Some(&num(1)));
    assert_eq!(db.get(&jp("/a/b")), None);
    assert_eq!(db.get(&jp("/copied")), Some(&num(5)));
    assert_eq!(db.get(&jp("/k")), Some(&num(5)));
}

#[test]
fn patch_under_prefix() {
    let mut db = MemDb::new(obj(vec![("a", obj(vec![("b", empty_obj())]))]));
    let prefix = jp("/a/b");
    db.patch(
        Some(&prefix),
        vec![JsonPatch::Add { path: jp("/c"), value: num(3) }],
    )
    .unwrap();
    assert_eq!(db.get(&jp("/a/b/c")), Some(&num(3)));
}

#[test]
fn replace_root_and_inverse() {
    let mut db = MemDb::default();
    db.patch(None, vec![JsonPatch::Replace { path: jp(""), value: num(7) }]).unwrap();
    assert_eq!(db.get(&jp("")), Some(&num(7)));
    // A later failure in the same batch rolls the root back.
    let r = db.patch(
        None,
        vec![
            JsonPatch::Replace { path: jp(""), value: empty_obj() },
            JsonPatch::Remove { path: jp("/missing") },
        ],
    );
    assert!(r.is_err());
    assert_eq!(db.get(&jp("")), Some(&num(7)));
}

#[test]
fn structural_equality_on_numbers_is_textual() {
    // Numbers compare by their canonical text.
    assert!(json_eq(&num(1), &num(1)));
    assert!(!json_eq(&num(1), &Json::Num("1.0".to_string())));
}

#[test]
fn canonical_form_is_checkable() {
    assert!(bigjson::wf_check(&obj(vec![("a", num(1)), ("b", num(2))])));
    // Keys out of order are not the engine's canonical form.
    assert!(!bigjson::wf_check(&obj(vec![("b", num(2)), ("a", num(1))])));
    assert!(!bigjson::wf_check(&Json::Arr(vec![obj(vec![
        ("b", num(2)),
        ("a", num(1)),
    ])])));
}

#[test]
fn array_indices_read_as_decimal() {
    let mut db = MemDb::new(obj(vec![("k", Json::Arr(vec![num(1), num(2)]))]));
    // A leading zero is read as the same decimal index.
    db.patch(None, vec![JsonPatch::Replace { path: jp("/k/01"), value: num(9) }]).unwrap();
    assert_eq!(
        db.get(&jp("/k")),
        Some(&Json::Arr(vec![num(1), num(9)]))
    );
    assert_eq!(bigjson::parse_index_str("007"), Some(7));
    assert_eq!(bigjson::parse_index_str("+1"), None);
    assert_eq!(bigjson::parse_index_str(""), None);
}
