use std::str::FromStr;

use bigjson::Json;
use bigjson::JsonPatch;
use bigjson::JsonPointer;
use bigjson::MemDb;
use bigjson::create_subscription_patch;

fn jp(s: &str) -> JsonPointer {
    JsonPointer::from_str(s).expect("valid json pointer")
}

fn num(n: i64) -> Json {
    Json::Num(n.to_string())
}

fn obj(entries: Vec<(&str, Json)>) -> Json {
    let mut v = Vec::new();
    for (k, value) in entries {
        v.push((k.to_string(), value));
    }
    Json::Obj(v)
}

fn arr(items: Vec<Json>) -> Json {
    Json::Arr(items)
}

#[test]
fn test_add() {
    // Add to root
    let patch = create_subscription_patch(
        &MemDb::default(),
        jp("/a/b/c").as_ref(),
        None,
        &[JsonPatch::Add {
            path: jp(""),
            value: obj(vec![(
                "a",
                obj(vec![("b", obj(vec![("c", obj(vec![("d", num(10))])), ("e", num(20))]))]),
            )]),
        }],
    );
    assert_eq!(
        patch,
        vec![JsonPatch::Add { path: jp(""), value: obj(vec![("d", num(10))]) }],
        "Add to root"
    );

    // Add to parent
    let patch = create_subscription_patch(
        &MemDb::default(),
        jp("/a/b/c").as_ref(),
        None,
        &[JsonPatch::Add {
            path: jp("/a/b"),
            value: obj(vec![("c", obj(vec![("d", num(10))])), ("e", num(20))]),
        }],
    );
    assert_eq!(
        patch,
        vec![JsonPatch::Add { path: JsonPointer::root(), value: obj(vec![("d", num(10))]) }],
        "Add to parent"
    );

    // Add to subscription root
    let patch = create_subscription_patch(
        &MemDb::default(),
        jp("/a/b/c").as_ref(),
        None,
        &[JsonPatch::Add { path: jp("/a/b/c"), value: obj(vec![("e", num(20))]) }],
    );
    assert_eq!(
        patch,
        vec![JsonPatch::Add { path: JsonPointer::root(), value: obj(vec![("e", num(20))]) }],
        "Add to subscription root"
    );

    // Add to child
    let patch = create_subscription_patch(
        &MemDb::default(),
        jp("/a/b/c").as_ref(),
        None,
        &[JsonPatch::Add {
            path: jp("/a/b/c/d/1"),
            value: obj(vec![("e", num(10)), ("f", arr(vec![num(1), num(2), num(3)]))]),
        }],
    );
    assert_eq!(
        patch,
        vec![JsonPatch::Add {
            path: jp("/d/1"),
            value: obj(vec![("e", num(10)), ("f", arr(vec![num(1), num(2), num(3)]))]),
        }],
        "Add to child"
    );

    // Add to other branch
    let patch = create_subscription_patch(
        &MemDb::default(),
        jp("/k/j").as_ref(),
        None,
        &[JsonPatch::Add {
            path: jp("/a/b/c/d/1"),
            value: obj(vec![("e", num(10)), ("f", arr(vec![num(1), num(2), num(3)]))]),
        }],
    );
    assert_eq!(patch, vec![], "Add to other branch");
}

#[test]
fn test_remove() {
    // Remove parent
    let patch = create_subscription_patch(
        &MemDb::default(),
        jp("/a/b/c").as_ref(),
        None,
        &[JsonPatch::Remove { path: jp("/a/b") }],
    );
    assert_eq!(
        patch,
        vec![JsonPatch::Add { path: jp(""), value: Json::Null }],
        "Remove parent"
    );

    // Remove subscription root
    let patch = create_subscription_patch(
        &MemDb::default(),
        jp("/a/b/c").as_ref(),
        None,
        &[JsonPatch::Remove { path: jp("/a/b/c") }],
    );
    assert_eq!(
        patch,
        vec![JsonPatch::Add { path: jp(""), value: Json::Null }],
        "Remove subscription root"
    );

    // remove child
    let patch = create_subscription_patch(
        &MemDb::default(),
        jp("/a/b/c").as_ref(),
        None,
        &[JsonPatch::Remove { path: jp("/a/b/c/d/1") }],
    );
    assert_eq!(
        patch,
        vec![JsonPatch::Remove { path: jp("/d/1") }],
        "remove child"
    );

    // Remove other branch
    let patch = create_subscription_patch(
        &MemDb::default(),
        jp("/a/b/c").as_ref(),
        None,
        &[JsonPatch::Remove { path: jp("/k/a") }],
    );
    assert_eq!(patch, vec![], "Remove other branch");
}

#[test]
fn test_replace() {
    // Replace root
    let patch = create_subscription_patch(
        &MemDb::default(),
        jp("/a/b/c").as_ref(),
        None,
        &[JsonPatch::Replace {
            path: jp(""),
            value: obj(vec![(
                "a",
                obj(vec![("b", obj(vec![("c", obj(vec![("d", num(10))])), ("e", num(20))]))]),
            )]),
        }],
    );
    assert_eq!(
        patch,
        vec![JsonPatch::Replace { path: jp(""), value: obj(vec![("d", num(10))]) }],
        "Replace root"
    );

    // Replace parent
    let patch = create_subscription_patch(
        &MemDb::default(),
        jp("/a/b/c").as_ref(),
        None,
        &[JsonPatch::Replace {
            path: jp("/a/b"),
            value: obj(vec![("c", obj(vec![("d", num(10))])), ("e", num(20))]),
        }],
    );
    assert_eq!(
        patch,
        vec![JsonPatch::Replace { path: jp(""), value: obj(vec![("d", num(10))]) }],
        "Replace parent"
    );

    // Replace subscription root
    let patch = create_subscription_patch(
        &MemDb::default(),
        jp("/a/b/c").as_ref(),
        None,
        &[JsonPatch::Replace { path: jp("/a/b/c"), value: obj(vec![("d", num(20))]) }],
    );
    assert_eq!(
        patch,
        vec![JsonPatch::Replace { path: jp(""), value: obj(vec![("d", num(20))]) }],
        "Replace subscription root"
    );

    // Replace child
    let patch = create_subscription_patch(
        &MemDb::default(),
        jp("/a/b/c").as_ref(),
        None,
        &[JsonPatch::Replace {
            path: jp("/a/b/c/d/1"),
            value: obj(vec![("e", num(10)), ("f", arr(vec![num(1), num(2), num(3)]))]),
        }],
    );
    assert_eq!(
        patch,
        vec![JsonPatch::Replace {
            path: jp("/d/1"),
            value: obj(vec![("e", num(10)), ("f", arr(vec![num(1), num(2), num(3)]))]),
        }],
        "Replace child"
    );

    // Replace other branch
    let patch = create_subscription_patch(
        &MemDb::default(),
        jp("/a/b/c").as_ref(),
        None,
        &[JsonPatch::Replace { path: jp("/k/j"), value: num(10) }],
    );
    assert_eq!(patch, vec![], "Replace other branch");
}

#[test]
fn test_move() {
    // Move from child to child
    let patch = create_subscription_patch(
        &MemDb::default(),
        jp("/a/b/c").as_ref(),
        None,
        &[JsonPatch::Move { from: jp("/a/b/c/d/1/e"), path: jp("/a/b/c/k/2") }],
    );
    assert_eq!(
        patch,
        vec![JsonPatch::Move { from: jp("/d/1/e"), path: jp("/k/2") }],
        "Move from child to child"
    );

    // Move from parent to child(impossible)

    // Move from other branch to child
    let patch = create_subscription_patch(
        &MemDb::new(obj(vec![(
            "a",
            obj(vec![("b", obj(vec![("c", obj(vec![("d", num(100))]))]))]),
        )])),
        jp("/a/b/c").as_ref(),
        None,
        &[JsonPatch::Move { from: jp("/k/j"), path: jp("/a/b/c/d") }],
    );
    assert_eq!(
        patch,
        vec![JsonPatch::Add { path: jp("/d"), value: num(100) }],
        "Move from other branch to child"
    );

    // Move from child to parent
    let patch = create_subscription_patch(
        &MemDb::new(obj(vec![(
            "a",
            obj(vec![("b", obj(vec![("c", obj(vec![("d", num(10))]))]))]),
        )])),
        jp("/a/b/c").as_ref(),
        None,
        &[JsonPatch::Move { from: jp("/a/b/c/d/a"), path: jp("/a") }],
    );
    assert_eq!(
        patch,
        vec![JsonPatch::Add { path: jp(""), value: obj(vec![("d", num(10))]) }],
        "Move from child to parent"
    );

    // Move from child to parent 2
    let patch = create_subscription_patch(
        &MemDb::new(obj(vec![("k", obj(vec![("j", num(10))]))])),
        jp("/a/b/c").as_ref(),
        None,
        &[JsonPatch::Move { from: jp("/a/b/c/d/a"), path: jp("/a") }],
    );
    assert_eq!(
        patch,
        vec![JsonPatch::Add { path: jp(""), value: Json::Null }],
        "Move from child to parent 2"
    );

    // Move from child to subscription root
    let patch = create_subscription_patch(
        &MemDb::default(),
        jp("/a/b/c").as_ref(),
        None,
        &[JsonPatch::Move { from: jp("/a/b/c/d/a/b/c"), path: jp("/a/b/c") }],
    );
    assert_eq!(
        patch,
        vec![JsonPatch::Move { from: jp("/d/a/b/c"), path: jp("") }],
        "Move from child to subscription root"
    );

    // Move from parent to other branch
    let patch = create_subscription_patch(
        &MemDb::default(),
        jp("/a/b/c").as_ref(),
        None,
        &[JsonPatch::Move { from: jp("/a/b"), path: jp("/k") }],
    );
    assert_eq!(
        patch,
        vec![JsonPatch::Add { path: jp(""), value: Json::Null }],
        "Move from parent to other branch"
    );

    // Move from child to other branch
    let patch = create_subscription_patch(
        &MemDb::default(),
        jp("/a/b/c").as_ref(),
        None,
        &[JsonPatch::Move { from: jp("/a/b/c/d"), path: jp("/k") }],
    );
    assert_eq!(
        patch,
        vec![JsonPatch::Remove { path: jp("/d") }],
        "Move from child to other branch"
    );

    // Move from subscription root to other branch
    let patch = create_subscription_patch(
        &MemDb::default(),
        jp("/a/b/c").as_ref(),
        None,
        &[JsonPatch::Move { from: jp("/a/b/c"), path: jp("/k") }],
    );
    assert_eq!(
        patch,
        vec![JsonPatch::Add { path: jp(""), value: Json::Null }],
        "Move from subscription root to other branch"
    );

    // Move from other branch root to other branch
    let patch = create_subscription_patch(
        &MemDb::default(),
        jp("/a/b/c").as_ref(),
        None,
        &[JsonPatch::Move { from: jp("/k"), path: jp("/j") }],
    );
    assert_eq!(patch, vec![], "Move from other branch root to other branch");
}

#[test]
fn test_copy() {
    // Copy from child to child
    let patch = create_subscription_patch(
        &MemDb::default(),
        jp("/a/b/c").as_ref(),
        None,
        &[JsonPatch::Copy { from: jp("/a/b/c/d/1/e"), path: jp("/a/b/c/k/2") }],
    );
    assert_eq!(
        patch,
        vec![JsonPatch::Copy { from: jp("/d/1/e"), path: jp("/k/2") }],
        "Copy from child to child"
    );

    // Copy from parent to child
    let patch = create_subscription_patch(
        &MemDb::new(obj(vec![(
            "a",
            obj(vec![("b", obj(vec![("c", obj(vec![("d", num(10))]))]))]),
        )])),
        jp("/a/b/c").as_ref(),
        None,
        &[JsonPatch::Copy { from: jp("/a/b"), path: jp("/a/b/c/d") }],
    );
    assert_eq!(
        patch,
        vec![JsonPatch::Add { path: jp("/d"), value: num(10) }],
        "Copy from parent to child"
    );

    // Copy from parent to subscription root
    let patch = create_subscription_patch(
        &MemDb::new(obj(vec![(
            "a",
            obj(vec![("b", obj(vec![("c", obj(vec![("d", num(10))]))]))]),
        )])),
        jp("/a/b/c").as_ref(),
        None,
        &[JsonPatch::Copy { from: jp("/a/b"), path: jp("/a/b/c") }],
    );
    assert_eq!(
        patch,
        vec![JsonPatch::Add { path: jp(""), value: obj(vec![("d", num(10))]) }],
        "Copy from parent to subscription root"
    );

    // Copy from child to parent
    let patch = create_subscription_patch(
        &MemDb::new(obj(vec![(
            "a",
            obj(vec![("b", obj(vec![("c", obj(vec![("d", num(10))]))]))]),
        )])),
        jp("/a/b/c").as_ref(),
        None,
        &[JsonPatch::Copy { from: jp("/a/b/c/d/1/e"), path: jp("/a") }],
    );
    assert_eq!(
        patch,
        vec![JsonPatch::Add { path: jp(""), value: obj(vec![("d", num(10))]) }],
        "Copy from child to parent"
    );

    // Copy from subscription root to parent
    let patch = create_subscription_patch(
        &MemDb::new(obj(vec![(
            "a",
            obj(vec![("b", obj(vec![("c", obj(vec![("d", num(10))]))]))]),
        )])),
        jp("/a/b/c").as_ref(),
        None,
        &[JsonPatch::Copy { from: jp("/a/b/c"), path: jp("/a") }],
    );
    assert_eq!(
        patch,
        vec![JsonPatch::Add { path: jp(""), value: obj(vec![("d", num(10))]) }],
        "Copy from subscription root to parent"
    );

    // Copy from other branch to parent
    let patch = create_subscription_patch(
        &MemDb::new(obj(vec![(
            "a",
            obj(vec![("b", obj(vec![("c", obj(vec![("d", num(10))]))]))]),
        )])),
        jp("/a/b/c").as_ref(),
        None,
        &[JsonPatch::Copy { from: jp("/k/j"), path: jp("/a") }],
    );
    assert_eq!(
        patch,
        vec![JsonPatch::Add { path: jp(""), value: obj(vec![("d", num(10))]) }],
        "Copy from subscription root to parent"
    );

    // Copy from parent to parent
    let patch = create_subscription_patch(
        &MemDb::new(obj(vec![(
            "a",
            obj(vec![("b", obj(vec![("c", obj(vec![("d", num(10))]))]))]),
        )])),
        jp("/a/b/c").as_ref(),
        None,
        &[JsonPatch::Copy { from: jp("/a/b"), path: jp("/a") }],
    );
    assert_eq!(
        patch,
        vec![JsonPatch::Add { path: jp(""), value: obj(vec![("d", num(10))]) }],
        "Copy from parent to parent"
    );

    // Copy from child to other branch
    let patch = create_subscription_patch(
        &MemDb::default(),
        jp("/a/b/c").as_ref(),
        None,
        &[JsonPatch::Copy { from: jp("/a/b/c/d"), path: jp("/k") }],
    );
    assert_eq!(patch, vec![], "Copy from child to other branch");

    // Copy from parent to other branch
    let patch = create_subscription_patch(
        &MemDb::default(),
        jp("/a/b/c").as_ref(),
        None,
        &[JsonPatch::Copy { from: jp("/a"), path: jp("/k") }],
    );
    assert_eq!(patch, vec![], "Copy from parent to other branch");

    // Copy from subscription root to other branch
    let patch = create_subscription_patch(
        &MemDb::default(),
        jp("/a/b/c").as_ref(),
        None,
        &[JsonPatch::Copy { from: jp("/a/b/c"), path: jp("/k") }],
    );
    assert_eq!(patch, vec![], "Copy from subscription root to other branch");

    // Copy from other branch to other branch
    let patch = create_subscription_patch(
        &MemDb::default(),
        jp("/a/b/c").as_ref(),
        None,
        &[JsonPatch::Copy { from: jp("/k/j"), path: jp("/u") }],
    );
    assert_eq!(patch, vec![], "Copy from other branch to other branch");
}

#[test]
fn projection_matches_subtree_after_write() {
    // A write below the subscription projects to an operation that
    // rebuilds exactly the new sub-tree.
    let mut db = MemDb::new(obj(vec![(
        "a",
        obj(vec![("b", obj(vec![("c", obj(vec![("d", num(1))]))]))]),
    )]));
    let ops = vec![JsonPatch::Replace { path: jp("/a/b/c/d"), value: num(2) }];
    let before_sub = bigjson::deep_clone(db.get(&jp("/a/b/c")).unwrap());
    db.patch(
        None,
        vec![JsonPatch::Replace { path: jp("/a/b/c/d"), value: num(2) }],
    )
    .unwrap();
    let projected = create_subscription_patch(&db, jp("/a/b/c").as_ref(), None, &ops);
    let mut sub_db = MemDb::new(before_sub);
    sub_db.patch(None, projected).unwrap();
    assert_eq!(sub_db.root(), db.get(&jp("/a/b/c")).unwrap());
}
