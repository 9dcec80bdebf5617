use std::str::FromStr;

use bigjson::Batch;
use bigjson::Json;
use bigjson::JsonPatch;
use bigjson::JsonPointer;
use bigjson::MemDb;
use bigjson::PatchOutcome;
use bigjson::Subscription;
use bigjson::SubscriptionHub;
use bigjson::normalize_path;
use bigjson::outcome_status;
use bigjson::serve_patch;

fn jp(s: &str) -> JsonPointer {
    JsonPointer::from_str(s).expect("valid json pointer")
}

fn num(n: i64) -> Json {
    Json::Num(n.to_string())
}

fn obj(entries: Vec<(&str, Json)>) -> Json {
    let mut v = Vec::new();
    for (k, value) in entries {
        v.push((k.to_string(), value));
    }
    Json::Obj(v)
}

#[test]
fn normalize_path_restores_leading_slash() {
    assert_eq!(normalize_path("a/b"), "/a/b");
    assert_eq!(normalize_path(""), "");
}

#[test]
fn status_codes() {
    assert_eq!(outcome_status(&PatchOutcome::Applied), 200);
    assert_eq!(outcome_status(&PatchOutcome::PreconditionFailed), 412);
    assert_eq!(
        outcome_status(&PatchOutcome::Rejected(bigjson::MemDbError::EmptyPath)),
        400
    );
}

#[test]
fn serve_patch_fans_out_in_commit_order() {
    // A subscriber below /a/b/c receives the rewritten batch; replacing
    // its parent delivers the fresh sub-tree at its root.
    let mut db = MemDb::new(obj(vec![(
        "a",
        obj(vec![("b", obj(vec![("c", obj(vec![]))]))]),
    )]));
    let mut hub = SubscriptionHub::new();
    hub.register(jp("/a/b/c"));

    let outcome = serve_patch(
        &mut db,
        &mut hub,
        None,
        vec![JsonPatch::Replace {
            path: jp("/a/b"),
            value: obj(vec![("c", obj(vec![("d", num(10))])), ("e", num(20))]),
        }],
    );
    assert!(matches!(outcome, PatchOutcome::Applied));

    let delivered = hub.subs[0].take_next().unwrap();
    assert_eq!(
        delivered,
        vec![JsonPatch::Replace { path: jp(""), value: obj(vec![("d", num(10))]) }]
    );
    assert!(hub.subs[0].take_next().is_none());
}

#[test]
fn serve_patch_distinguishes_test_failure() {
    let mut db = MemDb::default();
    let mut hub = SubscriptionHub::new();
    let outcome = serve_patch(
        &mut db,
        &mut hub,
        None,
        vec![JsonPatch::Test { path: jp("/x"), value: num(1) }],
    );
    assert!(matches!(outcome, PatchOutcome::PreconditionFailed));

    let outcome2 = serve_patch(
        &mut db,
        &mut hub,
        None,
        vec![JsonPatch::Remove { path: jp("/x") }],
    );
    assert!(matches!(outcome2, PatchOutcome::Rejected(_)));
    assert_eq!(outcome_status(&outcome2), 400);
}

#[test]
fn subscription_queue_is_ordered_and_bounded() {
    let mut s = Subscription::open(jp("/a"));
    s.publish_to(vec![JsonPatch::Add { path: jp(""), value: num(1) }]);
    s.publish_to(vec![JsonPatch::Add { path: jp(""), value: num(2) }]);
    let first = s.take_next().unwrap();
    let second = s.take_next().unwrap();
    assert_eq!(first, vec![JsonPatch::Add { path: jp(""), value: num(1) }]);
    assert_eq!(second, vec![JsonPatch::Add { path: jp(""), value: num(2) }]);
    assert!(s.take_next().is_none());

    // A slow consumer is closed once the buffer overflows.
    let mut slow = Subscription::open(jp("/a"));
    for i in 0..64 {
        slow.publish_to(vec![JsonPatch::Add { path: jp(""), value: num(i) }]);
        assert!(!slow.closed);
    }
    slow.publish_to(vec![JsonPatch::Add { path: jp(""), value: num(64) }]);
    assert!(slow.closed);
}

#[test]
fn move_across_branches_reaches_subscriber() {
    // Doc {"a":{"b":{"c":{}}},"k":{"j":100}}; subscriber at /a/b/c; the
    // move lands its value inside the watched sub-tree.
    let mut db = MemDb::new(obj(vec![
        ("a", obj(vec![("b", obj(vec![("c", obj(vec![]))]))])),
        ("k", obj(vec![("j", num(100))])),
    ]));
    let mut hub = SubscriptionHub::new();
    hub.register(jp("/a/b/c"));
    let outcome = serve_patch(
        &mut db,
        &mut hub,
        None,
        vec![JsonPatch::Move { from: jp("/k/j"), path: jp("/a/b/c/d") }],
    );
    assert!(matches!(outcome, PatchOutcome::Applied));
    let delivered = hub.subs[0].take_next().unwrap();
    assert_eq!(delivered, vec![JsonPatch::Add { path: jp("/d"), value: num(100) }]);
}

#[test]
fn batch_builder_collects_operations() {
    let b = Batch::new()
        .test("/room", Json::Null)
        .add("/room", Json::Arr(Vec::new()))
        .remove("/old")
        .move_to("/x", "/y")
        .copy_to("/y", "/z")
        .replace("/y", num(1));
    let ops = b.res.unwrap();
    assert_eq!(ops.len(), 6);
    assert_eq!(ops[0], JsonPatch::Test { path: jp("/room"), value: Json::Null });
    assert_eq!(ops[1], JsonPatch::Add { path: jp("/room"), value: Json::Arr(Vec::new()) });
    assert_eq!(ops[2], JsonPatch::Remove { path: jp("/old") });
    assert_eq!(ops[3], JsonPatch::Move { from: jp("/x"), path: jp("/y") });
    assert_eq!(ops[4], JsonPatch::Copy { from: jp("/y"), path: jp("/z") });
    assert_eq!(ops[5], JsonPatch::Replace { path: jp("/y"), value: num(1) });
}

#[test]
fn batch_builder_keeps_the_first_bad_pointer() {
    let b = Batch::new().add("/ok", num(1)).add("broken", num(2)).add("/more", num(3));
    assert!(b.res.is_err());
}
