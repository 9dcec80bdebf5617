use std::str::FromStr;

use bigjson::AppendPlan;
use bigjson::Json;
use bigjson::JsonPatch;
use bigjson::JsonPointer;
use bigjson::MemDb;
use bigjson::compaction_due;
use bigjson::compaction_plan;
use bigjson::get_block_list;
use bigjson::json_eq;
use bigjson::plan_append;
use bigjson::replay;

fn jp(s: &str) -> JsonPointer {
    JsonPointer::from_str(s).expect("valid json pointer")
}

fn num(n: i64) -> Json {
    Json::Num(n.to_string())
}

const LIMIT: u64 = 1024 * 1024 * 256;

#[test]
fn append_goes_to_active_block_until_full() {
    match plan_append(Some((3, 100)), 50) {
        Some(AppendPlan::Active { index, new_size }) => {
            assert_eq!(index, 3);
            assert_eq!(new_size, 150);
        },
        _ => panic!("expected the active block"),
    }
    // Exactly reaching the limit still fits.
    match plan_append(Some((3, LIMIT - 50)), 50) {
        Some(AppendPlan::Active { index, new_size }) => {
            assert_eq!(index, 3);
            assert_eq!(new_size, LIMIT);
        },
        _ => panic!("expected the active block"),
    }
}

#[test]
fn append_rolls_over_without_splitting_the_record() {
    match plan_append(Some((3, LIMIT - 49)), 50) {
        Some(AppendPlan::Fresh { index, new_size }) => {
            assert_eq!(index, 4);
            assert_eq!(new_size, 50);
        },
        _ => panic!("expected a fresh block"),
    }
    // The very first record opens block 1.
    match plan_append(None, 10) {
        Some(AppendPlan::Fresh { index, new_size }) => {
            assert_eq!(index, 1);
            assert_eq!(new_size, 10);
        },
        _ => panic!("expected block 1"),
    }
    // A record that fits no block is refused.
    assert!(plan_append(None, LIMIT + 1).is_none());
}

#[test]
fn block_list_filters_and_sorts() {
    let names = vec![
        "2.block".to_string(),
        "10.block".to_string(),
        "snapshot.data".to_string(),
        "1.block".to_string(),
        "x.block".to_string(),
        "snapshot.temp".to_string(),
        "3.blocks".to_string(),
    ];
    assert_eq!(get_block_list(names), vec![1, 2, 10]);
}

#[test]
fn compaction_skips_few_blocks_and_covers_all_but_newest() {
    assert!(compaction_plan(&vec![1, 2, 3, 4, 5]).is_none());
    assert_eq!(compaction_plan(&vec![1, 2, 3, 4, 5, 6]), Some(vec![1, 2, 3, 4, 5]));
    assert!(compaction_due(1801));
    assert!(!compaction_due(1800));
}

#[test]
fn replay_yields_the_same_document() {
    // Apply a sequence of batches directly.
    let mut live = MemDb::default();
    live.patch(None, vec![JsonPatch::Add { path: jp("/a"), value: num(1) }]).unwrap();
    let prefix = jp("/a");
    live.patch(
        Some(&prefix),
        vec![JsonPatch::Replace { path: jp(""), value: num(2) }],
    )
    .unwrap();
    live.patch(None, vec![JsonPatch::Add { path: jp("/b"), value: num(3) }]).unwrap();

    // Replay the same batches as journal records.
    let records = vec![
        (None, vec![JsonPatch::Add { path: jp("/a"), value: num(1) }]),
        (Some(jp("/a")), vec![JsonPatch::Replace { path: jp(""), value: num(2) }]),
        (None, vec![JsonPatch::Add { path: jp("/b"), value: num(3) }]),
    ];
    let mut recovered = MemDb::default();
    replay(&mut recovered, records).unwrap();
    assert!(json_eq(recovered.root(), live.root()));

    // Cutting the journal at a block boundary and replaying the prefix
    // into a snapshot, then the rest, lands on the same document.
    let prefix_records = vec![
        (None, vec![JsonPatch::Add { path: jp("/a"), value: num(1) }]),
        (Some(jp("/a")), vec![JsonPatch::Replace { path: jp(""), value: num(2) }]),
    ];
    let mut snapshot = MemDb::default();
    replay(&mut snapshot, prefix_records).unwrap();
    let tail_records = vec![
        (None, vec![JsonPatch::Add { path: jp("/b"), value: num(3) }]),
    ];
    replay(&mut snapshot, tail_records).unwrap();
    assert!(json_eq(snapshot.root(), live.root()));
}

#[test]
fn replay_stops_at_a_bad_record() {
    let records = vec![
        (None, vec![JsonPatch::Add { path: jp("/a"), value: num(1) }]),
        (None, vec![JsonPatch::Remove { path: jp("/missing") }]),
    ];
    let mut db = MemDb::default();
    assert!(replay(&mut db, records).is_err());
}
