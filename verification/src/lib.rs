//! An in-memory hierarchical JSON document store: RFC-6901 pointers,
//! atomic RFC-6902-style patch batches with transactional rollback,
//! per-subscription patch re-projection, and an append-only journal
//! with snapshot compaction.

mod batch;
mod engine;
mod model;
mod parser;
mod patch;
mod pointer;
mod hub;
mod journal;
mod reproject;
mod service;
mod text;
mod undo;
mod value;

pub use batch::Batch;
pub use engine::MemDb;
pub use engine::batch_views;
pub use engine::prefix_view;
pub use engine::UndoCommand;
pub use engine::UpdateSource;
pub use engine::UpdateTarget;
pub use model::JsonModel;
pub use model::model_lookup;
pub use model::model_replace;
pub use model::obj_get;
pub use model::obj_sorted;
pub use model::seg_index;
pub use model::wf;
pub use parser::escape;
pub use parser::is_escape_char;
pub use parser::lemma_pointer_roundtrip;
pub use parser::parse_json_pointer;
pub use parser::parse_pointer;
pub use parser::print_pointer;
pub use parser::unescape;
pub use patch::ErrorModel;
pub use patch::JsonPatch;
pub use patch::PatchModel;
pub use patch::model_apply_batch;
pub use patch::model_apply_op;
pub use patch::op_len_ok;
pub use patch::patch_wf;
pub use patch::MemDbError;
pub use pointer::JsonPointer;
pub use pointer::JsonPointerRef;
pub use pointer::ParseJsonPointerError;
pub use pointer::ToJsonPointerRef;
pub use hub::Subscription;
pub use hub::SubscriptionHub;
pub use journal::AppendPlan;
pub use journal::compaction_due;
pub use journal::compaction_plan;
pub use journal::get_block_list;
pub use journal::plan_append;
pub use journal::replay;
pub use reproject::create_subscription_patch;
pub use reproject::diff_model;
pub use reproject::project_batch;
pub use reproject::project_op;
pub use undo::op_undo;
pub use undo::undo_apply;
pub use hub::sub_inv;
pub use hub::hub_inv;
pub use journal::replay_model;
pub use journal::block_indices;
pub use reproject::lemma_project_below_sound;
pub use reproject::lemma_project_batch_below_sound;
pub use journal::lemma_journal_round_trip;
pub use journal::lemma_replay_split;
pub use hub::lemma_delivery_prefix;
pub use undo::lemma_op_inverse;
pub use service::PatchOutcome;
pub use service::ServerConfig;
pub use service::normalize_path;
pub use service::outcome_status;
pub use service::serve_patch;
pub use value::Json;
pub use value::json_eq;
pub use value::deep_clone;
pub use value::locate;
pub use value::parse_index_str;
pub use value::wf_check;
