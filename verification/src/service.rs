//! The service façade's decisions: URL path normalization, configuration,
//! and how a patch request's outcome maps to a response, with fan-out in
//! commit order.  The HTTP transport itself stays with the caller.

use vstd::prelude::*;
use vstd::string::StringExecFns;

use crate::engine::MemDb;
use crate::engine::batch_views;
use crate::engine::prefix_view;
use crate::hub::SubscriptionHub;
use crate::hub::hub_inv;
use crate::model::JsonModel;
use crate::model::wf;
use crate::patch::ErrorModel;
use crate::patch::JsonPatch;
use crate::patch::MemDbError;
use crate::patch::model_apply_batch;
use crate::patch::op_len_ok;
use crate::patch::patch_wf;
use crate::pointer::JsonPointer;

verus! {

/// Restores the leading slash the router strips: a non-empty URL remnant
/// becomes `/` followed by it, the empty one stays the root pointer.
pub fn normalize_path(path: &str) -> (r: String)
    ensures
        r@ == if path@.len() == 0 {
            path@
        } else {
            seq!['/'] + path@
        },
{
    if !path.is_empty() {
        let mut s = String::new();
        s.push('/');
        s.append(path);
        proof {
            assert(s@ =~= seq!['/'] + path@);
        }
        s
    } else {
        path.to_owned()
    }
}

/// Server configuration: an optional data directory (no journal without
/// one) and the bind address.
pub struct ServerConfig {
    pub data_dir: Option<String>,
    pub bind: String,
}

impl Default for ServerConfig {
    /// No data directory; the default local bind address.
    fn default() -> (r: ServerConfig)
        ensures
            r.data_dir is None,
            r.bind@ == "127.0.0.1:3000"@,
    {
        ServerConfig { data_dir: None, bind: String::from_str("127.0.0.1:3000") }
    }
}

impl ServerConfig {
    /// The same configuration with a data directory set.
    #[must_use]
    pub fn data_dir(self, path: String) -> (r: ServerConfig)
        ensures
            r.data_dir == Some(path),
            r.bind == self.bind,
    {
        ServerConfig { data_dir: Some(path), bind: self.bind }
    }
}

/// How a patch request ends: applied, refused by a failed `test`
/// precondition, or rejected as a client error.
pub enum PatchOutcome {
    Applied,
    PreconditionFailed,
    Rejected(MemDbError),
}

/// The HTTP status a patch outcome answers with.
pub fn outcome_status(outcome: &PatchOutcome) -> (r: u16)
    ensures
        r == (match outcome {
            PatchOutcome::Applied => 200u16,
            PatchOutcome::PreconditionFailed => 412u16,
            PatchOutcome::Rejected(_) => 400u16,
        }),
{
    match outcome {
        PatchOutcome::Applied => 200,
        PatchOutcome::PreconditionFailed => 412,
        PatchOutcome::Rejected(_) => 400,
    }
}

/// Serves one patch request: applies the batch atomically and, exactly
/// when it committed, fans the projected patches out to every
/// subscription, in commit order.  A failed `test` is a distinct outcome;
/// any other error is a client error, and the document is untouched.
pub fn serve_patch(
    db: &mut MemDb,
    hub: &mut SubscriptionHub,
    prefix: Option<&JsonPointer>,
    commands: Vec<JsonPatch>,
) -> (r: PatchOutcome)
    requires
        wf(old(db)@),
        hub_inv(*old(hub)),
        forall|i: int|
            0 <= i < old(hub).subs@.len() ==> (#[trigger] old(hub).subs@[i]).path@.len()
                <= usize::MAX,
        forall|i: int| 0 <= i < commands@.len() ==> patch_wf((#[trigger] commands@[i])@),
        forall|i: int|
            0 <= i < commands@.len() ==> op_len_ok(prefix_view(prefix), (#[trigger] commands@[i])@),
    ensures
        hub_inv(*final(hub)),
        final(hub).subs@.len() == old(hub).subs@.len(),
        match r {
            PatchOutcome::Applied => model_apply_batch(
                old(db)@,
                prefix_view(prefix),
                batch_views(commands@),
            ) == Ok::<JsonModel, ErrorModel>(final(db)@) && wf(final(db)@) && (forall|i: int|
                0 <= i < final(hub).subs@.len() ==> {
                    let before = (#[trigger] old(hub).subs@[i]);
                    let after = final(hub).subs@[i];
                    let proj = crate::reproject::project_batch(
                        final(db)@,
                        before.path@,
                        prefix_view(prefix),
                        batch_views(commands@),
                    );
                    &&& (before.closed || proj.len() == 0) ==> after == before
                    &&& (!before.closed && proj.len() > 0) ==> after.history@
                        == before.history@.push(proj)
                }),
            PatchOutcome::PreconditionFailed => final(db)@ == old(db)@ && model_apply_batch(
                old(db)@,
                prefix_view(prefix),
                batch_views(commands@),
            ) == Err::<JsonModel, ErrorModel>(ErrorModel::TestFailed),
            PatchOutcome::Rejected(e) => final(db)@ == old(db)@ && model_apply_batch(
                old(db)@,
                prefix_view(prefix),
                batch_views(commands@),
            ) == Err::<JsonModel, ErrorModel>(e@) && !(e@ is TestFailed),
        },
{
    let fanout: Vec<JsonPatch> = clone_batch(&commands);
    match db.patch(prefix, commands) {
        Ok(()) => {
            hub.fan_out(db, prefix, fanout.as_slice());
            PatchOutcome::Applied
        },
        Err(e) => {
            match e {
                MemDbError::TestFailed => PatchOutcome::PreconditionFailed,
                other => PatchOutcome::Rejected(other),
            }
        },
    }
}

/// Copies a batch so the applied operations can still be projected after
/// the engine consumed them.
fn clone_batch(commands: &Vec<JsonPatch>) -> (r: Vec<JsonPatch>)
    ensures
        batch_views(r@) == batch_views(commands@),
        r@.len() == commands@.len(),
        forall|i: int| 0 <= i < r@.len() ==> (#[trigger] r@[i])@ == commands@[i]@,
{
    proof {
        crate::engine::lemma_batch_views(commands@);
    }
    let mut out: Vec<JsonPatch> = Vec::new();
    let n = commands.len();
    proof {
        crate::engine::lemma_batch_views(out@);
    }
    for i in 0..n
        invariant
            n == commands@.len(),
            out@.len() == i,
            forall|k: int| 0 <= k < i ==> (#[trigger] out@[k])@ == commands@[k]@,
    {
        let c = clone_patch(&commands[i]);
        out.push(c);
    }
    proof {
        crate::engine::lemma_batch_views(commands@);
        crate::engine::lemma_batch_views(out@);
        assert forall|k: int| 0 <= k < out@.len() implies batch_views(out@)[k] == batch_views(
            commands@,
        )[k] by {
            assert(batch_views(out@)[k] == out@[k]@);
            assert(batch_views(commands@)[k] == commands@[k]@);
        }
        assert(batch_views(out@) =~= batch_views(commands@));
    }
    out
}

/// Copies one operation; the model is unchanged.
fn clone_patch(p: &JsonPatch) -> (r: JsonPatch)
    ensures
        r@ == p@,
{
    match p {
        JsonPatch::Add { path, value } => JsonPatch::Add {
            path: path.as_ref().to_owned(),
            value: crate::value::deep_clone(value),
        },
        JsonPatch::Remove { path } => JsonPatch::Remove { path: path.as_ref().to_owned() },
        JsonPatch::Replace { path, value } => JsonPatch::Replace {
            path: path.as_ref().to_owned(),
            value: crate::value::deep_clone(value),
        },
        JsonPatch::Move { from, path } => JsonPatch::Move {
            from: from.as_ref().to_owned(),
            path: path.as_ref().to_owned(),
        },
        JsonPatch::Copy { from, path } => JsonPatch::Copy {
            from: from.as_ref().to_owned(),
            path: path.as_ref().to_owned(),
        },
        JsonPatch::Test { path, value } => JsonPatch::Test {
            path: path.as_ref().to_owned(),
            value: crate::value::deep_clone(value),
        },
    }
}

} // verus!
