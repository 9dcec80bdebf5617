//! A client-side batch builder: collects operations from pointer strings,
//! holding on to the first bad pointer instead of panicking.

use vstd::prelude::*;

use crate::engine::batch_views;
use crate::parser::parse_json_pointer;
use crate::parser::parse_pointer;
use crate::patch::JsonPatch;
use crate::patch::PatchModel;
use crate::pointer::JsonPointer;
use crate::pointer::ParseJsonPointerError;
use crate::value::Json;

verus! {

/// A batch under construction: the operations so far, or the first
/// pointer error met.
pub struct Batch {
    pub res: Result<Vec<JsonPatch>, ParseJsonPointerError>,
}

/// What the builder holds: the operation models so far, or that it
/// already failed.
pub open spec fn batch_result(b: Batch) -> Result<Seq<PatchModel>, ()> {
    match b.res {
        Ok(v) => Ok(batch_views(v@)),
        Err(_) => Err(()),
    }
}

/// The builder state after one more operation whose pointer strings
/// parsed to `op`, or failed.
pub open spec fn step_result(prev: Result<Seq<PatchModel>, ()>, op: Option<PatchModel>) -> Result<
    Seq<PatchModel>,
    (),
> {
    match prev {
        Ok(s) => match op {
            Some(p) => Ok(s.push(p)),
            None => Err(()),
        },
        Err(x) => Err(x),
    }
}

/// Appends one operation, for the batch-view bookkeeping.
fn append_op(list: Vec<JsonPatch>, p: JsonPatch) -> (r: Vec<JsonPatch>)
    ensures
        batch_views(r@) == batch_views(list@).push(p@),
{
    let ghost pre = list@;
    let mut list = list;
    list.push(p);
    proof {
        crate::engine::lemma_batch_views(pre);
        crate::engine::lemma_batch_views(list@);
        assert(list@ == pre.push(p));
        assert forall|i: int| 0 <= i < batch_views(list@).len() implies batch_views(list@)[i]
            == batch_views(pre).push(p@)[i] by {
            assert(batch_views(list@)[i] == list@[i]@);
            if i < pre.len() {
                assert(list@[i] == pre[i]);
            } else {
                assert(list@[i] == p);
            }
        }
        assert(batch_views(list@) =~= batch_views(pre).push(p@));
    }
    list
}

impl Batch {
    /// An empty batch.
    pub fn new() -> (r: Batch)
        ensures
            batch_result(r) == Ok::<Seq<PatchModel>, ()>(Seq::<PatchModel>::empty()),
    {
        let v: Vec<JsonPatch> = Vec::new();
        proof {
            assert(batch_views(v@) =~= Seq::<PatchModel>::empty());
        }
        Batch { res: Ok(v) }
    }

    /// Adds an `add` operation.
    pub fn add(self, path: &str, value: Json) -> (r: Batch)
        ensures
            batch_result(r) == step_result(
                batch_result(self),
                match parse_pointer(path@) {
                    Some(p) => Some(PatchModel::Add { path: p, value: value@ }),
                    None => None,
                },
            ),
    {
        match self.res {
            Ok(list) => match parse_json_pointer(path) {
                Ok(segs) => Batch {
                    res: Ok(
                        append_op(
                            list,
                            JsonPatch::Add { path: JsonPointer::from_segments(segs), value },
                        ),
                    ),
                },
                Err(e) => Batch { res: Err(e) },
            },
            Err(e) => Batch { res: Err(e) },
        }
    }

    /// Adds a `replace` operation.
    pub fn replace(self, path: &str, value: Json) -> (r: Batch)
        ensures
            batch_result(r) == step_result(
                batch_result(self),
                match parse_pointer(path@) {
                    Some(p) => Some(PatchModel::Replace { path: p, value: value@ }),
                    None => None,
                },
            ),
    {
        match self.res {
            Ok(list) => match parse_json_pointer(path) {
                Ok(segs) => Batch {
                    res: Ok(
                        append_op(
                            list,
                            JsonPatch::Replace { path: JsonPointer::from_segments(segs), value },
                        ),
                    ),
                },
                Err(e) => Batch { res: Err(e) },
            },
            Err(e) => Batch { res: Err(e) },
        }
    }

    /// Adds a `remove` operation.
    pub fn remove(self, path: &str) -> (r: Batch)
        ensures
            batch_result(r) == step_result(
                batch_result(self),
                match parse_pointer(path@) {
                    Some(p) => Some(PatchModel::Remove { path: p }),
                    None => None,
                },
            ),
    {
        match self.res {
            Ok(list) => match parse_json_pointer(path) {
                Ok(segs) => Batch {
                    res: Ok(
                        append_op(list, JsonPatch::Remove { path: JsonPointer::from_segments(segs) }),
                    ),
                },
                Err(e) => Batch { res: Err(e) },
            },
            Err(e) => Batch { res: Err(e) },
        }
    }

    /// Adds a `move` operation.
    pub fn move_to(self, from: &str, path: &str) -> (r: Batch)
        ensures
            batch_result(r) == step_result(
                batch_result(self),
                match (parse_pointer(from@), parse_pointer(path@)) {
                    (Some(f), Some(p)) => Some(PatchModel::Move { from: f, path: p }),
                    _ => None,
                },
            ),
    {
        match self.res {
            Ok(list) => match parse_json_pointer(from) {
                Ok(fsegs) => match parse_json_pointer(path) {
                    Ok(psegs) => Batch {
                        res: Ok(
                            append_op(
                                list,
                                JsonPatch::Move {
                                    from: JsonPointer::from_segments(fsegs),
                                    path: JsonPointer::from_segments(psegs),
                                },
                            ),
                        ),
                    },
                    Err(e) => Batch { res: Err(e) },
                },
                Err(e) => Batch { res: Err(e) },
            },
            Err(e) => Batch { res: Err(e) },
        }
    }

    /// Adds a `copy` operation.
    pub fn copy_to(self, from: &str, path: &str) -> (r: Batch)
        ensures
            batch_result(r) == step_result(
                batch_result(self),
                match (parse_pointer(from@), parse_pointer(path@)) {
                    (Some(f), Some(p)) => Some(PatchModel::Copy { from: f, path: p }),
                    _ => None,
                },
            ),
    {
        match self.res {
            Ok(list) => match parse_json_pointer(from) {
                Ok(fsegs) => match parse_json_pointer(path) {
                    Ok(psegs) => Batch {
                        res: Ok(
                            append_op(
                                list,
                                JsonPatch::Copy {
                                    from: JsonPointer::from_segments(fsegs),
                                    path: JsonPointer::from_segments(psegs),
                                },
                            ),
                        ),
                    },
                    Err(e) => Batch { res: Err(e) },
                },
                Err(e) => Batch { res: Err(e) },
            },
            Err(e) => Batch { res: Err(e) },
        }
    }

    /// Adds a `test` operation.
    pub fn test(self, path: &str, value: Json) -> (r: Batch)
        ensures
            batch_result(r) == step_result(
                batch_result(self),
                match parse_pointer(path@) {
                    Some(p) => Some(PatchModel::Test { path: p, value: value@ }),
                    None => None,
                },
            ),
    {
        match self.res {
            Ok(list) => match parse_json_pointer(path) {
                Ok(segs) => Batch {
                    res: Ok(
                        append_op(
                            list,
                            JsonPatch::Test { path: JsonPointer::from_segments(segs), value },
                        ),
                    ),
                },
                Err(e) => Batch { res: Err(e) },
            },
            Err(e) => Batch { res: Err(e) },
        }
    }
}

} // verus!
