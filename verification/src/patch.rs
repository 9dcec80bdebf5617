//! Patch operations, their errors, and the model-level semantics of
//! applying a batch.

use vstd::prelude::*;

use crate::model::JsonModel;
use crate::model::obj_get;
use crate::model::obj_set;
use crate::model::obj_del;
use crate::model::seg_index;
use crate::model::model_lookup;
use crate::model::model_replace;
use crate::model::wf;
use crate::pointer::JsonPointer;
use crate::value::Json;

verus! {

/// One patch operation, as received on the wire.
#[derive(PartialEq, Debug)]
pub enum JsonPatch {
    Add { path: JsonPointer, value: Json },
    Remove { path: JsonPointer },
    Replace { path: JsonPointer, value: Json },
    Move { from: JsonPointer, path: JsonPointer },
    Copy { from: JsonPointer, path: JsonPointer },
    Test { path: JsonPointer, value: Json },
}

/// The model of a patch operation.
pub enum PatchModel {
    Add { path: Seq<Seq<char>>, value: JsonModel },
    Remove { path: Seq<Seq<char>> },
    Replace { path: Seq<Seq<char>>, value: JsonModel },
    Move { from: Seq<Seq<char>>, path: Seq<Seq<char>> },
    Copy { from: Seq<Seq<char>>, path: Seq<Seq<char>> },
    Test { path: Seq<Seq<char>>, value: JsonModel },
}

impl View for JsonPatch {
    type V = PatchModel;

    open spec fn view(&self) -> PatchModel {
        match *self {
            JsonPatch::Add { path, value } => PatchModel::Add { path: path@, value: value@ },
            JsonPatch::Remove { path } => PatchModel::Remove { path: path@ },
            JsonPatch::Replace { path, value } => PatchModel::Replace {
                path: path@,
                value: value@,
            },
            JsonPatch::Move { from, path } => PatchModel::Move { from: from@, path: path@ },
            JsonPatch::Copy { from, path } => PatchModel::Copy { from: from@, path: path@ },
            JsonPatch::Test { path, value } => PatchModel::Test { path: path@, value: value@ },
        }
    }
}

/// The values an operation carries are well formed.
pub open spec fn patch_wf(p: PatchModel) -> bool {
    match p {
        PatchModel::Add { value, .. } => wf(value),
        PatchModel::Replace { value, .. } => wf(value),
        PatchModel::Test { value, .. } => wf(value),
        _ => true,
    }
}

/// The operation with its paths put under `prefix`.
pub open spec fn prefixed(prefix: Seq<Seq<char>>, p: PatchModel) -> PatchModel {
    match p {
        PatchModel::Add { path, value } => PatchModel::Add { path: prefix + path, value },
        PatchModel::Remove { path } => PatchModel::Remove { path: prefix + path },
        PatchModel::Replace { path, value } => PatchModel::Replace { path: prefix + path, value },
        PatchModel::Move { from, path } => PatchModel::Move {
            from: prefix + from,
            path: prefix + path,
        },
        PatchModel::Copy { from, path } => PatchModel::Copy {
            from: prefix + from,
            path: prefix + path,
        },
        PatchModel::Test { path, value } => PatchModel::Test { path: prefix + path, value },
    }
}

/// The composed paths of an operation fit the machine's index range.
pub open spec fn op_len_ok(prefix: Seq<Seq<char>>, p: PatchModel) -> bool {
    match p {
        PatchModel::Add { path, .. } => prefix.len() + path.len() <= usize::MAX,
        PatchModel::Remove { path } => prefix.len() + path.len() <= usize::MAX,
        PatchModel::Replace { path, .. } => prefix.len() + path.len() <= usize::MAX,
        PatchModel::Move { from, path } => prefix.len() + from.len() <= usize::MAX && prefix.len()
            + path.len() <= usize::MAX,
        PatchModel::Copy { from, path } => prefix.len() + from.len() <= usize::MAX && prefix.len()
            + path.len() <= usize::MAX,
        PatchModel::Test { path, .. } => prefix.len() + path.len() <= usize::MAX,
    }
}

/// Why an operation failed, before the blamed path is attached.
#[derive(PartialEq, Eq, Structural, Clone, Copy, Debug)]
pub enum EditKind {
    ParentMissing,
    KeyMissing,
    BadIndex,
    NotContainer,
}

/// An engine error, with the path it blames.
#[derive(PartialEq, Debug)]
pub enum MemDbError {
    PathNotFound { path: JsonPointer },
    InvalidIndex { path: JsonPointer, index: String },
    NotAContainer { path: JsonPointer },
    EmptyPath,
    TestFailed,
}

/// The model of an engine error.
pub enum ErrorModel {
    PathNotFound(Seq<Seq<char>>),
    InvalidIndex(Seq<Seq<char>>, Seq<char>),
    NotAContainer(Seq<Seq<char>>),
    EmptyPath,
    TestFailed,
}

impl View for MemDbError {
    type V = ErrorModel;

    open spec fn view(&self) -> ErrorModel {
        match *self {
            MemDbError::PathNotFound { path } => ErrorModel::PathNotFound(path@),
            MemDbError::InvalidIndex { path, index } => ErrorModel::InvalidIndex(path@, index@),
            MemDbError::NotAContainer { path } => ErrorModel::NotAContainer(path@),
            MemDbError::EmptyPath => ErrorModel::EmptyPath,
            MemDbError::TestFailed => ErrorModel::TestFailed,
        }
    }
}

/// Inserts `v` at `path`: on objects it creates or overwrites the key, on
/// arrays it inserts at an index in `[0, len]` or appends on `-`; the empty
/// path replaces the root.
pub open spec fn model_add(m: JsonModel, path: Seq<Seq<char>>, v: JsonModel) -> Result<
    JsonModel,
    EditKind,
>
    decreases path.len(),
{
    if path.len() == 0 {
        Ok(v)
    } else if path.len() == 1 {
        match m {
            JsonModel::Obj(es) => Ok(JsonModel::Obj(obj_set(es, path[0], v))),
            JsonModel::Arr(s) => if path[0] == seq!['-'] {
                Ok(JsonModel::Arr(s.push(v)))
            } else {
                match seg_index(path[0]) {
                    Some(i) => if 0 <= i <= s.len() {
                        Ok(JsonModel::Arr(s.insert(i, v)))
                    } else {
                        Err(EditKind::BadIndex)
                    },
                    None => Err(EditKind::BadIndex),
                }
            },
            _ => Err(EditKind::NotContainer),
        }
    } else {
        match m {
            JsonModel::Obj(es) => match obj_get(es, path[0]) {
                Some(c) => match model_add(c, path.skip(1), v) {
                    Ok(c2) => Ok(JsonModel::Obj(obj_set(es, path[0], c2))),
                    Err(k) => Err(k),
                },
                None => Err(EditKind::ParentMissing),
            },
            JsonModel::Arr(s) => match seg_index(path[0]) {
                Some(i) => if 0 <= i < s.len() {
                    match model_add(s[i], path.skip(1), v) {
                        Ok(c2) => Ok(JsonModel::Arr(s.update(i, c2))),
                        Err(k) => Err(k),
                    }
                } else {
                    Err(EditKind::ParentMissing)
                },
                None => Err(EditKind::ParentMissing),
            },
            _ => Err(EditKind::ParentMissing),
        }
    }
}

/// Removes the value at a non-empty `path`, yielding the new document and
/// the removed value.
pub open spec fn model_remove(m: JsonModel, path: Seq<Seq<char>>) -> Result<
    (JsonModel, JsonModel),
    EditKind,
>
    decreases path.len(),
{
    if path.len() <= 1 {
        match m {
            JsonModel::Obj(es) => match obj_get(es, path[0]) {
                Some(v) => Ok((JsonModel::Obj(obj_del(es, path[0])), v)),
                None => Err(EditKind::KeyMissing),
            },
            JsonModel::Arr(s) => match seg_index(path[0]) {
                Some(i) => if 0 <= i < s.len() {
                    Ok((JsonModel::Arr(s.remove(i)), s[i]))
                } else {
                    Err(EditKind::BadIndex)
                },
                None => Err(EditKind::BadIndex),
            },
            _ => Err(EditKind::NotContainer),
        }
    } else {
        match m {
            JsonModel::Obj(es) => match obj_get(es, path[0]) {
                Some(c) => match model_remove(c, path.skip(1)) {
                    Ok((c2, v)) => Ok((JsonModel::Obj(obj_set(es, path[0], c2)), v)),
                    Err(k) => Err(k),
                },
                None => Err(EditKind::ParentMissing),
            },
            JsonModel::Arr(s) => match seg_index(path[0]) {
                Some(i) => if 0 <= i < s.len() {
                    match model_remove(s[i], path.skip(1)) {
                        Ok((c2, v)) => Ok((JsonModel::Arr(s.update(i, c2)), v)),
                        Err(k) => Err(k),
                    }
                } else {
                    Err(EditKind::ParentMissing)
                },
                None => Err(EditKind::ParentMissing),
            },
            _ => Err(EditKind::ParentMissing),
        }
    }
}

/// A missing path compares as `null`: the engine's `test` rule.
pub open spec fn model_test_ok(m: JsonModel, path: Seq<Seq<char>>, v: JsonModel) -> bool {
    (match model_lookup(m, path) {
        Some(x) => x,
        None => JsonModel::Null,
    }) == v
}

/// Attaches the blamed path to a failed insert.
pub open spec fn add_err(path: Seq<Seq<char>>, k: EditKind) -> ErrorModel {
    match k {
        EditKind::BadIndex => ErrorModel::InvalidIndex(path.drop_last(), path.last()),
        EditKind::NotContainer => ErrorModel::NotAContainer(path.drop_last()),
        _ => ErrorModel::PathNotFound(path.drop_last()),
    }
}

/// Attaches the blamed path to a failed removal or source read; a missing
/// key blames `blame`, which the operation chooses.
pub open spec fn remove_err(path: Seq<Seq<char>>, blame: Seq<Seq<char>>, k: EditKind) -> ErrorModel {
    match k {
        EditKind::ParentMissing => ErrorModel::PathNotFound(path.drop_last()),
        EditKind::KeyMissing => ErrorModel::PathNotFound(blame),
        EditKind::BadIndex => ErrorModel::InvalidIndex(path.drop_last(), path.last()),
        EditKind::NotContainer => ErrorModel::NotAContainer(path.drop_last()),
    }
}

/// What one operation does to the document: the new document, or the exact
/// error, for every input.
pub open spec fn model_apply_op(m: JsonModel, op: PatchModel) -> Result<JsonModel, ErrorModel> {
    match op {
        PatchModel::Add { path, value } => match model_add(m, path, value) {
            Ok(m2) => Ok(m2),
            Err(k) => Err(add_err(path, k)),
        },
        PatchModel::Remove { path } => if path.len() == 0 {
            Err(ErrorModel::EmptyPath)
        } else {
            match model_remove(m, path) {
                Ok((m2, _)) => Ok(m2),
                Err(k) => Err(remove_err(path, path, k)),
            }
        },
        PatchModel::Replace { path, value } => match model_replace(m, path, value) {
            Some(m2) => Ok(m2),
            None => Err(ErrorModel::PathNotFound(path)),
        },
        PatchModel::Move { from, path } => if from.len() == 0 {
            Err(ErrorModel::EmptyPath)
        } else {
            match model_remove(m, from) {
                Ok((m1, v)) => match model_add(m1, path, v) {
                    Ok(m2) => Ok(m2),
                    Err(k) => Err(add_err(path, k)),
                },
                Err(k) => Err(remove_err(from, path, k)),
            }
        },
        PatchModel::Copy { from, path } => if from.len() == 0 {
            Err(ErrorModel::EmptyPath)
        } else {
            match model_remove(m, from) {
                Ok((_, v)) => match model_add(m, path, v) {
                    Ok(m2) => Ok(m2),
                    Err(k) => Err(add_err(path, k)),
                },
                Err(k) => Err(remove_err(from, path, k)),
            }
        },
        PatchModel::Test { path, value } => if model_test_ok(m, path, value) {
            Ok(m)
        } else {
            Err(ErrorModel::TestFailed)
        },
    }
}

/// A batch applied in order, stopping at the first error.
pub open spec fn model_apply_batch(
    m: JsonModel,
    prefix: Seq<Seq<char>>,
    ops: Seq<PatchModel>,
) -> Result<JsonModel, ErrorModel>
    decreases ops.len(),
{
    if ops.len() == 0 {
        Ok(m)
    } else {
        match model_apply_op(m, prefixed(prefix, ops[0])) {
            Ok(m1) => model_apply_batch(m1, prefix, ops.skip(1)),
            Err(e) => Err(e),
        }
    }
}

} // verus!
