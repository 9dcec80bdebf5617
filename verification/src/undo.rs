//! The model of inverse operations: a container edit at a parent path,
//! applied leniently (a step that no longer resolves leaves the document
//! unchanged), as rollback executes them.

use vstd::prelude::*;

use crate::model::JsonModel;
use crate::model::obj_get;
use crate::model::obj_set;
use crate::model::obj_del;
use crate::model::obj_sorted;
use crate::model::seg_index;
use crate::model::wf;
use crate::model::lemma_obj_get_set;
use crate::model::lemma_obj_set_set;
use crate::model::lemma_obj_set_id;
use crate::model::lemma_obj_set_wf;
use crate::model::lemma_obj_del_wf;
use crate::model::lemma_obj_get_in;
use crate::model::lemma_obj_del_set_fresh;
use crate::model::model_lookup;
use crate::model::model_replace;
use crate::patch::model_add;
use crate::patch::model_remove;

verus! {

/// One container edit.
pub enum BottomModel {
    SetKey(Seq<char>, JsonModel),
    DelKey(Seq<char>),
    SetAt(int, JsonModel),
    InsAt(int, JsonModel),
    DelAt(int),
    Pop,
}

/// The value an edit carries is well formed.
pub open spec fn bottom_wf(e: BottomModel) -> bool {
    match e {
        BottomModel::SetKey(_, v) => wf(v),
        BottomModel::SetAt(_, v) => wf(v),
        BottomModel::InsAt(_, v) => wf(v),
        _ => true,
    }
}

/// Applies an edit to a container; anything that does not fit leaves the
/// value unchanged.
pub open spec fn apply_bottom(m: JsonModel, e: BottomModel) -> JsonModel {
    match m {
        JsonModel::Obj(es) => match e {
            BottomModel::SetKey(k, v) => JsonModel::Obj(obj_set(es, k, v)),
            BottomModel::DelKey(k) => JsonModel::Obj(obj_del(es, k)),
            _ => m,
        },
        JsonModel::Arr(s) => match e {
            BottomModel::SetAt(i, v) => if 0 <= i < s.len() {
                JsonModel::Arr(s.update(i, v))
            } else {
                m
            },
            BottomModel::InsAt(i, v) => if 0 <= i <= s.len() {
                JsonModel::Arr(s.insert(i, v))
            } else {
                m
            },
            BottomModel::DelAt(i) => if 0 <= i < s.len() {
                JsonModel::Arr(s.remove(i))
            } else {
                m
            },
            BottomModel::Pop => if s.len() > 0 {
                JsonModel::Arr(s.drop_last())
            } else {
                m
            },
            _ => m,
        },
        _ => m,
    }
}

/// What the edit pushes out of the container, when anything.
pub open spec fn displaced_bottom(m: JsonModel, e: BottomModel) -> Option<JsonModel> {
    match m {
        JsonModel::Obj(es) => match e {
            BottomModel::SetKey(k, _) => obj_get(es, k),
            BottomModel::DelKey(k) => obj_get(es, k),
            _ => None,
        },
        JsonModel::Arr(s) => match e {
            BottomModel::SetAt(i, _) => if 0 <= i < s.len() {
                Some(s[i])
            } else {
                None
            },
            BottomModel::DelAt(i) => if 0 <= i < s.len() {
                Some(s[i])
            } else {
                None
            },
            BottomModel::Pop => if s.len() > 0 {
                Some(s.last())
            } else {
                None
            },
            _ => None,
        },
        _ => None,
    }
}

/// Applies an edit to the container at `path`; a step that does not
/// resolve leaves the document unchanged.
pub open spec fn apply_at(m: JsonModel, path: Seq<Seq<char>>, e: BottomModel) -> JsonModel
    decreases path.len(),
{
    if path.len() == 0 {
        apply_bottom(m, e)
    } else {
        match m {
            JsonModel::Obj(es) => match obj_get(es, path[0]) {
                Some(c) => JsonModel::Obj(obj_set(es, path[0], apply_at(c, path.skip(1), e))),
                None => m,
            },
            JsonModel::Arr(s) => match seg_index(path[0]) {
                Some(i) => if 0 <= i < s.len() {
                    JsonModel::Arr(s.update(i, apply_at(s[i], path.skip(1), e)))
                } else {
                    m
                },
                None => m,
            },
            _ => m,
        }
    }
}

/// What the edit at `path` pushes out, when the path resolves.
pub open spec fn displaced_at(m: JsonModel, path: Seq<Seq<char>>, e: BottomModel) -> Option<
    JsonModel,
>
    decreases path.len(),
{
    if path.len() == 0 {
        displaced_bottom(m, e)
    } else {
        match m {
            JsonModel::Obj(es) => match obj_get(es, path[0]) {
                Some(c) => displaced_at(c, path.skip(1), e),
                None => None,
            },
            JsonModel::Arr(s) => match seg_index(path[0]) {
                Some(i) => if 0 <= i < s.len() {
                    displaced_at(s[i], path.skip(1), e)
                } else {
                    None
                },
                None => None,
            },
            _ => None,
        }
    }
}

/// Where a moved value came out of its parent container.
pub enum SpotModel {
    ObjKey(Seq<char>),
    ArrIdx(int),
}

/// The edit that puts a value back at a spot.
pub open spec fn spot_ins(s: SpotModel, v: JsonModel) -> BottomModel {
    match s {
        SpotModel::ObjKey(k) => BottomModel::SetKey(k, v),
        SpotModel::ArrIdx(i) => BottomModel::InsAt(i, v),
    }
}

/// One recorded inverse.
pub enum UndoModel {
    /// Put this value back as the root.
    RootPrev(JsonModel),
    /// One container edit at a parent path.
    Edit(Seq<Seq<char>>, BottomModel),
    /// Take the moved value back out of its target and return it to its
    /// source spot.
    MoveBack {
        tpath: Seq<Seq<char>>,
        tbottom: BottomModel,
        spath: Seq<Seq<char>>,
        sspot: SpotModel,
    },
    /// The document itself was the moved value: restore the previous root
    /// and return the document to its source spot.
    MoveRootBack { prev: JsonModel, spath: Seq<Seq<char>>, sspot: SpotModel },
}

/// The values an inverse carries are well formed.
pub open spec fn undo_wf(u: UndoModel) -> bool {
    match u {
        UndoModel::RootPrev(p) => wf(p),
        UndoModel::Edit(_, e) => bottom_wf(e),
        UndoModel::MoveBack { tbottom, .. } => bottom_wf(tbottom),
        UndoModel::MoveRootBack { prev, .. } => wf(prev),
    }
}

/// Executing one inverse on a document.
pub open spec fn undo_apply(u: UndoModel, m: JsonModel) -> JsonModel {
    match u {
        UndoModel::RootPrev(p) => p,
        UndoModel::Edit(path, e) => apply_at(m, path, e),
        UndoModel::MoveBack { tpath, tbottom, spath, sspot } => {
            let m1 = apply_at(m, tpath, tbottom);
            match displaced_at(m, tpath, tbottom) {
                Some(v) => apply_at(m1, spath, spot_ins(sspot, v)),
                None => m1,
            }
        },
        UndoModel::MoveRootBack { prev, spath, sspot } => apply_at(
            prev,
            spath,
            spot_ins(sspot, m),
        ),
    }
}

/// Executing a stack of inverses, newest first.
pub open spec fn rollback_model(us: Seq<UndoModel>, m: JsonModel) -> JsonModel
    decreases us.len(),
{
    if us.len() == 0 {
        m
    } else {
        rollback_model(us.drop_last(), undo_apply(us.last(), m))
    }
}

/// An edit keeps the document well formed.
pub proof fn lemma_apply_at_wf(m: JsonModel, path: Seq<Seq<char>>, e: BottomModel)
    requires
        wf(m),
        bottom_wf(e),
    ensures
        wf(apply_at(m, path, e)),
    decreases path.len(),
{
    if path.len() == 0 {
        match m {
            JsonModel::Obj(es) => match e {
                BottomModel::SetKey(k, v) => {
                    lemma_obj_set_wf(es, k, v);
                },
                BottomModel::DelKey(k) => {
                    lemma_obj_del_wf(es, k);
                },
                _ => {},
            },
            JsonModel::Arr(s) => match e {
                BottomModel::SetAt(i, v) => {
                    if 0 <= i < s.len() {
                        let s2 = s.update(i, v);
                        assert(forall|j: int| 0 <= j < s2.len() ==> wf(#[trigger] s2[j]));
                    }
                },
                BottomModel::InsAt(i, v) => {
                    if 0 <= i <= s.len() {
                        let s2 = s.insert(i, v);
                        assert forall|j: int| 0 <= j < s2.len() implies wf(#[trigger] s2[j]) by {
                            if j < i {
                                assert(s2[j] == s[j]);
                            } else if j == i {
                                assert(s2[j] == v);
                            } else {
                                assert(s2[j] == s[j - 1]);
                            }
                        }
                    }
                },
                BottomModel::DelAt(i) => {
                    if 0 <= i < s.len() {
                        let s2 = s.remove(i);
                        assert forall|j: int| 0 <= j < s2.len() implies wf(#[trigger] s2[j]) by {
                            if j < i {
                                assert(s2[j] == s[j]);
                            } else {
                                assert(s2[j] == s[j + 1]);
                            }
                        }
                    }
                },
                BottomModel::Pop => {
                    if s.len() > 0 {
                        let s2 = s.drop_last();
                        assert(forall|j: int| 0 <= j < s2.len() ==> wf(#[trigger] s2[j]));
                    }
                },
                _ => {},
            },
            _ => {},
        }
    } else {
        match m {
            JsonModel::Obj(es) => match obj_get(es, path[0]) {
                Some(c) => {
                    lemma_obj_get_in(es, path[0]);
                    lemma_apply_at_wf(c, path.skip(1), e);
                    lemma_obj_set_wf(es, path[0], apply_at(c, path.skip(1), e));
                },
                None => {},
            },
            JsonModel::Arr(s) => match seg_index(path[0]) {
                Some(i) => {
                    if 0 <= i < s.len() {
                        lemma_apply_at_wf(s[i], path.skip(1), e);
                        let s2 = s.update(i, apply_at(s[i], path.skip(1), e));
                        assert(forall|j: int| 0 <= j < s2.len() ==> wf(#[trigger] s2[j]));
                    }
                },
                None => {},
            },
            _ => {},
        }
    }
}

/// The edit that inverts an insert at a non-empty `path` on document `m`.
pub open spec fn add_undo_bottom(m: JsonModel, path: Seq<Seq<char>>) -> BottomModel {
    let k = path.last();
    match model_lookup(m, path.drop_last()) {
        Some(JsonModel::Obj(es)) => match obj_get(es, k) {
            Some(prev) => BottomModel::SetKey(k, prev),
            None => BottomModel::DelKey(k),
        },
        Some(JsonModel::Arr(s)) => if k == seq!['-'] {
            BottomModel::Pop
        } else {
            match seg_index(k) {
                Some(i) => BottomModel::DelAt(i),
                None => BottomModel::Pop,
            }
        },
        _ => BottomModel::Pop,
    }
}

/// The spot a removal at a non-empty `path` takes its value from.
pub open spec fn remove_spot(m: JsonModel, path: Seq<Seq<char>>) -> SpotModel {
    let k = path.last();
    match model_lookup(m, path.drop_last()) {
        Some(JsonModel::Arr(s)) => match seg_index(k) {
            Some(i) => SpotModel::ArrIdx(i),
            None => SpotModel::ObjKey(k),
        },
        _ => SpotModel::ObjKey(k),
    }
}

/// The edit that inverts a value replacement at a non-empty `path`.
pub open spec fn replace_undo_bottom(m: JsonModel, path: Seq<Seq<char>>) -> BottomModel {
    let k = path.last();
    let prev = match model_lookup(m, path) {
        Some(p) => p,
        None => JsonModel::Null,
    };
    match model_lookup(m, path.drop_last()) {
        Some(JsonModel::Arr(s)) => match seg_index(k) {
            Some(i) => BottomModel::SetAt(i, prev),
            None => BottomModel::SetKey(k, prev),
        },
        _ => BottomModel::SetKey(k, prev),
    }
}

/// An insert at a non-empty path is undone exactly by its recorded edit,
/// and that edit finds the inserted value in place.
pub proof fn lemma_add_roundtrip(m: JsonModel, path: Seq<Seq<char>>, v: JsonModel)
    requires
        wf(m),
        wf(v),
        path.len() > 0,
        model_add(m, path, v) is Ok,
    ensures
        wf(model_add(m, path, v).unwrap()),
        apply_at(model_add(m, path, v).unwrap(), path.drop_last(), add_undo_bottom(m, path)) == m,
        displaced_at(model_add(m, path, v).unwrap(), path.drop_last(), add_undo_bottom(m, path))
            == Some(v),
        bottom_wf(add_undo_bottom(m, path)),
    decreases path.len(),
{
    let m2 = model_add(m, path, v).unwrap();
    let pp = path.drop_last();
    let k = path.last();
    if path.len() == 1 {
        assert(model_lookup(m, pp) == Some(m)) by {
            assert(pp =~= Seq::<Seq<char>>::empty());
        }
        match m {
            JsonModel::Obj(es) => {
                assert(path[0] == k);
                lemma_obj_set_wf(es, k, v);
                match obj_get(es, k) {
                    Some(prev) => {
                        lemma_obj_get_in(es, k);
                        lemma_obj_set_set(es, k, v, prev);
                        lemma_obj_set_id(es, k, prev);
                        lemma_obj_get_set(es, k, v, k);
                    },
                    None => {
                        crate::model::lemma_obj_del_set_fresh(es, k, v);
                        lemma_obj_get_set(es, k, v, k);
                    },
                }
            },
            JsonModel::Arr(s) => {
                assert(path[0] == k);
                if k == seq!['-'] {
                    assert(s.push(v).drop_last() =~= s);
                    assert(s.push(v).last() == v);
                    assert(forall|j: int| 0 <= j < s.push(v).len() ==> wf(#[trigger] s.push(v)[j]));
                } else {
                    let i = seg_index(k).unwrap();
                    let s2 = s.insert(i, v);
                    assert forall|j: int| 0 <= j < s2.len() implies wf(#[trigger] s2[j]) by {
                        if j < i {
                            assert(s2[j] == s[j]);
                        } else if j == i {
                            assert(s2[j] == v);
                        } else {
                            assert(s2[j] == s[j - 1]);
                        }
                    }
                    assert(s2[i] == v);
                    assert(s2.remove(i) =~= s) by {
                        assert forall|j: int| 0 <= j < s.len() implies s2.remove(i)[j] == s[j] by {
                            if j < i {
                                assert(s2.remove(i)[j] == s2[j]);
                            } else {
                                assert(s2.remove(i)[j] == s2[j + 1]);
                            }
                        }
                    }
                }
            },
            _ => {},
        }
    } else {
        assert(pp[0] == path[0]);
        assert(pp.skip(1) =~= path.skip(1).drop_last());
        assert(path.skip(1).last() == k);
        match m {
            JsonModel::Obj(es) => {
                let c = obj_get(es, path[0]).unwrap();
                lemma_obj_get_in(es, path[0]);
                lemma_add_roundtrip(c, path.skip(1), v);
                let c2 = model_add(c, path.skip(1), v).unwrap();
                lemma_obj_set_wf(es, path[0], c2);
                assert(add_undo_bottom(m, path) == add_undo_bottom(c, path.skip(1)));
                lemma_descend_obj(es, path[0], c, c2, pp, add_undo_bottom(m, path));
            },
            JsonModel::Arr(s) => {
                let i = seg_index(path[0]).unwrap();
                lemma_add_roundtrip(s[i], path.skip(1), v);
                let c2 = model_add(s[i], path.skip(1), v).unwrap();
                let s2 = s.update(i, c2);
                assert(forall|j: int| 0 <= j < s2.len() ==> wf(#[trigger] s2[j]));
                assert(add_undo_bottom(m, path) == add_undo_bottom(s[i], path.skip(1)));
                lemma_descend_arr(s, i, c2, pp, add_undo_bottom(m, path));
            },
            _ => {},
        }
    }
}

/// A removal at a non-empty path is undone exactly by returning the
/// removed value to its spot.
pub proof fn lemma_remove_roundtrip(m: JsonModel, path: Seq<Seq<char>>)
    requires
        wf(m),
        path.len() > 0,
        model_remove(m, path) is Ok,
    ensures
        wf(model_remove(m, path).unwrap().0),
        wf(model_remove(m, path).unwrap().1),
        apply_at(
            model_remove(m, path).unwrap().0,
            path.drop_last(),
            spot_ins(remove_spot(m, path), model_remove(m, path).unwrap().1),
        ) == m,
    decreases path.len(),
{
    let m1 = model_remove(m, path).unwrap().0;
    let v = model_remove(m, path).unwrap().1;
    let pp = path.drop_last();
    let k = path.last();
    if path.len() == 1 {
        assert(model_lookup(m, pp) == Some(m)) by {
            assert(pp =~= Seq::<Seq<char>>::empty());
        }
        match m {
            JsonModel::Obj(es) => {
                assert(path[0] == k);
                lemma_obj_get_in(es, k);
                lemma_obj_del_wf(es, k);
                crate::model::lemma_obj_set_del(es, k, v);
            },
            JsonModel::Arr(s) => {
                assert(path[0] == k);
                let i = seg_index(k).unwrap();
                let s1 = s.remove(i);
                assert forall|j: int| 0 <= j < s1.len() implies wf(#[trigger] s1[j]) by {
                    if j < i {
                        assert(s1[j] == s[j]);
                    } else {
                        assert(s1[j] == s[j + 1]);
                    }
                }
                assert(s1.insert(i, v) =~= s) by {
                    assert forall|j: int| 0 <= j < s.len() implies s1.insert(i, v)[j] == s[j] by {
                        if j < i {
                            assert(s1.insert(i, v)[j] == s1[j]);
                            assert(s1[j] == s[j]);
                        } else if j == i {
                            assert(s1.insert(i, v)[j] == v);
                        } else {
                            assert(s1.insert(i, v)[j] == s1[j - 1]);
                            assert(s1[j - 1] == s[j]);
                        }
                    }
                }
            },
            _ => {},
        }
    } else {
        assert(pp[0] == path[0]);
        assert(pp.skip(1) =~= path.skip(1).drop_last());
        assert(path.skip(1).last() == k);
        match m {
            JsonModel::Obj(es) => {
                let c = obj_get(es, path[0]).unwrap();
                lemma_obj_get_in(es, path[0]);
                lemma_remove_roundtrip(c, path.skip(1));
                let c1 = model_remove(c, path.skip(1)).unwrap().0;
                lemma_obj_set_wf(es, path[0], c1);
                assert(remove_spot(m, path) == remove_spot(c, path.skip(1)));
                lemma_descend_obj(es, path[0], c, c1, pp, spot_ins(remove_spot(m, path), v));
            },
            JsonModel::Arr(s) => {
                let i = seg_index(path[0]).unwrap();
                lemma_remove_roundtrip(s[i], path.skip(1));
                let c1 = model_remove(s[i], path.skip(1)).unwrap().0;
                let s2 = s.update(i, c1);
                assert(forall|j: int| 0 <= j < s2.len() ==> wf(#[trigger] s2[j]));
                assert(remove_spot(m, path) == remove_spot(s[i], path.skip(1)));
                lemma_descend_arr(s, i, c1, pp, spot_ins(remove_spot(m, path), v));
            },
            _ => {},
        }
    }
}

/// A replacement at a non-empty path is undone exactly by writing the
/// previous value back.
pub proof fn lemma_replace_roundtrip(m: JsonModel, path: Seq<Seq<char>>, x: JsonModel)
    requires
        wf(m),
        wf(x),
        path.len() > 0,
        model_replace(m, path, x) is Some,
    ensures
        wf(model_replace(m, path, x).unwrap()),
        apply_at(model_replace(m, path, x).unwrap(), path.drop_last(), replace_undo_bottom(m, path))
            == m,
    decreases path.len(),
{
    crate::model::lemma_replace_wf(m, path, x);
    let m2 = model_replace(m, path, x).unwrap();
    let pp = path.drop_last();
    let k = path.last();
    if path.len() == 1 {
        assert(model_lookup(m, pp) == Some(m)) by {
            assert(pp =~= Seq::<Seq<char>>::empty());
        }
        assert(path.skip(1) =~= Seq::<Seq<char>>::empty());
        match m {
            JsonModel::Obj(es) => {
                assert(path[0] == k);
                let prev = obj_get(es, k).unwrap();
                assert(model_lookup(m, path) == Some(prev));
                lemma_obj_get_in(es, k);
                lemma_obj_set_set(es, k, x, prev);
                lemma_obj_set_id(es, k, prev);
            },
            JsonModel::Arr(s) => {
                assert(path[0] == k);
                let i = seg_index(k).unwrap();
                assert(model_lookup(m, path) == Some(s[i]));
                assert(s.update(i, x).update(i, s[i]) =~= s);
            },
            _ => {},
        }
    } else {
        assert(pp[0] == path[0]);
        assert(pp.skip(1) =~= path.skip(1).drop_last());
        assert(path.skip(1).last() == k);
        assert(path.skip(1).len() > 0);
        match m {
            JsonModel::Obj(es) => {
                let c = obj_get(es, path[0]).unwrap();
                lemma_obj_get_in(es, path[0]);
                lemma_replace_roundtrip(c, path.skip(1), x);
                let c2 = model_replace(c, path.skip(1), x).unwrap();
                assert(replace_undo_bottom(m, path) == replace_undo_bottom(c, path.skip(1)));
                lemma_descend_obj(es, path[0], c, c2, pp, replace_undo_bottom(m, path));
            },
            JsonModel::Arr(s) => {
                let i = seg_index(path[0]).unwrap();
                lemma_replace_roundtrip(s[i], path.skip(1), x);
                let c2 = model_replace(s[i], path.skip(1), x).unwrap();
                assert(replace_undo_bottom(m, path) == replace_undo_bottom(s[i], path.skip(1)));
                lemma_descend_arr(s, i, c2, pp, replace_undo_bottom(m, path));
            },
            _ => {},
        }
    }
}

/// After an insert whose last segment is not the append sentinel, the
/// path holds the inserted value.
pub proof fn lemma_lookup_after_add(m: JsonModel, path: Seq<Seq<char>>, v: JsonModel)
    requires
        wf(m),
        model_add(m, path, v) is Ok,
        path.len() == 0 || path.last() != seq!['-'],
    ensures
        model_lookup(model_add(m, path, v)->Ok_0, path) == Some(v),
    decreases path.len(),
{
    let m2 = model_add(m, path, v)->Ok_0;
    if path.len() == 0 {
    } else if path.len() == 1 {
        proof_lookup_singleton_facts(path);
        match m {
            JsonModel::Obj(es) => {
                lemma_obj_get_set(es, path[0], v, path[0]);
                assert(model_lookup(v, path.skip(1)) == Some(v));
            },
            JsonModel::Arr(s) => {
                let i = seg_index(path[0])->Some_0;
                assert(s.insert(i, v)[i] == v);
                assert(model_lookup(v, path.skip(1)) == Some(v));
            },
            _ => {},
        }
    } else {
        match m {
            JsonModel::Obj(es) => {
                let c = obj_get(es, path[0])->Some_0;
                lemma_obj_get_in(es, path[0]);
                assert(path.skip(1).last() == path.last());
                lemma_lookup_after_add(c, path.skip(1), v);
                let c2 = model_add(c, path.skip(1), v)->Ok_0;
                lemma_obj_get_set(es, path[0], c2, path[0]);
            },
            JsonModel::Arr(s) => {
                let i = seg_index(path[0])->Some_0;
                assert(path.skip(1).last() == path.last());
                lemma_lookup_after_add(s[i], path.skip(1), v);
                assert(s.update(i, model_add(s[i], path.skip(1), v)->Ok_0)[i] == model_add(
                    s[i],
                    path.skip(1),
                    v,
                )->Ok_0);
            },
            _ => {},
        }
    }
}

/// The tail of a one-segment path is empty.
proof fn proof_lookup_singleton_facts(path: Seq<Seq<char>>)
    requires
        path.len() == 1,
    ensures
        path.skip(1) == Seq::<Seq<char>>::empty(),
        path[0] == path.last(),
{
    assert(path.skip(1) =~= Seq::<Seq<char>>::empty());
}

/// A value found inside a well-formed document is well formed.
pub proof fn lemma_lookup_wf(m: JsonModel, path: Seq<Seq<char>>)
    requires
        wf(m),
        model_lookup(m, path) is Some,
    ensures
        wf(model_lookup(m, path).unwrap()),
    decreases path.len(),
{
    if path.len() > 0 {
        match m {
            JsonModel::Obj(es) => {
                lemma_obj_get_in(es, path[0]);
                lemma_lookup_wf(obj_get(es, path[0]).unwrap(), path.skip(1));
            },
            JsonModel::Arr(s) => {
                let i = seg_index(path[0]).unwrap();
                lemma_lookup_wf(s[i], path.skip(1));
            },
            _ => {},
        }
    }
}

/// What an edit pushes out of a well-formed document is well formed.
pub proof fn lemma_displaced_wf(m: JsonModel, path: Seq<Seq<char>>, e: BottomModel)
    requires
        wf(m),
        displaced_at(m, path, e) is Some,
    ensures
        wf(displaced_at(m, path, e).unwrap()),
    decreases path.len(),
{
    if path.len() == 0 {
        match m {
            JsonModel::Obj(es) => match e {
                BottomModel::SetKey(k, _) => {
                    lemma_obj_get_in(es, k);
                },
                BottomModel::DelKey(k) => {
                    lemma_obj_get_in(es, k);
                },
                _ => {},
            },
            _ => {},
        }
    } else {
        match m {
            JsonModel::Obj(es) => {
                lemma_obj_get_in(es, path[0]);
                lemma_displaced_wf(obj_get(es, path[0]).unwrap(), path.skip(1), e);
            },
            JsonModel::Arr(s) => {
                let i = seg_index(path[0]).unwrap();
                lemma_displaced_wf(s[i], path.skip(1), e);
            },
            _ => {},
        }
    }
}

/// Executing an inverse keeps the document well formed.
pub proof fn lemma_undo_apply_wf(u: UndoModel, m: JsonModel)
    requires
        wf(m),
        undo_wf(u),
    ensures
        wf(undo_apply(u, m)),
{
    match u {
        UndoModel::RootPrev(_) => {},
        UndoModel::Edit(path, e) => {
            lemma_apply_at_wf(m, path, e);
        },
        UndoModel::MoveBack { tpath, tbottom, spath, sspot } => {
            lemma_apply_at_wf(m, tpath, tbottom);
            let m1 = apply_at(m, tpath, tbottom);
            match displaced_at(m, tpath, tbottom) {
                Some(v) => {
                    lemma_displaced_wf(m, tpath, tbottom);
                    lemma_apply_at_wf(m1, spath, spot_ins(sspot, v));
                },
                None => {},
            }
        },
        UndoModel::MoveRootBack { prev, spath, sspot } => {
            lemma_apply_at_wf(prev, spath, spot_ins(sspot, m));
        },
    }
}

/// The inverse the engine records for one successful operation; `None`
/// for `test`, which changes nothing.
pub open spec fn op_undo(m: JsonModel, op: crate::patch::PatchModel) -> Option<UndoModel> {
    match op {
        crate::patch::PatchModel::Add { path, value } => Some(
            if path.len() == 0 {
                UndoModel::RootPrev(m)
            } else {
                UndoModel::Edit(path.drop_last(), add_undo_bottom(m, path))
            },
        ),
        crate::patch::PatchModel::Remove { path } => Some(
            UndoModel::Edit(
                path.drop_last(),
                spot_ins(remove_spot(m, path), model_remove(m, path).unwrap().1),
            ),
        ),
        crate::patch::PatchModel::Replace { path, value } => Some(
            if path.len() == 0 {
                UndoModel::RootPrev(m)
            } else {
                UndoModel::Edit(path.drop_last(), replace_undo_bottom(m, path))
            },
        ),
        crate::patch::PatchModel::Move { from, path } => Some(
            match model_remove(m, from) {
                Ok((m1, v)) => if path.len() == 0 {
                    UndoModel::MoveRootBack {
                        prev: m1,
                        spath: from.drop_last(),
                        sspot: remove_spot(m, from),
                    }
                } else {
                    UndoModel::MoveBack {
                        tpath: path.drop_last(),
                        tbottom: add_undo_bottom(m1, path),
                        spath: from.drop_last(),
                        sspot: remove_spot(m, from),
                    }
                },
                Err(_) => UndoModel::RootPrev(m),
            },
        ),
        crate::patch::PatchModel::Copy { from, path } => Some(
            if path.len() == 0 {
                UndoModel::RootPrev(m)
            } else {
                UndoModel::Edit(path.drop_last(), add_undo_bottom(m, path))
            },
        ),
        crate::patch::PatchModel::Test { .. } => None,
    }
}

/// Inverse correctness: when an operation succeeds, executing the inverse
/// the engine records on the new document yields the original document.
pub proof fn lemma_op_inverse(m: JsonModel, op: crate::patch::PatchModel)
    requires
        wf(m),
        crate::patch::patch_wf(op),
        crate::patch::model_apply_op(m, op) is Ok,
    ensures
        wf(crate::patch::model_apply_op(m, op)->Ok_0),
        match op_undo(m, op) {
            Some(u) => undo_wf(u) && undo_apply(u, crate::patch::model_apply_op(m, op)->Ok_0)
                == m,
            None => crate::patch::model_apply_op(m, op)->Ok_0 == m,
        },
{
    let m2 = crate::patch::model_apply_op(m, op)->Ok_0;
    match op {
        crate::patch::PatchModel::Add { path, value } => {
            if path.len() == 0 {
            } else {
                lemma_add_roundtrip(m, path, value);
            }
            assert(match op_undo(m, op) {
                Some(u) => undo_wf(u) && undo_apply(u, m2) == m,
                None => m2 == m,
            });
        },
        crate::patch::PatchModel::Remove { path } => {
            lemma_remove_roundtrip(m, path);
            assert(match op_undo(m, op) {
                Some(u) => undo_wf(u) && undo_apply(u, m2) == m,
                None => m2 == m,
            });
        },
        crate::patch::PatchModel::Replace { path, value } => {
            if path.len() == 0 {
            } else {
                lemma_replace_roundtrip(m, path, value);
                crate::model::lemma_replace_resolves(m, path, value);
                lemma_lookup_wf(m, path);
            }
            assert(match op_undo(m, op) {
                Some(u) => undo_wf(u) && undo_apply(u, m2) == m,
                None => m2 == m,
            });
        },
        crate::patch::PatchModel::Move { from, path } => {
            lemma_remove_roundtrip(m, from);
            let m1 = model_remove(m, from).unwrap().0;
            let v = model_remove(m, from).unwrap().1;
            if path.len() == 0 {
            } else {
                lemma_add_roundtrip(m1, path, v);
            }
            assert(match op_undo(m, op) {
                Some(u) => undo_wf(u) && undo_apply(u, m2) == m,
                None => m2 == m,
            });
        },
        crate::patch::PatchModel::Copy { from, path } => {
            lemma_remove_roundtrip(m, from);
            let v = model_remove(m, from).unwrap().1;
            if path.len() == 0 {
            } else {
                lemma_add_roundtrip(m, path, v);
            }
            assert(match op_undo(m, op) {
                Some(u) => undo_wf(u) && undo_apply(u, m2) == m,
                None => m2 == m,
            });
        },
        crate::patch::PatchModel::Test { .. } => {},
    }
}

/// Descending through an object on the way back: if the child edit
/// restores the child, the object edit restores the object.
pub proof fn lemma_descend_obj(
    es: Seq<(Seq<char>, JsonModel)>,
    k0: Seq<char>,
    c: JsonModel,
    c2: JsonModel,
    path: Seq<Seq<char>>,
    e: BottomModel,
)
    requires
        obj_sorted(es),
        obj_get(es, k0) == Some(c),
        path.len() > 0,
        path[0] == k0,
        apply_at(c2, path.skip(1), e) == c,
    ensures
        apply_at(JsonModel::Obj(obj_set(es, k0, c2)), path, e) == JsonModel::Obj(es),
        displaced_at(JsonModel::Obj(obj_set(es, k0, c2)), path, e) == displaced_at(
            c2,
            path.skip(1),
            e,
        ),
{
    lemma_obj_get_set(es, k0, c2, k0);
    lemma_obj_set_set(es, k0, c2, c);
    lemma_obj_set_id(es, k0, c);
}

/// Descending through an array on the way back.
pub proof fn lemma_descend_arr(
    s: Seq<JsonModel>,
    i: int,
    c2: JsonModel,
    path: Seq<Seq<char>>,
    e: BottomModel,
)
    requires
        0 <= i < s.len(),
        path.len() > 0,
        seg_index(path[0]) == Some(i),
        apply_at(c2, path.skip(1), e) == s[i],
    ensures
        apply_at(JsonModel::Arr(s.update(i, c2)), path, e) == JsonModel::Arr(s),
        displaced_at(JsonModel::Arr(s.update(i, c2)), path, e) == displaced_at(
            c2,
            path.skip(1),
            e,
        ),
{
    assert(s.update(i, c2)[i] == c2);
    assert(s.update(i, c2).update(i, s[i]) =~= s);
}

} // verus!
