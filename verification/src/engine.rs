//! The document engine: applying patch batches atomically, with an undo
//! stack that rolls the document back on mid-batch failure.

use vstd::prelude::*;
use vstd::pervasive::VecAdditionalExecFns;

use crate::model::JsonModel;
use crate::model::wf;
use crate::model::lemma_obj_set_shape;
use crate::model::lemma_obj_set_insert_shape;
use crate::model::lemma_obj_del_shape;
use crate::model::lemma_obj_del_absent;
use crate::pointer::JsonPointerRef;
use crate::text::lex_lt;
use crate::text::str_lt;
use crate::undo::BottomModel;
use crate::undo::apply_at;
use crate::undo::apply_bottom;
use crate::undo::displaced_at;
use crate::undo::bottom_wf;
use crate::undo::lemma_apply_at_wf;
use crate::undo::SpotModel;
use crate::undo::spot_ins;
use crate::undo::UndoModel;
use crate::undo::undo_apply;
use crate::undo::undo_wf;
use crate::pointer::JsonPointer;
use crate::patch::EditKind;
use crate::patch::model_add;
use crate::patch::model_remove;
use crate::model::model_lookup;
use crate::model::model_replace;
use crate::undo::add_undo_bottom;
use crate::undo::remove_spot;
use crate::undo::replace_undo_bottom;
use crate::value::deep_clone;
use crate::patch::JsonPatch;
use crate::patch::PatchModel;
use crate::patch::MemDbError;
use crate::value::Json;
use crate::value::find_key;
use crate::value::parse_index_str;
use crate::value::view_of;
use crate::value::view_of_entries;
use crate::value::view_of_list;
use crate::value::lemma_view_entries;
use crate::value::lemma_view_list;
use crate::value::lemma_view_entries_update;
use crate::value::lemma_view_entries_insert;
use crate::value::lemma_view_entries_remove;
use crate::value::lemma_view_list_update;
use crate::value::lemma_view_list_insert;
use crate::value::lemma_view_list_remove;
use crate::value::lemma_view_list_drop_last;
use crate::value::lemma_obj_get_at;
use crate::value::lemma_obj_get_absent;

verus! {

/// One executable container edit, as rollback performs it.
pub enum BottomEdit {
    SetKey(String, Json),
    DelKey(String),
    SetAt(usize, Json),
    InsAt(usize, Json),
    DelAt(usize),
    Pop,
}

/// The model of an executable edit.
pub open spec fn bottom_view(e: BottomEdit) -> BottomModel {
    match e {
        BottomEdit::SetKey(k, v) => BottomModel::SetKey(k@, view_of(v)),
        BottomEdit::DelKey(k) => BottomModel::DelKey(k@),
        BottomEdit::SetAt(i, v) => BottomModel::SetAt(i as int, view_of(v)),
        BottomEdit::InsAt(i, v) => BottomModel::InsAt(i as int, view_of(v)),
        BottomEdit::DelAt(i) => BottomModel::DelAt(i as int),
        BottomEdit::Pop => BottomModel::Pop,
    }
}

/// The first position whose key is not below `key`: where a fresh `key`
/// belongs in the sorted entry list.
fn find_insert_pos(entries: &Vec<(String, Json)>, key: &str) -> (pos: usize)
    ensures
        pos <= entries@.len(),
        forall|i: int| 0 <= i < pos ==> lex_lt((#[trigger] entries@[i]).0@, key@),
        pos < entries@.len() ==> !lex_lt(entries@[pos as int].0@, key@),
{
    let mut pos: usize = 0;
    while pos < entries.len()
        invariant
            pos <= entries@.len(),
            forall|i: int| 0 <= i < pos ==> lex_lt((#[trigger] entries@[i]).0@, key@),
        decreases entries@.len() - pos,
    {
        if !str_lt(entries[pos].0.as_str(), key) {
            return pos;
        }
        pos = pos + 1;
    }
    pos
}

/// Applies one edit to the container at the end of `path`, starting from
/// segment `i`; a step that does not resolve leaves the document unchanged.
/// Returns the value the edit displaced, when any.
#[verifier::loop_isolation(false)]
pub fn apply_edit(v: &mut Json, path: JsonPointerRef<'_>, i: usize, e: BottomEdit) -> (d: Option<
    Json,
>)
    requires
        wf(old(v)@),
        bottom_wf(bottom_view(e)),
        i <= path@.len(),
        path@.len() <= usize::MAX,
    ensures
        final(v)@ == apply_at(old(v)@, path@.skip(i as int), bottom_view(e)),
        wf(final(v)@),
        match d {
            Some(x) => displaced_at(old(v)@, path@.skip(i as int), bottom_view(e)) == Some(x@),
            None => displaced_at(old(v)@, path@.skip(i as int), bottom_view(e)) is None,
        },
    decreases path@.len() - i,
{
    proof {
        lemma_apply_at_wf(old(v)@, path@.skip(i as int), bottom_view(e));
    }
    let n = path.len();
    if i == n {
        proof {
            assert(path@.skip(i as int) =~= Seq::<Seq<char>>::empty());
        }
        match v {
            Json::Obj(entries) => {
                proof {
                    lemma_view_entries(entries@);
                }
                let ghost es = view_of_entries(entries@);
                match e {
                    BottomEdit::SetKey(k, val) => {
                        match find_key(entries, k.as_str()) {
                            Some(j) => {
                                proof {
                                    assert forall|i2: int| 0 <= i2 < j implies (#[trigger] es[
                                    i2]).0 != k@ by {
                                        assert(es[i2].0 == entries@[i2].0@);
                                    }
                                    lemma_obj_get_at(es, k@, j as int);
                                    lemma_obj_set_shape(es, k@, view_of(val), j as int);
                                }
                                let ghost pre = entries@;
                                let ghost gk = k;
                                let ghost gv = val;
                                let mut tmp = (k, val);
                                entries.set_and_swap(j, &mut tmp);
                                proof {
                                    assert(entries@ == pre.update(j as int, (gk, gv)));
                                    lemma_view_entries_update(pre, j as int, (gk, gv));
                                }
                                Some(tmp.1)
                            },
                            None => {
                                proof {
                                    assert forall|i2: int|
                                        0 <= i2 < es.len() implies (#[trigger] es[i2]).0 != k@ by {
                                        assert(es[i2].0 == entries@[i2].0@);
                                    }
                                    lemma_obj_get_absent(es, k@);
                                }
                                let pos = find_insert_pos(entries, k.as_str());
                                proof {
                                    assert forall|i2: int| 0 <= i2 < pos implies lex_lt(
                                        (#[trigger] es[i2]).0,
                                        k@,
                                    ) by {
                                        assert(es[i2].0 == entries@[i2].0@);
                                    }
                                    if (pos as int) < es.len() {
                                        assert(es[pos as int].0 == entries@[pos as int].0@);
                                        crate::text::lemma_lex_lt_trichotomy(
                                            es[pos as int].0,
                                            k@,
                                        );
                                    }
                                    lemma_obj_set_insert_shape(es, k@, view_of(val), pos as int);
                                }
                                let ghost gk = k;
                                let ghost gv = val;
                                proof {
                                    lemma_view_entries_insert(entries@, pos as int, (gk, gv));
                                }
                                entries.insert(pos, (k, val));
                                None
                            },
                        }
                    },
                    BottomEdit::DelKey(k) => {
                        match find_key(entries, k.as_str()) {
                            Some(j) => {
                                proof {
                                    assert forall|i2: int| 0 <= i2 < j implies (#[trigger] es[
                                    i2]).0 != k@ by {
                                        assert(es[i2].0 == entries@[i2].0@);
                                    }
                                    lemma_obj_get_at(es, k@, j as int);
                                    lemma_obj_del_shape(es, k@, j as int);
                                    lemma_view_entries_remove(entries@, j as int);
                                }
                                let old_entry = entries.remove(j);
                                Some(old_entry.1)
                            },
                            None => {
                                proof {
                                    assert forall|i2: int|
                                        0 <= i2 < es.len() implies (#[trigger] es[i2]).0 != k@ by {
                                        assert(es[i2].0 == entries@[i2].0@);
                                    }
                                    lemma_obj_get_absent(es, k@);
                                    lemma_obj_del_absent(es, k@);
                                }
                                None
                            },
                        }
                    },
                    _ => {
                        proof {
                            assert(apply_bottom(old(v)@, bottom_view(e)) == old(v)@);
                        }
                        None
                    },
                }
            },
            Json::Arr(items) => {
                proof {
                    lemma_view_list(items@);
                }
                let ghost s = view_of_list(items@);
                match e {
                    BottomEdit::SetAt(idx, val) => {
                        if idx < items.len() {
                            let ghost pre = items@;
                            let mut tmp = val;
                            items.set_and_swap(idx, &mut tmp);
                            proof {
                                lemma_view_list_update(pre, idx as int, items@[idx as int]);
                            }
                            Some(tmp)
                        } else {
                            None
                        }
                    },
                    BottomEdit::InsAt(idx, val) => {
                        if idx <= items.len() {
                            proof {
                                lemma_view_list_insert(items@, idx as int, val);
                            }
                            items.insert(idx, val);
                            None
                        } else {
                            None
                        }
                    },
                    BottomEdit::DelAt(idx) => {
                        if idx < items.len() {
                            proof {
                                lemma_view_list_remove(items@, idx as int);
                            }
                            let x = items.remove(idx);
                            Some(x)
                        } else {
                            None
                        }
                    },
                    BottomEdit::Pop => {
                        if items.len() > 0 {
                            proof {
                                lemma_view_list_drop_last(items@);
                            }
                            let x = items.pop().unwrap();
                            Some(x)
                        } else {
                            None
                        }
                    },
                    _ => {
                        None
                    },
                }
            },
            _ => {
                None
            },
        }
    } else {
        let seg = path.segment(i);
        proof {
            assert(path@.skip(i as int)[0] == path@[i as int]);
            assert(path@.skip(i as int).skip(1) =~= path@.skip(i + 1));
        }
        match v {
            Json::Obj(entries) => {
                proof {
                    lemma_view_entries(entries@);
                }
                let ghost es = view_of_entries(entries@);
                match find_key(entries, seg.as_str()) {
                    Some(j) => {
                        proof {
                            assert forall|i2: int| 0 <= i2 < j implies (#[trigger] es[i2]).0
                                != seg@ by {
                                assert(es[i2].0 == entries@[i2].0@);
                            }
                            assert(es[j as int] == (entries@[j as int].0@, view_of(
                                entries@[j as int].1,
                            )));
                            lemma_obj_get_at(es, seg@, j as int);
                            assert(wf(es[j as int].1));
                        }
                        let ghost pre = entries@;
                        let mut tmp: (String, Json) = (String::new(), Json::Null);
                        entries.set_and_swap(j, &mut tmp);
                        let d = apply_edit(&mut tmp.1, path, i + 1, e);
                        let ghost key_str = tmp.0;
                        let ghost c2 = tmp.1;
                        entries.set_and_swap(j, &mut tmp);
                        proof {
                            assert(entries@ =~= pre.update(j as int, (key_str, c2)));
                            lemma_view_entries_update(pre, j as int, (key_str, c2));
                            lemma_obj_set_shape(es, seg@, view_of(c2), j as int);
                            assert(view_of_entries(entries@) == es.update(
                                j as int,
                                (seg@, view_of(c2)),
                            ));
                        }
                        d
                    },
                    None => {
                        proof {
                            assert forall|i2: int| 0 <= i2 < es.len() implies (#[trigger] es[
                            i2]).0 != seg@ by {
                                assert(es[i2].0 == entries@[i2].0@);
                            }
                            lemma_obj_get_absent(es, seg@);
                        }
                        None
                    },
                }
            },
            Json::Arr(items) => {
                proof {
                    lemma_view_list(items@);
                }
                let ghost s = view_of_list(items@);
                match parse_index_str(seg.as_str()) {
                    Some(idx) => {
                        if idx < items.len() {
                            proof {
                                assert(wf(s[idx as int]));
                                assert(s[idx as int] == view_of(items@[idx as int]));
                            }
                            let ghost pre = items@;
                            let mut tmp: Json = Json::Null;
                            items.set_and_swap(idx, &mut tmp);
                            let d = apply_edit(&mut tmp, path, i + 1, e);
                            let ghost c2 = tmp;
                            items.set_and_swap(idx, &mut tmp);
                            proof {
                                assert(items@ =~= pre.update(idx as int, c2));
                                lemma_view_list_update(pre, idx as int, c2);
                            }
                            d
                        } else {
                            None
                        }
                    },
                    None => {
                        None
                    },
                }
            },
            _ => {
                None
            },
        }
    }
}

/// How an insertion landed in its parent container.
pub enum InsSpot {
    ObjPrev(Option<Json>),
    ArrAt(usize),
    ArrEnd,
}

/// The edit that would take the insertion back out.
pub open spec fn ins_spot_bottom(s: InsSpot, k: Seq<char>) -> BottomModel {
    match s {
        InsSpot::ObjPrev(p) => match p {
            Some(x) => BottomModel::SetKey(k, x@),
            None => BottomModel::DelKey(k),
        },
        InsSpot::ArrAt(i) => BottomModel::DelAt(i as int),
        InsSpot::ArrEnd => BottomModel::Pop,
    }
}

/// Inserts `value` at the suffix of `path` from segment `i` on, exactly as
/// the model `add` does, and reports where it landed.
#[verifier::loop_isolation(false)]
fn do_insert(v: &mut Json, path: JsonPointerRef<'_>, i: usize, value: Json) -> (r: Result<
    InsSpot,
    (Json, EditKind),
>)
    requires
        wf(old(v)@),
        wf(value@),
        i < path@.len(),
        path@.len() <= usize::MAX,
    ensures
        match r {
            Ok(spot) => model_add(old(v)@, path@.skip(i as int), value@) == Ok::<
                JsonModel,
                EditKind,
            >(final(v)@) && wf(final(v)@) && ins_spot_bottom(spot, path@.last()) == add_undo_bottom(
                old(v)@,
                path@.skip(i as int),
            ) && bottom_wf(add_undo_bottom(old(v)@, path@.skip(i as int))),
            Err((vv, k)) => final(v)@ == old(v)@ && vv@ == value@ && model_add(
                old(v)@,
                path@.skip(i as int),
                value@,
            ) == Err::<JsonModel, EditKind>(k),
        },
    decreases path@.len() - i,
{
    let ghost suf = path@.skip(i as int);
    let ghost gval = view_of(value);
    let n = path.len();
    let seg = path.segment(i);
    proof {
        assert(suf[0] == path@[i as int]);
        assert(suf.skip(1) =~= path@.skip(i + 1));
        assert(suf.last() == path@.last());
    }
    if i == n - 1 {
        proof {
            assert(suf.len() == 1);
            assert(suf[0] == suf.last());
            assert(suf.drop_last() =~= Seq::<Seq<char>>::empty());
            assert(model_lookup(old(v)@, suf.drop_last()) == Some(old(v)@));
        }
        match v {
            Json::Obj(entries) => {
                proof {
                    lemma_view_entries(entries@);
                }
                let ghost es = view_of_entries(entries@);
                match find_key(entries, seg.as_str()) {
                    Some(j) => {
                        proof {
                            assert forall|i2: int| 0 <= i2 < j implies (#[trigger] es[i2]).0
                                != seg@ by {
                                assert(es[i2].0 == entries@[i2].0@);
                            }
                            lemma_obj_get_at(es, seg@, j as int);
                            lemma_obj_set_shape(es, seg@, view_of(value), j as int);
                            assert(wf(es[j as int].1));
                            crate::model::lemma_obj_set_wf(es, seg@, view_of(value));
                        }
                        let kstr = seg.clone();
                        let ghost pre = entries@;
                        let ghost gk = kstr;
                        let ghost gv = value;
                        let mut tmp = (kstr, value);
                        entries.set_and_swap(j, &mut tmp);
                        proof {
                            assert(entries@ == pre.update(j as int, (gk, gv)));
                            lemma_view_entries_update(pre, j as int, (gk, gv));
                        }
                        proof {
                            assert(model_add(old(v)@, suf, gval) == Ok::<JsonModel, EditKind>(
                                JsonModel::Obj(view_of_entries(entries@)),
                            ));
                            assert(wf(JsonModel::Obj(view_of_entries(entries@))));
                            assert(add_undo_bottom(old(v)@, suf) == BottomModel::SetKey(
                                path@.last(),
                                es[j as int].1,
                            ));
                            assert(view_of(tmp.1) == es[j as int].1);
                            assert(bottom_wf(add_undo_bottom(old(v)@, suf)));
                        }
                        Ok(InsSpot::ObjPrev(Some(tmp.1)))
                    },
                    None => {
                        proof {
                            assert forall|i2: int| 0 <= i2 < es.len() implies (#[trigger] es[
                            i2]).0 != seg@ by {
                                assert(es[i2].0 == entries@[i2].0@);
                            }
                            lemma_obj_get_absent(es, seg@);
                        }
                        let pos = find_insert_pos(entries, seg.as_str());
                        proof {
                            assert forall|i2: int| 0 <= i2 < pos implies lex_lt(
                                (#[trigger] es[i2]).0,
                                seg@,
                            ) by {
                                assert(es[i2].0 == entries@[i2].0@);
                            }
                            if (pos as int) < es.len() {
                                assert(es[pos as int].0 == entries@[pos as int].0@);
                                crate::text::lemma_lex_lt_trichotomy(es[pos as int].0, seg@);
                            }
                            lemma_obj_set_insert_shape(es, seg@, view_of(value), pos as int);
                            crate::model::lemma_obj_set_wf(es, seg@, view_of(value));
                        }
                        let kstr = seg.clone();
                        let ghost gk = kstr;
                        let ghost gv = value;
                        proof {
                            lemma_view_entries_insert(entries@, pos as int, (gk, gv));
                        }
                        entries.insert(pos, (kstr, value));
                        proof {
                            assert(model_add(old(v)@, suf, gval) == Ok::<JsonModel, EditKind>(
                                JsonModel::Obj(view_of_entries(entries@)),
                            ));
                            assert(wf(JsonModel::Obj(view_of_entries(entries@))));
                            assert(add_undo_bottom(old(v)@, suf) == BottomModel::DelKey(
                                path@.last(),
                            ));
                        }
                        Ok(InsSpot::ObjPrev(None))
                    },
                }
            },
            Json::Arr(items) => {
                proof {
                    lemma_view_list(items@);
                }
                let ghost s = view_of_list(items@);
                if crate::text::is_dash(seg.as_str()) {
                    proof {
                        assert(seg@ == seq!['-']);
                        crate::value::lemma_view_list_push(items@, value);
                        assert(view_of_list(items@).push(view_of(value)).drop_last() =~= s);
                        let s2 = s.push(view_of(value));
                        assert forall|j2: int| 0 <= j2 < s2.len() implies wf(#[trigger] s2[j2]) by {
                            if j2 < s.len() {
                                assert(s2[j2] == s[j2]);
                            } else {
                                assert(s2[j2] == view_of(value));
                            }
                        }
                    }
                    items.push(value);
                    proof {
                        assert(model_add(old(v)@, suf, gval) == Ok::<JsonModel, EditKind>(
                            JsonModel::Arr(view_of_list(items@)),
                        ));
                        assert(wf(JsonModel::Arr(view_of_list(items@))));
                        assert(add_undo_bottom(old(v)@, suf) == BottomModel::Pop);
                    }
                    Ok(InsSpot::ArrEnd)
                } else {
                    match parse_index_str(seg.as_str()) {
                        Some(idx) => {
                            if idx <= items.len() {
                                proof {
                                    lemma_view_list_insert(items@, idx as int, value);
                                    let s2 = s.insert(idx as int, view_of(value));
                                    assert forall|j2: int| 0 <= j2 < s2.len() implies wf(
                                        #[trigger] s2[j2],
                                    ) by {
                                        if j2 < idx {
                                            assert(s2[j2] == s[j2]);
                                        } else if j2 == idx {
                                            assert(s2[j2] == view_of(value));
                                        } else {
                                            assert(s2[j2] == s[j2 - 1]);
                                        }
                                    }
                                }
                                items.insert(idx, value);
                                proof {
                                    assert(model_add(old(v)@, suf, gval) == Ok::<
                                        JsonModel,
                                        EditKind,
                                    >(JsonModel::Arr(view_of_list(items@))));
                                    assert(wf(JsonModel::Arr(view_of_list(items@))));
                                    assert(add_undo_bottom(old(v)@, suf) == BottomModel::DelAt(
                                        idx as int,
                                    ));
                                }
                                Ok(InsSpot::ArrAt(idx))
                            } else {
                                Err((value, EditKind::BadIndex))
                            }
                        },
                        None => {
                            Err((value, EditKind::BadIndex))
                        },
                    }
                }
            },
            _ => {
                Err((value, EditKind::NotContainer))
            },
        }
    } else {
        proof {
            assert(suf.len() >= 2);
            assert(suf.drop_last()[0] == suf[0]);
            assert(suf.drop_last().skip(1) =~= suf.skip(1).drop_last());
        }
        match v {
            Json::Obj(entries) => {
                proof {
                    lemma_view_entries(entries@);
                }
                let ghost es = view_of_entries(entries@);
                match find_key(entries, seg.as_str()) {
                    Some(j) => {
                        proof {
                            assert forall|i2: int| 0 <= i2 < j implies (#[trigger] es[i2]).0
                                != seg@ by {
                                assert(es[i2].0 == entries@[i2].0@);
                            }
                            lemma_obj_get_at(es, seg@, j as int);
                            assert(wf(es[j as int].1));
                        }
                        let ghost c = es[j as int].1;
                        let ghost pre = entries@;
                        let mut tmp: (String, Json) = (String::new(), Json::Null);
                        entries.set_and_swap(j, &mut tmp);
                        let rr = do_insert(&mut tmp.1, path, i + 1, value);
                        let ghost key_str = tmp.0;
                        let ghost c2 = tmp.1;
                        entries.set_and_swap(j, &mut tmp);
                        proof {
                            assert(entries@ =~= pre.update(j as int, (key_str, c2)));
                            lemma_view_entries_update(pre, j as int, (key_str, c2));
                        }
                        match rr {
                            Ok(spot) => {
                                proof {
                                    lemma_obj_set_shape(es, seg@, view_of(c2), j as int);
                                    crate::model::lemma_obj_set_wf(es, seg@, view_of(c2));
                                    assert(view_of_entries(entries@) == es.update(
                                        j as int,
                                        (seg@, view_of(c2)),
                                    ));
                                    assert(model_lookup(old(v)@, suf.drop_last())
                                        == model_lookup(c, suf.skip(1).drop_last()));
                                    assert(add_undo_bottom(old(v)@, suf) == add_undo_bottom(
                                        c,
                                        suf.skip(1),
                                    ));
                                    assert(model_add(old(v)@, suf, gval) == Ok::<
                                        JsonModel,
                                        EditKind,
                                    >(JsonModel::Obj(view_of_entries(entries@))));
                                    assert(wf(JsonModel::Obj(view_of_entries(entries@))));
                                    assert(ins_spot_bottom(spot, path@.last()) == add_undo_bottom(
                                        old(v)@,
                                        suf,
                                    ));
                                    assert(bottom_wf(add_undo_bottom(old(v)@, suf)));
                                }
                                Ok(spot)
                            },
                            Err(k) => {
                                proof {
                                    assert(view_of_entries(entries@)[j as int] == es[j as int]);
                                    assert(view_of_entries(entries@) =~= es);
                                }
                                Err(k)
                            },
                        }
                    },
                    None => {
                        proof {
                            assert forall|i2: int| 0 <= i2 < es.len() implies (#[trigger] es[
                            i2]).0 != seg@ by {
                                assert(es[i2].0 == entries@[i2].0@);
                            }
                            lemma_obj_get_absent(es, seg@);
                        }
                        Err((value, EditKind::ParentMissing))
                    },
                }
            },
            Json::Arr(items) => {
                proof {
                    lemma_view_list(items@);
                }
                let ghost s = view_of_list(items@);
                match parse_index_str(seg.as_str()) {
                    Some(idx) => {
                        if idx < items.len() {
                            proof {
                                assert(wf(s[idx as int]));
                                assert(s[idx as int] == view_of(items@[idx as int]));
                            }
                            let ghost pre = items@;
                            let mut tmp: Json = Json::Null;
                            items.set_and_swap(idx, &mut tmp);
                            let rr = do_insert(&mut tmp, path, i + 1, value);
                            let ghost c2 = tmp;
                            items.set_and_swap(idx, &mut tmp);
                            proof {
                                assert(items@ =~= pre.update(idx as int, c2));
                                lemma_view_list_update(pre, idx as int, c2);
                            }
                            match rr {
                                Ok(spot) => {
                                    proof {
                                        let s2 = s.update(idx as int, view_of(c2));
                                        assert(forall|j2: int|
                                            0 <= j2 < s2.len() ==> wf(#[trigger] s2[j2]));
                                        assert(model_lookup(old(v)@, suf.drop_last())
                                            == model_lookup(
                                            s[idx as int],
                                            suf.skip(1).drop_last(),
                                        ));
                                        assert(add_undo_bottom(old(v)@, suf) == add_undo_bottom(
                                            s[idx as int],
                                            suf.skip(1),
                                        ));
                                        assert(model_add(old(v)@, suf, gval) == Ok::<
                                            JsonModel,
                                            EditKind,
                                        >(JsonModel::Arr(view_of_list(items@))));
                                        assert(wf(JsonModel::Arr(view_of_list(items@))));
                                        assert(ins_spot_bottom(spot, path@.last())
                                            == add_undo_bottom(old(v)@, suf));
                                        assert(bottom_wf(add_undo_bottom(old(v)@, suf)));
                                    }
                                    Ok(spot)
                                },
                                Err(k) => {
                                    proof {
                                        assert(view_of_list(items@)[idx as int] == s[idx as int]);
                                        assert(view_of_list(items@) =~= s);
                                    }
                                    Err(k)
                                },
                            }
                        } else {
                            Err((value, EditKind::ParentMissing))
                        }
                    },
                    None => {
                        Err((value, EditKind::ParentMissing))
                    },
                }
            },
            _ => {
                Err((value, EditKind::ParentMissing))
            },
        }
    }
}

/// How a removal took its value out of its parent container.
pub enum TakeSpot {
    KeyTaken,
    AtTaken(usize),
}

/// The spot the removal used.
pub open spec fn take_spot_model(s: TakeSpot, k: Seq<char>) -> SpotModel {
    match s {
        TakeSpot::KeyTaken => SpotModel::ObjKey(k),
        TakeSpot::AtTaken(i) => SpotModel::ArrIdx(i as int),
    }
}

/// Removes the value at the suffix of `path` from segment `i` on, exactly
/// as the model `remove` does, returning it and where it came from.
#[verifier::loop_isolation(false)]
fn do_take(v: &mut Json, path: JsonPointerRef<'_>, i: usize) -> (r: Result<
    (Json, TakeSpot),
    EditKind,
>)
    requires
        wf(old(v)@),
        i < path@.len(),
        path@.len() <= usize::MAX,
    ensures
        match r {
            Ok((val, spot)) => model_remove(old(v)@, path@.skip(i as int)) == Ok::<
                (JsonModel, JsonModel),
                EditKind,
            >((final(v)@, val@)) && wf(final(v)@) && wf(val@) && take_spot_model(
                spot,
                path@.last(),
            ) == remove_spot(old(v)@, path@.skip(i as int)),
            Err(k) => final(v)@ == old(v)@ && model_remove(old(v)@, path@.skip(i as int)) == Err::<
                (JsonModel, JsonModel),
                EditKind,
            >(k),
        },
    decreases path@.len() - i,
{
    let ghost suf = path@.skip(i as int);
    let n = path.len();
    let seg = path.segment(i);
    proof {
        assert(suf[0] == path@[i as int]);
        assert(suf.skip(1) =~= path@.skip(i + 1));
        assert(suf.last() == path@.last());
    }
    if i == n - 1 {
        proof {
            assert(suf.len() == 1);
            assert(suf[0] == suf.last());
            assert(suf.drop_last() =~= Seq::<Seq<char>>::empty());
            assert(model_lookup(old(v)@, suf.drop_last()) == Some(old(v)@));
        }
        match v {
            Json::Obj(entries) => {
                proof {
                    lemma_view_entries(entries@);
                }
                let ghost es = view_of_entries(entries@);
                match find_key(entries, seg.as_str()) {
                    Some(j) => {
                        proof {
                            assert forall|i2: int| 0 <= i2 < j implies (#[trigger] es[i2]).0
                                != seg@ by {
                                assert(es[i2].0 == entries@[i2].0@);
                            }
                            lemma_obj_get_at(es, seg@, j as int);
                            lemma_obj_del_shape(es, seg@, j as int);
                            crate::model::lemma_obj_del_wf(es, seg@);
                            assert(wf(es[j as int].1));
                            lemma_view_entries_remove(entries@, j as int);
                        }
                        let taken = entries.remove(j);
                        Ok((taken.1, TakeSpot::KeyTaken))
                    },
                    None => {
                        proof {
                            assert forall|i2: int| 0 <= i2 < es.len() implies (#[trigger] es[
                            i2]).0 != seg@ by {
                                assert(es[i2].0 == entries@[i2].0@);
                            }
                            lemma_obj_get_absent(es, seg@);
                        }
                        Err(EditKind::KeyMissing)
                    },
                }
            },
            Json::Arr(items) => {
                proof {
                    lemma_view_list(items@);
                }
                let ghost s = view_of_list(items@);
                match parse_index_str(seg.as_str()) {
                    Some(idx) => {
                        if idx < items.len() {
                            proof {
                                lemma_view_list_remove(items@, idx as int);
                                assert(wf(s[idx as int]));
                                let s2 = s.remove(idx as int);
                                assert forall|j2: int| 0 <= j2 < s2.len() implies wf(
                                    #[trigger] s2[j2],
                                ) by {
                                    if j2 < idx {
                                        assert(s2[j2] == s[j2]);
                                    } else {
                                        assert(s2[j2] == s[j2 + 1]);
                                    }
                                }
                            }
                            let taken = items.remove(idx);
                            Ok((taken, TakeSpot::AtTaken(idx)))
                        } else {
                            Err(EditKind::BadIndex)
                        }
                    },
                    None => {
                        Err(EditKind::BadIndex)
                    },
                }
            },
            _ => {
                Err(EditKind::NotContainer)
            },
        }
    } else {
        proof {
            assert(suf.len() >= 2);
            assert(suf.drop_last()[0] == suf[0]);
            assert(suf.drop_last().skip(1) =~= suf.skip(1).drop_last());
        }
        match v {
            Json::Obj(entries) => {
                proof {
                    lemma_view_entries(entries@);
                }
                let ghost es = view_of_entries(entries@);
                match find_key(entries, seg.as_str()) {
                    Some(j) => {
                        proof {
                            assert forall|i2: int| 0 <= i2 < j implies (#[trigger] es[i2]).0
                                != seg@ by {
                                assert(es[i2].0 == entries@[i2].0@);
                            }
                            lemma_obj_get_at(es, seg@, j as int);
                            assert(wf(es[j as int].1));
                        }
                        let ghost c = es[j as int].1;
                        let ghost pre = entries@;
                        let mut tmp: (String, Json) = (String::new(), Json::Null);
                        entries.set_and_swap(j, &mut tmp);
                        let rr = do_take(&mut tmp.1, path, i + 1);
                        let ghost key_str = tmp.0;
                        let ghost c1 = tmp.1;
                        entries.set_and_swap(j, &mut tmp);
                        proof {
                            assert(entries@ =~= pre.update(j as int, (key_str, c1)));
                            lemma_view_entries_update(pre, j as int, (key_str, c1));
                        }
                        match rr {
                            Ok((val, spot)) => {
                                proof {
                                    lemma_obj_set_shape(es, seg@, view_of(c1), j as int);
                                    crate::model::lemma_obj_set_wf(es, seg@, view_of(c1));
                                    assert(view_of_entries(entries@) == es.update(
                                        j as int,
                                        (seg@, view_of(c1)),
                                    ));
                                    assert(model_lookup(old(v)@, suf.drop_last())
                                        == model_lookup(c, suf.skip(1).drop_last()));
                                    assert(remove_spot(old(v)@, suf) == remove_spot(
                                        c,
                                        suf.skip(1),
                                    ));
                                }
                                Ok((val, spot))
                            },
                            Err(k) => {
                                proof {
                                    assert(view_of_entries(entries@)[j as int] == es[j as int]);
                                    assert(view_of_entries(entries@) =~= es);
                                }
                                Err(k)
                            },
                        }
                    },
                    None => {
                        proof {
                            assert forall|i2: int| 0 <= i2 < es.len() implies (#[trigger] es[
                            i2]).0 != seg@ by {
                                assert(es[i2].0 == entries@[i2].0@);
                            }
                            lemma_obj_get_absent(es, seg@);
                        }
                        Err(EditKind::ParentMissing)
                    },
                }
            },
            Json::Arr(items) => {
                proof {
                    lemma_view_list(items@);
                }
                let ghost s = view_of_list(items@);
                match parse_index_str(seg.as_str()) {
                    Some(idx) => {
                        if idx < items.len() {
                            proof {
                                assert(wf(s[idx as int]));
                                assert(s[idx as int] == view_of(items@[idx as int]));
                            }
                            let ghost pre = items@;
                            let mut tmp: Json = Json::Null;
                            items.set_and_swap(idx, &mut tmp);
                            let rr = do_take(&mut tmp, path, i + 1);
                            let ghost c1 = tmp;
                            items.set_and_swap(idx, &mut tmp);
                            proof {
                                assert(items@ =~= pre.update(idx as int, c1));
                                lemma_view_list_update(pre, idx as int, c1);
                            }
                            match rr {
                                Ok((val, spot)) => {
                                    proof {
                                        let s2 = s.update(idx as int, view_of(c1));
                                        assert(forall|j2: int|
                                            0 <= j2 < s2.len() ==> wf(#[trigger] s2[j2]));
                                        assert(model_lookup(old(v)@, suf.drop_last())
                                            == model_lookup(
                                            s[idx as int],
                                            suf.skip(1).drop_last(),
                                        ));
                                        assert(remove_spot(old(v)@, suf) == remove_spot(
                                            s[idx as int],
                                            suf.skip(1),
                                        ));
                                    }
                                    Ok((val, spot))
                                },
                                Err(k) => {
                                    proof {
                                        assert(view_of_list(items@)[idx as int] == s[idx as int]);
                                        assert(view_of_list(items@) =~= s);
                                    }
                                    Err(k)
                                },
                            }
                        } else {
                            Err(EditKind::ParentMissing)
                        }
                    },
                    None => {
                        Err(EditKind::ParentMissing)
                    },
                }
            },
            _ => {
                Err(EditKind::ParentMissing)
            },
        }
    }
}

/// How a replacement wrote into its parent container.
pub enum AssignSpot {
    KeySet,
    AtSet(usize),
}

/// The edit that writes the previous value back.
pub open spec fn assign_bottom(s: AssignSpot, k: Seq<char>, prev: JsonModel) -> BottomModel {
    match s {
        AssignSpot::KeySet => BottomModel::SetKey(k, prev),
        AssignSpot::AtSet(i) => BottomModel::SetAt(i as int, prev),
    }
}

/// Replaces the value at the non-empty suffix of `path` from segment `i`
/// on, returning the previous value and where it sat.
#[verifier::loop_isolation(false)]
fn do_assign(v: &mut Json, path: JsonPointerRef<'_>, i: usize, value: Json) -> (r: Result<
    (Json, AssignSpot),
    EditKind,
>)
    requires
        wf(old(v)@),
        wf(value@),
        i < path@.len(),
        path@.len() <= usize::MAX,
    ensures
        match r {
            Ok((prev, spot)) => model_replace(old(v)@, path@.skip(i as int), value@) == Some(
                final(v)@,
            ) && model_lookup(old(v)@, path@.skip(i as int)) == Some(prev@) && wf(final(v)@) && wf(
                prev@,
            ) && assign_bottom(spot, path@.last(), prev@) == replace_undo_bottom(
                old(v)@,
                path@.skip(i as int),
            ),
            Err(_) => final(v)@ == old(v)@ && model_replace(old(v)@, path@.skip(i as int), value@)
                is None,
        },
    decreases path@.len() - i,
{
    let ghost suf = path@.skip(i as int);
    let ghost gval = view_of(value);
    let n = path.len();
    let seg = path.segment(i);
    proof {
        assert(suf[0] == path@[i as int]);
        assert(suf.skip(1) =~= path@.skip(i + 1));
        assert(suf.last() == path@.last());
    }
    if i == n - 1 {
        proof {
            assert(suf.len() == 1);
            assert(suf[0] == suf.last());
            assert(suf.drop_last() =~= Seq::<Seq<char>>::empty());
            assert(suf.skip(1) =~= Seq::<Seq<char>>::empty());
            assert(model_lookup(old(v)@, suf.drop_last()) == Some(old(v)@));
            reveal_with_fuel(crate::model::model_replace, 2);
            reveal_with_fuel(crate::model::model_lookup, 2);
        }
        match v {
            Json::Obj(entries) => {
                proof {
                    lemma_view_entries(entries@);
                }
                let ghost es = view_of_entries(entries@);
                match find_key(entries, seg.as_str()) {
                    Some(j) => {
                        proof {
                            assert forall|i2: int| 0 <= i2 < j implies (#[trigger] es[i2]).0
                                != seg@ by {
                                assert(es[i2].0 == entries@[i2].0@);
                            }
                            lemma_obj_get_at(es, seg@, j as int);
                            lemma_obj_set_shape(es, seg@, view_of(value), j as int);
                            crate::model::lemma_obj_set_wf(es, seg@, view_of(value));
                            assert(wf(es[j as int].1));
                        }
                        let kstr = seg.clone();
                        let ghost pre = entries@;
                        let ghost gk = kstr;
                        let ghost gv = value;
                        let mut tmp = (kstr, value);
                        entries.set_and_swap(j, &mut tmp);
                        proof {
                            assert(entries@ == pre.update(j as int, (gk, gv)));
                            lemma_view_entries_update(pre, j as int, (gk, gv));
                            assert(view_of(tmp.1) == es[j as int].1);
                        }
                        Ok((tmp.1, AssignSpot::KeySet))
                    },
                    None => {
                        proof {
                            assert forall|i2: int| 0 <= i2 < es.len() implies (#[trigger] es[
                            i2]).0 != seg@ by {
                                assert(es[i2].0 == entries@[i2].0@);
                            }
                            lemma_obj_get_absent(es, seg@);
                        }
                        Err(EditKind::ParentMissing)
                    },
                }
            },
            Json::Arr(items) => {
                proof {
                    lemma_view_list(items@);
                }
                let ghost s = view_of_list(items@);
                match parse_index_str(seg.as_str()) {
                    Some(idx) => {
                        if idx < items.len() {
                            proof {
                                assert(wf(s[idx as int]));
                                let s2 = s.update(idx as int, view_of(value));
                                assert(forall|j2: int|
                                    0 <= j2 < s2.len() ==> wf(#[trigger] s2[j2]));
                            }
                            let ghost pre = items@;
                            let mut tmp = value;
                            items.set_and_swap(idx, &mut tmp);
                            proof {
                                lemma_view_list_update(pre, idx as int, items@[idx as int]);
                            }
                            Ok((tmp, AssignSpot::AtSet(idx)))
                        } else {
                            Err(EditKind::BadIndex)
                        }
                    },
                    None => {
                        Err(EditKind::BadIndex)
                    },
                }
            },
            _ => {
                Err(EditKind::NotContainer)
            },
        }
    } else {
        proof {
            assert(suf.len() >= 2);
            assert(suf.drop_last()[0] == suf[0]);
            assert(suf.drop_last().skip(1) =~= suf.skip(1).drop_last());
        }
        match v {
            Json::Obj(entries) => {
                proof {
                    lemma_view_entries(entries@);
                }
                let ghost es = view_of_entries(entries@);
                match find_key(entries, seg.as_str()) {
                    Some(j) => {
                        proof {
                            assert forall|i2: int| 0 <= i2 < j implies (#[trigger] es[i2]).0
                                != seg@ by {
                                assert(es[i2].0 == entries@[i2].0@);
                            }
                            lemma_obj_get_at(es, seg@, j as int);
                            assert(wf(es[j as int].1));
                        }
                        let ghost c = es[j as int].1;
                        let ghost pre = entries@;
                        let mut tmp: (String, Json) = (String::new(), Json::Null);
                        entries.set_and_swap(j, &mut tmp);
                        let rr = do_assign(&mut tmp.1, path, i + 1, value);
                        let ghost key_str = tmp.0;
                        let ghost c2 = tmp.1;
                        entries.set_and_swap(j, &mut tmp);
                        proof {
                            assert(entries@ =~= pre.update(j as int, (key_str, c2)));
                            lemma_view_entries_update(pre, j as int, (key_str, c2));
                        }
                        match rr {
                            Ok((prev, spot)) => {
                                proof {
                                    lemma_obj_set_shape(es, seg@, view_of(c2), j as int);
                                    crate::model::lemma_obj_set_wf(es, seg@, view_of(c2));
                                    assert(view_of_entries(entries@) == es.update(
                                        j as int,
                                        (seg@, view_of(c2)),
                                    ));
                                    assert(model_lookup(old(v)@, suf.drop_last())
                                        == model_lookup(c, suf.skip(1).drop_last()));
                                    assert(model_lookup(old(v)@, suf) == model_lookup(
                                        c,
                                        suf.skip(1),
                                    ));
                                    assert(replace_undo_bottom(old(v)@, suf)
                                        == replace_undo_bottom(c, suf.skip(1)));
                                }
                                Ok((prev, spot))
                            },
                            Err(k) => {
                                proof {
                                    assert(view_of_entries(entries@)[j as int] == es[j as int]);
                                    assert(view_of_entries(entries@) =~= es);
                                }
                                Err(k)
                            },
                        }
                    },
                    None => {
                        proof {
                            assert forall|i2: int| 0 <= i2 < es.len() implies (#[trigger] es[
                            i2]).0 != seg@ by {
                                assert(es[i2].0 == entries@[i2].0@);
                            }
                            lemma_obj_get_absent(es, seg@);
                        }
                        Err(EditKind::ParentMissing)
                    },
                }
            },
            Json::Arr(items) => {
                proof {
                    lemma_view_list(items@);
                }
                let ghost s = view_of_list(items@);
                match parse_index_str(seg.as_str()) {
                    Some(idx) => {
                        if idx < items.len() {
                            proof {
                                assert(wf(s[idx as int]));
                                assert(s[idx as int] == view_of(items@[idx as int]));
                            }
                            let ghost pre = items@;
                            let mut tmp: Json = Json::Null;
                            items.set_and_swap(idx, &mut tmp);
                            let rr = do_assign(&mut tmp, path, i + 1, value);
                            let ghost c2 = tmp;
                            items.set_and_swap(idx, &mut tmp);
                            proof {
                                assert(items@ =~= pre.update(idx as int, c2));
                                lemma_view_list_update(pre, idx as int, c2);
                            }
                            match rr {
                                Ok((prev, spot)) => {
                                    proof {
                                        let s2 = s.update(idx as int, view_of(c2));
                                        assert(forall|j2: int|
                                            0 <= j2 < s2.len() ==> wf(#[trigger] s2[j2]));
                                        assert(model_lookup(old(v)@, suf.drop_last())
                                            == model_lookup(
                                            s[idx as int],
                                            suf.skip(1).drop_last(),
                                        ));
                                        assert(model_lookup(old(v)@, suf) == model_lookup(
                                            s[idx as int],
                                            suf.skip(1),
                                        ));
                                        assert(replace_undo_bottom(old(v)@, suf)
                                            == replace_undo_bottom(s[idx as int], suf.skip(1)));
                                    }
                                    Ok((prev, spot))
                                },
                                Err(k) => {
                                    proof {
                                        assert(view_of_list(items@)[idx as int] == s[idx as int]);
                                        assert(view_of_list(items@) =~= s);
                                    }
                                    Err(k)
                                },
                            }
                        } else {
                            Err(EditKind::ParentMissing)
                        }
                    },
                    None => {
                        Err(EditKind::ParentMissing)
                    },
                }
            },
            _ => {
                Err(EditKind::ParentMissing)
            },
        }
    }
}

/// Reads and deep-copies the value at the suffix of `path` from segment
/// `i` on, with the same error classification as a removal.
#[verifier::loop_isolation(false)]
fn read_source(v: &Json, path: JsonPointerRef<'_>, i: usize) -> (r: Result<Json, EditKind>)
    requires
        wf(v@),
        i < path@.len(),
        path@.len() <= usize::MAX,
    ensures
        match r {
            Ok(c) => model_remove(v@, path@.skip(i as int)) is Ok && c@ == model_remove(
                v@,
                path@.skip(i as int),
            )->Ok_0.1 && wf(c@),
            Err(k) => model_remove(v@, path@.skip(i as int)) == Err::<
                (JsonModel, JsonModel),
                EditKind,
            >(k),
        },
    decreases path@.len() - i,
{
    let ghost suf = path@.skip(i as int);
    let n = path.len();
    let seg = path.segment(i);
    proof {
        assert(suf[0] == path@[i as int]);
        assert(suf.skip(1) =~= path@.skip(i + 1));
    }
    match v {
        Json::Obj(entries) => {
            proof {
                lemma_view_entries(entries@);
            }
            let ghost es = view_of_entries(entries@);
            match find_key(entries, seg.as_str()) {
                Some(j) => {
                    proof {
                        assert forall|i2: int| 0 <= i2 < j implies (#[trigger] es[i2]).0
                            != seg@ by {
                            assert(es[i2].0 == entries@[i2].0@);
                        }
                        lemma_obj_get_at(es, seg@, j as int);
                        assert(wf(es[j as int].1));
                    }
                    if i == n - 1 {
                        Ok(deep_clone(&entries[j].1))
                    } else {
                        read_source(&entries[j].1, path, i + 1)
                    }
                },
                None => {
                    proof {
                        assert forall|i2: int| 0 <= i2 < es.len() implies (#[trigger] es[i2]).0
                            != seg@ by {
                            assert(es[i2].0 == entries@[i2].0@);
                        }
                        lemma_obj_get_absent(es, seg@);
                    }
                    if i == n - 1 {
                        Err(EditKind::KeyMissing)
                    } else {
                        Err(EditKind::ParentMissing)
                    }
                },
            }
        },
        Json::Arr(items) => {
            proof {
                lemma_view_list(items@);
            }
            let ghost s = view_of_list(items@);
            match parse_index_str(seg.as_str()) {
                Some(idx) => {
                    if idx < items.len() {
                        proof {
                            assert(wf(s[idx as int]));
                            assert(s[idx as int] == view_of(items@[idx as int]));
                        }
                        if i == n - 1 {
                            Ok(deep_clone(&items[idx]))
                        } else {
                            read_source(&items[idx], path, i + 1)
                        }
                    } else {
                        if i == n - 1 {
                            Err(EditKind::BadIndex)
                        } else {
                            Err(EditKind::ParentMissing)
                        }
                    }
                },
                None => {
                    if i == n - 1 {
                        Err(EditKind::BadIndex)
                    } else {
                        Err(EditKind::ParentMissing)
                    }
                },
            }
        },
        _ => {
            if i == n - 1 {
                Err(EditKind::NotContainer)
            } else {
                Err(EditKind::ParentMissing)
            }
        },
    }
}

/// Where a removal or move took its value from: an object key or an
/// array index under a parent path.
pub enum UpdateSource {
    Object { path: JsonPointer, key: String },
    Array { path: JsonPointer, index: usize },
}

/// Where an insertion put its value: an object key, an array index, or an
/// array append, under a parent path.
pub enum UpdateTarget {
    Object { path: JsonPointer, key: String },
    ArrayInsert { path: JsonPointer, index: usize },
    ArrayAppend { path: JsonPointer },
}

/// The spot of a source.
pub open spec fn source_spot(s: UpdateSource) -> SpotModel {
    match s {
        UpdateSource::Object { key, .. } => SpotModel::ObjKey(key@),
        UpdateSource::Array { index, .. } => SpotModel::ArrIdx(index as int),
    }
}

/// The parent path of a source.
pub open spec fn source_path(s: UpdateSource) -> Seq<Seq<char>> {
    match s {
        UpdateSource::Object { path, .. } => path@,
        UpdateSource::Array { path, .. } => path@,
    }
}

/// The parent path of a target.
pub open spec fn target_path(t: UpdateTarget) -> Seq<Seq<char>> {
    match t {
        UpdateTarget::Object { path, .. } => path@,
        UpdateTarget::ArrayInsert { path, .. } => path@,
        UpdateTarget::ArrayAppend { path } => path@,
    }
}

/// The edit that takes an insertion back out of its target, restoring a
/// previous value when the insertion overwrote one.
pub open spec fn target_undo_bottom(t: UpdateTarget, prev: Option<Json>) -> BottomModel {
    match t {
        UpdateTarget::Object { key, .. } => match prev {
            Some(p) => BottomModel::SetKey(key@, p@),
            None => BottomModel::DelKey(key@),
        },
        UpdateTarget::ArrayInsert { index, .. } => BottomModel::DelAt(index as int),
        UpdateTarget::ArrayAppend { .. } => BottomModel::Pop,
    }
}

/// One recorded inverse, holding owned paths and the values needed to
/// put the document back.
pub enum UndoCommand {
    ReplaceRoot { prev_value: Json },
    Add { target: UpdateTarget, prev_value: Option<Json> },
    Remove { source: UpdateSource, prev_value: Json },
    Replace { source: UpdateSource, prev_value: Json },
    Move { source: UpdateSource, target: UpdateTarget, prev_value: Option<Json> },
    MoveToRoot { source: UpdateSource, prev_value: Json },
    Copy { target: UpdateTarget, prev_value: Option<Json> },
    CopyToRoot { prev_value: Json },
}

impl View for UndoCommand {
    type V = UndoModel;

    open spec fn view(&self) -> UndoModel {
        match *self {
            UndoCommand::ReplaceRoot { prev_value } => UndoModel::RootPrev(prev_value@),
            UndoCommand::Add { target, prev_value } => UndoModel::Edit(
                target_path(target),
                target_undo_bottom(target, prev_value),
            ),
            UndoCommand::Remove { source, prev_value } => UndoModel::Edit(
                source_path(source),
                spot_ins(source_spot(source), prev_value@),
            ),
            UndoCommand::Replace { source, prev_value } => UndoModel::Edit(
                source_path(source),
                match source {
                    UpdateSource::Object { key, .. } => BottomModel::SetKey(key@, prev_value@),
                    UpdateSource::Array { index, .. } => BottomModel::SetAt(
                        index as int,
                        prev_value@,
                    ),
                },
            ),
            UndoCommand::Move { source, target, prev_value } => UndoModel::MoveBack {
                tpath: target_path(target),
                tbottom: target_undo_bottom(target, prev_value),
                spath: source_path(source),
                sspot: source_spot(source),
            },
            UndoCommand::MoveToRoot { source, prev_value } => UndoModel::MoveRootBack {
                prev: prev_value@,
                spath: source_path(source),
                sspot: source_spot(source),
            },
            UndoCommand::Copy { target, prev_value } => UndoModel::Edit(
                target_path(target),
                target_undo_bottom(target, prev_value),
            ),
            UndoCommand::CopyToRoot { prev_value } => UndoModel::RootPrev(prev_value@),
        }
    }
}

/// Turns a target and its previous value into the executable edit that
/// takes the insertion back out.
fn target_undo_edit(t: UpdateTarget, prev: Option<Json>) -> (r: (JsonPointer, BottomEdit))
    ensures
        r.0@ == target_path(t),
        bottom_view(r.1) == target_undo_bottom(t, prev),
{
    match t {
        UpdateTarget::Object { path, key } => match prev {
            Some(p) => (path, BottomEdit::SetKey(key, p)),
            None => (path, BottomEdit::DelKey(key)),
        },
        UpdateTarget::ArrayInsert { path, index } => (path, BottomEdit::DelAt(index)),
        UpdateTarget::ArrayAppend { path } => (path, BottomEdit::Pop),
    }
}

/// Turns a source spot and a value into the executable edit that puts the
/// value back.
fn source_restore_edit(s: UpdateSource, value: Json) -> (r: (JsonPointer, BottomEdit))
    ensures
        r.0@ == source_path(s),
        bottom_view(r.1) == spot_ins(source_spot(s), value@),
{
    match s {
        UpdateSource::Object { path, key } => (path, BottomEdit::SetKey(key, value)),
        UpdateSource::Array { path, index } => (path, BottomEdit::InsAt(index, value)),
    }
}

impl UndoCommand {
    /// Executes this inverse on the document, as rollback does.
    pub fn execute(self, root: &mut Json)
        requires
            wf(old(root)@),
            undo_wf(self@),
        ensures
            final(root)@ == undo_apply(self@, old(root)@),
            wf(final(root)@),
    {
        proof {
            crate::undo::lemma_undo_apply_wf(self@, old(root)@);
        }
        match self {
            UndoCommand::ReplaceRoot { prev_value } => {
                *root = prev_value;
            },
            UndoCommand::CopyToRoot { prev_value } => {
                *root = prev_value;
            },
            UndoCommand::Add { target, prev_value } => {
                let (path, e) = target_undo_edit(target, prev_value);
                let _n = path.len();
                proof {
                    assert(path@.skip(0) =~= path@);
                }
                let _ = apply_edit(root, path.as_ref(), 0, e);
            },
            UndoCommand::Copy { target, prev_value } => {
                let (path, e) = target_undo_edit(target, prev_value);
                let _n = path.len();
                proof {
                    assert(path@.skip(0) =~= path@);
                }
                let _ = apply_edit(root, path.as_ref(), 0, e);
            },
            UndoCommand::Remove { source, prev_value } => {
                let (path, e) = source_restore_edit(source, prev_value);
                let _n = path.len();
                proof {
                    assert(path@.skip(0) =~= path@);
                }
                let _ = apply_edit(root, path.as_ref(), 0, e);
            },
            UndoCommand::Replace { source, prev_value } => {
                let (path, e) = match source {
                    UpdateSource::Object { path, key } => (
                        path,
                        BottomEdit::SetKey(key, prev_value),
                    ),
                    UpdateSource::Array { path, index } => (
                        path,
                        BottomEdit::SetAt(index, prev_value),
                    ),
                };
                let _n = path.len();
                proof {
                    assert(path@.skip(0) =~= path@);
                }
                let _ = apply_edit(root, path.as_ref(), 0, e);
            },
            UndoCommand::Move { source, target, prev_value } => {
                let (tpath, te) = target_undo_edit(target, prev_value);
                let _n = tpath.len();
                proof {
                    assert(tpath@.skip(0) =~= tpath@);
                }
                let d = apply_edit(root, tpath.as_ref(), 0, te);
                match d {
                    Some(val) => {
                        proof {
                            crate::undo::lemma_displaced_wf(
                                old(root)@,
                                target_path(target),
                                target_undo_bottom(target, prev_value),
                            );
                        }
                        let (spath, se) = source_restore_edit(source, val);
                        let _n2 = spath.len();
                        proof {
                            assert(spath@.skip(0) =~= spath@);
                        }
                        let _ = apply_edit(root, spath.as_ref(), 0, se);
                    },
                    None => {},
                }
            },
            UndoCommand::MoveToRoot { source, prev_value } => {
                let mut moved = prev_value;
                core::mem::swap(root, &mut moved);
                let (spath, se) = source_restore_edit(source, moved);
                let _n = spath.len();
                proof {
                    assert(spath@.skip(0) =~= spath@);
                }
                let _ = apply_edit(root, spath.as_ref(), 0, se);
            },
        }
    }
}

/// The models of a batch, operation by operation.
pub open spec fn batch_views(s: Seq<JsonPatch>) -> Seq<PatchModel>
    decreases s,
{
    if s.len() == 0 {
        Seq::empty()
    } else {
        batch_views(s.drop_last()).push(s.last()@)
    }
}

/// The operation views line up with the operations.
pub proof fn lemma_batch_views(s: Seq<JsonPatch>)
    ensures
        batch_views(s).len() == s.len(),
        forall|i: int| 0 <= i < s.len() ==> batch_views(s)[i] == (#[trigger] s[i])@,
    decreases s,
{
    if s.len() > 0 {
        lemma_batch_views(s.drop_last());
        assert forall|i: int| 0 <= i < s.len() implies batch_views(s)[i] == (#[trigger] s[i])@ by {
            if i < s.len() - 1 {
                assert(batch_views(s)[i] == batch_views(s.drop_last())[i]);
                assert(s.drop_last()[i] == s[i]);
            }
        }
    }
}

/// The models of a stack of recorded inverses.
pub open spec fn stack_views(s: Seq<UndoCommand>) -> Seq<UndoModel>
    decreases s,
{
    if s.len() == 0 {
        Seq::empty()
    } else {
        stack_views(s.drop_last()).push(s.last()@)
    }
}

/// The inverse views line up with the inverses.
pub proof fn lemma_stack_views(s: Seq<UndoCommand>)
    ensures
        stack_views(s).len() == s.len(),
        forall|i: int| 0 <= i < s.len() ==> stack_views(s)[i] == (#[trigger] s[i])@,
    decreases s,
{
    if s.len() > 0 {
        lemma_stack_views(s.drop_last());
        assert forall|i: int| 0 <= i < s.len() implies stack_views(s)[i] == (#[trigger] s[i])@ by {
            if i < s.len() - 1 {
                assert(stack_views(s)[i] == stack_views(s.drop_last())[i]);
                assert(s.drop_last()[i] == s[i]);
            }
        }
    }
}

/// The prefix a batch is applied under, as a segment list.
pub open spec fn prefix_view(prefix: Option<&JsonPointer>) -> Seq<Seq<char>> {
    match prefix {
        Some(p) => p@,
        None => Seq::empty(),
    }
}

/// Builds the engine error for a failed insert, blaming the parent of
/// `composed`.
fn add_error(k: EditKind, composed: JsonPointerRef<'_>) -> (r: MemDbError)
    requires
        composed@.len() > 0,
    ensures
        r@ == crate::patch::add_err(composed@, k),
{
    let sl = composed.split_last();
    let (parent_ref, key) = match sl {
        Some(pair) => pair,
        None => {
            proof {
                assert(false);
            }
            (composed, "")
        },
    };
    match k {
        EditKind::BadIndex => MemDbError::InvalidIndex {
            path: parent_ref.to_owned(),
            index: key.to_owned(),
        },
        EditKind::NotContainer => MemDbError::NotAContainer { path: parent_ref.to_owned() },
        _ => MemDbError::PathNotFound { path: parent_ref.to_owned() },
    }
}

/// Builds the engine error for a failed removal or source read; a missing
/// key blames `blame`.
fn remove_error(k: EditKind, composed: JsonPointerRef<'_>, blame: JsonPointerRef<'_>) -> (r:
    MemDbError)
    requires
        composed@.len() > 0,
    ensures
        r@ == crate::patch::remove_err(composed@, blame@, k),
{
    let sl = composed.split_last();
    let (parent_ref, key) = match sl {
        Some(pair) => pair,
        None => {
            proof {
                assert(false);
            }
            (composed, "")
        },
    };
    match k {
        EditKind::ParentMissing => MemDbError::PathNotFound { path: parent_ref.to_owned() },
        EditKind::KeyMissing => MemDbError::PathNotFound { path: blame.to_owned() },
        EditKind::BadIndex => MemDbError::InvalidIndex {
            path: parent_ref.to_owned(),
            index: key.to_owned(),
        },
        EditKind::NotContainer => MemDbError::NotAContainer { path: parent_ref.to_owned() },
    }
}

/// The in-memory document store: one root value, mutated only through
/// atomic patch batches.
pub struct MemDb {
    pub root: Json,
}

impl View for MemDb {
    type V = JsonModel;

    open spec fn view(&self) -> JsonModel {
        self.root@
    }
}

impl Default for MemDb {
    /// An empty object document.
    fn default() -> (r: MemDb)
        ensures
            r@ == JsonModel::Obj(Seq::<(Seq<char>, JsonModel)>::empty()),
            wf(r@),
    {
        let entries: Vec<(String, Json)> = Vec::new();
        proof {
            assert(view_of_entries(entries@) =~= Seq::<(Seq<char>, JsonModel)>::empty());
        }
        MemDb { root: Json::Obj(entries) }
    }
}

impl MemDb {
    /// A store holding the given document.
    pub fn new(root: Json) -> (r: MemDb)
        ensures
            r@ == root@,
    {
        MemDb { root }
    }

    /// The value at a pointer, when it resolves.
    pub fn get<P: crate::pointer::ToJsonPointerRef>(&self, path: P) -> (r: Option<&Json>)
        requires
            path.pointer_view().len() <= usize::MAX,
        ensures
            match r {
                Some(c) => model_lookup(self@, path.pointer_view()) == Some(c@),
                None => model_lookup(self@, path.pointer_view()) is None,
            },
    {
        let p = path.to_json_pointer_ref();
        crate::value::locate(&self.root, p)
    }

    /// The whole document.
    pub fn root(&self) -> (r: &Json)
        ensures
            r@ == self@,
    {
        &self.root
    }

    /// Executes the recorded inverses, newest first, restoring the
    /// document they chain back to.
    fn rollback(&mut self, undo_stack: Vec<UndoCommand>, Ghost(m0): Ghost<JsonModel>)
        requires
            wf(old(self)@),
            crate::undo::rollback_model(stack_views(undo_stack@), old(self)@) == m0,
            forall|k: int|
                0 <= k < stack_views(undo_stack@).len() ==> undo_wf(
                    #[trigger] stack_views(undo_stack@)[k],
                ),
        ensures
            final(self)@ == m0,
            wf(final(self)@),
    {
        let mut undo_stack = undo_stack;
        while undo_stack.len() > 0
            invariant
                wf(self@),
                crate::undo::rollback_model(stack_views(undo_stack@), self@) == m0,
                forall|k: int|
                    0 <= k < stack_views(undo_stack@).len() ==> undo_wf(
                        #[trigger] stack_views(undo_stack@)[k],
                    ),
            decreases undo_stack@.len(),
        {
            let ghost pre_stack = undo_stack@;
            let c = match undo_stack.pop() {
                Some(c) => c,
                None => {
                    proof {
                        assert(false);
                    }
                    UndoCommand::ReplaceRoot { prev_value: Json::Null }
                },
            };
            proof {
                lemma_stack_views(pre_stack);
                lemma_stack_views(undo_stack@);
                assert(undo_stack@ =~= pre_stack.drop_last());
                assert forall|i: int|
                    0 <= i < stack_views(undo_stack@).len() implies stack_views(undo_stack@)[i]
                    == stack_views(pre_stack).drop_last()[i] by {
                    assert(stack_views(undo_stack@)[i] == undo_stack@[i]@);
                    assert(undo_stack@[i] == pre_stack[i]);
                    assert(stack_views(pre_stack)[i] == pre_stack[i]@);
                }
                assert(stack_views(undo_stack@) =~= stack_views(pre_stack).drop_last());
                assert(c@ == stack_views(pre_stack).last());
            }
            c.execute(&mut self.root);
        }
        proof {
            assert(stack_views(undo_stack@) =~= Seq::<UndoModel>::empty());
        }
    }

    /// Applies one operation under the prefix, returning the inverse the
    /// engine records, or the exact error with the document unchanged.
    fn apply_one(&mut self, prefix: Option<&JsonPointer>, cmd: JsonPatch) -> (r: Result<
        Option<UndoCommand>,
        MemDbError,
    >)
        requires
            wf(old(self)@),
            crate::patch::patch_wf(cmd@),
            crate::patch::op_len_ok(prefix_view(prefix), cmd@),
        ensures
            match r {
                Ok(u) => crate::patch::model_apply_op(
                    old(self)@,
                    crate::patch::prefixed(prefix_view(prefix), cmd@),
                ) == Ok::<JsonModel, crate::patch::ErrorModel>(final(self)@) && wf(final(self)@)
                    && (match u {
                    Some(c) => crate::undo::op_undo(
                        old(self)@,
                        crate::patch::prefixed(prefix_view(prefix), cmd@),
                    ) == Some(c@) && undo_wf(c@),
                    None => crate::undo::op_undo(
                        old(self)@,
                        crate::patch::prefixed(prefix_view(prefix), cmd@),
                    ) is None,
                }),
                Err(e) => final(self)@ == old(self)@ && crate::patch::model_apply_op(
                    old(self)@,
                    crate::patch::prefixed(prefix_view(prefix), cmd@),
                ) == Err::<JsonModel, crate::patch::ErrorModel>(e@),
            },
    {
        let ghost m0 = self@;
        let ghost pvv = prefix_view(prefix);
        match cmd {
            JsonPatch::Add { path, value } => {
                let composed = path.with_prefix_opt(prefix);
                proof {
                    assert(composed@ =~= pvv + path@);
                }
                if composed.is_empty() {
                    let mut prev = value;
                    core::mem::swap(&mut self.root, &mut prev);
                    Ok(Some(UndoCommand::ReplaceRoot { prev_value: prev }))
                } else {
                    match do_insert(&mut self.root, composed, 0, value) {
                        Ok(spot) => {
                            proof {
                                assert(composed@.skip(0) =~= composed@);
                            }
                            let sl = composed.split_last();
                            let (parent_ref, key) = match sl {
                                Some(pair) => pair,
                                None => {
                                    proof {
                                        assert(false);
                                    }
                                    (composed, "")
                                },
                            };
                            let parent = parent_ref.to_owned();
                            let u = match spot {
                                InsSpot::ObjPrev(prev) => UndoCommand::Add {
                                    target: UpdateTarget::Object { path: parent, key: key.to_owned() },
                                    prev_value: prev,
                                },
                                InsSpot::ArrAt(idx) => UndoCommand::Add {
                                    target: UpdateTarget::ArrayInsert { path: parent, index: idx },
                                    prev_value: None,
                                },
                                InsSpot::ArrEnd => UndoCommand::Add {
                                    target: UpdateTarget::ArrayAppend { path: parent },
                                    prev_value: None,
                                },
                            };
                            Ok(Some(u))
                        },
                        Err((_, k)) => {
                            proof {
                                assert(composed@.skip(0) =~= composed@);
                            }
                            Err(add_error(k, composed))
                        },
                    }
                }
            },
            JsonPatch::Remove { path } => {
                let composed = path.with_prefix_opt(prefix);
                proof {
                    assert(composed@ =~= pvv + path@);
                }
                if composed.is_empty() {
                    Err(MemDbError::EmptyPath)
                } else {
                    match do_take(&mut self.root, composed, 0) {
                        Ok((val, spot)) => {
                            proof {
                                assert(composed@.skip(0) =~= composed@);
                            }
                            let sl = composed.split_last();
                            let (parent_ref, key) = match sl {
                                Some(pair) => pair,
                                None => {
                                    proof {
                                        assert(false);
                                    }
                                    (composed, "")
                                },
                            };
                            let parent = parent_ref.to_owned();
                            let source = match spot {
                                TakeSpot::KeyTaken => UpdateSource::Object {
                                    path: parent,
                                    key: key.to_owned(),
                                },
                                TakeSpot::AtTaken(idx) => UpdateSource::Array {
                                    path: parent,
                                    index: idx,
                                },
                            };
                            Ok(Some(UndoCommand::Remove { source, prev_value: val }))
                        },
                        Err(k) => {
                            proof {
                                assert(composed@.skip(0) =~= composed@);
                            }
                            Err(remove_error(k, composed, composed))
                        },
                    }
                }
            },
            JsonPatch::Replace { path, value } => {
                let composed = path.with_prefix_opt(prefix);
                proof {
                    assert(composed@ =~= pvv + path@);
                }
                if composed.is_empty() {
                    let mut prev = value;
                    core::mem::swap(&mut self.root, &mut prev);
                    Ok(Some(UndoCommand::ReplaceRoot { prev_value: prev }))
                } else {
                    match do_assign(&mut self.root, composed, 0, value) {
                        Ok((prev, spot)) => {
                            proof {
                                assert(composed@.skip(0) =~= composed@);
                            }
                            let sl = composed.split_last();
                            let (parent_ref, key) = match sl {
                                Some(pair) => pair,
                                None => {
                                    proof {
                                        assert(false);
                                    }
                                    (composed, "")
                                },
                            };
                            let parent = parent_ref.to_owned();
                            let source = match spot {
                                AssignSpot::KeySet => UpdateSource::Object {
                                    path: parent,
                                    key: key.to_owned(),
                                },
                                AssignSpot::AtSet(idx) => UpdateSource::Array {
                                    path: parent,
                                    index: idx,
                                },
                            };
                            Ok(Some(UndoCommand::Replace { source, prev_value: prev }))
                        },
                        Err(_) => {
                            proof {
                                assert(composed@.skip(0) =~= composed@);
                                crate::model::lemma_replace_resolves(
                                    m0,
                                    composed@,
                                    (cmd@)->Replace_value,
                                );
                            }
                            Err(MemDbError::PathNotFound { path: composed.to_owned() })
                        },
                    }
                }
            },
            JsonPatch::Move { from, path } => {
                let composed_from = from.with_prefix_opt(prefix);
                let composed_path = path.with_prefix_opt(prefix);
                proof {
                    assert(composed_from@ =~= pvv + from@);
                    assert(composed_path@ =~= pvv + path@);
                }
                if composed_from.is_empty() {
                    Err(MemDbError::EmptyPath)
                } else {
                    match do_take(&mut self.root, composed_from, 0) {
                        Err(k) => {
                            proof {
                                assert(composed_from@.skip(0) =~= composed_from@);
                            }
                            Err(remove_error(k, composed_from, composed_path))
                        },
                        Ok((val, sspot)) => {
                            proof {
                                assert(composed_from@.skip(0) =~= composed_from@);
                            }
                            let sl = composed_from.split_last();
                            let (sparent_ref, skey) = match sl {
                                Some(pair) => pair,
                                None => {
                                    proof {
                                        assert(false);
                                    }
                                    (composed_from, "")
                                },
                            };
                            let sparent = sparent_ref.to_owned();
                            let source = match sspot {
                                TakeSpot::KeyTaken => UpdateSource::Object {
                                    path: sparent,
                                    key: skey.to_owned(),
                                },
                                TakeSpot::AtTaken(idx) => UpdateSource::Array {
                                    path: sparent,
                                    index: idx,
                                },
                            };
                            if composed_path.is_empty() {
                                let mut prev = val;
                                core::mem::swap(&mut self.root, &mut prev);
                                Ok(Some(UndoCommand::MoveToRoot { source, prev_value: prev }))
                            } else {
                                let ghost m1 = self@;
                                match do_insert(&mut self.root, composed_path, 0, val) {
                                    Ok(tspot) => {
                                        proof {
                                            assert(composed_path@.skip(0) =~= composed_path@);
                                        }
                                        let sl2 = composed_path.split_last();
                                        let (tparent_ref, tkey) = match sl2 {
                                            Some(pair) => pair,
                                            None => {
                                                proof {
                                                    assert(false);
                                                }
                                                (composed_path, "")
                                            },
                                        };
                                        let tparent = tparent_ref.to_owned();
                                        let u = match tspot {
                                            InsSpot::ObjPrev(prev) => UndoCommand::Move {
                                                source,
                                                target: UpdateTarget::Object {
                                                    path: tparent,
                                                    key: tkey.to_owned(),
                                                },
                                                prev_value: prev,
                                            },
                                            InsSpot::ArrAt(idx) => UndoCommand::Move {
                                                source,
                                                target: UpdateTarget::ArrayInsert {
                                                    path: tparent,
                                                    index: idx,
                                                },
                                                prev_value: None,
                                            },
                                            InsSpot::ArrEnd => UndoCommand::Move {
                                                source,
                                                target: UpdateTarget::ArrayAppend { path: tparent },
                                                prev_value: None,
                                            },
                                        };
                                        Ok(Some(u))
                                    },
                                    Err((val_back, k)) => {
                                        // Put the taken value back before reporting: the
                                        // operation must leave the document unchanged.
                                        proof {
                                            assert(composed_path@.skip(0) =~= composed_path@);
                                            crate::undo::lemma_remove_roundtrip(
                                                m0,
                                                composed_from@,
                                            );
                                        }
                                        let (spath, se) = source_restore_edit(source, val_back);
                                        let _n = spath.len();
                                        proof {
                                            assert(spath@.skip(0) =~= spath@);
                                        }
                                        let _ = apply_edit(&mut self.root, spath.as_ref(), 0, se);
                                        Err(add_error(k, composed_path))
                                    },
                                }
                            }
                        },
                    }
                }
            },
            JsonPatch::Copy { from, path } => {
                let composed_from = from.with_prefix_opt(prefix);
                let composed_path = path.with_prefix_opt(prefix);
                proof {
                    assert(composed_from@ =~= pvv + from@);
                    assert(composed_path@ =~= pvv + path@);
                }
                if composed_from.is_empty() {
                    Err(MemDbError::EmptyPath)
                } else {
                    match read_source(&self.root, composed_from, 0) {
                        Err(k) => {
                            proof {
                                assert(composed_from@.skip(0) =~= composed_from@);
                            }
                            Err(remove_error(k, composed_from, composed_path))
                        },
                        Ok(c) => {
                            proof {
                                assert(composed_from@.skip(0) =~= composed_from@);
                            }
                            if composed_path.is_empty() {
                                let mut prev = c;
                                core::mem::swap(&mut self.root, &mut prev);
                                Ok(Some(UndoCommand::CopyToRoot { prev_value: prev }))
                            } else {
                                match do_insert(&mut self.root, composed_path, 0, c) {
                                    Ok(tspot) => {
                                        proof {
                                            assert(composed_path@.skip(0) =~= composed_path@);
                                        }
                                        let sl2 = composed_path.split_last();
                                        let (tparent_ref, tkey) = match sl2 {
                                            Some(pair) => pair,
                                            None => {
                                                proof {
                                                    assert(false);
                                                }
                                                (composed_path, "")
                                            },
                                        };
                                        let tparent = tparent_ref.to_owned();
                                        let u = match tspot {
                                            InsSpot::ObjPrev(prev) => UndoCommand::Copy {
                                                target: UpdateTarget::Object {
                                                    path: tparent,
                                                    key: tkey.to_owned(),
                                                },
                                                prev_value: prev,
                                            },
                                            InsSpot::ArrAt(idx) => UndoCommand::Copy {
                                                target: UpdateTarget::ArrayInsert {
                                                    path: tparent,
                                                    index: idx,
                                                },
                                                prev_value: None,
                                            },
                                            InsSpot::ArrEnd => UndoCommand::Copy {
                                                target: UpdateTarget::ArrayAppend { path: tparent },
                                                prev_value: None,
                                            },
                                        };
                                        Ok(Some(u))
                                    },
                                    Err((_, k)) => {
                                        proof {
                                            assert(composed_path@.skip(0) =~= composed_path@);
                                        }
                                        Err(add_error(k, composed_path))
                                    },
                                }
                            }
                        },
                    }
                }
            },
            JsonPatch::Test { path, value } => {
                let composed = path.with_prefix_opt(prefix);
                proof {
                    assert(composed@ =~= pvv + path@);
                }
                let found = crate::value::locate(&self.root, composed);
                let null_v = Json::Null;
                let target = match found {
                    Some(c) => c,
                    None => &null_v,
                };
                if crate::value::json_eq(target, &value) {
                    Ok(None)
                } else {
                    Err(MemDbError::TestFailed)
                }
            },
        }
    }

    /// Applies a batch of operations atomically under an optional prefix.
    /// Either every operation lands, in order, or the first error is
    /// returned and the document is exactly what it was.
    #[verifier::loop_isolation(false)]
    #[verifier::rlimit(100)]
    pub fn patch(&mut self, prefix: Option<&JsonPointer>, commands: Vec<JsonPatch>) -> (r: Result<
        (),
        MemDbError,
    >)
        requires
            wf(old(self)@),
            forall|i: int|
                0 <= i < commands@.len() ==> crate::patch::patch_wf((#[trigger] commands@[i])@),
            forall|i: int|
                0 <= i < commands@.len() ==> crate::patch::op_len_ok(
                    prefix_view(prefix),
                    (#[trigger] commands@[i])@,
                ),
        ensures
            match r {
                Ok(()) => crate::patch::model_apply_batch(
                    old(self)@,
                    prefix_view(prefix),
                    batch_views(commands@),
                ) == Ok::<JsonModel, crate::patch::ErrorModel>(final(self)@) && wf(final(self)@),
                Err(e) => final(self)@ == old(self)@ && crate::patch::model_apply_batch(
                    old(self)@,
                    prefix_view(prefix),
                    batch_views(commands@),
                ) == Err::<JsonModel, crate::patch::ErrorModel>(e@),
            },
    {
        let ghost m0 = self@;
        let ghost pvv = prefix_view(prefix);
        let ghost all = batch_views(commands@);
        let mut cmds = commands;
        let mut undo_stack: Vec<UndoCommand> = Vec::new();
        proof {
            assert(stack_views(undo_stack@) =~= Seq::<UndoModel>::empty());
        }
        while cmds.len() > 0
            invariant
                wf(self@),
                forall|i: int|
                    0 <= i < cmds@.len() ==> crate::patch::patch_wf(
                        (#[trigger] cmds@[i])@,
                    ),
                forall|i: int|
                    0 <= i < cmds@.len() ==> crate::patch::op_len_ok(
                        pvv,
                        (#[trigger] cmds@[i])@,
                    ),
                pvv == prefix_view(prefix),
                crate::patch::model_apply_batch(m0, pvv, all) == crate::patch::model_apply_batch(
                    self@,
                    pvv,
                    batch_views(cmds@),
                ),
                crate::undo::rollback_model(stack_views(undo_stack@), self@) == m0,
                forall|k: int|
                    0 <= k < stack_views(undo_stack@).len() ==> undo_wf(
                        #[trigger] stack_views(undo_stack@)[k],
                    ),
            decreases cmds@.len(),
        {
            let ghost pre_cmds = cmds@;
            let cmd = cmds.remove(0);
            proof {
                lemma_batch_views(pre_cmds);
                lemma_batch_views(cmds@);
                assert(cmds@ =~= pre_cmds.skip(1));
                assert forall|i: int|
                    0 <= i < batch_views(cmds@).len() implies batch_views(cmds@)[i]
                    == batch_views(pre_cmds).skip(1)[i] by {
                    assert(batch_views(cmds@)[i] == cmds@[i]@);
                    assert(batch_views(pre_cmds).skip(1)[i] == pre_cmds[i + 1]@);
                    assert(cmds@[i] == pre_cmds[i + 1]);
                }
                assert(batch_views(cmds@) =~= batch_views(pre_cmds).skip(1));
                assert(cmd@ == batch_views(pre_cmds)[0]);
            }
            let ghost cur = self@;
            match self.apply_one(prefix, cmd) {
                Ok(u) => {
                    proof {
                        assert(crate::patch::patch_wf(
                            crate::patch::prefixed(pvv, cmd@),
                        ));
                        crate::undo::lemma_op_inverse(
                            cur,
                            crate::patch::prefixed(pvv, cmd@),
                        );
                    }
                    match u {
                        Some(c) => {
                            let ghost pre_stack = undo_stack@;
                            undo_stack.push(c);
                            proof {
                                lemma_stack_views(pre_stack);
                                lemma_stack_views(undo_stack@);
                                assert(undo_stack@ =~= pre_stack.push(c));
                                assert forall|i: int|
                                    0 <= i < stack_views(undo_stack@).len() implies stack_views(
                                    undo_stack@,
                                )[i] == stack_views(pre_stack).push(c@)[i] by {
                                    assert(stack_views(undo_stack@)[i] == undo_stack@[i]@);
                                    if i < pre_stack.len() {
                                        assert(undo_stack@[i] == pre_stack[i]);
                                        assert(stack_views(pre_stack)[i] == pre_stack[i]@);
                                    }
                                }
                                assert(stack_views(undo_stack@) =~= stack_views(pre_stack).push(
                                    c@,
                                ));
                                assert(stack_views(undo_stack@).drop_last() =~= stack_views(
                                    pre_stack,
                                ));
                                assert(crate::undo::rollback_model(
                                    stack_views(undo_stack@),
                                    self@,
                                ) == crate::undo::rollback_model(
                                    stack_views(pre_stack),
                                    undo_apply(c@, self@),
                                ));
                            }
                        },
                        None => {},
                    }
                    proof {
                        assert(cmds@.len() < pre_cmds.len());
                    }
                },
                Err(e) => {
                    let mut stack_out: Vec<UndoCommand> = Vec::new();
                    core::mem::swap(&mut undo_stack, &mut stack_out);
                    self.rollback(stack_out, Ghost(m0));
                    return Err(e);
                },
            }
        }
        proof {
            assert(batch_views(cmds@) =~= Seq::<PatchModel>::empty());
        }
        Ok(())
    }
}

} // verus!
