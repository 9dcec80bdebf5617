//! The in-memory document value, and how it maps onto the model.

use vstd::prelude::*;

use crate::model::is_digit;
use crate::model::digits_val;
use crate::model::seg_index;
use crate::model::lemma_digits_val_nonneg;
use crate::model::JsonModel;
use crate::model::obj_get;
use crate::model::model_lookup;
use crate::pointer::JsonPointerRef;
use crate::text::chars_of;

verus! {

/// A document value.  Objects are association lists sorted strictly by key;
/// numbers carry their canonical decimal text, so structural equality of
/// values is equality of models.
#[derive(PartialEq, Debug)]
pub enum Json {
    Null,
    Bool(bool),
    Num(String),
    Str(String),
    Arr(Vec<Json>),
    Obj(Vec<(String, Json)>),
}

/// The model of a value.
pub open spec fn view_of(v: Json) -> JsonModel
    decreases v,
{
    match v {
        Json::Null => JsonModel::Null,
        Json::Bool(b) => JsonModel::Bool(b),
        Json::Num(s) => JsonModel::Num(s@),
        Json::Str(s) => JsonModel::Str(s@),
        Json::Arr(a) => JsonModel::Arr(view_of_list(a@)),
        Json::Obj(o) => JsonModel::Obj(view_of_entries(o@)),
    }
}

/// The models of the elements of an array.
pub open spec fn view_of_list(s: Seq<Json>) -> Seq<JsonModel>
    decreases s,
{
    if s.len() == 0 {
        Seq::empty()
    } else {
        view_of_list(s.drop_last()).push(view_of(s.last()))
    }
}

/// The models of the entries of an object.
pub open spec fn view_of_entries(s: Seq<(String, Json)>) -> Seq<(Seq<char>, JsonModel)>
    decreases s,
{
    if s.len() == 0 {
        Seq::empty()
    } else {
        view_of_entries(s.drop_last()).push((s.last().0@, view_of(s.last().1)))
    }
}

impl View for Json {
    type V = JsonModel;

    open spec fn view(&self) -> JsonModel {
        view_of(*self)
    }
}

/// The element views line up with the elements.
pub proof fn lemma_view_list(s: Seq<Json>)
    ensures
        view_of_list(s).len() == s.len(),
        forall|i: int| 0 <= i < s.len() ==> view_of_list(s)[i] == view_of(#[trigger] s[i]),
    decreases s,
{
    if s.len() > 0 {
        lemma_view_list(s.drop_last());
        assert forall|i: int| 0 <= i < s.len() implies view_of_list(s)[i] == view_of(
            #[trigger] s[i],
        ) by {
            if i < s.len() - 1 {
                assert(view_of_list(s)[i] == view_of_list(s.drop_last())[i]);
                assert(s.drop_last()[i] == s[i]);
            }
        }
    }
}

/// The entry views line up with the entries.
pub proof fn lemma_view_entries(s: Seq<(String, Json)>)
    ensures
        view_of_entries(s).len() == s.len(),
        forall|i: int| 0 <= i < s.len() ==> view_of_entries(s)[i] == (
        (#[trigger] s[i]).0@,
        view_of(s[i].1),
        ),
    decreases s,
{
    if s.len() > 0 {
        lemma_view_entries(s.drop_last());
        assert forall|i: int| 0 <= i < s.len() implies view_of_entries(s)[i] == (
        (#[trigger] s[i]).0@,
        view_of(s[i].1),
        ) by {
            if i < s.len() - 1 {
                assert(view_of_entries(s)[i] == view_of_entries(s.drop_last())[i]);
                assert(s.drop_last()[i] == s[i]);
            }
        }
    }
}

/// Updating one element updates its view.
pub proof fn lemma_view_list_update(s: Seq<Json>, j: int, e: Json)
    requires
        0 <= j < s.len(),
    ensures
        view_of_list(s.update(j, e)) == view_of_list(s).update(j, view_of(e)),
{
    lemma_view_list(s);
    lemma_view_list(s.update(j, e));
    assert forall|i: int| 0 <= i < s.len() implies view_of_list(s.update(j, e))[i]
        == view_of_list(s).update(j, view_of(e))[i] by {
        if i != j {
            assert(s.update(j, e)[i] == s[i]);
        } else {
            assert(s.update(j, e)[i] == e);
        }
    }
    assert(view_of_list(s.update(j, e)) =~= view_of_list(s).update(j, view_of(e)));
}

/// Inserting one element inserts its view.
pub proof fn lemma_view_list_insert(s: Seq<Json>, j: int, e: Json)
    requires
        0 <= j <= s.len(),
    ensures
        view_of_list(s.insert(j, e)) == view_of_list(s).insert(j, view_of(e)),
{
    lemma_view_list(s);
    lemma_view_list(s.insert(j, e));
    assert forall|i: int| 0 <= i < s.len() + 1 implies view_of_list(s.insert(j, e))[i]
        == view_of_list(s).insert(j, view_of(e))[i] by {
        if i < j {
            assert(s.insert(j, e)[i] == s[i]);
        } else if i == j {
            assert(s.insert(j, e)[i] == e);
        } else {
            assert(s.insert(j, e)[i] == s[i - 1]);
        }
    }
    assert(view_of_list(s.insert(j, e)) =~= view_of_list(s).insert(j, view_of(e)));
}

/// Removing one element removes its view.
pub proof fn lemma_view_list_remove(s: Seq<Json>, j: int)
    requires
        0 <= j < s.len(),
    ensures
        view_of_list(s.remove(j)) == view_of_list(s).remove(j),
{
    lemma_view_list(s);
    lemma_view_list(s.remove(j));
    assert forall|i: int| 0 <= i < s.len() - 1 implies view_of_list(s.remove(j))[i]
        == view_of_list(s).remove(j)[i] by {
        if i < j {
            assert(s.remove(j)[i] == s[i]);
        } else {
            assert(s.remove(j)[i] == s[i + 1]);
        }
    }
    assert(view_of_list(s.remove(j)) =~= view_of_list(s).remove(j));
}

/// Appending one element appends its view.
pub proof fn lemma_view_list_push(s: Seq<Json>, e: Json)
    ensures
        view_of_list(s.push(e)) == view_of_list(s).push(view_of(e)),
{
    lemma_view_list(s);
    lemma_view_list(s.push(e));
    assert forall|i: int| 0 <= i < s.len() + 1 implies view_of_list(s.push(e))[i] == view_of_list(
        s,
    ).push(view_of(e))[i] by {
        if i < s.len() {
            assert(s.push(e)[i] == s[i]);
        } else {
            assert(s.push(e)[i] == e);
        }
    }
    assert(view_of_list(s.push(e)) =~= view_of_list(s).push(view_of(e)));
}

/// Dropping the last element drops its view.
pub proof fn lemma_view_list_drop_last(s: Seq<Json>)
    requires
        s.len() > 0,
    ensures
        view_of_list(s.drop_last()) == view_of_list(s).drop_last(),
{
    lemma_view_list(s);
    lemma_view_list(s.drop_last());
    assert(view_of_list(s.drop_last()) =~= view_of_list(s).drop_last());
}

/// Updating one entry updates its view.
pub proof fn lemma_view_entries_update(s: Seq<(String, Json)>, j: int, e: (String, Json))
    requires
        0 <= j < s.len(),
    ensures
        view_of_entries(s.update(j, e)) == view_of_entries(s).update(j, (e.0@, view_of(e.1))),
{
    lemma_view_entries(s);
    lemma_view_entries(s.update(j, e));
    assert forall|i: int| 0 <= i < s.len() implies view_of_entries(s.update(j, e))[i]
        == view_of_entries(s).update(j, (e.0@, view_of(e.1)))[i] by {
        if i != j {
            assert(s.update(j, e)[i] == s[i]);
        } else {
            assert(s.update(j, e)[i] == e);
        }
    }
    assert(view_of_entries(s.update(j, e)) =~= view_of_entries(s).update(j, (e.0@, view_of(e.1))));
}

/// Inserting one entry inserts its view.
pub proof fn lemma_view_entries_insert(s: Seq<(String, Json)>, j: int, e: (String, Json))
    requires
        0 <= j <= s.len(),
    ensures
        view_of_entries(s.insert(j, e)) == view_of_entries(s).insert(j, (e.0@, view_of(e.1))),
{
    lemma_view_entries(s);
    lemma_view_entries(s.insert(j, e));
    assert forall|i: int| 0 <= i < s.len() + 1 implies view_of_entries(s.insert(j, e))[i]
        == view_of_entries(s).insert(j, (e.0@, view_of(e.1)))[i] by {
        if i < j {
            assert(s.insert(j, e)[i] == s[i]);
        } else if i == j {
            assert(s.insert(j, e)[i] == e);
        } else {
            assert(s.insert(j, e)[i] == s[i - 1]);
        }
    }
    assert(view_of_entries(s.insert(j, e)) =~= view_of_entries(s).insert(
        j,
        (e.0@, view_of(e.1)),
    ));
}

/// Removing one entry removes its view.
pub proof fn lemma_view_entries_remove(s: Seq<(String, Json)>, j: int)
    requires
        0 <= j < s.len(),
    ensures
        view_of_entries(s.remove(j)) == view_of_entries(s).remove(j),
{
    lemma_view_entries(s);
    lemma_view_entries(s.remove(j));
    assert forall|i: int| 0 <= i < s.len() - 1 implies view_of_entries(s.remove(j))[i]
        == view_of_entries(s).remove(j)[i] by {
        if i < j {
            assert(s.remove(j)[i] == s[i]);
        } else {
            assert(s.remove(j)[i] == s[i + 1]);
        }
    }
    assert(view_of_entries(s.remove(j)) =~= view_of_entries(s).remove(j));
}

/// A number naming the model's shape.
pub open spec fn tag_of(m: JsonModel) -> int {
    match m {
        JsonModel::Null => 0,
        JsonModel::Bool(_) => 1,
        JsonModel::Num(_) => 2,
        JsonModel::Str(_) => 3,
        JsonModel::Arr(_) => 4,
        JsonModel::Obj(_) => 5,
    }
}

/// Reads the shape of a value.
fn tag(v: &Json) -> (n: u8)
    ensures
        n as int == tag_of(v@),
{
    match v {
        Json::Null => 0,
        Json::Bool(_) => 1,
        Json::Num(_) => 2,
        Json::Str(_) => 3,
        Json::Arr(_) => 4,
        Json::Obj(_) => 5,
    }
}

/// Structural equality: equality of models.  This is the one equality the
/// engine's `test` operation uses.
#[verifier::loop_isolation(false)]
pub fn json_eq(a: &Json, b: &Json) -> (r: bool)
    ensures
        r == (a@ == b@),
    decreases *a,
{
    if tag(a) != tag(b) {
        return false;
    }
    match (a, b) {
        (Json::Null, Json::Null) => true,
        (Json::Bool(x), Json::Bool(y)) => x == y,
        (Json::Num(x), Json::Num(y)) => String::eq(x, y),
        (Json::Str(x), Json::Str(y)) => String::eq(x, y),
        (Json::Arr(x), Json::Arr(y)) => {
            proof {
                lemma_view_list(x@);
                lemma_view_list(y@);
            }
            if x.len() != y.len() {
                return false;
            }
            let mut j: usize = 0;
            while j < x.len()
                invariant
                    j <= x@.len(),
                    x@.len() == y@.len(),
                    forall|i: int| 0 <= i < j ==> view_of(#[trigger] x@[i]) == view_of(y@[i]),
                decreases x@.len() - j,
            {
                proof {
                    assert(decreases_to!(*a => *x));
                    assert(decreases_to!(*x => x@[j as int]));
                }
                if !json_eq(&x[j], &y[j]) {
                    proof {
                        assert(view_of_list(x@)[j as int] == view_of(x@[j as int]));
                        assert(view_of_list(y@)[j as int] == view_of(y@[j as int]));
                        assert(view_of_list(x@)[j as int] != view_of_list(y@)[j as int]);
                    }
                    return false;
                }
                j = j + 1;
            }
            proof {
                assert forall|i: int| 0 <= i < x@.len() implies view_of_list(x@)[i]
                    == view_of_list(y@)[i] by {
                    assert(view_of_list(x@)[i] == view_of(x@[i]));
                    assert(view_of_list(y@)[i] == view_of(y@[i]));
                }
                assert(view_of_list(x@) =~= view_of_list(y@));
            }
            true
        },
        (Json::Obj(x), Json::Obj(y)) => {
            proof {
                lemma_view_entries(x@);
                lemma_view_entries(y@);
            }
            if x.len() != y.len() {
                return false;
            }
            let mut j: usize = 0;
            while j < x.len()
                invariant
                    j <= x@.len(),
                    x@.len() == y@.len(),
                    forall|i: int| 0 <= i < j ==> (#[trigger] x@[i]).0@ == y@[i].0@ && view_of(
                        x@[i].1,
                    ) == view_of(y@[i].1),
                decreases x@.len() - j,
            {
                proof {
                    assert(decreases_to!(*a => *x));
                    assert(decreases_to!(*x => x@[j as int]));
                    assert(decreases_to!(x@[j as int] => x@[j as int].1));
                }
                if !String::eq(&x[j].0, &y[j].0) {
                    proof {
                        assert(view_of_entries(x@)[j as int] == (x@[j as int].0@, view_of(
                            x@[j as int].1,
                        )));
                        assert(view_of_entries(y@)[j as int] == (y@[j as int].0@, view_of(
                            y@[j as int].1,
                        )));
                        assert(view_of_entries(x@)[j as int] != view_of_entries(y@)[j as int]);
                    }
                    return false;
                }
                if !json_eq(&x[j].1, &y[j].1) {
                    proof {
                        assert(view_of_entries(x@)[j as int] == (x@[j as int].0@, view_of(
                            x@[j as int].1,
                        )));
                        assert(view_of_entries(y@)[j as int] == (y@[j as int].0@, view_of(
                            y@[j as int].1,
                        )));
                        assert(view_of_entries(x@)[j as int] != view_of_entries(y@)[j as int]);
                    }
                    return false;
                }
                j = j + 1;
            }
            proof {
                assert forall|i: int| 0 <= i < x@.len() implies view_of_entries(x@)[i]
                    == view_of_entries(y@)[i] by {
                    assert(view_of_entries(x@)[i] == (x@[i].0@, view_of(x@[i].1)));
                    assert(view_of_entries(y@)[i] == (y@[i].0@, view_of(y@[i].1)));
                }
                assert(view_of_entries(x@) =~= view_of_entries(y@));
            }
            true
        },
        _ => {
            proof {
                assert(false);
            }
            false
        },
    }
}

/// A deep, independent copy: the model is unchanged.
#[verifier::loop_isolation(false)]
pub fn deep_clone(v: &Json) -> (r: Json)
    ensures
        r@ == v@,
    decreases *v,
{
    match v {
        Json::Null => Json::Null,
        Json::Bool(b) => Json::Bool(*b),
        Json::Num(s) => Json::Num(s.clone()),
        Json::Str(s) => Json::Str(s.clone()),
        Json::Arr(items) => {
            let mut out: Vec<Json> = Vec::new();
            let mut j: usize = 0;
            proof {
                lemma_view_list(items@);
            }
            while j < items.len()
                invariant
                    j <= items@.len(),
                    out@.len() == j,
                    forall|i: int| 0 <= i < j ==> view_of(#[trigger] out@[i]) == view_of(
                        items@[i],
                    ),
                decreases items@.len() - j,
            {
                proof {
                    assert(decreases_to!(*v => *items));
                    assert(decreases_to!(*items => items@[j as int]));
                }
                let c = deep_clone(&items[j]);
                out.push(c);
                j = j + 1;
            }
            proof {
                lemma_view_list(out@);
                assert forall|i: int| 0 <= i < out@.len() implies view_of_list(out@)[i]
                    == view_of_list(items@)[i] by {
                    assert(view_of_list(out@)[i] == view_of(out@[i]));
                    assert(view_of_list(items@)[i] == view_of(items@[i]));
                }
                assert(view_of_list(out@) =~= view_of_list(items@));
            }
            Json::Arr(out)
        },
        Json::Obj(entries) => {
            let mut out: Vec<(String, Json)> = Vec::new();
            let mut j: usize = 0;
            proof {
                lemma_view_entries(entries@);
            }
            while j < entries.len()
                invariant
                    j <= entries@.len(),
                    out@.len() == j,
                    forall|i: int| 0 <= i < j ==> (#[trigger] out@[i]).0@ == entries@[i].0@
                        && view_of(out@[i].1) == view_of(entries@[i].1),
                decreases entries@.len() - j,
            {
                proof {
                    assert(decreases_to!(*v => *entries));
                    assert(decreases_to!(*entries => entries@[j as int]));
                    assert(decreases_to!(entries@[j as int] => entries@[j as int].1));
                }
                let k = entries[j].0.clone();
                let c = deep_clone(&entries[j].1);
                out.push((k, c));
                j = j + 1;
            }
            proof {
                lemma_view_entries(out@);
                assert forall|i: int| 0 <= i < out@.len() implies view_of_entries(out@)[i]
                    == view_of_entries(entries@)[i] by {
                    assert(view_of_entries(out@)[i] == (out@[i].0@, view_of(out@[i].1)));
                    assert(view_of_entries(entries@)[i] == (entries@[i].0@, view_of(
                        entries@[i].1,
                    )));
                }
                assert(view_of_entries(out@) =~= view_of_entries(entries@));
            }
            Json::Obj(out)
        },
    }
}

/// Keys increasing pair by pair make the whole list sorted.
proof fn lemma_adjacent_chain(es: Seq<(Seq<char>, JsonModel)>, i: int, j: int)
    requires
        forall|k: int| 0 <= k < es.len() - 1 ==> crate::text::lex_lt(
            (#[trigger] es[k]).0,
            es[k + 1].0,
        ),
        0 <= i < j < es.len(),
    ensures
        crate::text::lex_lt(es[i].0, es[j].0),
    decreases j - i,
{
    if j > i + 1 {
        lemma_adjacent_chain(es, i, j - 1);
        crate::text::lemma_lex_lt_trans(es[i].0, es[j - 1].0, es[j].0);
    }
}

/// Decides well-formedness: every object in the tree has strictly
/// increasing keys.
#[verifier::loop_isolation(false)]
pub fn wf_check(v: &Json) -> (r: bool)
    ensures
        r == crate::model::wf(v@),
    decreases *v,
{
    match v {
        Json::Null => true,
        Json::Bool(_) => true,
        Json::Num(_) => true,
        Json::Str(_) => true,
        Json::Arr(items) => {
            proof {
                lemma_view_list(items@);
            }
            let ghost s = view_of_list(items@);
            let mut j: usize = 0;
            let mut ok = true;
            while j < items.len()
                invariant
                    j <= items@.len(),
                    ok == (forall|k: int| 0 <= k < j ==> crate::model::wf(#[trigger] s[k])),
                decreases items@.len() - j,
            {
                proof {
                    assert(decreases_to!(*v => *items));
                    assert(decreases_to!(*items => items@[j as int]));
                    assert(s[j as int] == view_of(items@[j as int]));
                }
                let c = wf_check(&items[j]);
                ok = ok && c;
                j = j + 1;
            }
            proof {
                let ghost m = v@;
                assert(m is Arr && m->Arr_0 == s);
                if ok {
                    assert(crate::model::wf(v@));
                } else {
                    if crate::model::wf(v@) {
                        assert forall|k: int| 0 <= k < s.len() implies crate::model::wf(
                            #[trigger] s[k],
                        ) by {
                            assert(crate::model::wf(m->Arr_0[k]));
                        }
                        assert(false);
                    }
                }
            }
            ok
        },
        Json::Obj(entries) => {
            proof {
                lemma_view_entries(entries@);
            }
            let ghost es = view_of_entries(entries@);
            let mut j: usize = 0;
            let mut ok = true;
            while j < entries.len()
                invariant
                    j <= entries@.len(),
                    ok == ((forall|k: int| 0 <= k < j ==> crate::model::wf(#[trigger] es[k].1))
                        && (forall|k: int|
                        0 <= k < j && k < entries@.len() - 1 ==> crate::text::lex_lt(
                            (#[trigger] es[k]).0,
                            es[k + 1].0,
                        ))),
                decreases entries@.len() - j,
            {
                proof {
                    assert(decreases_to!(*v => *entries));
                    assert(decreases_to!(*entries => entries@[j as int]));
                    assert(decreases_to!(entries@[j as int] => entries@[j as int].1));
                }
                proof {
                    assert(es[j as int] == (entries@[j as int].0@, view_of(entries@[j as int].1)));
                    if j + 1 < entries@.len() {
                        assert(es[j + 1] == (entries@[j + 1].0@, view_of(entries@[j + 1].1)));
                    }
                }
                let c = wf_check(&entries[j].1);
                let pair_ok = if j + 1 < entries.len() {
                    crate::text::str_lt(entries[j].0.as_str(), entries[j + 1].0.as_str())
                } else {
                    true
                };
                proof {
                    let jj = j as int;
                    let pre_ok = ok && c && pair_ok;
                    assert(c == crate::model::wf(es[jj].1));
                    if jj + 1 < entries@.len() {
                        assert(pair_ok == crate::text::lex_lt(es[jj].0, es[jj + 1].0));
                    }
                    if pre_ok {
                        assert forall|k: int| 0 <= k < jj + 1 implies crate::model::wf(
                            #[trigger] es[k].1,
                        ) by {}
                        assert forall|k: int|
                            0 <= k < jj + 1 && k < entries@.len() - 1 implies crate::text::lex_lt(
                            (#[trigger] es[k]).0,
                            es[k + 1].0,
                        ) by {}
                    } else {
                        if ((forall|k: int| 0 <= k < jj + 1 ==> crate::model::wf(
                            #[trigger] es[k].1,
                        )) && (forall|k: int|
                            0 <= k < jj + 1 && k < entries@.len() - 1 ==> crate::text::lex_lt(
                                (#[trigger] es[k]).0,
                                es[k + 1].0,
                            ))) {
                            assert(forall|k: int| 0 <= k < jj ==> crate::model::wf(
                                #[trigger] es[k].1,
                            ));
                            assert(forall|k: int|
                                0 <= k < jj && k < entries@.len() - 1 ==> crate::text::lex_lt(
                                    (#[trigger] es[k]).0,
                                    es[k + 1].0,
                                ));
                            assert(ok && c && pair_ok);
                            assert(false);
                        }
                    }
                }
                ok = ok && c && pair_ok;
                j = j + 1;
            }
            proof {
                if ok {
                    assert forall|a: int, b: int|
                        0 <= a < b < es.len() implies crate::text::lex_lt(
                        (#[trigger] es[a]).0,
                        (#[trigger] es[b]).0,
                    ) by {
                        lemma_adjacent_chain(es, a, b);
                    }
                    assert(crate::model::obj_sorted(es));
                    assert(crate::model::wf(v@));
                } else {
                    let ghost m = v@;
                    assert(m is Obj && m->Obj_0 == es);
                    if crate::model::wf(v@) {
                        assert(crate::model::obj_sorted(m->Obj_0));
                        assert forall|k: int|
                            0 <= k < es.len() && k < es.len() - 1 implies crate::text::lex_lt(
                            (#[trigger] es[k]).0,
                            es[k + 1].0,
                        ) by {
                            assert(crate::text::lex_lt(m->Obj_0[k].0, m->Obj_0[k + 1].0));
                        }
                        assert forall|k: int| 0 <= k < es.len() implies crate::model::wf(
                            #[trigger] es[k].1,
                        ) by {
                            assert(crate::model::wf(m->Obj_0[k].1));
                        }
                        assert(ok);
                        assert(false);
                    }
                }
            }
            ok
        },
    }
}

/// Reads an array index segment: digits only, within the machine range.
pub fn parse_index_str(s: &str) -> (r: Option<usize>)
    ensures
        match r {
            Some(i) => seg_index(s@) == Some(i as int),
            None => seg_index(s@) is None,
        },
{
    let v = chars_of(s);
    if v.len() == 0 {
        return None;
    }
    let mut acc: usize = 0;
    let mut j: usize = 0;
    proof {
        assert(v@.subrange(0, 0) =~= Seq::<char>::empty());
    }
    while j < v.len()
        invariant
            v@ == s@,
            j <= v@.len(),
            v@.len() > 0,
            forall|i: int| 0 <= i < j ==> is_digit(#[trigger] v@[i]),
            acc == digits_val(v@.subrange(0, j as int)),
        decreases v@.len() - j,
    {
        let c = v[j];
        let cu = c as u32;
        if cu < 48 || cu > 57 {
            return None;
        }
        let d = (cu - 48) as usize;
        proof {
            let pre = v@.subrange(0, j as int);
            let now = v@.subrange(0, j + 1);
            assert(now.drop_last() =~= pre);
            assert(now.last() == v@[j as int]);
            assert(digits_val(now) == digits_val(pre) * 10 + d);
            assert(forall|i: int| 0 <= i < pre.len() ==> is_digit(#[trigger] pre[i]));
            lemma_digits_val_nonneg(pre);
        }
        if acc > (usize::MAX - d) / 10 {
            proof {
                vstd::arithmetic::div_mod::lemma_fundamental_div_mod((usize::MAX - d) as int, 10);
                assert(acc * 10 + d > usize::MAX);
                if forall|k: int| 0 <= k < s@.len() ==> is_digit(#[trigger] s@[k]) {
                    lemma_digits_mono(v@, j + 1);
                    assert(digits_val(s@) > usize::MAX);
                }
            }
            return None;
        }
        proof {
            vstd::arithmetic::div_mod::lemma_fundamental_div_mod((usize::MAX - d) as int, 10);
            assert(acc * 10 + d <= usize::MAX);
        }
        acc = acc * 10 + d;
        j = j + 1;
    }
    proof {
        assert(v@.subrange(0, v@.len() as int) =~= s@);
    }
    Some(acc)
}

/// A digit string is worth at least any of its prefixes.
proof fn lemma_digits_mono(s: Seq<char>, i: int)
    requires
        0 <= i <= s.len(),
        forall|k: int| 0 <= k < s.len() ==> is_digit(#[trigger] s[k]),
    ensures
        digits_val(s.subrange(0, i)) <= digits_val(s),
    decreases s.len() - i,
{
    if i == s.len() {
        assert(s.subrange(0, i) =~= s);
    } else {
        lemma_digits_mono(s, i + 1);
        let pre = s.subrange(0, i);
        let now = s.subrange(0, i + 1);
        assert(now.drop_last() =~= pre);
        assert(now.last() == s[i]);
        assert(forall|k: int| 0 <= k < pre.len() ==> is_digit(#[trigger] pre[k]));
        lemma_digits_val_nonneg(pre);
        assert(digits_val(now) == digits_val(pre) * 10 + ((s[i] as u32) - 48));
    }
}

/// The first entry holding `key`, scanning from the front.
pub fn find_key(entries: &Vec<(String, Json)>, key: &str) -> (r: Option<usize>)
    ensures
        match r {
            Some(j) => j < entries@.len() && entries@[j as int].0@ == key@ && forall|i: int|
                0 <= i < j ==> (#[trigger] entries@[i]).0@ != key@,
            None => forall|i: int| 0 <= i < entries@.len() ==> (#[trigger] entries@[i]).0@ != key@,
        },
{
    let mut j: usize = 0;
    while j < entries.len()
        invariant
            j <= entries@.len(),
            forall|i: int| 0 <= i < j ==> (#[trigger] entries@[i]).0@ != key@,
        decreases entries@.len() - j,
    {
        let ks: &str = entries[j].0.as_str();
        let eq = crate::text::str_eq(ks, key);
        if eq {
            return Some(j);
        }
        j = j + 1;
    }
    None
}

/// `obj_get` finds the entry a front-to-back scan finds.
pub proof fn lemma_obj_get_at(es: Seq<(Seq<char>, JsonModel)>, k: Seq<char>, j: int)
    requires
        0 <= j < es.len(),
        es[j].0 == k,
        forall|i: int| 0 <= i < j ==> (#[trigger] es[i]).0 != k,
    ensures
        obj_get(es, k) == Some(es[j].1),
    decreases j,
{
    if j > 0 {
        assert(es[0].0 != k);
        lemma_obj_get_at(es.skip(1), k, j - 1);
        assert(es.skip(1)[j - 1] == es[j]);
        assert(forall|i: int| 0 <= i < j - 1 ==> (#[trigger] es.skip(1)[i]).0 != k);
    }
}

/// `obj_get` finds nothing when no entry holds the key.
pub proof fn lemma_obj_get_absent(es: Seq<(Seq<char>, JsonModel)>, k: Seq<char>)
    requires
        forall|i: int| 0 <= i < es.len() ==> (#[trigger] es[i]).0 != k,
    ensures
        obj_get(es, k) is None,
{
    crate::model::lemma_obj_get_exists(es, k);
}

/// Follows a pointer through the tree, as reads and the engine resolve
/// paths: object keys by name, array indices as digits.
pub fn locate<'a>(v: &'a Json, path: JsonPointerRef<'_>) -> (r: Option<&'a Json>)
    requires
        path@.len() <= usize::MAX,
    ensures
        match r {
            Some(c) => model_lookup(v@, path@) == Some(c@),
            None => model_lookup(v@, path@) is None,
        },
{
    let mut cur: &'a Json = v;
    let n = path.len();
    let mut i: usize = 0;
    proof {
        assert(path@.skip(0) =~= path@);
    }
    while i < n
        invariant
            n == path@.len(),
            i <= n,
            model_lookup(v@, path@) == model_lookup(cur@, path@.skip(i as int)),
        decreases n - i,
    {
        let seg = path.segment(i);
        proof {
            assert(path@.skip(i as int)[0] == path@[i as int]);
            assert(path@.skip(i as int).skip(1) =~= path@.skip(i + 1));
        }
        match cur {
            Json::Obj(entries) => {
                proof {
                    lemma_view_entries(entries@);
                }
                match find_key(entries, seg.as_str()) {
                    Some(j) => {
                        proof {
                            assert forall|i2: int| 0 <= i2 < j implies (#[trigger] view_of_entries(
                                entries@,
                            )[i2]).0 != seg@ by {
                                assert(view_of_entries(entries@)[i2].0 == entries@[i2].0@);
                            }
                            assert(view_of_entries(entries@)[j as int] == (
                            entries@[j as int].0@,
                            view_of(entries@[j as int].1),
                            ));
                            lemma_obj_get_at(view_of_entries(entries@), seg@, j as int);
                        }
                        cur = &entries[j].1;
                    },
                    None => {
                        proof {
                            assert forall|i2: int|
                                0 <= i2 < view_of_entries(entries@).len() implies (
                            #[trigger] view_of_entries(entries@)[i2]).0 != seg@ by {
                                assert(view_of_entries(entries@)[i2].0 == entries@[i2].0@);
                            }
                            lemma_obj_get_absent(view_of_entries(entries@), seg@);
                        }
                        return None;
                    },
                }
            },
            Json::Arr(items) => {
                proof {
                    lemma_view_list(items@);
                }
                match parse_index_str(seg.as_str()) {
                    Some(idx) => {
                        if idx < items.len() {
                            cur = &items[idx];
                        } else {
                            return None;
                        }
                    },
                    None => {
                        return None;
                    },
                }
            },
            _ => {
                return None;
            },
        }
        i = i + 1;
    }
    proof {
        assert(path@.skip(n as int) =~= Seq::<Seq<char>>::empty());
    }
    Some(cur)
}

} // verus!
