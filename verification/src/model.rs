//! The mathematical model of a document: a recursive value whose objects
//! are association sequences sorted strictly by key.  All engine contracts
//! are stated over this model.

use vstd::prelude::*;

use crate::text::lex_lt;
use crate::text::lemma_lex_lt_trans;
use crate::text::lemma_lex_lt_trichotomy;

verus! {

/// A document value, as the contracts see it.  Numbers are carried as their
/// canonical decimal text, so that equality of models is the structural
/// equality the engine's `test` operation uses.
#[verifier::ext_equal]
pub enum JsonModel {
    Null,
    Bool(bool),
    Num(Seq<char>),
    Str(Seq<char>),
    Arr(Seq<JsonModel>),
    Obj(Seq<(Seq<char>, JsonModel)>),
}

/// Keys strictly increase: each key occurs once and order is canonical.
pub open spec fn obj_sorted(es: Seq<(Seq<char>, JsonModel)>) -> bool {
    forall|i: int, j: int| 0 <= i < j < es.len() ==> lex_lt(es[i].0, es[j].0)
}

/// Well-formed: every object in the tree is sorted.
pub open spec fn wf(m: JsonModel) -> bool
    decreases m,
{
    match m {
        JsonModel::Arr(s) => forall|i: int| 0 <= i < s.len() ==> wf(#[trigger] s[i]),
        JsonModel::Obj(es) => obj_sorted(es) && forall|i: int|
            0 <= i < es.len() ==> wf(#[trigger] es[i].1),
        _ => true,
    }
}

/// The value under `k`, when the object has that key.
pub open spec fn obj_get(es: Seq<(Seq<char>, JsonModel)>, k: Seq<char>) -> Option<JsonModel>
    decreases es.len(),
{
    if es.len() == 0 {
        None
    } else if es[0].0 == k {
        Some(es[0].1)
    } else {
        obj_get(es.skip(1), k)
    }
}

/// Binds `k` to `v`: replaces in place, or inserts at the sorted position.
pub open spec fn obj_set(
    es: Seq<(Seq<char>, JsonModel)>,
    k: Seq<char>,
    v: JsonModel,
) -> Seq<(Seq<char>, JsonModel)>
    decreases es.len(),
{
    if es.len() == 0 {
        seq![(k, v)]
    } else if lex_lt(es[0].0, k) {
        seq![es[0]] + obj_set(es.skip(1), k, v)
    } else if es[0].0 == k {
        seq![(k, v)] + es.skip(1)
    } else {
        seq![(k, v)] + es
    }
}

/// Removes the binding of `k`, when present.
pub open spec fn obj_del(es: Seq<(Seq<char>, JsonModel)>, k: Seq<char>) -> Seq<
    (Seq<char>, JsonModel),
>
    decreases es.len(),
{
    if es.len() == 0 {
        es
    } else if es[0].0 == k {
        es.skip(1)
    } else {
        seq![es[0]] + obj_del(es.skip(1), k)
    }
}

/// `k` is a strict lower bound for every key of `es`.
pub open spec fn key_lb(es: Seq<(Seq<char>, JsonModel)>, k: Seq<char>) -> bool {
    forall|i: int| 0 <= i < es.len() ==> lex_lt(k, #[trigger] es[i].0)
}

/// A sequence with one entry in front is sorted exactly when the rest is
/// sorted and the front key bounds it.
pub proof fn lemma_cons_sorted(e: (Seq<char>, JsonModel), es: Seq<(Seq<char>, JsonModel)>)
    ensures
        obj_sorted(seq![e] + es) <==> (obj_sorted(es) && key_lb(es, e.0)),
{
    let all = seq![e] + es;
    if obj_sorted(es) && key_lb(es, e.0) {
        assert forall|i: int, j: int| 0 <= i < j < all.len() implies lex_lt(
            all[i].0,
            all[j].0,
        ) by {
            if i == 0 {
                assert(all[j] == es[j - 1]);
            } else {
                assert(all[i] == es[i - 1]);
                assert(all[j] == es[j - 1]);
            }
        }
    }
    if obj_sorted(all) {
        assert forall|i: int, j: int| 0 <= i < j < es.len() implies lex_lt(
            es[i].0,
            es[j].0,
        ) by {
            assert(es[i] == all[i + 1]);
            assert(es[j] == all[j + 1]);
        }
        assert forall|i: int| 0 <= i < es.len() implies lex_lt(e.0, es[i].0) by {
            assert(all[0] == e);
            assert(es[i] == all[i + 1]);
            assert(lex_lt(all[0].0, all[i + 1].0));
        }
    }
}

/// Sortedness passes to the tail.
pub proof fn lemma_sorted_skip(es: Seq<(Seq<char>, JsonModel)>)
    requires
        obj_sorted(es),
        es.len() > 0,
    ensures
        obj_sorted(es.skip(1)),
        key_lb(es.skip(1), es[0].0),
{
    assert(seq![es[0]] + es.skip(1) =~= es);
    lemma_cons_sorted(es[0], es.skip(1));
}

/// A key is found exactly when some entry holds it.
pub proof fn lemma_obj_get_exists(es: Seq<(Seq<char>, JsonModel)>, k: Seq<char>)
    ensures
        (obj_get(es, k) is Some) <==> exists|i: int| 0 <= i < es.len() && es[i].0 == k,
    decreases es.len(),
{
    if es.len() > 0 {
        lemma_obj_get_exists(es.skip(1), k);
        if es[0].0 == k {
        } else if obj_get(es.skip(1), k) is Some {
            let i = choose|i: int| 0 <= i < es.skip(1).len() && es.skip(1)[i].0 == k;
            assert(es[i + 1].0 == k);
        } else if exists|i: int| 0 <= i < es.len() && es[i].0 == k {
            let i = choose|i: int| 0 <= i < es.len() && es[i].0 == k;
            assert(es.skip(1)[i - 1].0 == k);
        }
    }
}

/// A key strictly below every entry is absent.
pub proof fn lemma_obj_get_lb(es: Seq<(Seq<char>, JsonModel)>, k: Seq<char>)
    requires
        key_lb(es, k),
    ensures
        obj_get(es, k) is None,
{
    lemma_obj_get_exists(es, k);
    if obj_get(es, k) is Some {
        let i = choose|i: int| 0 <= i < es.len() && es[i].0 == k;
        lemma_lex_lt_trichotomy(k, es[i].0);
    }
}

/// Setting a key keeps every strict lower bound that is also below the key.
pub proof fn lemma_obj_set_lb(
    es: Seq<(Seq<char>, JsonModel)>,
    k: Seq<char>,
    v: JsonModel,
    b: Seq<char>,
)
    requires
        key_lb(es, b),
        lex_lt(b, k),
    ensures
        key_lb(obj_set(es, k, v), b),
    decreases es.len(),
{
    if es.len() == 0 {
        assert(obj_set(es, k, v)[0].0 == k);
    } else if lex_lt(es[0].0, k) {
        lemma_sorted_lb_skip(es, b);
        lemma_obj_set_lb(es.skip(1), k, v, b);
        let r = seq![es[0]] + obj_set(es.skip(1), k, v);
        assert forall|i: int| 0 <= i < r.len() implies lex_lt(b, r[i].0) by {
            if i > 0 {
                assert(r[i] == obj_set(es.skip(1), k, v)[i - 1]);
            }
        }
    } else if es[0].0 == k {
        let r = seq![(k, v)] + es.skip(1);
        assert forall|i: int| 0 <= i < r.len() implies lex_lt(b, r[i].0) by {
            if i > 0 {
                assert(r[i] == es[i]);
            }
        }
    } else {
        let r = seq![(k, v)] + es;
        assert forall|i: int| 0 <= i < r.len() implies lex_lt(b, r[i].0) by {
            if i > 0 {
                assert(r[i] == es[i - 1]);
            }
        }
    }
}

/// A lower bound for every key passes to the tail.
proof fn lemma_sorted_lb_skip(es: Seq<(Seq<char>, JsonModel)>, b: Seq<char>)
    requires
        key_lb(es, b),
        es.len() > 0,
    ensures
        key_lb(es.skip(1), b),
{
    assert forall|i: int| 0 <= i < es.skip(1).len() implies lex_lt(b, es.skip(1)[i].0) by {
        assert(es.skip(1)[i] == es[i + 1]);
    }
}

/// Deleting a key keeps every strict lower bound.
pub proof fn lemma_obj_del_lb(es: Seq<(Seq<char>, JsonModel)>, k: Seq<char>, b: Seq<char>)
    requires
        key_lb(es, b),
    ensures
        key_lb(obj_del(es, k), b),
    decreases es.len(),
{
    if es.len() == 0 {
    } else if es[0].0 == k {
        lemma_sorted_lb_skip(es, b);
    } else {
        lemma_sorted_lb_skip(es, b);
        lemma_obj_del_lb(es.skip(1), k, b);
        let r = seq![es[0]] + obj_del(es.skip(1), k);
        assert forall|i: int| 0 <= i < r.len() implies lex_lt(b, r[i].0) by {
            if i > 0 {
                assert(r[i] == obj_del(es.skip(1), k)[i - 1]);
            }
        }
    }
}

/// Setting a key preserves sortedness.
pub proof fn lemma_obj_set_sorted(es: Seq<(Seq<char>, JsonModel)>, k: Seq<char>, v: JsonModel)
    requires
        obj_sorted(es),
    ensures
        obj_sorted(obj_set(es, k, v)),
    decreases es.len(),
{
    if es.len() == 0 {
        lemma_cons_sorted((k, v), Seq::empty());
        assert(seq![(k, v)] + Seq::<(Seq<char>, JsonModel)>::empty() =~= obj_set(es, k, v));
    } else {
        lemma_sorted_skip(es);
        if lex_lt(es[0].0, k) {
            lemma_obj_set_sorted(es.skip(1), k, v);
            lemma_obj_set_lb(es.skip(1), k, v, es[0].0);
            lemma_cons_sorted(es[0], obj_set(es.skip(1), k, v));
        } else if es[0].0 == k {
            lemma_cons_sorted((k, v), es.skip(1));
        } else {
            lemma_lex_lt_trichotomy(es[0].0, k);
            // k is strictly below the head, hence below every key.
            assert forall|i: int| 0 <= i < es.len() implies lex_lt(k, es[i].0) by {
                if i > 0 {
                    lemma_lex_lt_trans(k, es[0].0, es[i].0);
                }
            }
            lemma_cons_sorted((k, v), es);
        }
    }
}

/// Deleting a key preserves sortedness.
pub proof fn lemma_obj_del_sorted(es: Seq<(Seq<char>, JsonModel)>, k: Seq<char>)
    requires
        obj_sorted(es),
    ensures
        obj_sorted(obj_del(es, k)),
    decreases es.len(),
{
    if es.len() == 0 {
    } else {
        lemma_sorted_skip(es);
        if es[0].0 == k {
        } else {
            lemma_obj_del_sorted(es.skip(1), k);
            lemma_obj_del_lb(es.skip(1), k, es[0].0);
            lemma_cons_sorted(es[0], obj_del(es.skip(1), k));
        }
    }
}

/// What a lookup sees after a set: the new value under `k`, everything
/// else untouched.
pub proof fn lemma_obj_get_set(
    es: Seq<(Seq<char>, JsonModel)>,
    k: Seq<char>,
    v: JsonModel,
    k2: Seq<char>,
)
    requires
        obj_sorted(es),
    ensures
        obj_get(obj_set(es, k, v), k2) == if k2 == k {
            Some(v)
        } else {
            obj_get(es, k2)
        },
    decreases es.len(),
{
    lemma_lex_lt_trichotomy(k, k2);
    reveal_with_fuel(obj_get, 3);
    if es.len() == 0 {
        let r = obj_set(es, k, v);
        assert(r[0] == (k, v));
        assert(r.skip(1) =~= Seq::<(Seq<char>, JsonModel)>::empty());
    } else {
        lemma_sorted_skip(es);
        if lex_lt(es[0].0, k) {
            lemma_obj_get_set(es.skip(1), k, v, k2);
            let r = seq![es[0]] + obj_set(es.skip(1), k, v);
            assert(r[0] == es[0]);
            assert(r.skip(1) =~= obj_set(es.skip(1), k, v));
            lemma_lex_lt_trichotomy(es[0].0, k);
        } else if es[0].0 == k {
            let r = seq![(k, v)] + es.skip(1);
            assert(r[0] == (k, v));
            assert(r.skip(1) =~= es.skip(1));
        } else {
            let r = seq![(k, v)] + es;
            assert(r[0] == (k, v));
            assert(r.skip(1) =~= es);
        }
    }
}

/// What a lookup sees after a delete: nothing under `k`, everything else
/// untouched.
pub proof fn lemma_obj_get_del(es: Seq<(Seq<char>, JsonModel)>, k: Seq<char>, k2: Seq<char>)
    requires
        obj_sorted(es),
    ensures
        obj_get(obj_del(es, k), k2) == if k2 == k {
            None::<JsonModel>
        } else {
            obj_get(es, k2)
        },
    decreases es.len(),
{
    if es.len() == 0 {
    } else {
        lemma_sorted_skip(es);
        lemma_obj_get_del(es.skip(1), k, k2);
        if es[0].0 == k {
            if k2 == k {
                lemma_obj_get_lb(es.skip(1), k);
            }
        } else {
            let r = seq![es[0]] + obj_del(es.skip(1), k);
            assert(r[0] == es[0]);
            assert(r.skip(1) =~= obj_del(es.skip(1), k));
        }
    }
}

/// Re-binding a key to the value it already has changes nothing.
pub proof fn lemma_obj_set_id(es: Seq<(Seq<char>, JsonModel)>, k: Seq<char>, v: JsonModel)
    requires
        obj_sorted(es),
        obj_get(es, k) == Some(v),
    ensures
        obj_set(es, k, v) == es,
    decreases es.len(),
{
    lemma_sorted_skip(es);
    if es[0].0 == k {
        lemma_lex_lt_trichotomy(k, k);
        assert(seq![(k, v)] + es.skip(1) =~= es);
    } else {
        lemma_obj_get_exists(es.skip(1), k);
        let i = choose|i: int| 0 <= i < es.skip(1).len() && es.skip(1)[i].0 == k;
        assert(lex_lt(es[0].0, k));
        lemma_obj_set_id(es.skip(1), k, v);
        assert(seq![es[0]] + es.skip(1) =~= es);
    }
}

/// Deleting a key that a set freshly introduced restores the sequence.
pub proof fn lemma_obj_del_set_fresh(es: Seq<(Seq<char>, JsonModel)>, k: Seq<char>, v: JsonModel)
    requires
        obj_sorted(es),
        obj_get(es, k) is None,
    ensures
        obj_del(obj_set(es, k, v), k) == es,
    decreases es.len(),
{
    if es.len() == 0 {
        let r = obj_set(es, k, v);
        assert(r[0] == (k, v));
        assert(r.skip(1) =~= es);
    } else {
        lemma_sorted_skip(es);
        if lex_lt(es[0].0, k) {
            lemma_obj_del_set_fresh(es.skip(1), k, v);
            let r = seq![es[0]] + obj_set(es.skip(1), k, v);
            assert(r[0] == es[0]);
            assert(r.skip(1) =~= obj_set(es.skip(1), k, v));
            lemma_lex_lt_trichotomy(es[0].0, k);
            assert(seq![es[0]] + obj_del(obj_set(es.skip(1), k, v), k) =~= es);
        } else if es[0].0 == k {
        } else {
            let r = seq![(k, v)] + es;
            assert(r[0] == (k, v));
            assert(r.skip(1) =~= es);
        }
    }
}

/// Setting a key that entry `j` holds rewrites that entry in place.
pub proof fn lemma_obj_set_shape(es: Seq<(Seq<char>, JsonModel)>, k: Seq<char>, v: JsonModel, j: int)
    requires
        obj_sorted(es),
        0 <= j < es.len(),
        es[j].0 == k,
    ensures
        obj_set(es, k, v) == es.update(j, (k, v)),
    decreases j,
{
    lemma_sorted_skip(es);
    if j == 0 {
        lemma_lex_lt_trichotomy(k, k);
        assert(seq![(k, v)] + es.skip(1) =~= es.update(0, (k, v)));
    } else {
        assert(lex_lt(es[0].0, k)) by {
            assert(lex_lt(es[0].0, es[j].0));
        }
        assert(es.skip(1)[j - 1] == es[j]);
        lemma_obj_set_shape(es.skip(1), k, v, j - 1);
        assert(seq![es[0]] + es.skip(1).update(j - 1, (k, v)) =~= es.update(j, (k, v)));
    }
}

/// Setting a fresh key inserts it at its sorted position `j`.
pub proof fn lemma_obj_set_insert_shape(
    es: Seq<(Seq<char>, JsonModel)>,
    k: Seq<char>,
    v: JsonModel,
    j: int,
)
    requires
        obj_sorted(es),
        0 <= j <= es.len(),
        forall|i: int| 0 <= i < j ==> lex_lt((#[trigger] es[i]).0, k),
        j == es.len() || lex_lt(k, es[j].0),
    ensures
        obj_set(es, k, v) == es.insert(j, (k, v)),
    decreases j,
{
    if es.len() == 0 {
        assert(seq![(k, v)] =~= es.insert(0, (k, v)));
    } else {
        lemma_sorted_skip(es);
        if j == 0 {
            lemma_lex_lt_trichotomy(es[0].0, k);
            assert(seq![(k, v)] + es =~= es.insert(0, (k, v)));
        } else {
            assert(lex_lt(es[0].0, k)) by {
                assert(lex_lt(es[0].0, k));
            }
            assert forall|i: int| 0 <= i < j - 1 implies lex_lt(
                (#[trigger] es.skip(1)[i]).0,
                k,
            ) by {
                assert(es.skip(1)[i] == es[i + 1]);
            }
            if j < es.len() {
                assert(es.skip(1)[j - 1] == es[j]);
            }
            lemma_obj_set_insert_shape(es.skip(1), k, v, j - 1);
            assert(seq![es[0]] + es.skip(1).insert(j - 1, (k, v)) =~= es.insert(j, (k, v)));
        }
    }
}

/// Deleting the first entry holding `k` removes exactly that entry.
pub proof fn lemma_obj_del_shape(es: Seq<(Seq<char>, JsonModel)>, k: Seq<char>, j: int)
    requires
        0 <= j < es.len(),
        es[j].0 == k,
        forall|i: int| 0 <= i < j ==> (#[trigger] es[i]).0 != k,
    ensures
        obj_del(es, k) == es.remove(j),
    decreases j,
{
    if j == 0 {
        assert(es.skip(1) =~= es.remove(0));
    } else {
        assert(es.skip(1)[j - 1] == es[j]);
        assert(forall|i: int| 0 <= i < j - 1 ==> (#[trigger] es.skip(1)[i]).0 != k);
        lemma_obj_del_shape(es.skip(1), k, j - 1);
        assert(seq![es[0]] + es.skip(1).remove(j - 1) =~= es.remove(j));
    }
}

/// Deleting an absent key changes nothing.
pub proof fn lemma_obj_del_absent(es: Seq<(Seq<char>, JsonModel)>, k: Seq<char>)
    requires
        obj_get(es, k) is None,
    ensures
        obj_del(es, k) == es,
    decreases es.len(),
{
    if es.len() > 0 {
        lemma_obj_del_absent(es.skip(1), k);
        assert(seq![es[0]] + es.skip(1) =~= es);
    }
}

/// A decimal digit.
pub open spec fn is_digit(c: char) -> bool {
    48 <= (c as u32) && (c as u32) <= 57
}

/// The number a digit string denotes, most significant digit first.
pub open spec fn digits_val(s: Seq<char>) -> int
    decreases s.len(),
{
    if s.len() == 0 {
        0
    } else {
        digits_val(s.drop_last()) * 10 + ((s.last() as u32) - 48)
    }
}

/// An array index segment: one or more digits, within the machine range.
/// Leading zeros are read as decimal, as the engine accepts them.
pub open spec fn seg_index(s: Seq<char>) -> Option<int> {
    if s.len() > 0 && (forall|i: int| 0 <= i < s.len() ==> is_digit(#[trigger] s[i]))
        && digits_val(s) <= usize::MAX {
        Some(digits_val(s))
    } else {
        None
    }
}

/// A digit string denotes a non-negative number.
pub proof fn lemma_digits_val_nonneg(s: Seq<char>)
    requires
        forall|i: int| 0 <= i < s.len() ==> is_digit(#[trigger] s[i]),
    ensures
        digits_val(s) >= 0,
    decreases s.len(),
{
    if s.len() > 0 {
        assert(forall|i: int| 0 <= i < s.drop_last().len() ==> is_digit(
            #[trigger] s.drop_last()[i],
        ));
        lemma_digits_val_nonneg(s.drop_last());
    }
}

/// The value at the end of a path, resolving object keys and array indices.
pub open spec fn model_lookup(m: JsonModel, path: Seq<Seq<char>>) -> Option<JsonModel>
    decreases path.len(),
{
    if path.len() == 0 {
        Some(m)
    } else {
        match m {
            JsonModel::Obj(es) => match obj_get(es, path[0]) {
                Some(c) => model_lookup(c, path.skip(1)),
                None => None,
            },
            JsonModel::Arr(s) => match seg_index(path[0]) {
                Some(i) => if 0 <= i < s.len() {
                    model_lookup(s[i], path.skip(1))
                } else {
                    None
                },
                None => None,
            },
            _ => None,
        }
    }
}

/// The document with the value at `path` replaced by `x`; `None` when the
/// path does not resolve.
pub open spec fn model_replace(m: JsonModel, path: Seq<Seq<char>>, x: JsonModel) -> Option<
    JsonModel,
>
    decreases path.len(),
{
    if path.len() == 0 {
        Some(x)
    } else {
        match m {
            JsonModel::Obj(es) => match obj_get(es, path[0]) {
                Some(c) => match model_replace(c, path.skip(1), x) {
                    Some(c2) => Some(JsonModel::Obj(obj_set(es, path[0], c2))),
                    None => None,
                },
                None => None,
            },
            JsonModel::Arr(s) => match seg_index(path[0]) {
                Some(i) => if 0 <= i < s.len() {
                    match model_replace(s[i], path.skip(1), x) {
                        Some(c2) => Some(JsonModel::Arr(s.update(i, c2))),
                        None => None,
                    }
                } else {
                    None
                },
                None => None,
            },
            _ => None,
        }
    }
}

/// A replace resolves exactly when a lookup does.
pub proof fn lemma_replace_resolves(m: JsonModel, path: Seq<Seq<char>>, x: JsonModel)
    ensures
        (model_replace(m, path, x) is Some) <==> (model_lookup(m, path) is Some),
    decreases path.len(),
{
    if path.len() > 0 {
        match m {
            JsonModel::Obj(es) => match obj_get(es, path[0]) {
                Some(c) => lemma_replace_resolves(c, path.skip(1), x),
                None => {},
            },
            JsonModel::Arr(s) => match seg_index(path[0]) {
                Some(i) => {
                    if 0 <= i < s.len() {
                        lemma_replace_resolves(s[i], path.skip(1), x);
                    }
                },
                None => {},
            },
            _ => {},
        }
    }
}


/// The value found under a present key is a value of the tree: it is
/// well formed when the object is.
pub proof fn lemma_obj_get_in(es: Seq<(Seq<char>, JsonModel)>, k: Seq<char>)
    requires
        obj_get(es, k) is Some,
        forall|i: int| 0 <= i < es.len() ==> wf(#[trigger] es[i].1),
    ensures
        wf(obj_get(es, k).unwrap()),
    decreases es.len(),
{
    if es.len() > 0 && es[0].0 != k {
        assert(forall|i: int| 0 <= i < es.skip(1).len() ==> wf(#[trigger] es.skip(1)[i].1));
        lemma_obj_get_in(es.skip(1), k);
    }
}


/// Setting one key twice keeps only the second binding.
pub proof fn lemma_obj_set_set(
    es: Seq<(Seq<char>, JsonModel)>,
    k: Seq<char>,
    v: JsonModel,
    w: JsonModel,
)
    requires
        obj_sorted(es),
    ensures
        obj_set(obj_set(es, k, v), k, w) == obj_set(es, k, w),
    decreases es.len(),
{
    lemma_lex_lt_trichotomy(k, k);
    if es.len() == 0 {
        let r = obj_set(es, k, v);
        assert(r[0] == (k, v));
        assert(seq![(k, w)] + r.skip(1) =~= obj_set(es, k, w));
    } else {
        lemma_sorted_skip(es);
        if lex_lt(es[0].0, k) {
            lemma_obj_set_set(es.skip(1), k, v, w);
            let r = seq![es[0]] + obj_set(es.skip(1), k, v);
            assert(r[0] == es[0]);
            assert(r.skip(1) =~= obj_set(es.skip(1), k, v));
            assert(seq![es[0]] + obj_set(obj_set(es.skip(1), k, v), k, w) =~= obj_set(
                obj_set(es, k, v),
                k,
                w,
            ));
        } else if es[0].0 == k {
            let r = seq![(k, v)] + es.skip(1);
            assert(r[0] == (k, v));
            assert(r.skip(1) =~= es.skip(1));
            assert(seq![(k, w)] + r.skip(1) =~= obj_set(es, k, w));
        } else {
            let r = seq![(k, v)] + es;
            assert(r[0] == (k, v));
            assert(r.skip(1) =~= es);
            assert(seq![(k, w)] + r.skip(1) =~= obj_set(es, k, w));
        }
    }
}


/// After a replace, the path holds the new value.
pub proof fn lemma_lookup_after_replace(m: JsonModel, path: Seq<Seq<char>>, x: JsonModel)
    requires
        wf(m),
        model_replace(m, path, x) is Some,
    ensures
        model_lookup(model_replace(m, path, x)->Some_0, path) == Some(x),
    decreases path.len(),
{
    if path.len() > 0 {
        match m {
            JsonModel::Obj(es) => {
                let c = obj_get(es, path[0])->Some_0;
                lemma_obj_get_in(es, path[0]);
                lemma_lookup_after_replace(c, path.skip(1), x);
                let c2 = model_replace(c, path.skip(1), x)->Some_0;
                lemma_obj_get_set(es, path[0], c2, path[0]);
            },
            JsonModel::Arr(s) => {
                let i = seg_index(path[0])->Some_0;
                lemma_lookup_after_replace(s[i], path.skip(1), x);
            },
            _ => {},
        }
    }
}

/// Replacement preserves well-formedness.
pub proof fn lemma_replace_wf(m: JsonModel, path: Seq<Seq<char>>, x: JsonModel)
    requires
        wf(m),
        wf(x),
        model_replace(m, path, x) is Some,
    ensures
        wf(model_replace(m, path, x).unwrap()),
    decreases path.len(),
{
    if path.len() > 0 {
        match m {
            JsonModel::Obj(es) => {
                let c = obj_get(es, path[0]).unwrap();
                lemma_obj_get_in(es, path[0]);
                lemma_replace_wf(c, path.skip(1), x);
                let c2 = model_replace(c, path.skip(1), x).unwrap();
                lemma_obj_set_wf(es, path[0], c2);
            },
            JsonModel::Arr(s) => {
                let i = seg_index(path[0]).unwrap();
                lemma_replace_wf(s[i], path.skip(1), x);
                let c2 = model_replace(s[i], path.skip(1), x).unwrap();
                let s2 = s.update(i, c2);
                assert(forall|j: int| 0 <= j < s2.len() ==> wf(#[trigger] s2[j]));
            },
            _ => {},
        }
    }
}

/// Setting a well-formed value under a key keeps the object well formed.
pub proof fn lemma_obj_set_wf(es: Seq<(Seq<char>, JsonModel)>, k: Seq<char>, v: JsonModel)
    requires
        obj_sorted(es),
        forall|i: int| 0 <= i < es.len() ==> wf(#[trigger] es[i].1),
        wf(v),
    ensures
        obj_sorted(obj_set(es, k, v)),
        forall|i: int| 0 <= i < obj_set(es, k, v).len() ==> wf(#[trigger] obj_set(es, k, v)[i].1),
        wf(JsonModel::Obj(obj_set(es, k, v))),
    decreases es.len(),
{
    lemma_obj_set_sorted(es, k, v);
    if es.len() == 0 {
        assert(obj_set(es, k, v)[0] == (k, v));
    } else {
        lemma_sorted_skip(es);
        if lex_lt(es[0].0, k) {
            assert(forall|i: int| 0 <= i < es.skip(1).len() ==> wf(#[trigger] es.skip(1)[i].1));
            lemma_obj_set_wf(es.skip(1), k, v);
            let r = seq![es[0]] + obj_set(es.skip(1), k, v);
            assert forall|i: int| 0 <= i < r.len() implies wf(#[trigger] r[i].1) by {
                if i > 0 {
                    assert(r[i] == obj_set(es.skip(1), k, v)[i - 1]);
                }
            }
        } else if es[0].0 == k {
            let r = seq![(k, v)] + es.skip(1);
            assert forall|i: int| 0 <= i < r.len() implies wf(#[trigger] r[i].1) by {
                if i > 0 {
                    assert(r[i] == es[i]);
                }
            }
        } else {
            let r = seq![(k, v)] + es;
            assert forall|i: int| 0 <= i < r.len() implies wf(#[trigger] r[i].1) by {
                if i > 0 {
                    assert(r[i] == es[i - 1]);
                }
            }
        }
    }
}

/// Deleting a key keeps the object well formed.
pub proof fn lemma_obj_del_wf(es: Seq<(Seq<char>, JsonModel)>, k: Seq<char>)
    requires
        obj_sorted(es),
        forall|i: int| 0 <= i < es.len() ==> wf(#[trigger] es[i].1),
    ensures
        obj_sorted(obj_del(es, k)),
        forall|i: int| 0 <= i < obj_del(es, k).len() ==> wf(#[trigger] obj_del(es, k)[i].1),
        wf(JsonModel::Obj(obj_del(es, k))),
    decreases es.len(),
{
    lemma_obj_del_sorted(es, k);
    if es.len() > 0 {
        lemma_sorted_skip(es);
        assert(forall|i: int| 0 <= i < es.skip(1).len() ==> wf(#[trigger] es.skip(1)[i].1));
        if es[0].0 == k {
        } else {
            lemma_obj_del_wf(es.skip(1), k);
            let r = seq![es[0]] + obj_del(es.skip(1), k);
            assert forall|i: int| 0 <= i < r.len() implies wf(#[trigger] r[i].1) by {
                if i > 0 {
                    assert(r[i] == obj_del(es.skip(1), k)[i - 1]);
                }
            }
        }
    }
}

/// Re-binding a key that a delete removed restores the sequence.
pub proof fn lemma_obj_set_del(es: Seq<(Seq<char>, JsonModel)>, k: Seq<char>, v: JsonModel)
    requires
        obj_sorted(es),
        obj_get(es, k) == Some(v),
    ensures
        obj_set(obj_del(es, k), k, v) == es,
    decreases es.len(),
{
    lemma_sorted_skip(es);
    if es[0].0 == k {
        let d = es.skip(1);
        if d.len() == 0 {
            assert(obj_set(d, k, v) =~= es);
        } else {
            lemma_lex_lt_trichotomy(d[0].0, k);
            assert(lex_lt(k, d[0].0));
            assert(es[0] == (k, v));
            assert(seq![(k, v)] + d =~= es);
        }
    } else {
        lemma_obj_get_exists(es.skip(1), k);
        let i = choose|i: int| 0 <= i < es.skip(1).len() && es.skip(1)[i].0 == k;
        assert(lex_lt(es[0].0, k));
        lemma_obj_set_del(es.skip(1), k, v);
        let d = seq![es[0]] + obj_del(es.skip(1), k);
        assert(d[0] == es[0]);
        assert(d.skip(1) =~= obj_del(es.skip(1), k));
        assert(seq![es[0]] + obj_set(obj_del(es.skip(1), k), k, v) =~= es);
    }
}

} // verus!
