//! The re-projector: rewriting a just-applied patch batch into the
//! coordinate frame of one subscription, whose root is its path.

use vstd::prelude::*;

use crate::engine::MemDb;
use crate::engine::batch_views;
use crate::engine::lemma_batch_views;
use crate::engine::prefix_view;
use crate::model::JsonModel;
use crate::model::model_lookup;
use crate::model::wf;
use crate::patch::JsonPatch;
use crate::patch::PatchModel;
use crate::patch::op_len_ok;
use crate::pointer::JsonPointer;
use crate::pointer::JsonPointerRef;
use crate::value::Json;
use crate::value::deep_clone;
use crate::value::locate;

verus! {

/// How an operation's target path stands to the subscription path.
enum TargetPath<'a> {
    Parent(JsonPointerRef<'a>),
    Child(JsonPointerRef<'a>),
    OtherBranch,
}

/// The model of the relationship: the relative path on either side.
pub enum RelModel {
    Parent(Seq<Seq<char>>),
    Child(Seq<Seq<char>>),
    Other,
}

/// Classifies a target path against the subscription path.  A target equal
/// to the subscription path is a child with an empty relative path.
pub open spec fn diff_model(sub: Seq<Seq<char>>, target: Seq<Seq<char>>) -> RelModel {
    if sub.is_prefix_of(target) {
        RelModel::Child(target.skip(sub.len() as int))
    } else if target.is_prefix_of(sub) {
        RelModel::Parent(sub.skip(target.len() as int))
    } else {
        RelModel::Other
    }
}

/// Classifies one target path against the subscription path.
fn diff_path<'a>(subscription_path: JsonPointerRef<'a>, target_path: JsonPointerRef<'a>) -> (r:
    TargetPath<'a>)
    requires
        subscription_path@.len() <= usize::MAX,
        target_path@.len() <= usize::MAX,
    ensures
        match r {
            TargetPath::Child(rel) => diff_model(subscription_path@, target_path@)
                == RelModel::Child(rel@),
            TargetPath::Parent(rel) => diff_model(subscription_path@, target_path@)
                == RelModel::Parent(rel@),
            TargetPath::OtherBranch => diff_model(subscription_path@, target_path@)
                == RelModel::Other,
        },
{
    match target_path.strip_prefix(subscription_path) {
        Some(rel_path) => TargetPath::Child(rel_path),
        None => match subscription_path.strip_prefix(target_path) {
            Some(rel_path) => TargetPath::Parent(rel_path),
            None => TargetPath::OtherBranch,
        },
    }
}

/// What an `add` or `replace` at `path` with `value` means to the
/// subscriber at `sub`: the same operation in its frame when the change is
/// at or below it, the sub-value when the change is above it and still
/// reaches it, and nothing otherwise.
pub open spec fn project_write(
    sub: Seq<Seq<char>>,
    path: Seq<Seq<char>>,
    value: JsonModel,
    replace: bool,
) -> Seq<PatchModel> {
    match diff_model(sub, path) {
        RelModel::Child(rel) => if replace {
            seq![PatchModel::Replace { path: rel, value }]
        } else {
            seq![PatchModel::Add { path: rel, value }]
        },
        RelModel::Parent(rel) => match model_lookup(value, rel) {
            Some(v2) => if replace {
                seq![PatchModel::Replace { path: Seq::empty(), value: v2 }]
            } else {
                seq![PatchModel::Add { path: Seq::empty(), value: v2 }]
            },
            None => Seq::empty(),
        },
        RelModel::Other => Seq::empty(),
    }
}

/// What a `remove` at `path` means to the subscriber: a removal in its
/// frame below it, a null overwrite when its whole sub-tree went away, and
/// nothing otherwise.
pub open spec fn project_remove(sub: Seq<Seq<char>>, path: Seq<Seq<char>>) -> Seq<PatchModel> {
    match diff_model(sub, path) {
        RelModel::Child(rel) => if rel.len() > 0 {
            seq![PatchModel::Remove { path: rel }]
        } else {
            seq![PatchModel::Add { path: Seq::empty(), value: JsonModel::Null }]
        },
        RelModel::Parent(_) => seq![
            PatchModel::Add { path: Seq::empty(), value: JsonModel::Null },
        ],
        RelModel::Other => Seq::empty(),
    }
}

/// The subscriber's current sub-tree, or null when it is gone.
pub open spec fn sub_value(doc: JsonModel, sub: Seq<Seq<char>>) -> JsonModel {
    match model_lookup(doc, sub) {
        Some(v) => v,
        None => JsonModel::Null,
    }
}

/// What a `move` means to the subscriber, read against the post-mutation
/// document.  A move whose source is above the subscriber and whose target
/// is below it cannot come out of a successful batch; it projects to
/// nothing.
pub open spec fn project_move(
    doc: JsonModel,
    sub: Seq<Seq<char>>,
    from: Seq<Seq<char>>,
    path: Seq<Seq<char>>,
) -> Seq<PatchModel> {
    match (diff_model(sub, from), diff_model(sub, path)) {
        (RelModel::Child(rel_from), RelModel::Child(rel_to)) => seq![
            PatchModel::Move { from: rel_from, path: rel_to },
        ],
        (RelModel::Other, RelModel::Child(rel_to)) => match model_lookup(doc, path) {
            Some(v) => seq![PatchModel::Add { path: rel_to, value: v }],
            None => Seq::empty(),
        },
        (RelModel::Child(_), RelModel::Parent(_)) => seq![
            PatchModel::Add { path: Seq::empty(), value: sub_value(doc, sub) },
        ],
        (RelModel::Parent(_), RelModel::Parent(_)) => seq![
            PatchModel::Add { path: Seq::empty(), value: sub_value(doc, sub) },
        ],
        (RelModel::Other, RelModel::Parent(_)) => seq![
            PatchModel::Add { path: Seq::empty(), value: sub_value(doc, sub) },
        ],
        (RelModel::Parent(_), RelModel::Other) => seq![
            PatchModel::Add { path: Seq::empty(), value: JsonModel::Null },
        ],
        (RelModel::Child(rel_from), RelModel::Other) => if rel_from.len() > 0 {
            seq![PatchModel::Remove { path: rel_from }]
        } else {
            seq![PatchModel::Add { path: Seq::empty(), value: JsonModel::Null }]
        },
        (RelModel::Other, RelModel::Other) => Seq::empty(),
        (RelModel::Parent(_), RelModel::Child(_)) => Seq::empty(),
    }
}

/// What a `copy` means to the subscriber, read against the post-mutation
/// document.  The source is unchanged, so only the target side matters,
/// but a change above the subscriber still rewrites its whole frame.
pub open spec fn project_copy(
    doc: JsonModel,
    sub: Seq<Seq<char>>,
    from: Seq<Seq<char>>,
    path: Seq<Seq<char>>,
) -> Seq<PatchModel> {
    match (diff_model(sub, from), diff_model(sub, path)) {
        (RelModel::Child(rel_from), RelModel::Child(rel_to)) => seq![
            PatchModel::Copy { from: rel_from, path: rel_to },
        ],
        (RelModel::Child(_), RelModel::Parent(_)) => seq![
            PatchModel::Add { path: Seq::empty(), value: sub_value(doc, sub) },
        ],
        (RelModel::Parent(_), RelModel::Parent(_)) => seq![
            PatchModel::Add { path: Seq::empty(), value: sub_value(doc, sub) },
        ],
        (RelModel::Other, RelModel::Parent(_)) => seq![
            PatchModel::Add { path: Seq::empty(), value: sub_value(doc, sub) },
        ],
        (RelModel::Other, RelModel::Child(rel_to)) => seq![
            PatchModel::Add { path: rel_to, value: sub_value(doc, path) },
        ],
        (RelModel::Parent(_), RelModel::Child(rel_to)) => seq![
            PatchModel::Add { path: rel_to, value: sub_value(doc, path) },
        ],
        (RelModel::Parent(_), RelModel::Other) => Seq::empty(),
        (RelModel::Child(_), RelModel::Other) => Seq::empty(),
        (RelModel::Other, RelModel::Other) => Seq::empty(),
    }
}

/// What one applied operation means to the subscriber.  `test` changes
/// nothing and projects to nothing.
pub open spec fn project_op(doc: JsonModel, sub: Seq<Seq<char>>, op: PatchModel) -> Seq<
    PatchModel,
> {
    match op {
        PatchModel::Add { path, value } => project_write(sub, path, value, false),
        PatchModel::Remove { path } => project_remove(sub, path),
        PatchModel::Replace { path, value } => project_write(sub, path, value, true),
        PatchModel::Move { from, path } => project_move(doc, sub, from, path),
        PatchModel::Copy { from, path } => project_copy(doc, sub, from, path),
        PatchModel::Test { .. } => Seq::empty(),
    }
}

/// What a whole batch under a prefix means to the subscriber, in order.
pub open spec fn project_batch(
    doc: JsonModel,
    sub: Seq<Seq<char>>,
    prefix: Seq<Seq<char>>,
    ops: Seq<PatchModel>,
) -> Seq<PatchModel>
    decreases ops.len(),
{
    if ops.len() == 0 {
        Seq::empty()
    } else {
        project_op(doc, sub, crate::patch::prefixed(prefix, ops[0])) + project_batch(
            doc,
            sub,
            prefix,
            ops.skip(1),
        )
    }
}

/// An insert strictly below `s` is the same insert made inside the
/// sub-tree at `s`: the sub-tree resolves before and after, and the new
/// sub-tree is the old one with the insert applied.
pub proof fn lemma_add_below(m: JsonModel, s: Seq<Seq<char>>, rel: Seq<Seq<char>>, v: JsonModel)
    requires
        wf(m),
        rel.len() > 0,
        crate::patch::model_add(m, s + rel, v) is Ok,
    ensures
        model_lookup(m, s) is Some,
        crate::patch::model_add(model_lookup(m, s)->Some_0, rel, v) is Ok,
        model_lookup(crate::patch::model_add(m, s + rel, v)->Ok_0, s) == Some(
            crate::patch::model_add(model_lookup(m, s)->Some_0, rel, v)->Ok_0,
        ),
    decreases s.len(),
{
    if s.len() == 0 {
        assert(s + rel =~= rel);
    } else {
        let full = s + rel;
        assert(full[0] == s[0]);
        assert(full.skip(1) =~= s.skip(1) + rel);
        assert(full.len() >= 2);
        match m {
            JsonModel::Obj(es) => {
                let c = crate::model::obj_get(es, s[0])->Some_0;
                crate::model::lemma_obj_get_in(es, s[0]);
                lemma_add_below(c, s.skip(1), rel, v);
                let c2 = crate::patch::model_add(c, s.skip(1) + rel, v)->Ok_0;
                crate::model::lemma_obj_get_set(es, s[0], c2, s[0]);
            },
            JsonModel::Arr(sq) => {
                let i = crate::model::seg_index(s[0])->Some_0;
                lemma_add_below(sq[i], s.skip(1), rel, v);
            },
            _ => {},
        }
    }
}

/// A removal strictly below `s`, likewise.
pub proof fn lemma_remove_below(m: JsonModel, s: Seq<Seq<char>>, rel: Seq<Seq<char>>)
    requires
        wf(m),
        rel.len() > 0,
        crate::patch::model_remove(m, s + rel) is Ok,
    ensures
        model_lookup(m, s) is Some,
        crate::patch::model_remove(model_lookup(m, s)->Some_0, rel) is Ok,
        model_lookup(crate::patch::model_remove(m, s + rel)->Ok_0.0, s) == Some(
            crate::patch::model_remove(model_lookup(m, s)->Some_0, rel)->Ok_0.0,
        ),
    decreases s.len(),
{
    if s.len() == 0 {
        assert(s + rel =~= rel);
    } else {
        let full = s + rel;
        assert(full[0] == s[0]);
        assert(full.skip(1) =~= s.skip(1) + rel);
        assert(full.len() >= 2);
        match m {
            JsonModel::Obj(es) => {
                let c = crate::model::obj_get(es, s[0])->Some_0;
                crate::model::lemma_obj_get_in(es, s[0]);
                lemma_remove_below(c, s.skip(1), rel);
                let c2 = crate::patch::model_remove(c, s.skip(1) + rel)->Ok_0.0;
                crate::model::lemma_obj_get_set(es, s[0], c2, s[0]);
            },
            JsonModel::Arr(sq) => {
                let i = crate::model::seg_index(s[0])->Some_0;
                lemma_remove_below(sq[i], s.skip(1), rel);
            },
            _ => {},
        }
    }
}

/// A replacement strictly below `s`, likewise.
pub proof fn lemma_replace_below(m: JsonModel, s: Seq<Seq<char>>, rel: Seq<Seq<char>>, v: JsonModel)
    requires
        wf(m),
        rel.len() > 0,
        crate::model::model_replace(m, s + rel, v) is Some,
    ensures
        model_lookup(m, s) is Some,
        crate::model::model_replace(model_lookup(m, s)->Some_0, rel, v) is Some,
        model_lookup(crate::model::model_replace(m, s + rel, v)->Some_0, s) == Some(
            crate::model::model_replace(model_lookup(m, s)->Some_0, rel, v)->Some_0,
        ),
    decreases s.len(),
{
    if s.len() == 0 {
        assert(s + rel =~= rel);
    } else {
        let full = s + rel;
        assert(full[0] == s[0]);
        assert(full.skip(1) =~= s.skip(1) + rel);
        assert(full.len() >= 1);
        match m {
            JsonModel::Obj(es) => {
                let c = crate::model::obj_get(es, s[0])->Some_0;
                crate::model::lemma_obj_get_in(es, s[0]);
                lemma_replace_below(c, s.skip(1), rel, v);
                let c2 = crate::model::model_replace(c, s.skip(1) + rel, v)->Some_0;
                crate::model::lemma_obj_get_set(es, s[0], c2, s[0]);
            },
            JsonModel::Arr(sq) => {
                let i = crate::model::seg_index(s[0])->Some_0;
                lemma_replace_below(sq[i], s.skip(1), rel, v);
            },
            _ => {},
        }
    }
}

/// The operation's paths lie strictly below the subscription path.
pub open spec fn op_strictly_below(s: Seq<Seq<char>>, op: PatchModel) -> bool {
    match op {
        PatchModel::Add { path, .. } => s.is_prefix_of(path) && path.len() > s.len(),
        PatchModel::Remove { path } => s.is_prefix_of(path) && path.len() > s.len(),
        PatchModel::Replace { path, .. } => s.is_prefix_of(path) && path.len() > s.len(),
        _ => false,
    }
}

/// The operation writes inside the watched sub-tree: an `add` or
/// `replace` at or below the subscription path, or a `remove` strictly
/// below it.  An `add` whose last segment is the append sentinel counts
/// only below the path, since the appended element does not sit at the
/// written path afterwards.
pub open spec fn op_in_subtree(s: Seq<Seq<char>>, op: PatchModel) -> bool {
    match op {
        PatchModel::Add { path, .. } => s.is_prefix_of(path) && (path.len() > s.len() || path.len()
            == 0 || path.last() != seq!['-']),
        PatchModel::Remove { path } => s.is_prefix_of(path) && path.len() > s.len(),
        PatchModel::Replace { path, .. } => s.is_prefix_of(path),
        _ => false,
    }
}

/// Re-projector soundness for changes inside the watched sub-tree: when
/// an `add`, `remove` or `replace` inside the subscription's sub-tree
/// succeeds, the projection is a single operation, and applying it to the
/// subscriber's previous value (null while the sub-tree is absent) yields
/// exactly the new sub-tree.
pub proof fn lemma_project_below_sound(m: JsonModel, s: Seq<Seq<char>>, op: PatchModel)
    requires
        wf(m),
        crate::patch::patch_wf(op),
        op_in_subtree(s, op),
        crate::patch::model_apply_op(m, op) is Ok,
    ensures
        op_strictly_below(s, op) ==> model_lookup(m, s) is Some,
        model_lookup(crate::patch::model_apply_op(m, op)->Ok_0, s) is Some,
        project_op(crate::patch::model_apply_op(m, op)->Ok_0, s, op).len() == 1,
        crate::patch::model_apply_op(
            sub_value(m, s),
            project_op(crate::patch::model_apply_op(m, op)->Ok_0, s, op)[0],
        ) == Ok::<JsonModel, crate::patch::ErrorModel>(
            model_lookup(crate::patch::model_apply_op(m, op)->Ok_0, s)->Some_0,
        ),
{
    let m2 = crate::patch::model_apply_op(m, op)->Ok_0;
    match op {
        PatchModel::Add { path, value } => {
            let rel = path.skip(s.len() as int);
            assert(s + rel =~= path);
            if path.len() > s.len() {
                lemma_add_below(m, s, rel, value);
            } else {
                assert(path =~= s);
                assert(rel =~= Seq::<Seq<char>>::empty());
                crate::undo::lemma_lookup_after_add(m, path, value);
            }
        },
        PatchModel::Remove { path } => {
            let rel = path.skip(s.len() as int);
            assert(s + rel =~= path);
            lemma_remove_below(m, s, rel);
        },
        PatchModel::Replace { path, value } => {
            let rel = path.skip(s.len() as int);
            assert(s + rel =~= path);
            if path.len() > s.len() {
                lemma_replace_below(m, s, rel, value);
            } else {
                assert(path =~= s);
                assert(rel =~= Seq::<Seq<char>>::empty());
                crate::model::lemma_lookup_after_replace(m, path, value);
                crate::model::lemma_replace_resolves(m, path, value);
            }
        },
        _ => {},
    }
}

/// Every operation of the batch, once prefixed, writes strictly below the
/// subscription path.
pub open spec fn batch_strictly_below(
    s: Seq<Seq<char>>,
    prefix: Seq<Seq<char>>,
    ops: Seq<PatchModel>,
) -> bool {
    forall|i: int| 0 <= i < ops.len() ==> op_strictly_below(
        s,
        #[trigger] crate::patch::prefixed(prefix, ops[i]),
    )
}

/// Prefixing with the empty pointer changes nothing.
pub proof fn lemma_prefixed_empty(p: PatchModel)
    ensures
        crate::patch::prefixed(Seq::empty(), p) == p,
{
    match p {
        PatchModel::Add { path, value } => {
            assert(Seq::<Seq<char>>::empty() + path =~= path);
        },
        PatchModel::Remove { path } => {
            assert(Seq::<Seq<char>>::empty() + path =~= path);
        },
        PatchModel::Replace { path, value } => {
            assert(Seq::<Seq<char>>::empty() + path =~= path);
        },
        PatchModel::Move { from, path } => {
            assert(Seq::<Seq<char>>::empty() + from =~= from);
            assert(Seq::<Seq<char>>::empty() + path =~= path);
        },
        PatchModel::Copy { from, path } => {
            assert(Seq::<Seq<char>>::empty() + from =~= from);
            assert(Seq::<Seq<char>>::empty() + path =~= path);
        },
        PatchModel::Test { path, value } => {
            assert(Seq::<Seq<char>>::empty() + path =~= path);
        },
    }
}

/// Re-projector soundness for a whole batch inside the watched sub-tree:
/// when a non-empty batch of `add`, `remove` and `replace` operations
/// strictly below the subscription path is accepted, applying the
/// projected batch to the subscriber's previous sub-tree yields exactly
/// the new sub-tree.
pub proof fn lemma_project_batch_below_sound(
    m: JsonModel,
    s: Seq<Seq<char>>,
    prefix: Seq<Seq<char>>,
    ops: Seq<PatchModel>,
)
    requires
        wf(m),
        ops.len() > 0,
        forall|i: int| 0 <= i < ops.len() ==> crate::patch::patch_wf(#[trigger] ops[i]),
        batch_strictly_below(s, prefix, ops),
        crate::patch::model_apply_batch(m, prefix, ops) is Ok,
    ensures
        model_lookup(m, s) is Some,
        model_lookup(crate::patch::model_apply_batch(m, prefix, ops)->Ok_0, s) is Some,
        crate::patch::model_apply_batch(
            model_lookup(m, s)->Some_0,
            Seq::empty(),
            project_batch(crate::patch::model_apply_batch(m, prefix, ops)->Ok_0, s, prefix, ops),
        ) == Ok::<JsonModel, crate::patch::ErrorModel>(
            model_lookup(crate::patch::model_apply_batch(m, prefix, ops)->Ok_0, s)->Some_0,
        ),
    decreases ops.len(),
{
    let m2 = crate::patch::model_apply_batch(m, prefix, ops)->Ok_0;
    let pop0 = crate::patch::prefixed(prefix, ops[0]);
    assert(crate::patch::model_apply_op(m, pop0) is Ok);
    let m1 = crate::patch::model_apply_op(m, pop0)->Ok_0;
    lemma_project_below_sound(m, s, pop0);
    crate::undo::lemma_op_inverse(m, pop0);
    let sub0 = model_lookup(m, s)->Some_0;
    let sub1 = model_lookup(m1, s)->Some_0;
    // The projection of these operations does not read the document, so
    // projecting against the final document projects the same way.
    assert(project_op(m2, s, pop0) == project_op(m1, s, pop0));
    let proj0 = project_op(m2, s, pop0);
    let head = proj0[0];
    lemma_prefixed_empty(head);
    if ops.len() == 1 {
        assert(ops.skip(1) =~= Seq::<PatchModel>::empty());
        assert(m2 == m1);
        let whole = project_batch(m2, s, prefix, ops);
        assert(project_batch(m2, s, prefix, ops.skip(1)) =~= Seq::<PatchModel>::empty());
        assert(whole =~= proj0);
        assert(whole[0] == head);
        assert(whole.skip(1) =~= Seq::<PatchModel>::empty());
        assert(crate::patch::model_apply_op(sub0, head) == Ok::<
            JsonModel,
            crate::patch::ErrorModel,
        >(sub1));
    } else {
        assert forall|i: int| 0 <= i < ops.skip(1).len() implies crate::patch::patch_wf(
            #[trigger] ops.skip(1)[i],
        ) && op_strictly_below(s, crate::patch::prefixed(prefix, ops.skip(1)[i])) by {
            assert(ops.skip(1)[i] == ops[i + 1]);
            assert(op_strictly_below(s, crate::patch::prefixed(prefix, ops[i + 1])));
        }
        lemma_project_batch_below_sound(m1, s, prefix, ops.skip(1));
        let sub2 = model_lookup(m2, s)->Some_0;
        let rest = project_batch(m2, s, prefix, ops.skip(1));
        let whole = project_batch(m2, s, prefix, ops);
        assert(whole == proj0 + rest);
        assert(whole.len() > 0);
        assert(whole[0] == head);
        assert(whole.skip(1) =~= rest);
        assert(crate::patch::model_apply_op(sub0, head) == Ok::<
            JsonModel,
            crate::patch::ErrorModel,
        >(sub1));
        assert(crate::patch::model_apply_batch(sub0, Seq::empty(), whole)
            == crate::patch::model_apply_batch(sub1, Seq::empty(), rest));
    }
}

/// Projection of a batch splits over concatenation.
pub proof fn lemma_project_batch_append(
    doc: JsonModel,
    sub: Seq<Seq<char>>,
    prefix: Seq<Seq<char>>,
    a: Seq<PatchModel>,
    b: Seq<PatchModel>,
)
    ensures
        project_batch(doc, sub, prefix, a + b) == project_batch(doc, sub, prefix, a)
            + project_batch(doc, sub, prefix, b),
    decreases a.len(),
{
    if a.len() == 0 {
        assert(a + b =~= b);
        assert(project_batch(doc, sub, prefix, a) + project_batch(doc, sub, prefix, b)
            =~= project_batch(doc, sub, prefix, b));
    } else {
        lemma_project_batch_append(doc, sub, prefix, a.skip(1), b);
        assert((a + b).skip(1) =~= a.skip(1) + b);
        assert((a + b)[0] == a[0]);
        assert((a + b).len() > 0);
        assert(project_batch(doc, sub, prefix, a + b) =~= project_batch(doc, sub, prefix, a)
            + project_batch(doc, sub, prefix, b));
    }
}

/// Appends one operation, for the batch-view bookkeeping.
fn push_patch(out: &mut Vec<JsonPatch>, p: JsonPatch)
    ensures
        batch_views(final(out)@) == batch_views(old(out)@).push(p@),
{
    let ghost pre = out@;
    out.push(p);
    proof {
        lemma_batch_views(pre);
        lemma_batch_views(out@);
        assert(out@ == pre.push(p));
        assert forall|i: int| 0 <= i < batch_views(out@).len() implies batch_views(out@)[i]
            == batch_views(pre).push(p@)[i] by {
            assert(batch_views(out@)[i] == out@[i]@);
            if i < pre.len() {
                assert(out@[i] == pre[i]);
                assert(batch_views(pre)[i] == pre[i]@);
            } else {
                assert(out@[i] == p);
            }
        }
        assert(batch_views(out@) =~= batch_views(pre).push(p@));
    }
}

/// Projects one `add` or `replace` into the subscriber's frame and
/// appends the result.
fn create_patch_write(
    subscription_path: JsonPointerRef<'_>,
    path: JsonPointerRef<'_>,
    value: &Json,
    replace: bool,
    output: &mut Vec<JsonPatch>,
)
    requires
        subscription_path@.len() <= usize::MAX,
        path@.len() <= usize::MAX,
    ensures
        batch_views(final(output)@) == batch_views(old(output)@) + project_write(
            subscription_path@,
            path@,
            value@,
            replace,
        ),
{
    let ghost expected = project_write(subscription_path@, path@, value@, replace);
    match diff_path(subscription_path, path) {
        TargetPath::Parent(rel_path) => {
            proof {
                assert(rel_path@.len() <= subscription_path@.len());
            }
            match locate(value, rel_path) {
                Some(v2) => {
                    let cloned = deep_clone(v2);
                    let p = if replace {
                        JsonPatch::Replace { path: JsonPointer::root(), value: cloned }
                    } else {
                        JsonPatch::Add { path: JsonPointer::root(), value: cloned }
                    };
                    proof {
                        assert(batch_views(old(output)@).push(p@) =~= batch_views(old(output)@)
                            + expected);
                    }
                    push_patch(output, p);
                },
                None => {
                    proof {
                        assert(batch_views(output@) =~= batch_views(output@) + expected);
                    }
                },
            }
        },
        TargetPath::Child(rel_path) => {
            let rel = rel_path.to_owned();
            let cloned = deep_clone(value);
            let p = if replace {
                JsonPatch::Replace { path: rel, value: cloned }
            } else {
                JsonPatch::Add { path: rel, value: cloned }
            };
            proof {
                assert(batch_views(old(output)@).push(p@) =~= batch_views(old(output)@)
                    + expected);
            }
            push_patch(output, p);
        },
        TargetPath::OtherBranch => {
            proof {
                assert(batch_views(output@) =~= batch_views(output@) + expected);
            }
        },
    }
}

/// Projects one `remove` into the subscriber's frame and appends the
/// result.
fn create_patch_remove(
    subscription_path: JsonPointerRef<'_>,
    path: JsonPointerRef<'_>,
    output: &mut Vec<JsonPatch>,
)
    requires
        subscription_path@.len() <= usize::MAX,
        path@.len() <= usize::MAX,
    ensures
        batch_views(final(output)@) == batch_views(old(output)@) + project_remove(
            subscription_path@,
            path@,
        ),
{
    let ghost expected = project_remove(subscription_path@, path@);
    match diff_path(subscription_path, path) {
        TargetPath::Parent(_) => {
            let p = JsonPatch::Add { path: JsonPointer::root(), value: Json::Null };
            proof {
                assert(batch_views(old(output)@).push(p@) =~= batch_views(old(output)@)
                    + expected);
            }
            push_patch(output, p);
        },
        TargetPath::Child(rel_path) => {
            let p = if !rel_path.is_empty() {
                JsonPatch::Remove { path: rel_path.to_owned() }
            } else {
                JsonPatch::Add { path: JsonPointer::root(), value: Json::Null }
            };
            proof {
                assert(batch_views(old(output)@).push(p@) =~= batch_views(old(output)@)
                    + expected);
            }
            push_patch(output, p);
        },
        TargetPath::OtherBranch => {
            proof {
                assert(batch_views(output@) =~= batch_views(output@) + expected);
            }
        },
    }
}

/// Reads the subscriber's sub-tree from the post-mutation document, as a
/// value to deliver: null when it is gone.
fn read_sub_value(mdb: &MemDb, path: JsonPointerRef<'_>) -> (r: Json)
    requires
        path@.len() <= usize::MAX,
    ensures
        r@ == sub_value(mdb@, path@),
{
    match locate(mdb.root(), path) {
        Some(v) => deep_clone(v),
        None => Json::Null,
    }
}

/// Projects one `move` into the subscriber's frame and appends the
/// result, reading the post-mutation document for values.
fn create_patch_move(
    mdb: &MemDb,
    subscription_path: JsonPointerRef<'_>,
    from: JsonPointerRef<'_>,
    path: JsonPointerRef<'_>,
    output: &mut Vec<JsonPatch>,
)
    requires
        subscription_path@.len() <= usize::MAX,
        from@.len() <= usize::MAX,
        path@.len() <= usize::MAX,
    ensures
        batch_views(final(output)@) == batch_views(old(output)@) + project_move(
            mdb@,
            subscription_path@,
            from@,
            path@,
        ),
{
    let ghost expected = project_move(mdb@, subscription_path@, from@, path@);
    match (diff_path(subscription_path, from), diff_path(subscription_path, path)) {
        (TargetPath::Child(rel_path_from), TargetPath::Child(rel_path_to)) => {
            let p = JsonPatch::Move {
                from: rel_path_from.to_owned(),
                path: rel_path_to.to_owned(),
            };
            proof {
                assert(batch_views(old(output)@).push(p@) =~= batch_views(old(output)@)
                    + expected);
            }
            push_patch(output, p);
        },
        (TargetPath::OtherBranch, TargetPath::Child(rel_path_to)) => {
            match locate(mdb.root(), path) {
                Some(v) => {
                    let p = JsonPatch::Add { path: rel_path_to.to_owned(), value: deep_clone(v) };
                    proof {
                        assert(batch_views(old(output)@).push(p@) =~= batch_views(old(output)@)
                            + expected);
                    }
                    push_patch(output, p);
                },
                None => {
                    proof {
                        assert(batch_views(output@) =~= batch_views(output@) + expected);
                    }
                },
            }
        },
        (TargetPath::Child(_), TargetPath::Parent(_)) => {
            let p = JsonPatch::Add {
                path: JsonPointer::root(),
                value: read_sub_value(mdb, subscription_path),
            };
            proof {
                assert(batch_views(old(output)@).push(p@) =~= batch_views(old(output)@)
                    + expected);
            }
            push_patch(output, p);
        },
        (TargetPath::Parent(_), TargetPath::Parent(_)) => {
            let p = JsonPatch::Add {
                path: JsonPointer::root(),
                value: read_sub_value(mdb, subscription_path),
            };
            proof {
                assert(batch_views(old(output)@).push(p@) =~= batch_views(old(output)@)
                    + expected);
            }
            push_patch(output, p);
        },
        (TargetPath::OtherBranch, TargetPath::Parent(_)) => {
            let p = JsonPatch::Add {
                path: JsonPointer::root(),
                value: read_sub_value(mdb, subscription_path),
            };
            proof {
                assert(batch_views(old(output)@).push(p@) =~= batch_views(old(output)@)
                    + expected);
            }
            push_patch(output, p);
        },
        (TargetPath::Parent(_), TargetPath::OtherBranch) => {
            let p = JsonPatch::Add { path: JsonPointer::root(), value: Json::Null };
            proof {
                assert(batch_views(old(output)@).push(p@) =~= batch_views(old(output)@)
                    + expected);
            }
            push_patch(output, p);
        },
        (TargetPath::Child(rel_path), TargetPath::OtherBranch) => {
            let p = if !rel_path.is_empty() {
                JsonPatch::Remove { path: rel_path.to_owned() }
            } else {
                JsonPatch::Add { path: JsonPointer::root(), value: Json::Null }
            };
            proof {
                assert(batch_views(old(output)@).push(p@) =~= batch_views(old(output)@)
                    + expected);
            }
            push_patch(output, p);
        },
        (TargetPath::OtherBranch, TargetPath::OtherBranch) => {
            proof {
                assert(batch_views(output@) =~= batch_views(output@) + expected);
            }
        },
        (TargetPath::Parent(_), TargetPath::Child(_)) => {
            // A successful batch cannot move a strict ancestor of the
            // subscription below it; nothing is delivered.
            proof {
                assert(batch_views(output@) =~= batch_views(output@) + expected);
            }
        },
    }
}

/// Projects one `copy` into the subscriber's frame and appends the
/// result, reading the post-mutation document for values.
fn create_patch_copy(
    mdb: &MemDb,
    subscription_path: JsonPointerRef<'_>,
    from: JsonPointerRef<'_>,
    path: JsonPointerRef<'_>,
    output: &mut Vec<JsonPatch>,
)
    requires
        subscription_path@.len() <= usize::MAX,
        from@.len() <= usize::MAX,
        path@.len() <= usize::MAX,
    ensures
        batch_views(final(output)@) == batch_views(old(output)@) + project_copy(
            mdb@,
            subscription_path@,
            from@,
            path@,
        ),
{
    let ghost expected = project_copy(mdb@, subscription_path@, from@, path@);
    match (diff_path(subscription_path, from), diff_path(subscription_path, path)) {
        (TargetPath::Child(rel_path_from), TargetPath::Child(rel_path_to)) => {
            let p = JsonPatch::Copy {
                from: rel_path_from.to_owned(),
                path: rel_path_to.to_owned(),
            };
            proof {
                assert(batch_views(old(output)@).push(p@) =~= batch_views(old(output)@)
                    + expected);
            }
            push_patch(output, p);
        },
        (TargetPath::Child(_), TargetPath::Parent(_)) => {
            let p = JsonPatch::Add {
                path: JsonPointer::root(),
                value: read_sub_value(mdb, subscription_path),
            };
            proof {
                assert(batch_views(old(output)@).push(p@) =~= batch_views(old(output)@)
                    + expected);
            }
            push_patch(output, p);
        },
        (TargetPath::Parent(_), TargetPath::Parent(_)) => {
            let p = JsonPatch::Add {
                path: JsonPointer::root(),
                value: read_sub_value(mdb, subscription_path),
            };
            proof {
                assert(batch_views(old(output)@).push(p@) =~= batch_views(old(output)@)
                    + expected);
            }
            push_patch(output, p);
        },
        (TargetPath::OtherBranch, TargetPath::Parent(_)) => {
            let p = JsonPatch::Add {
                path: JsonPointer::root(),
                value: read_sub_value(mdb, subscription_path),
            };
            proof {
                assert(batch_views(old(output)@).push(p@) =~= batch_views(old(output)@)
                    + expected);
            }
            push_patch(output, p);
        },
        (TargetPath::OtherBranch, TargetPath::Child(rel_path_to)) => {
            let p = JsonPatch::Add {
                path: rel_path_to.to_owned(),
                value: read_sub_value(mdb, path),
            };
            proof {
                assert(batch_views(old(output)@).push(p@) =~= batch_views(old(output)@)
                    + expected);
            }
            push_patch(output, p);
        },
        (TargetPath::Parent(_), TargetPath::Child(rel_path_to)) => {
            let p = JsonPatch::Add {
                path: rel_path_to.to_owned(),
                value: read_sub_value(mdb, path),
            };
            proof {
                assert(batch_views(old(output)@).push(p@) =~= batch_views(old(output)@)
                    + expected);
            }
            push_patch(output, p);
        },
        (TargetPath::Parent(_), TargetPath::OtherBranch) => {
            proof {
                assert(batch_views(output@) =~= batch_views(output@) + expected);
            }
        },
        (TargetPath::Child(_), TargetPath::OtherBranch) => {
            proof {
                assert(batch_views(output@) =~= batch_views(output@) + expected);
            }
        },
        (TargetPath::OtherBranch, TargetPath::OtherBranch) => {
            proof {
                assert(batch_views(output@) =~= batch_views(output@) + expected);
            }
        },
    }
}

/// Rewrites a whole applied batch into the subscriber's frame, reading the
/// post-mutation document for values.  May be empty.
#[verifier::loop_isolation(false)]
pub fn create_subscription_patch(
    mdb: &MemDb,
    subscription_path: JsonPointerRef<'_>,
    prefix: Option<&JsonPointer>,
    patch_list: &[JsonPatch],
) -> (r: Vec<JsonPatch>)
    requires
        subscription_path@.len() <= usize::MAX,
        forall|i: int|
            0 <= i < patch_list@.len() ==> op_len_ok(
                prefix_view(prefix),
                (#[trigger] patch_list@[i])@,
            ),
    ensures
        batch_views(r@) == project_batch(
            mdb@,
            subscription_path@,
            prefix_view(prefix),
            batch_views(patch_list@),
        ),
{
    let ghost doc = mdb@;
    let ghost sub = subscription_path@;
    let ghost pvv = prefix_view(prefix);
    let ghost all = batch_views(patch_list@);
    proof {
        lemma_batch_views(patch_list@);
    }
    let mut out: Vec<JsonPatch> = Vec::new();
    let n = patch_list.len();
    proof {
        assert(all.subrange(0, 0) =~= Seq::<PatchModel>::empty());
        assert(batch_views(out@) =~= Seq::<PatchModel>::empty());
    }
    for i in 0..n
        invariant
            n == patch_list@.len(),
            all == batch_views(patch_list@),
            doc == mdb@,
            sub == subscription_path@,
            pvv == prefix_view(prefix),
            sub.len() <= usize::MAX,
            forall|k: int|
                0 <= k < patch_list@.len() ==> op_len_ok(pvv, (#[trigger] patch_list@[k])@),
            batch_views(out@) == project_batch(doc, sub, pvv, all.subrange(0, i as int)),
    {
        let ghost op = all[i as int];
        proof {
            assert(op == patch_list@[i as int]@);
            assert(all.subrange(0, i + 1) =~= all.subrange(0, i as int) + seq![op]);
            lemma_project_batch_append(doc, sub, pvv, all.subrange(0, i as int), seq![op]);
            assert(seq![op].skip(1) =~= Seq::<PatchModel>::empty());
            reveal_with_fuel(project_batch, 2);
            assert(project_batch(doc, sub, pvv, seq![op]) =~= project_op(
                doc,
                sub,
                crate::patch::prefixed(pvv, op),
            ));
        }
        let ghost pre_out = batch_views(out@);
        match &patch_list[i] {
            JsonPatch::Add { path, value } => {
                let composed = path.with_prefix_opt(prefix);
                proof {
                    assert(composed@ =~= pvv + path@);
                }
                create_patch_write(subscription_path, composed, value, false, &mut out);
            },
            JsonPatch::Remove { path } => {
                let composed = path.with_prefix_opt(prefix);
                proof {
                    assert(composed@ =~= pvv + path@);
                }
                create_patch_remove(subscription_path, composed, &mut out);
            },
            JsonPatch::Replace { path, value } => {
                let composed = path.with_prefix_opt(prefix);
                proof {
                    assert(composed@ =~= pvv + path@);
                }
                create_patch_write(subscription_path, composed, value, true, &mut out);
            },
            JsonPatch::Move { from, path } => {
                let composed_from = from.with_prefix_opt(prefix);
                let composed_path = path.with_prefix_opt(prefix);
                proof {
                    assert(composed_from@ =~= pvv + from@);
                    assert(composed_path@ =~= pvv + path@);
                }
                create_patch_move(mdb, subscription_path, composed_from, composed_path, &mut out);
            },
            JsonPatch::Copy { from, path } => {
                let composed_from = from.with_prefix_opt(prefix);
                let composed_path = path.with_prefix_opt(prefix);
                proof {
                    assert(composed_from@ =~= pvv + from@);
                    assert(composed_path@ =~= pvv + path@);
                }
                create_patch_copy(mdb, subscription_path, composed_from, composed_path, &mut out);
            },
            JsonPatch::Test { .. } => {
                proof {
                    assert(batch_views(out@) =~= pre_out + project_op(
                        doc,
                        sub,
                        crate::patch::prefixed(pvv, op),
                    ));
                }
            },
        }
        proof {
            assert(batch_views(out@) =~= project_batch(doc, sub, pvv, all.subrange(0, i + 1)));
        }
    }
    proof {
        assert(all.subrange(0, n as int) =~= all);
    }
    out
}

} // verus!
