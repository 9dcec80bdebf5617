//! The journal's decisions: block rollover arithmetic, the block list of a
//! data directory, replay of recorded batches, and the compaction plan.
//! Reading and writing the block files themselves is I/O and stays with
//! the caller.

use vstd::prelude::*;
use vstd::multiset::Multiset;

use crate::engine::MemDb;
use crate::engine::batch_views;
use crate::model::JsonModel;
use crate::model::seg_index;
use crate::model::wf;
use crate::patch::ErrorModel;
use crate::patch::JsonPatch;
use crate::patch::MemDbError;
use crate::patch::PatchModel;
use crate::patch::model_apply_batch;
use crate::pointer::JsonPointer;
use crate::text::chars_of;
use crate::value::parse_index_str;

verus! {

/// A block file never exceeds this many bytes.
pub const BLOCK_SIZE_LIMIT: u64 = 1024 * 1024 * 256;

/// Where the next record goes.
pub enum AppendPlan {
    /// Write to the active block; its size becomes `new_size`.
    Active { index: usize, new_size: u64 },
    /// Open the block with this index and write there; its size becomes
    /// `new_size`.
    Fresh { index: usize, new_size: u64 },
}

/// Decides where a record of `record_len` bytes goes, given the active
/// block's index and size.  A record is never split: when it would take
/// the active block over the limit, a new block at the next index takes
/// it whole; a record too large for any block is refused.
pub fn plan_append(active: Option<(usize, u64)>, record_len: u64) -> (r: Option<AppendPlan>)
    requires
        match active {
            Some((index, size)) => size <= BLOCK_SIZE_LIMIT && index < usize::MAX,
            None => true,
        },
    ensures
        r == match active {
            Some((index, size)) => {
                if size + record_len <= BLOCK_SIZE_LIMIT {
                    Some(AppendPlan::Active { index, new_size: (size + record_len) as u64 })
                } else if record_len <= BLOCK_SIZE_LIMIT {
                    Some(AppendPlan::Fresh { index: (index + 1) as usize, new_size: record_len })
                } else {
                    None::<AppendPlan>
                }
            },
            None => {
                if record_len <= BLOCK_SIZE_LIMIT {
                    Some(AppendPlan::Fresh { index: 1usize, new_size: record_len })
                } else {
                    None::<AppendPlan>
                }
            },
        },
{
    match active {
        Some((index, size)) => {
            if record_len <= BLOCK_SIZE_LIMIT - size {
                Some(AppendPlan::Active { index, new_size: size + record_len })
            } else if record_len <= BLOCK_SIZE_LIMIT {
                Some(AppendPlan::Fresh { index: index + 1, new_size: record_len })
            } else {
                None
            }
        },
        None => {
            if record_len <= BLOCK_SIZE_LIMIT {
                Some(AppendPlan::Fresh { index: 1, new_size: record_len })
            } else {
                None
            }
        },
    }
}

/// The block index a file name denotes: a decimal stem before a `.block`
/// suffix, within the machine's index range.
pub open spec fn block_index_of(name: Seq<char>) -> Option<usize> {
    if name.len() > 6 && name.skip(name.len() - 6) == seq!['.', 'b', 'l', 'o', 'c', 'k'] {
        match seg_index(name.take(name.len() - 6)) {
            Some(i) => Some(i as usize),
            None => None,
        }
    } else {
        None
    }
}

/// The indices of the block files among `names`, in the order given.
pub open spec fn block_indices(names: Seq<Seq<char>>) -> Seq<usize>
    decreases names.len(),
{
    if names.len() == 0 {
        Seq::empty()
    } else {
        match block_index_of(names[0]) {
            Some(i) => seq![i] + block_indices(names.skip(1)),
            None => block_indices(names.skip(1)),
        }
    }
}

/// Whether this name is a block file, and its index.
fn parse_block_name(name: &str) -> (r: Option<usize>)
    ensures
        r == block_index_of(name@),
{
    let cs = chars_of(name);
    let n = cs.len();
    if n <= 6 {
        return None;
    }
    let suffix: [char; 6] = ['.', 'b', 'l', 'o', 'c', 'k'];
    let mut k: usize = 0;
    while k < 6
        invariant
            cs@ == name@,
            n == cs@.len(),
            n > 6,
            k <= 6,
            suffix@ == seq!['.', 'b', 'l', 'o', 'c', 'k'],
            forall|j: int| 0 <= j < k ==> name@.skip(n - 6)[j] == suffix@[j],
        decreases 6 - k,
    {
        proof {
            assert(name@.skip(n - 6)[k as int] == cs@[n - 6 + k]);
        }
        if cs[n - 6 + k] != suffix[k] {
            proof {
                assert(name@.skip(n - 6) != seq!['.', 'b', 'l', 'o', 'c', 'k']);
            }
            return None;
        }
        k = k + 1;
    }
    proof {
        assert(name@.skip(n - 6) =~= seq!['.', 'b', 'l', 'o', 'c', 'k']);
    }
    let mut stem = String::new();
    let mut j: usize = 0;
    proof {
        assert(stem@ =~= name@.take(0));
    }
    while j < n - 6
        invariant
            cs@ == name@,
            n == cs@.len(),
            n > 6,
            j <= n - 6,
            stem@ == name@.take(j as int),
        decreases n - 6 - j,
    {
        stem.push(cs[j]);
        proof {
            assert(stem@ =~= name@.take(j + 1));
        }
        j = j + 1;
    }
    match parse_index_str(stem.as_str()) {
        Some(i) => Some(i),
        None => None,
    }
}

/// Collects the indices of the block files among `names`, in order.
#[verifier::loop_isolation(false)]
fn collect_block_indices(names: &Vec<String>) -> (r: Vec<usize>)
    ensures
        r@ == block_indices(names@.map_values(|s: String| s@)),
{
    let ghost model_names = names@.map_values(|s: String| s@);
    let mut out: Vec<usize> = Vec::new();
    let n = names.len();
    proof {
        assert(model_names.skip(0) =~= model_names);
        assert(out@ + block_indices(model_names) =~= block_indices(model_names));
    }
    let mut i: usize = 0;
    while i < n
        invariant
            i <= n,
            out@ + block_indices(model_names.skip(i as int)) == block_indices(model_names),
        decreases n - i,
    {
        let ghost pre = out@;
        proof {
            assert(model_names.skip(i as int)[0] == model_names[i as int]);
            assert(model_names[i as int] == names@[i as int]@);
            assert(model_names.skip(i as int).skip(1) =~= model_names.skip(i + 1));
        }
        match parse_block_name(names[i].as_str()) {
            Some(idx) => {
                out.push(idx);
                proof {
                    assert(pre.push(idx) + block_indices(model_names.skip(i + 1)) =~= pre + (
                    seq![idx] + block_indices(model_names.skip(i + 1))));
                }
            },
            None => {},
        }
        i = i + 1;
    }
    proof {
        assert(block_indices(model_names.skip(n as int)) =~= Seq::<usize>::empty());
        assert(out@ + Seq::<usize>::empty() =~= out@);
    }
    out
}

/// The position of a least element.
fn find_min(v: &Vec<usize>) -> (m: usize)
    requires
        v@.len() > 0,
    ensures
        m < v@.len(),
        forall|k: int| 0 <= k < v@.len() ==> v@[m as int] <= v@[k],
{
    let mut m: usize = 0;
    let mut k: usize = 1;
    while k < v.len()
        invariant
            m < k <= v@.len() || (k <= v@.len() && m == 0),
            m < v@.len(),
            forall|j: int| 0 <= j < k ==> v@[m as int] <= v@[j],
        decreases v@.len() - k,
    {
        if v[k] < v[m] {
            m = k;
        }
        k = k + 1;
    }
    m
}

/// Sorts indices ascending by repeatedly taking a least element; the
/// multiset of indices is kept.
#[verifier::loop_isolation(false)]
fn sort_indices(v: Vec<usize>) -> (r: Vec<usize>)
    ensures
        r@.to_multiset() == v@.to_multiset(),
        forall|i: int, j: int| 0 <= i < j < r@.len() ==> r@[i] <= r@[j],
{
    broadcast use vstd::seq_lib::group_to_multiset_ensures;

    let mut rest = v;
    let mut out: Vec<usize> = Vec::new();
    proof {
        assert(out@.to_multiset().add(rest@.to_multiset()) =~= rest@.to_multiset());
    }
    while rest.len() > 0
        invariant
            out@.to_multiset().add(rest@.to_multiset()) == v@.to_multiset(),
            forall|i: int, j: int| 0 <= i < j < out@.len() ==> out@[i] <= out@[j],
            forall|i: int, k: int|
                0 <= i < out@.len() && 0 <= k < rest@.len() ==> out@[i] <= rest@[k],
        decreases rest@.len(),
    {
        let m = find_min(&rest);
        let ghost pre_rest = rest@;
        let ghost pre_out = out@;
        let x = rest.remove(m);
        out.push(x);
        proof {
            assert(rest@ == pre_rest.remove(m as int));
            assert(rest@.to_multiset() =~= pre_rest.to_multiset().remove(x));
            assert(out@.to_multiset() =~= pre_out.to_multiset().insert(x));
            assert(pre_rest.to_multiset().count(x) > 0) by {
                assert(pre_rest[m as int] == x);
                assert(pre_rest.contains(x));
            }
            assert(out@.to_multiset().add(rest@.to_multiset()) =~= pre_out.to_multiset().add(
                pre_rest.to_multiset(),
            ));
            assert forall|i: int, k: int|
                0 <= i < out@.len() && 0 <= k < rest@.len() implies out@[i] <= rest@[k] by {
                if k < m {
                    assert(rest@[k] == pre_rest[k]);
                } else {
                    assert(rest@[k] == pre_rest[k + 1]);
                }
                if i < pre_out.len() {
                    assert(out@[i] == pre_out[i]);
                } else {
                    assert(out@[i] == x);
                }
            }
        }
    }
    proof {
        assert(rest@.to_multiset().len() == 0);
        assert(rest@.to_multiset() =~= Multiset::<usize>::empty());
        assert(out@.to_multiset().add(Multiset::<usize>::empty()) =~= out@.to_multiset());
    }
    out
}

/// The sorted indices of the block files among `names`: which blocks a
/// data directory holds, oldest first.
pub fn get_block_list(names: Vec<String>) -> (r: Vec<usize>)
    ensures
        r@.to_multiset() == block_indices(names@.map_values(|s: String| s@)).to_multiset(),
        forall|i: int, j: int| 0 <= i < j < r@.len() ==> r@[i] <= r@[j],
{
    let out = collect_block_indices(&names);
    sort_indices(out)
}

/// One journal record: the scope its operations are interpreted under,
/// and the batch itself.
pub open spec fn record_views(recs: Seq<(Option<JsonPointer>, Vec<JsonPatch>)>) -> Seq<
    (Seq<Seq<char>>, Seq<PatchModel>),
>
    decreases recs,
{
    if recs.len() == 0 {
        Seq::empty()
    } else {
        record_views(recs.drop_last()).push(
            (
                match recs.last().0 {
                    Some(p) => p@,
                    None => Seq::empty(),
                },
                batch_views(recs.last().1@),
            ),
        )
    }
}

/// Replaying a record sequence from a starting document, stopping at the
/// first error, as recovery does.
pub open spec fn replay_model(m: JsonModel, recs: Seq<(Seq<Seq<char>>, Seq<PatchModel>)>) -> Result<
    JsonModel,
    ErrorModel,
>
    decreases recs.len(),
{
    if recs.len() == 0 {
        Ok(m)
    } else {
        match model_apply_batch(m, recs[0].0, recs[0].1) {
            Ok(m1) => replay_model(m1, recs.skip(1)),
            Err(e) => Err(e),
        }
    }
}

/// Journal round trip: when every recorded batch was accepted by the
/// engine, in order, replaying the journal yields exactly the document
/// the engine holds in memory.  `docs` are the committed documents, the
/// starting one first.
pub proof fn lemma_journal_round_trip(
    m: JsonModel,
    recs: Seq<(Seq<Seq<char>>, Seq<PatchModel>)>,
    docs: Seq<JsonModel>,
)
    requires
        docs.len() == recs.len() + 1,
        docs[0] == m,
        forall|i: int|
            0 <= i < recs.len() ==> model_apply_batch(
                docs[i],
                (#[trigger] recs[i]).0,
                recs[i].1,
            ) == Ok::<JsonModel, ErrorModel>(docs[i + 1]),
    ensures
        replay_model(m, recs) == Ok::<JsonModel, ErrorModel>(docs.last()),
    decreases recs.len(),
{
    if recs.len() == 0 {
        assert(docs.last() == docs[0]);
    } else {
        let docs1 = docs.skip(1);
        assert(docs1[0] == docs[1]);
        assert forall|i: int|
            0 <= i < recs.skip(1).len() implies model_apply_batch(
            docs1[i],
            (#[trigger] recs.skip(1)[i]).0,
            recs.skip(1)[i].1,
        ) == Ok::<JsonModel, ErrorModel>(docs1[i + 1]) by {
            assert(recs.skip(1)[i] == recs[i + 1]);
            assert(docs1[i] == docs[i + 1]);
            assert(docs1[i + 1] == docs[i + 2]);
        }
        lemma_journal_round_trip(docs[1], recs.skip(1), docs1);
        assert(docs1.last() == docs.last());
    }
}

/// Replay can be cut at any block boundary: replaying a prefix into a
/// snapshot and then the rest gives the same document as replaying it
/// all.  This is what makes snapshot compaction sound.
pub proof fn lemma_replay_split(m: JsonModel, recs: Seq<(Seq<Seq<char>>, Seq<PatchModel>)>, k: int)
    requires
        0 <= k <= recs.len(),
        replay_model(m, recs.take(k)) is Ok,
    ensures
        replay_model(m, recs) == replay_model(replay_model(m, recs.take(k))->Ok_0, recs.skip(k)),
    decreases k,
{
    if k == 0 {
        assert(recs.take(0) =~= Seq::<(Seq<Seq<char>>, Seq<PatchModel>)>::empty());
        assert(recs.skip(0) =~= recs);
    } else {
        assert(recs.take(k)[0] == recs[0]);
        match model_apply_batch(m, recs[0].0, recs[0].1) {
            Ok(m1) => {
                assert(recs.take(k).skip(1) =~= recs.skip(1).take(k - 1));
                lemma_replay_split(m1, recs.skip(1), k - 1);
                assert(recs.skip(1).skip(k - 1) =~= recs.skip(k));
            },
            Err(e) => {
                assert(replay_model(m, recs.take(k)) is Err);
            },
        }
    }
}

/// Replays recorded batches through the engine, as recovery does: the
/// journal holds the accepted batches in commit order, so the document
/// that comes out is exactly the fold of those batches.
#[verifier::loop_isolation(false)]
pub fn replay(db: &mut MemDb, records: Vec<(Option<JsonPointer>, Vec<JsonPatch>)>) -> (r: Result<
    (),
    MemDbError,
>)
    requires
        wf(old(db)@),
        forall|i: int, j: int|
            0 <= i < records@.len() && 0 <= j < (#[trigger] records@[i]).1@.len()
                ==> crate::patch::patch_wf((#[trigger] records@[i].1@[j])@),
        forall|i: int, j: int|
            0 <= i < records@.len() && 0 <= j < (#[trigger] records@[i]).1@.len()
                ==> crate::patch::op_len_ok(
                prefix_view_of(records@[i].0),
                (#[trigger] records@[i].1@[j])@,
            ),
    ensures
        match r {
            Ok(()) => replay_model(old(db)@, record_views(records@)) == Ok::<
                JsonModel,
                ErrorModel,
            >(final(db)@) && wf(final(db)@),
            Err(e) => replay_model(old(db)@, record_views(records@)) == Err::<
                JsonModel,
                ErrorModel,
            >(e@),
        },
{
    let ghost m0 = db@;
    let ghost all = record_views(records@);
    proof {
        lemma_record_views(records@);
    }
    let mut records = records;
    while records.len() > 0
        invariant
            wf(db@),
            forall|i: int, j: int|
                0 <= i < records@.len() && 0 <= j < (#[trigger] records@[i]).1@.len()
                    ==> crate::patch::patch_wf((#[trigger] records@[i].1@[j])@),
            forall|i: int, j: int|
                0 <= i < records@.len() && 0 <= j < (#[trigger] records@[i]).1@.len()
                    ==> crate::patch::op_len_ok(
                    prefix_view_of(records@[i].0),
                    (#[trigger] records@[i].1@[j])@,
                ),
            replay_model(m0, all) == replay_model(db@, record_views(records@)),
        decreases records@.len(),
    {
        let ghost pre = records@;
        let (prefix, batch) = records.remove(0);
        proof {
            lemma_record_views(pre);
            lemma_record_views(records@);
            assert(records@ =~= pre.skip(1));
            assert forall|i: int|
                0 <= i < record_views(records@).len() implies record_views(records@)[i]
                == record_views(pre).skip(1)[i] by {
                assert(record_views(records@)[i] == rec_view(records@[i]));
                assert(record_views(pre)[i + 1] == rec_view(pre[i + 1]));
                assert(records@[i] == pre[i + 1]);
            }
            assert(record_views(records@) =~= record_views(pre).skip(1));
            assert(record_views(pre)[0] == rec_view(pre[0]));
        }
        let pref = match &prefix {
            Some(p) => Some(p),
            None => None,
        };
        let rr = db.patch(pref, batch);
        match rr {
            Ok(()) => {},
            Err(e) => {
                return Err(e);
            },
        }
    }
    proof {
        assert(record_views(records@) =~= Seq::<(Seq<Seq<char>>, Seq<PatchModel>)>::empty());
    }
    Ok(())
}

/// The prefix of one record, as a segment list.
pub open spec fn prefix_view_of(p: Option<JsonPointer>) -> Seq<Seq<char>> {
    match p {
        Some(q) => q@,
        None => Seq::empty(),
    }
}

/// The view of one record.
pub open spec fn rec_view(r: (Option<JsonPointer>, Vec<JsonPatch>)) -> (
    Seq<Seq<char>>,
    Seq<PatchModel>,
) {
    (prefix_view_of(r.0), batch_views(r.1@))
}

/// The record views line up with the records.
pub proof fn lemma_record_views(s: Seq<(Option<JsonPointer>, Vec<JsonPatch>)>)
    ensures
        record_views(s).len() == s.len(),
        forall|i: int| 0 <= i < s.len() ==> record_views(s)[i] == rec_view(#[trigger] s[i]),
    decreases s,
{
    if s.len() > 0 {
        lemma_record_views(s.drop_last());
        assert forall|i: int| 0 <= i < s.len() implies record_views(s)[i] == rec_view(
            #[trigger] s[i],
        ) by {
            if i < s.len() - 1 {
                assert(record_views(s)[i] == record_views(s.drop_last())[i]);
                assert(s.drop_last()[i] == s[i]);
            }
        }
    }
}

/// The compaction plan: with more than five blocks, all but the newest
/// are folded into the snapshot; otherwise compaction is skipped.
pub fn compaction_plan(blocks: &Vec<usize>) -> (r: Option<Vec<usize>>)
    ensures
        match r {
            Some(covered) => blocks@.len() > 5 && covered@ == blocks@.take(blocks@.len() - 1),
            None => blocks@.len() <= 5,
        },
{
    if blocks.len() > 5 {
        let mut covered: Vec<usize> = Vec::new();
        let n = blocks.len() - 1;
        for i in 0..n
            invariant
                n == blocks@.len() - 1,
                covered@ =~= blocks@.take(i as int),
        {
            covered.push(blocks[i]);
            proof {
                assert(covered@ =~= blocks@.take(i + 1));
            }
        }
        Some(covered)
    } else {
        None
    }
}

/// Whether the periodic compaction interval has passed.
pub fn compaction_due(elapsed_seconds: u64) -> (r: bool)
    ensures
        r == (elapsed_seconds > 1800),
{
    elapsed_seconds > 1800
}

} // verus!
