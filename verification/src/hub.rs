//! The subscription hub's state: per-subscription bounded queues of
//! projected batches.  The transport delivers what `take_next` hands out;
//! a subscriber that falls more than the buffer behind is closed and gets
//! nothing further, never a gap.

use vstd::prelude::*;
use vstd::pervasive::VecAdditionalExecFns;

use crate::engine::MemDb;
use crate::engine::batch_views;
use crate::engine::prefix_view;
use crate::patch::JsonPatch;
use crate::patch::PatchModel;
use crate::patch::op_len_ok;
use crate::pointer::JsonPointer;
use crate::reproject::create_subscription_patch;
use crate::reproject::project_batch;

verus! {

/// Each subscription buffers at most this many in-flight batches.
pub const SUBSCRIPTION_BUFFER: usize = 64;

/// One live subscription: its path, the batches published but not yet
/// taken by the transport, and the full publication history.
pub struct Subscription {
    pub path: JsonPointer,
    pub queue: Vec<Vec<JsonPatch>>,
    pub closed: bool,
    /// Everything the transport has taken, oldest first.
    pub taken: Ghost<Seq<Seq<PatchModel>>>,
    /// Everything ever published to this subscription, oldest first.
    pub history: Ghost<Seq<Seq<PatchModel>>>,
}

/// The views of the queued batches, oldest first.
pub open spec fn queue_views(q: Seq<Vec<JsonPatch>>) -> Seq<Seq<PatchModel>>
    decreases q,
{
    if q.len() == 0 {
        Seq::empty()
    } else {
        queue_views(q.drop_last()).push(batch_views(q.last()@))
    }
}

/// The queued batch views line up with the queue.
pub proof fn lemma_queue_views(q: Seq<Vec<JsonPatch>>)
    ensures
        queue_views(q).len() == q.len(),
        forall|i: int| 0 <= i < q.len() ==> queue_views(q)[i] == batch_views((#[trigger] q[i])@),
    decreases q,
{
    if q.len() > 0 {
        lemma_queue_views(q.drop_last());
        assert forall|i: int| 0 <= i < q.len() implies queue_views(q)[i] == batch_views(
            (#[trigger] q[i])@,
        ) by {
            if i < q.len() - 1 {
                assert(queue_views(q)[i] == queue_views(q.drop_last())[i]);
                assert(q.drop_last()[i] == q[i]);
            }
        }
    }
}

/// The delivery invariant: while a subscription is open, what was taken
/// followed by what is queued is exactly the publication history, in
/// order, and the queue respects the buffer bound.
pub open spec fn sub_inv(s: Subscription) -> bool {
    &&& s.queue@.len() <= SUBSCRIPTION_BUFFER
    &&& (!s.closed ==> s.history@ == s.taken@ + queue_views(s.queue@))
}

/// Subscription monotonicity: what the transport has delivered is a
/// prefix of the publication history, with no reordering and no gap.
pub proof fn lemma_delivery_prefix(s: Subscription)
    requires
        sub_inv(s),
        !s.closed,
    ensures
        s.taken@.is_prefix_of(s.history@),
{
    assert(s.history@.subrange(0, s.taken@.len() as int) =~= s.taken@);
}

impl Subscription {
    /// Opens a subscription at a path, with nothing published yet.
    pub fn open(path: JsonPointer) -> (s: Subscription)
        ensures
            sub_inv(s),
            !s.closed,
            s.path@ == path@,
            s.history@ == Seq::<Seq<PatchModel>>::empty(),
            s.taken@ == Seq::<Seq<PatchModel>>::empty(),
    {
        let s = Subscription {
            path,
            queue: Vec::new(),
            closed: false,
            taken: Ghost(Seq::empty()),
            history: Ghost(Seq::empty()),
        };
        proof {
            assert(queue_views(s.queue@) =~= Seq::<Seq<PatchModel>>::empty());
            assert(s.taken@ + queue_views(s.queue@) =~= s.history@);
        }
        s
    }

    /// Publishes one batch.  A full buffer closes the subscription: the
    /// slow consumer is dropped rather than given a gap.
    pub fn publish_to(&mut self, batch: Vec<JsonPatch>)
        requires
            sub_inv(*old(self)),
        ensures
            sub_inv(*final(self)),
            final(self).path@ == old(self).path@,
            final(self).taken@ == old(self).taken@,
            old(self).closed ==> *final(self) == *old(self),
            !old(self).closed ==> final(self).history@ == old(self).history@.push(batch_views(batch@)),
            !old(self).closed && old(self).queue@.len() < SUBSCRIPTION_BUFFER ==> !final(self).closed
                && final(self).queue@ == old(self).queue@.push(batch),
            !old(self).closed && old(self).queue@.len() >= SUBSCRIPTION_BUFFER ==> final(self).closed,
    {
        if self.closed {
            return ;
        }
        proof {
            self.history@ = self.history@.push(batch_views(batch@));
        }
        if self.queue.len() < SUBSCRIPTION_BUFFER {
            let ghost pre = self.queue@;
            self.queue.push(batch);
            proof {
                lemma_queue_views(pre);
                lemma_queue_views(self.queue@);
                assert forall|i: int|
                    0 <= i < queue_views(self.queue@).len() implies queue_views(self.queue@)[i]
                    == queue_views(pre).push(batch_views(batch@))[i] by {
                    assert(queue_views(self.queue@)[i] == batch_views(self.queue@[i]@));
                    if i < pre.len() {
                        assert(self.queue@[i] == pre[i]);
                    } else {
                        assert(self.queue@[i] == batch);
                    }
                }
                assert(queue_views(self.queue@) =~= queue_views(pre).push(batch_views(batch@)));
                assert(self.taken@ + queue_views(self.queue@) =~= self.history@);
            }
        } else {
            self.closed = true;
        }
    }

    /// Hands the oldest queued batch to the transport.
    pub fn take_next(&mut self) -> (r: Option<Vec<JsonPatch>>)
        requires
            sub_inv(*old(self)),
        ensures
            sub_inv(*final(self)),
            final(self).path@ == old(self).path@,
            final(self).closed == old(self).closed,
            final(self).history@ == old(self).history@,
            match r {
                Some(batch) => old(self).queue@.len() > 0 && batch == old(self).queue@[0]
                    && final(self).taken@ == old(self).taken@.push(batch_views(batch@)),
                None => old(self).queue@.len() == 0 && *final(self) == *old(self),
            },
    {
        if self.queue.len() == 0 {
            return None;
        }
        let ghost pre = self.queue@;
        let batch = self.queue.remove(0);
        proof {
            self.taken@ = self.taken@.push(batch_views(batch@));
            lemma_queue_views(pre);
            lemma_queue_views(self.queue@);
            assert(self.queue@ =~= pre.skip(1));
            assert forall|i: int|
                0 <= i < queue_views(self.queue@).len() implies queue_views(self.queue@)[i]
                == queue_views(pre).skip(1)[i] by {
                assert(queue_views(self.queue@)[i] == batch_views(self.queue@[i]@));
                assert(self.queue@[i] == pre[i + 1]);
                assert(queue_views(pre)[i + 1] == batch_views(pre[i + 1]@));
            }
            assert(queue_views(self.queue@) =~= queue_views(pre).skip(1));
            if !self.closed {
                assert(queue_views(pre)[0] == batch_views(batch@));
                assert(self.taken@ + queue_views(self.queue@) =~= self.history@);
            }
        }
        Some(batch)
    }
}

/// The subscription index, fanned out to on every accepted batch.
pub struct SubscriptionHub {
    pub subs: Vec<Subscription>,
}

/// Every subscription in the hub keeps its delivery invariant.
pub open spec fn hub_inv(h: SubscriptionHub) -> bool {
    forall|i: int| 0 <= i < h.subs@.len() ==> sub_inv(#[trigger] h.subs@[i])
}

impl SubscriptionHub {
    /// An empty index.
    pub fn new() -> (h: SubscriptionHub)
        ensures
            hub_inv(h),
            h.subs@.len() == 0,
    {
        SubscriptionHub { subs: Vec::new() }
    }

    /// Registers a subscriber at a path.
    pub fn register(&mut self, path: JsonPointer)
        requires
            hub_inv(*old(self)),
        ensures
            hub_inv(*final(self)),
            final(self).subs@.len() == old(self).subs@.len() + 1,
    {
        let ghost pre = self.subs@;
        let s = Subscription::open(path);
        self.subs.push(s);
        proof {
            assert forall|i: int| 0 <= i < self.subs@.len() implies sub_inv(
                #[trigger] self.subs@[i],
            ) by {
                if i < pre.len() {
                    assert(self.subs@[i] == pre[i]);
                }
            }
        }
    }

    /// Fans one accepted batch out: every open subscription whose
    /// projection is non-empty has it published, in commit order; the
    /// others are left exactly as they were.
    #[verifier::loop_isolation(false)]
    pub fn fan_out(&mut self, mdb: &MemDb, prefix: Option<&JsonPointer>, patch_list: &[JsonPatch])
        requires
            hub_inv(*old(self)),
            forall|i: int|
                0 <= i < old(self).subs@.len() ==> (#[trigger] old(self).subs@[i]).path@.len()
                    <= usize::MAX,
            forall|i: int|
                0 <= i < patch_list@.len() ==> op_len_ok(
                    prefix_view(prefix),
                    (#[trigger] patch_list@[i])@,
                ),
        ensures
            hub_inv(*final(self)),
            final(self).subs@.len() == old(self).subs@.len(),
            forall|i: int|
                0 <= i < final(self).subs@.len() ==> {
                    let before = (#[trigger] old(self).subs@[i]);
                    let after = final(self).subs@[i];
                    let proj = project_batch(
                        mdb@,
                        before.path@,
                        prefix_view(prefix),
                        crate::engine::batch_views(patch_list@),
                    );
                    &&& after.path@ == before.path@
                    &&& after.taken@ == before.taken@
                    &&& (before.closed || proj.len() == 0) ==> after == before
                    &&& (!before.closed && proj.len() > 0) ==> after.history@
                        == before.history@.push(proj)
                },
    {
        let ghost pv = prefix_view(prefix);
        let ghost views = crate::engine::batch_views(patch_list@);
        let n = self.subs.len();
        let mut i: usize = 0;
        while i < n
            invariant
                n == self.subs@.len() == old(self).subs@.len(),
                i <= n,
                hub_inv(*self),
                forall|k: int|
                    i <= k < n ==> #[trigger] self.subs@[k] == old(self).subs@[k],
                forall|k: int|
                    0 <= k < i ==> {
                        let before = (#[trigger] old(self).subs@[k]);
                        let after = self.subs@[k];
                        let proj = project_batch(mdb@, before.path@, pv, views);
                        &&& after.path@ == before.path@
                        &&& after.taken@ == before.taken@
                        &&& (before.closed || proj.len() == 0) ==> after == before
                        &&& (!before.closed && proj.len() > 0) ==> after.history@
                            == before.history@.push(proj)
                    },
            decreases n - i,
        {
            let ghost pre = self.subs@;
            let projected = create_subscription_patch(
                mdb,
                self.subs[i].path.as_ref(),
                prefix,
                patch_list,
            );
            let ghost proj_views = crate::engine::batch_views(projected@);
            if projected.len() > 0 {
                proof {
                    crate::engine::lemma_batch_views(projected@);
                    assert(proj_views.len() > 0);
                }
                let mut tmp = Subscription::open(JsonPointer::root());
                self.subs.set_and_swap(i, &mut tmp);
                tmp.publish_to(projected);
                self.subs.set_and_swap(i, &mut tmp);
                proof {
                    assert forall|k: int| 0 <= k < self.subs@.len() implies sub_inv(
                        #[trigger] self.subs@[k],
                    ) by {
                        if k != i {
                            assert(self.subs@[k] == pre[k]);
                        }
                    }
                }
            }
            i = i + 1;
        }
    }
}

} // verus!
