//! The subscription registry, the pump that fans incoming frames out to
//! every matching subscription, and the consumer-facing read side.
//!
//! A subscription's buffer is shared between exactly one writer (the pump)
//! and one reader (its `Subscriber`); the registry holds the canonical
//! store and each `Subscriber` holds a stable index into it. Serializing the
//! two sides (for instance by masking the receive interrupt around each
//! call) is the caller's responsibility: every operation here is a single
//! bounded, non-blocking critical-section body.

use vstd::prelude::*;
use crate::buffer::{BufferModel, FrameBuffer, accepted_first_at, filter_by, model_push};
use crate::buffer::{model_remove_rest, model_remove_result};
use crate::frame::{Frame, IdentifierFilter};

verus! {

/// One subscription's buffer state after one frame is offered to it: a push
/// when the subscription's filter matches the frame's identifier, untouched
/// otherwise.
pub open spec fn model_deliver(m: BufferModel, cap: int, filter: IdentifierFilter, f: Frame) -> BufferModel {
    if filter.spec_matches(f.identifier) {
        model_push(m, cap, f)
    } else {
        m
    }
}

/// One subscription's buffer state after a whole batch of frames is offered
/// to it, in arrival order.
pub open spec fn model_deliver_all(
    m: BufferModel,
    cap: int,
    filter: IdentifierFilter,
    fs: Seq<Frame>,
) -> BufferModel
    decreases fs.len(),
{
    if fs.len() == 0 {
        m
    } else {
        model_deliver_all(model_deliver(m, cap, filter, fs[0]), cap, filter, fs.drop_first())
    }
}

/// Offering the frames of `fs` and then one more frame `f` is offering
/// `fs.push(f)` in one batch.
pub proof fn lemma_deliver_all_snoc(
    m: BufferModel,
    cap: int,
    filter: IdentifierFilter,
    fs: Seq<Frame>,
    f: Frame,
)
    ensures
        model_deliver_all(m, cap, filter, fs.push(f)) == model_deliver(
            model_deliver_all(m, cap, filter, fs),
            cap,
            filter,
            f,
        ),
    decreases fs.len(),
{
    if fs.len() == 0 {
        assert(fs.push(f)[0] == f);
        assert(fs.push(f).drop_first() =~= Seq::<Frame>::empty());
        assert(model_deliver_all(m, cap, filter, fs.push(f)) == model_deliver_all(
            model_deliver(m, cap, filter, f),
            cap,
            filter,
            Seq::<Frame>::empty(),
        ));
        assert(model_deliver_all(m, cap, filter, fs) == m);
    } else {
        assert(fs.push(f)[0] == fs[0]);
        assert(fs.push(f).drop_first() =~= fs.drop_first().push(f));
        assert(model_deliver_all(m, cap, filter, fs.push(f)) == model_deliver_all(
            model_deliver(m, cap, filter, fs[0]),
            cap,
            filter,
            fs.drop_first().push(f),
        ));
        lemma_deliver_all_snoc(model_deliver(m, cap, filter, fs[0]), cap, filter, fs.drop_first(), f);
    }
}

/// Delivery never reorders: as long as a subscription's buffer has room for
/// the whole batch, a batch of matching frames lands at the tail in arrival
/// order, and no overflow is recorded.
pub proof fn lemma_delivery_preserves_arrival_order(
    m: BufferModel,
    cap: int,
    filter: IdentifierFilter,
    fs: Seq<Frame>,
)
    requires
        m.frames.len() + fs.len() <= cap,
        forall|i: int| 0 <= i < fs.len() ==> filter.spec_matches(#[trigger] fs[i].identifier),
    ensures
        model_deliver_all(m, cap, filter, fs).frames == m.frames + fs,
        model_deliver_all(m, cap, filter, fs).overflow == m.overflow,
    decreases fs.len(),
{
    if fs.len() == 0 {
        assert(m.frames + fs =~= m.frames);
    } else {
        let m1 = model_deliver(m, cap, filter, fs[0]);
        assert(m1.frames == m.frames.push(fs[0]));
        assert(forall|i: int| 0 <= i < fs.drop_first().len() ==> fs.drop_first()[i] == fs[i + 1]);
        lemma_delivery_preserves_arrival_order(m1, cap, filter, fs.drop_first());
        assert(m.frames.push(fs[0]) + fs.drop_first() =~= m.frames + fs);
    }
}

/// A batch of frames that a subscription's filter rejects leaves its buffer
/// exactly as it was: a frame matching no filter is discarded, not an error.
pub proof fn lemma_non_matching_batch_is_discarded(
    m: BufferModel,
    cap: int,
    filter: IdentifierFilter,
    fs: Seq<Frame>,
)
    requires
        forall|i: int| 0 <= i < fs.len() ==> !filter.spec_matches(#[trigger] fs[i].identifier),
    ensures
        model_deliver_all(m, cap, filter, fs) == m,
    decreases fs.len(),
{
    if fs.len() > 0 {
        assert(forall|i: int| 0 <= i < fs.drop_first().len() ==> fs.drop_first()[i] == fs[i + 1]);
        lemma_non_matching_batch_is_discarded(m, cap, filter, fs.drop_first());
    }
}

/// One registry entry: the subscription's immutable filter and its private
/// buffer, written only through the pump's fan-out.
pub struct SubscriberHandle {
    filter: IdentifierFilter,
    buffer: FrameBuffer,
}

/// The consumer-facing read side of one subscription: a stable index into
/// the registry that created it. All its operations work on that
/// subscription's buffer only.
#[derive(Clone, Copy, Debug)]
pub struct Subscriber {
    index: usize,
}

impl Subscriber {
    /// Which registry slot this handle reads.
    pub closed spec fn slot(self) -> int {
        self.index as int
    }

    /// Consume and return the first frame in this subscription's buffer
    /// whose identifier equals `identifier` exactly (no masking); nothing
    /// when no buffered frame carries it. Other subscriptions are untouched.
    pub fn receive(&self, interface: &mut Interface, identifier: u32) -> (r: Option<Frame>)
        requires
            old(interface).wf(),
            self.slot() < old(interface).sub_count(),
        ensures
            final(interface).wf(),
            final(interface).cap() == old(interface).cap(),
            final(interface).max_subs() == old(interface).max_subs(),
            final(interface).sub_count() == old(interface).sub_count(),
            forall|i: int| 0 <= i < old(interface).sub_count() ==> final(interface).sub_filter(i)
                == old(interface).sub_filter(i),
            forall|i: int| 0 <= i < old(interface).sub_count() && i != self.slot()
                ==> #[trigger] final(interface).sub_model(i) == old(interface).sub_model(i),
            r == model_remove_result(old(interface).sub_model(self.slot()).frames, identifier),
            final(interface).sub_model(self.slot()).frames == model_remove_rest(
                old(interface).sub_model(self.slot()).frames,
                identifier,
            ),
            final(interface).sub_model(self.slot()).overflow == old(interface).sub_model(
                self.slot(),
            ).overflow,
            match r {
                Some(f) => f.identifier == identifier && exists|i: int|
                    {
                        &&& 0 <= i < old(interface).sub_model(self.slot()).frames.len()
                        &&& (#[trigger] old(interface).sub_model(self.slot()).frames[i]) == f
                        &&& (forall|j: int|
                            0 <= j < i ==> old(interface).sub_model(self.slot()).frames[j].identifier
                                != identifier)
                        &&& final(interface).sub_model(self.slot()).frames == old(
                            interface,
                        ).sub_model(self.slot()).frames.remove(i)
                    },
                None => final(interface).sub_model(self.slot()).frames == old(interface).sub_model(
                    self.slot(),
                ).frames && (forall|i: int|
                    0 <= i < old(interface).sub_model(self.slot()).frames.len() ==> old(
                        interface,
                    ).sub_model(self.slot()).frames[i].identifier != identifier),
            },
    {
        let sub = &mut interface.subscribers[self.index];
        sub.buffer.remove_by_identifier(identifier)
    }

    /// Return, without removing it, the first frame of this subscription's
    /// buffer (in arrival order) that the predicate accepts.
    pub fn find<F: Fn(Frame) -> bool>(&self, interface: &Interface, pred: F) -> (r: Option<Frame>)
        requires
            interface.wf(),
            self.slot() < interface.sub_count(),
            forall|i: int| 0 <= i < interface.sub_model(self.slot()).frames.len()
                ==> call_requires(pred, (interface.sub_model(self.slot()).frames[i],)),
        ensures
            ({
                let s = interface.sub_model(self.slot()).frames;
                match r {
                    Some(f) => exists|i: int|
                        0 <= i < s.len() && s[i] == f && #[trigger] accepted_first_at(s, pred, i),
                    None => forall|i: int| 0 <= i < s.len() ==> call_ensures(pred, (s[i],), false),
                }
            }),
    {
        let sub = &interface.subscribers[self.index];
        proof {
            assert(interface.sub_model(self.slot()).frames == sub.buffer@);
        }
        sub.buffer.find_first_matching(pred)
    }

    /// Keep only the frames of this subscription's buffer that the
    /// predicate accepts, preserving their order; used for consumer-driven
    /// pruning of stale or superseded frames. Other subscriptions are
    /// untouched.
    pub fn retain<F: Fn(Frame) -> bool>(&self, interface: &mut Interface, pred: F)
        requires
            old(interface).wf(),
            self.slot() < old(interface).sub_count(),
            forall|i: int| 0 <= i < old(interface).sub_model(self.slot()).frames.len()
                ==> call_requires(pred, (old(interface).sub_model(self.slot()).frames[i],)),
        ensures
            final(interface).wf(),
            final(interface).cap() == old(interface).cap(),
            final(interface).max_subs() == old(interface).max_subs(),
            final(interface).sub_count() == old(interface).sub_count(),
            forall|i: int| 0 <= i < old(interface).sub_count() ==> final(interface).sub_filter(i)
                == old(interface).sub_filter(i),
            forall|i: int| 0 <= i < old(interface).sub_count() && i != self.slot()
                ==> #[trigger] final(interface).sub_model(i) == old(interface).sub_model(i),
            final(interface).sub_model(self.slot()).overflow == old(interface).sub_model(
                self.slot(),
            ).overflow,
            final(interface).sub_model(self.slot()).frames.len() <= old(interface).sub_model(
                self.slot(),
            ).frames.len(),
            exists|keep: Seq<bool>|
                {
                    &&& keep.len() == old(interface).sub_model(self.slot()).frames.len()
                    &&& (forall|i: int|
                        0 <= i < keep.len() ==> call_ensures(
                            pred,
                            (old(interface).sub_model(self.slot()).frames[i],),
                            #[trigger] keep[i],
                        ))
                    &&& final(interface).sub_model(self.slot()).frames == #[trigger] filter_by(
                        old(interface).sub_model(self.slot()).frames,
                        keep,
                    )
                },
    {
        let sub = &mut interface.subscribers[self.index];
        proof {
            assert(old(interface).sub_model(self.slot()).frames == sub.buffer@);
        }
        sub.buffer.retain(pred);
    }

    /// The registry slot this handle reads, for callers that must check it
    /// against `Interface::subscription_count` before a call.
    pub fn slot_index(&self) -> (r: usize)
        ensures
            r == self.slot(),
    {
        self.index
    }

    /// How many frames this subscription currently buffers.
    pub fn buffered_count(&self, interface: &Interface) -> (r: usize)
        requires
            interface.wf(),
            self.slot() < interface.sub_count(),
        ensures
            r == interface.sub_model(self.slot()).frames.len(),
    {
        interface.subscribers[self.index].buffer.len()
    }

    /// Whether a fan-out into this subscription's buffer has evicted a frame
    /// since the last reset.
    pub fn overflow_flag(&self, interface: &Interface) -> (r: bool)
        requires
            interface.wf(),
            self.slot() < interface.sub_count(),
        ensures
            r == interface.sub_model(self.slot()).overflow,
    {
        interface.subscribers[self.index].buffer.overflow_flag()
    }

    /// Clear this subscription's sticky overflow diagnostic; the buffered
    /// frames stay as they are.
    pub fn reset_overflow_flag(&self, interface: &mut Interface)
        requires
            old(interface).wf(),
            self.slot() < old(interface).sub_count(),
        ensures
            final(interface).wf(),
            final(interface).cap() == old(interface).cap(),
            final(interface).max_subs() == old(interface).max_subs(),
            final(interface).sub_count() == old(interface).sub_count(),
            forall|i: int| 0 <= i < old(interface).sub_count() ==> final(interface).sub_filter(i)
                == old(interface).sub_filter(i),
            forall|i: int| 0 <= i < old(interface).sub_count() && i != self.slot()
                ==> #[trigger] final(interface).sub_model(i) == old(interface).sub_model(i),
            final(interface).sub_model(self.slot()).frames == old(interface).sub_model(
                self.slot(),
            ).frames,
            !final(interface).sub_model(self.slot()).overflow,
    {
        let sub = &mut interface.subscribers[self.index];
        sub.buffer.reset_overflow_flag();
    }
}

/// The registry of active subscriptions and the pump over them. Every
/// subscription gets a private buffer of `buffer_capacity` frames, and at
/// most `max_subscriptions` subscriptions can ever be registered; once
/// registered, a subscription is never removed.
pub struct Interface {
    subscribers: Vec<SubscriberHandle>,
    buffer_capacity: usize,
    max_subscriptions: usize,
}

impl Interface {
    /// How many subscriptions are registered.
    pub closed spec fn sub_count(self) -> int {
        self.subscribers@.len() as int
    }

    /// The filter of the subscription in slot `i`.
    pub closed spec fn sub_filter(self, i: int) -> IdentifierFilter {
        self.subscribers@[i].filter
    }

    /// The buffer state of the subscription in slot `i`.
    pub closed spec fn sub_model(self, i: int) -> BufferModel {
        self.subscribers@[i].buffer.model()
    }

    /// The capacity every subscription's buffer is created with.
    pub closed spec fn cap(self) -> int {
        self.buffer_capacity as int
    }

    /// The static ceiling on the number of subscriptions.
    pub closed spec fn max_subs(self) -> int {
        self.max_subscriptions as int
    }

    /// Every stored buffer is well formed and was created with the common
    /// capacity.
    pub closed spec fn buffers_wf(self) -> bool {
        forall|i: int| 0 <= i < self.subscribers@.len() ==> (#[trigger] self.subscribers@[i]).buffer.wf()
            && self.subscribers@[i].buffer.cap() == self.buffer_capacity
    }

    /// Every registered buffer is well formed with the common capacity, the
    /// registry respects its ceiling, and no buffer holds more frames than
    /// that capacity.
    pub open spec fn wf(self) -> bool {
        &&& self.cap() >= 1
        &&& self.sub_count() <= self.max_subs()
        &&& self.buffers_wf()
        &&& forall|i: int| 0 <= i < self.sub_count() ==> (#[trigger] self.sub_model(i)).frames.len()
            <= self.cap()
    }

    /// A fresh interface with no subscriptions.
    pub fn new(buffer_capacity: usize, max_subscriptions: usize) -> (r: Interface)
        requires
            buffer_capacity >= 1,
        ensures
            r.wf(),
            r.sub_count() == 0,
            r.cap() == buffer_capacity,
            r.max_subs() == max_subscriptions,
    {
        Interface { subscribers: Vec::new(), buffer_capacity, max_subscriptions }
    }

    /// How many subscriptions are registered.
    pub fn subscription_count(&self) -> (r: usize)
        ensures
            r == self.sub_count(),
    {
        self.subscribers.len()
    }

    /// The capacity every subscription's buffer is created with.
    pub fn buffer_capacity(&self) -> (r: usize)
        ensures
            r == self.cap(),
    {
        self.buffer_capacity
    }

    /// Register a new subscription with an empty buffer and return the
    /// handle that reads it. Fails exactly when the subscription ceiling is
    /// already reached, and then changes nothing; existing subscriptions are
    /// never disturbed, and the new one only observes frames delivered after
    /// this call returns.
    pub fn subscribe(&mut self, filter: IdentifierFilter) -> (r: Result<Subscriber, ()>)
        requires
            old(self).wf(),
        ensures
            final(self).wf(),
            final(self).cap() == old(self).cap(),
            final(self).max_subs() == old(self).max_subs(),
            match r {
                Ok(s) => {
                    &&& old(self).sub_count() < old(self).max_subs()
                    &&& final(self).sub_count() == old(self).sub_count() + 1
                    &&& s.slot() == old(self).sub_count()
                    &&& final(self).sub_filter(s.slot()) == filter
                    &&& final(self).sub_model(s.slot()).frames == Seq::<Frame>::empty()
                    &&& !final(self).sub_model(s.slot()).overflow
                    &&& forall|i: int| 0 <= i < old(self).sub_count()
                        ==> final(self).sub_filter(i) == old(self).sub_filter(i)
                            && #[trigger] final(self).sub_model(i) == old(self).sub_model(i)
                },
                Err(_) => {
                    &&& old(self).sub_count() >= old(self).max_subs()
                    &&& *final(self) == *old(self)
                },
            },
    {
        if self.subscribers.len() >= self.max_subscriptions {
            return Err(());
        }
        let index = self.subscribers.len();
        let buffer = FrameBuffer::new(self.buffer_capacity);
        self.subscribers.push(SubscriberHandle { filter, buffer });
        Ok(Subscriber { index })
    }

    /// Fan one frame out: push a copy into the buffer of every subscription
    /// whose filter matches its identifier, evicting that buffer's oldest
    /// frame if it is full; every other subscription is untouched. A frame
    /// matching no filter is discarded, which is not an error.
    pub fn dispatch(&mut self, frame: Frame)
        requires
            old(self).wf(),
        ensures
            final(self).wf(),
            final(self).cap() == old(self).cap(),
            final(self).max_subs() == old(self).max_subs(),
            final(self).sub_count() == old(self).sub_count(),
            forall|i: int| 0 <= i < old(self).sub_count() ==> final(self).sub_filter(i) == old(
                self,
            ).sub_filter(i),
            forall|i: int| 0 <= i < old(self).sub_count() ==> #[trigger] final(self).sub_model(i)
                == model_deliver(
                old(self).sub_model(i),
                old(self).cap(),
                old(self).sub_filter(i),
                frame,
            ),
    {
        let n = self.subscribers.len();
        let mut i: usize = 0;
        while i < n
            invariant
                old(self).wf(),
                self.wf(),
                n == self.sub_count(),
                0 <= i <= n,
                self.buffer_capacity == old(self).buffer_capacity,
                self.max_subscriptions == old(self).max_subscriptions,
                forall|k: int| i <= k < n ==> self.subscribers@[k] == old(self).subscribers@[k],
                forall|k: int| 0 <= k < n ==> #[trigger] self.sub_filter(k) == old(
                    self,
                ).sub_filter(k),
                forall|k: int| 0 <= k < i ==> #[trigger] self.sub_model(k) == model_deliver(
                    old(self).sub_model(k),
                    old(self).cap(),
                    old(self).sub_filter(k),
                    frame,
                ),
            decreases n - i,
        {
            let ghost prev = *self;
            let matched = self.subscribers[i].filter.is_match(frame.identifier);
            if matched {
                let sub = &mut self.subscribers[i];
                sub.buffer.push(frame);
            }
            proof {
                assert(self.subscribers@.len() == n);
                assert(forall|k: int|
                    0 <= k < n && k != i ==> self.subscribers@[k] == prev.subscribers@[k]);
                assert(self.subscribers@[i as int].filter == prev.subscribers@[i as int].filter);
                assert(self.sub_model(i as int) == model_deliver(
                    old(self).sub_model(i as int),
                    old(self).cap(),
                    old(self).sub_filter(i as int),
                    frame,
                ));
                assert forall|k: int| 0 <= k < n implies #[trigger] self.sub_filter(k) == old(
                    self,
                ).sub_filter(k) by {
                    assert(prev.sub_filter(k) == old(self).sub_filter(k));
                }
                assert forall|k: int| 0 <= k < i + 1 implies #[trigger] self.sub_model(k)
                    == model_deliver(
                    old(self).sub_model(k),
                    old(self).cap(),
                    old(self).sub_filter(k),
                    frame,
                ) by {
                    if k < i {
                        assert(prev.sub_model(k) == model_deliver(
                            old(self).sub_model(k),
                            old(self).cap(),
                            old(self).sub_filter(k),
                            frame,
                        ));
                        assert(self.sub_model(k) == prev.sub_model(k));
                    }
                }
            }
            i += 1;
        }
    }

    /// The pump: fan every frame of a drained batch out, in arrival order,
    /// so each subscription sees the batch exactly as if its frames had been
    /// offered to it one by one.
    pub fn spin(&mut self, frames: &Vec<Frame>)
        requires
            old(self).wf(),
        ensures
            final(self).wf(),
            final(self).cap() == old(self).cap(),
            final(self).max_subs() == old(self).max_subs(),
            final(self).sub_count() == old(self).sub_count(),
            forall|i: int| 0 <= i < old(self).sub_count() ==> final(self).sub_filter(i) == old(
                self,
            ).sub_filter(i),
            forall|i: int| 0 <= i < old(self).sub_count() ==> #[trigger] final(self).sub_model(i)
                == model_deliver_all(
                old(self).sub_model(i),
                old(self).cap(),
                old(self).sub_filter(i),
                frames@,
            ),
    {
        let n = frames.len();
        let mut j: usize = 0;
        while j < n
            invariant
                old(self).wf(),
                self.wf(),
                n == frames@.len(),
                0 <= j <= n,
                self.cap() == old(self).cap(),
                self.max_subs() == old(self).max_subs(),
                self.sub_count() == old(self).sub_count(),
                forall|i: int| 0 <= i < old(self).sub_count() ==> self.sub_filter(i) == old(
                    self,
                ).sub_filter(i),
                forall|i: int| 0 <= i < old(self).sub_count() ==> #[trigger] self.sub_model(i)
                    == model_deliver_all(
                    old(self).sub_model(i),
                    old(self).cap(),
                    old(self).sub_filter(i),
                    frames@.subrange(0, j as int),
                ),
            decreases n - j,
        {
            let ghost prev = *self;
            self.dispatch(frames[j]);
            proof {
                assert(frames@.subrange(0, j as int + 1) =~= frames@.subrange(0, j as int).push(
                    frames@[j as int],
                ));
                assert forall|i: int| 0 <= i < old(self).sub_count() implies #[trigger] self
                    .sub_model(i) == model_deliver_all(
                    old(self).sub_model(i),
                    old(self).cap(),
                    old(self).sub_filter(i),
                    frames@.subrange(0, j as int + 1),
                ) by {
                    lemma_deliver_all_snoc(
                        old(self).sub_model(i),
                        old(self).cap(),
                        old(self).sub_filter(i),
                        frames@.subrange(0, j as int),
                        frames@[j as int],
                    );
                }
            }
            j += 1;
        }
        proof {
            assert(frames@.subrange(0, n as int) =~= frames@);
        }
    }
}

} // verus!
