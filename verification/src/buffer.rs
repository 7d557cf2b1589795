//! The fixed-capacity, order-preserving frame store with the drop-oldest
//! overflow policy, and the mathematical model its contracts are stated over.

use vstd::prelude::*;
use crate::frame::Frame;

verus! {

/// The mathematical state of one buffer: the live frames in arrival order
/// (oldest first) and the sticky overflow diagnostic.
#[verifier::ext_equal]
pub struct BufferModel {
    pub frames: Seq<Frame>,
    pub overflow: bool,
}

/// The buffer state after one push with capacity `cap`: the frame is
/// appended at the tail, and when the buffer is already full the oldest
/// frame (the head) is evicted first and the overflow diagnostic is set.
pub open spec fn model_push(m: BufferModel, cap: int, f: Frame) -> BufferModel {
    if m.frames.len() < cap {
        BufferModel { frames: m.frames.push(f), overflow: m.overflow }
    } else {
        BufferModel { frames: m.frames.drop_first().push(f), overflow: true }
    }
}

/// The frame a push evicts: the oldest one when the buffer is full, none
/// otherwise.
pub open spec fn model_push_evicts(m: BufferModel, cap: int) -> Option<Frame> {
    if m.frames.len() < cap {
        None
    } else {
        Some(m.frames[0])
    }
}

/// The index of the first frame whose identifier equals `identifier`
/// exactly, or -1 when no buffered frame carries it.
pub open spec fn first_match_index(s: Seq<Frame>, identifier: u32) -> int
    decreases s.len(),
{
    if s.len() == 0 {
        -1
    } else if s[0].identifier == identifier {
        0
    } else if first_match_index(s.drop_first(), identifier) == -1 {
        -1
    } else {
        first_match_index(s.drop_first(), identifier) + 1
    }
}

/// What removing by identifier returns: the first frame with that exact
/// identifier, if any.
pub open spec fn model_remove_result(s: Seq<Frame>, identifier: u32) -> Option<Frame> {
    if first_match_index(s, identifier) == -1 {
        None
    } else {
        Some(s[first_match_index(s, identifier)])
    }
}

/// What removing by identifier leaves behind: the same frames in the same
/// order, minus the first one with that exact identifier.
pub open spec fn model_remove_rest(s: Seq<Frame>, identifier: u32) -> Seq<Frame> {
    if first_match_index(s, identifier) == -1 {
        s
    } else {
        s.remove(first_match_index(s, identifier))
    }
}

/// The predicate (as the relation `call_ensures` of an executable closure)
/// accepts the frame at index `i` of `s` and rejects every earlier one.
pub open spec fn accepted_first_at<F: Fn(Frame) -> bool>(s: Seq<Frame>, pred: F, i: int) -> bool {
    &&& call_ensures(pred, (s[i],), true)
    &&& forall|j: int| 0 <= j < i ==> call_ensures(pred, (s[j],), false)
}

/// The subsequence of `s` kept by the decisions in `keep`, in order.
pub open spec fn filter_by(s: Seq<Frame>, keep: Seq<bool>) -> Seq<Frame>
    decreases s.len(),
{
    if s.len() == 0 {
        Seq::empty()
    } else if keep[s.len() - 1] {
        filter_by(s.drop_last(), keep.drop_last()).push(s.last())
    } else {
        filter_by(s.drop_last(), keep.drop_last())
    }
}

/// Extending both the frames and the decisions by one element filters to the
/// old result, extended by the new frame exactly when it is kept.
pub proof fn lemma_filter_by_snoc(s: Seq<Frame>, keep: Seq<bool>, f: Frame, b: bool)
    requires
        s.len() == keep.len(),
    ensures
        filter_by(s.push(f), keep.push(b)) == if b {
            filter_by(s, keep).push(f)
        } else {
            filter_by(s, keep)
        },
{
    assert(s.push(f).drop_last() =~= s);
    assert(keep.push(b).drop_last() =~= keep);
}

/// A frame carrying the identifier with no earlier carrier pins
/// `first_match_index` down to its index.
pub proof fn lemma_first_match_index_is(s: Seq<Frame>, identifier: u32, k: int)
    requires
        0 <= k < s.len(),
        s[k].identifier == identifier,
        forall|j: int| 0 <= j < k ==> s[j].identifier != identifier,
    ensures
        first_match_index(s, identifier) == k,
    decreases s.len(),
{
    if k > 0 {
        assert(forall|i: int| 0 <= i < s.drop_first().len() ==> s.drop_first()[i] == s[i + 1]);
        lemma_first_match_index_is(s.drop_first(), identifier, k - 1);
    }
}

/// When no frame carries the identifier, `first_match_index` is -1.
pub proof fn lemma_first_match_index_none(s: Seq<Frame>, identifier: u32)
    requires
        forall|j: int| 0 <= j < s.len() ==> s[j].identifier != identifier,
    ensures
        first_match_index(s, identifier) == -1,
    decreases s.len(),
{
    if s.len() > 0 {
        assert(forall|i: int| 0 <= i < s.drop_first().len() ==> s.drop_first()[i] == s[i + 1]);
        lemma_first_match_index_none(s.drop_first(), identifier);
    }
}

/// The buffer state after pushing every frame of `fs`, oldest first.
pub open spec fn model_push_all(m: BufferModel, cap: int, fs: Seq<Frame>) -> BufferModel
    decreases fs.len(),
{
    if fs.len() == 0 {
        m
    } else {
        model_push_all(model_push(m, cap, fs[0]), cap, fs.drop_first())
    }
}

/// No sequence of pushes ever drives the number of buffered frames above
/// the capacity.
pub proof fn lemma_push_sequence_bounded(m: BufferModel, cap: int, fs: Seq<Frame>)
    requires
        cap >= 1,
        m.frames.len() <= cap,
    ensures
        model_push_all(m, cap, fs).frames.len() <= cap,
    decreases fs.len(),
{
    if fs.len() > 0 {
        lemma_push_sequence_bounded(model_push(m, cap, fs[0]), cap, fs.drop_first());
    }
}

/// A push into a full buffer evicts exactly the frame that arrived earliest
/// among those currently held (the head), sets the sticky overflow flag, and
/// leaves the most recent `cap` frames behind.
pub proof fn lemma_full_push_evicts_oldest(m: BufferModel, cap: int, f: Frame)
    requires
        cap >= 1,
        m.frames.len() == cap,
    ensures
        model_push_evicts(m, cap) == Some(m.frames[0]),
        model_push(m, cap, f).overflow,
        model_push(m, cap, f).frames == m.frames.drop_first().push(f),
        model_push(m, cap, f).frames.len() == cap,
{
}

/// Round trip: pushing a frame whose identifier is not already buffered and
/// then removing by that identifier returns exactly that frame and restores
/// the previous contents, provided the buffer was not full before the push.
pub proof fn lemma_push_then_remove_round_trip(m: BufferModel, cap: int, f: Frame)
    requires
        m.frames.len() < cap,
        forall|i: int| 0 <= i < m.frames.len() ==> m.frames[i].identifier != f.identifier,
    ensures
        model_remove_result(model_push(m, cap, f).frames, f.identifier) == Some(f),
        model_remove_rest(model_push(m, cap, f).frames, f.identifier) == m.frames,
{
    let pushed = model_push(m, cap, f).frames;
    let k = m.frames.len() as int;
    assert(pushed == m.frames.push(f));
    lemma_first_match_index_is(pushed, f.identifier, k);
    assert(pushed.remove(k) =~= m.frames);
}

/// Arrival order: after pushing three frames into an empty buffer the head
/// is the first of them (so a scan with an always-true predicate yields it),
/// and once the first is removed by its identifier the head is the second.
pub proof fn lemma_arrival_order(cap: int, f1: Frame, f2: Frame, f3: Frame)
    requires
        cap >= 3,
    ensures
        ({
            let s = model_push_all(
                BufferModel { frames: Seq::empty(), overflow: false },
                cap,
                seq![f1, f2, f3],
            ).frames;
            &&& s =~= seq![f1, f2, f3]
            &&& model_remove_result(s, f1.identifier) == Some(f1)
            &&& model_remove_rest(s, f1.identifier) =~= seq![f2, f3]
        }),
{
    let m0 = BufferModel { frames: Seq::empty(), overflow: false };
    let fs = seq![f1, f2, f3];
    assert(fs.drop_first() =~= seq![f2, f3]);
    assert(fs.drop_first().drop_first() =~= seq![f3]);
    assert(fs.drop_first().drop_first().drop_first() =~= Seq::<Frame>::empty());
    let m1 = model_push(m0, cap, f1);
    let m2 = model_push(m1, cap, f2);
    let m3 = model_push(m2, cap, f3);
    assert(m1.frames =~= seq![f1]);
    assert(m2.frames =~= seq![f1, f2]);
    assert(m3.frames =~= seq![f1, f2, f3]);
    assert(model_push_all(m0, cap, fs) == model_push_all(m1, cap, seq![f2, f3]));
    assert(model_push_all(m1, cap, seq![f2, f3]) == model_push_all(m2, cap, seq![f3]));
    assert(model_push_all(m2, cap, seq![f3]) == model_push_all(m3, cap, Seq::<Frame>::empty()));
    let s = model_push_all(m0, cap, fs).frames;
    assert(s =~= seq![f1, f2, f3]);
    lemma_first_match_index_is(s, f1.identifier, 0);
    assert(s.remove(0) =~= seq![f2, f3]);
}

/// A fixed-capacity, order-preserving store of received frames. Inserts,
/// removals and scans are linear in the capacity; overflow is resolved by
/// evicting the oldest frame and recorded in a sticky diagnostic flag that
/// only an explicit reset clears.
pub struct FrameBuffer {
    frames: Vec<Frame>,
    capacity: usize,
    overflow_flag: bool,
}

impl View for FrameBuffer {
    type V = Seq<Frame>;

    /// The live frames in arrival order, oldest first.
    closed spec fn view(&self) -> Seq<Frame> {
        self.frames@
    }
}

impl FrameBuffer {
    /// The fixed capacity the buffer was created with.
    pub closed spec fn cap(self) -> int {
        self.capacity as int
    }

    /// Whether a push has ever evicted a frame since the last reset.
    pub closed spec fn overflowed(self) -> bool {
        self.overflow_flag
    }

    /// The buffer's mathematical state.
    pub open spec fn model(self) -> BufferModel {
        BufferModel { frames: self@, overflow: self.overflowed() }
    }

    /// The buffer never holds more frames than its capacity.
    pub open spec fn wf(self) -> bool {
        self.cap() >= 1 && self@.len() <= self.cap()
    }

    /// An empty buffer that will hold at most `capacity` frames.
    pub fn new(capacity: usize) -> (r: FrameBuffer)
        requires
            capacity >= 1,
        ensures
            r.wf(),
            r@ == Seq::<Frame>::empty(),
            r.cap() == capacity,
            !r.overflowed(),
    {
        FrameBuffer { frames: Vec::new(), capacity, overflow_flag: false }
    }

    /// How many frames are currently buffered.
    pub fn len(&self) -> (r: usize)
        ensures
            r == self@.len(),
    {
        self.frames.len()
    }

    /// The fixed capacity.
    pub fn capacity(&self) -> (r: usize)
        ensures
            r == self.cap(),
    {
        self.capacity
    }

    /// Whether an overflow eviction has happened since the last reset.
    pub fn overflow_flag(&self) -> (r: bool)
        ensures
            r == self.overflowed(),
    {
        self.overflow_flag
    }

    /// Clear the sticky overflow diagnostic; the buffered frames stay as
    /// they are.
    pub fn reset_overflow_flag(&mut self)
        ensures
            final(self)@ == old(self)@,
            final(self).cap() == old(self).cap(),
            !final(self).overflowed(),
    {
        self.overflow_flag = false;
    }

    /// Insert at the logical tail. A full buffer never fails or blocks: the
    /// single oldest frame is evicted and returned, the sticky overflow flag
    /// is set, and the new frame is inserted at the new tail, so the buffer
    /// always reflects the most recent `capacity` frames.
    pub fn push(&mut self, frame: Frame) -> (evicted: Option<Frame>)
        requires
            old(self).wf(),
        ensures
            final(self).wf(),
            final(self).cap() == old(self).cap(),
            final(self).model() == model_push(old(self).model(), old(self).cap(), frame),
            evicted == model_push_evicts(old(self).model(), old(self).cap()),
    {
        if self.frames.len() == self.capacity {
            let ev = self.frames.remove(0);
            self.overflow_flag = true;
            self.frames.push(frame);
            proof {
                assert(old(self)@.remove(0) =~= old(self)@.drop_first());
                assert(self.model() =~= model_push(old(self).model(), old(self).cap(), frame));
            }
            Some(ev)
        } else {
            self.frames.push(frame);
            proof {
                assert(self.model() =~= model_push(old(self).model(), old(self).cap(), frame));
            }
            None
        }
    }

    /// Remove and return the first frame whose identifier equals
    /// `identifier` exactly (no masking), shifting the remaining frames left
    /// so their relative order is preserved. An empty or non-matching buffer
    /// yields nothing, not an error.
    pub fn remove_by_identifier(&mut self, identifier: u32) -> (r: Option<Frame>)
        requires
            old(self).wf(),
        ensures
            final(self).wf(),
            final(self).cap() == old(self).cap(),
            final(self).overflowed() == old(self).overflowed(),
            r == model_remove_result(old(self)@, identifier),
            final(self)@ == model_remove_rest(old(self)@, identifier),
            match r {
                Some(f) => f.identifier == identifier && exists|i: int|
                    {
                        &&& 0 <= i < old(self)@.len()
                        &&& (#[trigger] old(self)@[i]) == f
                        &&& (forall|j: int| 0 <= j < i ==> old(self)@[j].identifier != identifier)
                        &&& final(self)@ == old(self)@.remove(i)
                    },
                None => final(self)@ == old(self)@ && (forall|i: int|
                    0 <= i < old(self)@.len() ==> old(self)@[i].identifier != identifier),
            },
    {
        let n = self.frames.len();
        let mut i: usize = 0;
        while i < n
            invariant
                old(self).wf(),
                *self == *old(self),
                n == self@.len(),
                0 <= i <= n,
                forall|j: int| 0 <= j < i ==> self@[j].identifier != identifier,
            decreases n - i,
        {
            if self.frames[i].identifier == identifier {
                proof {
                    lemma_first_match_index_is(self@, identifier, i as int);
                }
                let f = self.frames.remove(i);
                proof {
                    assert(self@ == old(self)@.remove(i as int));
                    assert(self@.len() == old(self)@.len() - 1);
                }
                return Some(f);
            }
            i += 1;
        }
        proof {
            lemma_first_match_index_none(self@, identifier);
        }
        None
    }

    /// Return, without removing it, the first frame in arrival order that
    /// the predicate accepts; nothing when the predicate rejects every
    /// buffered frame.
    pub fn find_first_matching<F: Fn(Frame) -> bool>(&self, pred: F) -> (r: Option<Frame>)
        requires
            forall|i: int| 0 <= i < self@.len() ==> call_requires(pred, (self@[i],)),
        ensures
            match r {
                Some(f) => exists|i: int|
                    0 <= i < self@.len() && self@[i] == f && #[trigger] accepted_first_at(
                        self@,
                        pred,
                        i,
                    ),
                None => forall|i: int|
                    0 <= i < self@.len() ==> call_ensures(pred, (self@[i],), false),
            },
    {
        let n = self.frames.len();
        let mut i: usize = 0;
        while i < n
            invariant
                n == self@.len(),
                0 <= i <= n,
                forall|i0: int| 0 <= i0 < self@.len() ==> call_requires(pred, (self@[i0],)),
                forall|j: int| 0 <= j < i ==> call_ensures(pred, (self@[j],), false),
            decreases n - i,
        {
            let f = self.frames[i];
            if pred(f) {
                proof {
                    assert(accepted_first_at(self@, pred, i as int));
                }
                return Some(f);
            }
            i += 1;
        }
        None
    }

    /// Keep only the frames the predicate accepts, compacting in place so
    /// the relative order of the kept frames is preserved. The capacity and
    /// the overflow diagnostic are untouched.
    pub fn retain<F: Fn(Frame) -> bool>(&mut self, pred: F)
        requires
            old(self).wf(),
            forall|i: int| 0 <= i < old(self)@.len() ==> call_requires(pred, (old(self)@[i],)),
        ensures
            final(self).wf(),
            final(self).cap() == old(self).cap(),
            final(self).overflowed() == old(self).overflowed(),
            final(self)@.len() <= old(self)@.len(),
            exists|keep: Seq<bool>|
                {
                    &&& keep.len() == old(self)@.len()
                    &&& (forall|i: int|
                        0 <= i < keep.len() ==> call_ensures(
                            pred,
                            (old(self)@[i],),
                            #[trigger] keep[i],
                        ))
                    &&& final(self)@ == filter_by(old(self)@, keep)
                },
    {
        let n = self.frames.len();
        let mut kept: Vec<Frame> = Vec::new();
        let ghost mut keep: Seq<bool> = Seq::empty();
        let mut i: usize = 0;
        while i < n
            invariant
                old(self).wf(),
                *self == *old(self),
                n == self@.len(),
                0 <= i <= n,
                forall|i0: int| 0 <= i0 < self@.len() ==> call_requires(pred, (self@[i0],)),
                keep.len() == i,
                forall|j: int| 0 <= j < i ==> call_ensures(pred, (self@[j],), #[trigger] keep[j]),
                kept@ == filter_by(self@.subrange(0, i as int), keep),
                kept@.len() <= i,
            decreases n - i,
        {
            let f = self.frames[i];
            let b = pred(f);
            proof {
                lemma_filter_by_snoc(self@.subrange(0, i as int), keep, f, b);
                assert(self@.subrange(0, i as int + 1) =~= self@.subrange(0, i as int).push(
                    self@[i as int],
                ));
                keep = keep.push(b);
            }
            if b {
                kept.push(f);
            }
            i += 1;
        }
        proof {
            assert(self@.subrange(0, n as int) =~= self@);
        }
        self.frames = kept;
    }
}

} // verus!
