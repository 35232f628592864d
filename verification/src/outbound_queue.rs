//! The queue of frames that wait to be written to one subscriber.
//!
//! Event frames have a budget of frames and of bytes. On overflow the oldest
//! events make room: webhook consumers care about freshness more than about
//! completeness. Control frames never count against the budget and are never
//! evicted.

use std::collections::VecDeque;

use vstd::prelude::*;

verus! {

/// A serialised message to a subscriber.
#[derive(Debug, PartialEq, Eq)]
pub struct Frame {
    pub text: String,
    pub closing: bool,
    pub is_event: bool,
}

/// The value of a [`Frame`].
pub struct FrameValue {
    pub text: Seq<char>,
    pub closing: bool,
    pub is_event: bool,
}

impl View for Frame {
    type V = FrameValue;

    open spec fn view(&self) -> FrameValue {
        FrameValue { text: self.text@, closing: self.closing, is_event: self.is_event }
    }
}

/// An event frame.
pub open spec fn event_frame(text: Seq<char>) -> FrameValue {
    FrameValue { text, closing: false, is_event: true }
}

/// The values of a sequence of frames.
pub open spec fn frame_values(frames: Seq<Frame>) -> Seq<FrameValue> {
    Seq::new(frames.len(), |i: int| frames[i]@)
}

/// How many bytes a text takes.
pub open spec fn byte_len(text: Seq<char>) -> nat {
    vstd::utf8::encode_utf8(text).len()
}

/// How many events are among the frames.
pub open spec fn event_count(frames: Seq<FrameValue>) -> nat
    decreases frames.len(),
{
    if frames.len() == 0 {
        0
    } else {
        event_count(frames.drop_last()) + if frames.last().is_event {
            1nat
        } else {
            0nat
        }
    }
}

/// How many bytes the events among the frames take.
pub open spec fn event_bytes(frames: Seq<FrameValue>) -> nat
    decreases frames.len(),
{
    if frames.len() == 0 {
        0
    } else {
        event_bytes(frames.drop_last()) + if frames.last().is_event {
            byte_len(frames.last().text)
        } else {
            0nat
        }
    }
}

/// Where the oldest event stands; the number of frames where there is none.
pub open spec fn oldest_event(frames: Seq<FrameValue>) -> nat
    decreases frames.len(),
{
    if frames.len() == 0 {
        0
    } else if oldest_event(frames.drop_last()) < frames.len() - 1 {
        oldest_event(frames.drop_last())
    } else if frames.last().is_event {
        (frames.len() - 1) as nat
    } else {
        frames.len()
    }
}

/// The frames without the oldest event.
pub open spec fn without_oldest(frames: Seq<FrameValue>) -> Seq<FrameValue> {
    if oldest_event(frames) < frames.len() {
        frames.remove(oldest_event(frames) as int)
    } else {
        frames
    }
}

/// The frames without the oldest `k` events.
pub open spec fn without_oldest_events(frames: Seq<FrameValue>, k: nat) -> Seq<FrameValue>
    decreases k,
{
    if k == 0 {
        frames
    } else {
        without_oldest_events(without_oldest(frames), (k - 1) as nat)
    }
}

/// Whether an event of `incoming` bytes still fits beside the frames.
pub open spec fn fits(
    frames: Seq<FrameValue>,
    incoming: nat,
    max_events: nat,
    max_event_bytes: nat,
) -> bool {
    event_count(frames) == 0 || (event_count(frames) + 1 <= max_events && event_bytes(frames)
        + incoming <= max_event_bytes)
}

/// How many of the oldest events have to go before an event of `incoming` bytes
/// fits.
pub open spec fn evictions(
    frames: Seq<FrameValue>,
    incoming: nat,
    max_events: nat,
    max_event_bytes: nat,
) -> nat
    decreases event_count(frames),
{
    if fits(frames, incoming, max_events, max_event_bytes) {
        0
    } else {
        proof {
            lemma_without_oldest(frames);
        }
        1 + evictions(without_oldest(frames), incoming, max_events, max_event_bytes)
    }
}

/// A counter that wraps around at its end.
pub open spec fn wrapped(n: int) -> int {
    n % (usize::MAX + 1)
}

proof fn lemma_wrapped_small(n: usize)
    ensures
        wrapped(n as int) == n,
{
    vstd::arithmetic::div_mod::lemma_small_mod(n as nat, (usize::MAX + 1) as nat);
}

/// Counters that wrap around can be added in steps.
pub proof fn lemma_wrapped_add(a: int, b: int)
    ensures
        wrapped(wrapped(a) + b) == wrapped(a + b),
{
    vstd::arithmetic::div_mod::lemma_add_mod_noop(a, b, usize::MAX + 1);
    vstd::arithmetic::div_mod::lemma_add_mod_noop(wrapped(a), b, usize::MAX + 1);
    vstd::arithmetic::div_mod::lemma_mod_twice(a, usize::MAX + 1);
}

/// One step of a counter that wraps around.
fn bump(n: usize) -> (r: usize)
    ensures
        r == wrapped(n + 1),
{
    proof {
        if n < usize::MAX {
            lemma_wrapped_small((n + 1) as usize);
        } else {
            vstd::arithmetic::div_mod::lemma_mod_self_0(usize::MAX + 1);
        }
    }
    n.wrapping_add(1)
}

proof fn lemma_oldest_event(frames: Seq<FrameValue>)
    ensures
        oldest_event(frames) <= frames.len(),
        oldest_event(frames) < frames.len() ==> frames[oldest_event(frames) as int].is_event,
        forall|i: int| 0 <= i < oldest_event(frames) ==> !(#[trigger] frames[i]).is_event,
        oldest_event(frames) < frames.len() <==> event_count(frames) > 0,
    decreases frames.len(),
{
    if frames.len() > 0 {
        lemma_oldest_event(frames.drop_last());
        assert forall|i: int| 0 <= i < oldest_event(frames) implies !(#[trigger] frames[i]).is_event by {
            if i < frames.len() - 1 {
                assert(frames.drop_last()[i] == frames[i]);
            }
        }
    }
}

/// What taking one frame out does to the count and the bytes of the events.
proof fn lemma_remove(frames: Seq<FrameValue>, i: int)
    requires
        0 <= i < frames.len(),
    ensures
        event_count(frames) == event_count(frames.remove(i)) + if frames[i].is_event {
            1nat
        } else {
            0nat
        },
        event_bytes(frames) == event_bytes(frames.remove(i)) + if frames[i].is_event {
            byte_len(frames[i].text)
        } else {
            0nat
        },
    decreases frames.len(),
{
    if i == frames.len() - 1 {
        assert(frames.remove(i) =~= frames.drop_last());
    } else {
        lemma_remove(frames.drop_last(), i);
        assert(frames.remove(i).drop_last() =~= frames.drop_last().remove(i));
        assert(frames.remove(i).last() == frames.last());
    }
}

/// Without its oldest event a queue holds one event less, and no more bytes.
pub proof fn lemma_without_oldest(frames: Seq<FrameValue>)
    ensures
        event_count(frames) > 0 ==> event_count(without_oldest(frames)) == event_count(frames) - 1,
        event_bytes(without_oldest(frames)) <= event_bytes(frames),
{
    lemma_oldest_event(frames);
    if event_count(frames) > 0 {
        lemma_remove(frames, oldest_event(frames) as int);
    }
}

/// The queue of one subscriber.
pub struct OutboundQueue {
    frames: VecDeque<Frame>,
    max_events: usize,
    max_event_bytes: usize,
    delivered: usize,
    dropped: usize,
    lag_pending: usize,
}

/// The value of an [`OutboundQueue`].
///
/// `delivered` counts the events that were taken out to be written, `dropped`
/// those that were evicted or never fitted, and `lag` the drops that the
/// subscriber has not been told of. The three counters wrap around.
pub struct QueueValue {
    pub frames: Seq<FrameValue>,
    pub max_events: nat,
    pub max_event_bytes: nat,
    pub delivered: int,
    pub dropped: int,
    pub lag: int,
}

impl QueueValue {
    /// The events that the queue answers for: delivered, dropped or waiting.
    pub open spec fn accounted(self) -> int {
        wrapped(self.delivered + self.dropped + event_count(self.frames))
    }

    /// Both budgets are kept.
    pub open spec fn within_budget(self) -> bool {
        &&& 1 <= self.max_events
        &&& 1 <= self.max_event_bytes
        &&& event_count(self.frames) <= self.max_events
        &&& event_bytes(self.frames) <= self.max_event_bytes
    }

    /// The queue after an event with `text` was put in.
    pub open spec fn with_event(self, text: Seq<char>) -> QueueValue {
        let incoming = byte_len(text);
        if incoming > self.max_event_bytes {
            QueueValue {
                dropped: wrapped(self.dropped + 1),
                lag: wrapped(self.lag + 1),
                ..self
            }
        } else {
            let k = evictions(self.frames, incoming, self.max_events, self.max_event_bytes);
            QueueValue {
                frames: without_oldest_events(self.frames, k).push(event_frame(text)),
                dropped: wrapped(self.dropped + k),
                lag: wrapped(self.lag + k),
                ..self
            }
        }
    }
}

impl View for OutboundQueue {
    type V = QueueValue;

    closed spec fn view(&self) -> QueueValue {
        QueueValue {
            frames: frame_values(self.frames@),
            max_events: self.max_events as nat,
            max_event_bytes: self.max_event_bytes as nat,
            delivered: self.delivered as int,
            dropped: self.dropped as int,
            lag: self.lag_pending as int,
        }
    }
}

impl OutboundQueue {
    #[verifier::type_invariant]
    spec fn keeps_budget(self) -> bool {
        self@.within_budget()
    }

    /// An empty queue. Budgets of zero count as one.
    pub fn new(max_events: usize, max_event_bytes: usize) -> (queue: OutboundQueue)
        ensures
            queue@ == (QueueValue {
                frames: Seq::empty(),
                max_events: if max_events == 0 {
                    1
                } else {
                    max_events as nat
                },
                max_event_bytes: if max_event_bytes == 0 {
                    1
                } else {
                    max_event_bytes as nat
                },
                delivered: 0,
                dropped: 0,
                lag: 0,
            }),
            queue@.within_budget(),
    {
        let frames: VecDeque<Frame> = VecDeque::new();
        assert(frame_values(frames@) =~= Seq::<FrameValue>::empty());
        OutboundQueue {
            frames,
            max_events: if max_events == 0 {
                1
            } else {
                max_events
            },
            max_event_bytes: if max_event_bytes == 0 {
                1
            } else {
                max_event_bytes
            },
            delivered: 0,
            dropped: 0,
            lag_pending: 0,
        }
    }

    /// Takes the number of drops that the subscriber has not been told of and
    /// clears it. A burst of drops is thus reported once.
    pub fn take_pending_lag(&mut self) -> (lag: Option<usize>)
        ensures
            final(self)@ == (QueueValue { lag: 0, ..old(self)@ }),
            match lag {
                Some(n) => n == old(self)@.lag && n > 0,
                None => old(self)@.lag == 0,
            },
            final(self)@.accounted() == old(self)@.accounted(),
    {
        proof {
            use_type_invariant(&*self);
        }
        let n: usize = self.lag_pending;
        self.lag_pending = 0;
        if n == 0 {
            None
        } else {
            Some(n)
        }
    }

    /// Puts an event in. The oldest events go as far as the budgets ask for it;
    /// an event that no budget could hold is dropped itself.
    pub fn push_event(&mut self, text: String)
        ensures
            final(self)@ == old(self)@.with_event(text@),
            final(self)@.within_budget(),
            final(self)@.accounted() == wrapped(old(self)@.accounted() + 1),
    {
        proof {
            use_type_invariant(&*self);
            queue_answers_for_each_event(self@, text@);
        }
        let ghost before = self@;
        let incoming: usize = text.as_str().as_bytes().len();
        if incoming > self.max_event_bytes {
            self.dropped = bump(self.dropped);
            self.lag_pending = bump(self.lag_pending);
            return;
        }
        let mut taken: OutboundQueue = OutboundQueue::new(1, 1);
        std::mem::swap(&mut taken, self);
        let mut frames: VecDeque<Frame> = taken.frames;
        let max_events: usize = taken.max_events;
        let max_event_bytes: usize = taken.max_event_bytes;
        let mut dropped: usize = taken.dropped;
        let mut lag_pending: usize = taken.lag_pending;
        let ghost mut gone: nat = 0;
        proof {
            lemma_wrapped_small(dropped);
            lemma_wrapped_small(lag_pending);
        }
        while over_budget(&frames, incoming, max_events, max_event_bytes)
            invariant
                max_events == before.max_events,
                max_event_bytes == before.max_event_bytes,
                incoming == byte_len(text@),
                incoming <= max_event_bytes,
                event_bytes(frame_values(frames@)) <= max_event_bytes,
                event_count(frame_values(frames@)) <= max_events,
                dropped == wrapped(before.dropped + gone),
                lag_pending == wrapped(before.lag + gone),
                gone + evictions(
                    frame_values(frames@),
                    incoming as nat,
                    max_events as nat,
                    max_event_bytes as nat,
                ) == evictions(
                    before.frames,
                    incoming as nat,
                    max_events as nat,
                    max_event_bytes as nat,
                ),
                forall|m: nat| #[trigger]
                    without_oldest_events(before.frames, gone + m) == without_oldest_events(
                        frame_values(frames@),
                        m,
                    ),
            decreases event_count(frame_values(frames@)),
        {
            let ghost now = frame_values(frames@);
            let at: usize = position_of_event(&frames);
            proof {
                lemma_oldest_event(now);
                lemma_without_oldest(now);
            }
            let _ = frames.remove(at);
            proof {
                assert(frame_values(frames@) =~= without_oldest(now));
                lemma_wrapped_add(before.dropped + gone, 1);
                lemma_wrapped_add(before.lag + gone, 1);
                assert forall|m: nat| #[trigger]
                    without_oldest_events(before.frames, gone + 1 + m) == without_oldest_events(
                        frame_values(frames@),
                        m,
                    ) by {
                    assert(without_oldest_events(before.frames, gone + (m + 1))
                        == without_oldest_events(now, m + 1));
                    assert(gone + (m + 1) == gone + 1 + m);
                }
                gone = gone + 1;
            }
            dropped = bump(dropped);
            lag_pending = bump(lag_pending);
        }
        let ghost rest = frame_values(frames@);
        proof {
            assert(without_oldest_events(before.frames, gone + 0) == without_oldest_events(rest, 0));
        }
        frames.push_back(Frame { text, closing: false, is_event: true });
        proof {
            let now = frame_values(frames@);
            assert(now =~= rest.push(event_frame(text@)));
            assert(now.drop_last() =~= rest);
            if event_count(rest) == 0 {
                lemma_no_events(rest);
            }
        }
        *self = OutboundQueue {
            frames,
            max_events,
            max_event_bytes,
            delivered: taken.delivered,
            dropped,
            lag_pending,
        };
    }

    /// Puts a control frame in, whatever the budgets say.
    pub fn push_control(&mut self, text: String, closing: bool)
        ensures
            final(self)@ == (QueueValue {
                frames: old(self)@.frames.push(
                    FrameValue { text: text@, closing, is_event: false },
                ),
                ..old(self)@
            }),
            final(self)@.within_budget(),
            final(self)@.accounted() == old(self)@.accounted(),
    {
        proof {
            use_type_invariant(&*self);
        }
        let ghost before = self@;
        let mut taken: OutboundQueue = OutboundQueue::new(1, 1);
        std::mem::swap(&mut taken, self);
        let mut frames: VecDeque<Frame> = taken.frames;
        frames.push_back(Frame { text, closing, is_event: false });
        proof {
            let now = frame_values(frames@);
            assert(now =~= before.frames.push(FrameValue { text: text@, closing, is_event: false }));
            assert(now.drop_last() =~= before.frames);
        }
        *self = OutboundQueue {
            frames,
            max_events: taken.max_events,
            max_event_bytes: taken.max_event_bytes,
            delivered: taken.delivered,
            dropped: taken.dropped,
            lag_pending: taken.lag_pending,
        };
    }

    /// Takes the first frame out; an event then counts as delivered.
    pub fn pop(&mut self) -> (frame: Option<Frame>)
        ensures
            match frame {
                Some(f) => old(self)@.frames.len() > 0 && f@ == old(self)@.frames[0] && final(self)@ == (QueueValue {
                    frames: old(self)@.frames.drop_first(),
                    delivered: if f.is_event {
                        wrapped(old(self)@.delivered + 1)
                    } else {
                        old(self)@.delivered
                    },
                    ..old(self)@
                }),
                None => old(self)@.frames.len() == 0 && final(self)@ == old(self)@,
            },
            final(self)@.within_budget(),
            final(self)@.accounted() == old(self)@.accounted(),
    {
        proof {
            use_type_invariant(&*self);
        }
        let ghost before = self@;
        let mut taken: OutboundQueue = OutboundQueue::new(1, 1);
        std::mem::swap(&mut taken, self);
        let mut frames: VecDeque<Frame> = taken.frames;
        let mut delivered: usize = taken.delivered;
        let popped: Option<Frame> = frames.pop_front();
        if let Some(frame) = &popped {
            if frame.is_event {
                delivered = bump(delivered);
            }
        }
        proof {
            let now = frame_values(frames@);
            if before.frames.len() > 0 {
                assert(now =~= before.frames.drop_first());
                assert(before.frames.remove(0) =~= before.frames.drop_first());
                lemma_remove(before.frames, 0);
                let rest = before.dropped + event_count(now);
                lemma_wrapped_add(before.delivered + 1, rest);
            } else {
                assert(now =~= before.frames);
            }
        }
        *self = OutboundQueue {
            frames,
            max_events: taken.max_events,
            max_event_bytes: taken.max_event_bytes,
            delivered,
            dropped: taken.dropped,
            lag_pending: taken.lag_pending,
        };
        popped
    }

    /// How many events were taken out to be written.
    pub fn delivered(&self) -> (n: usize)
        ensures
            n == self@.delivered,
    {
        self.delivered
    }

    /// How many events were evicted or never fitted.
    pub fn dropped(&self) -> (n: usize)
        ensures
            n == self@.dropped,
    {
        self.dropped
    }
}

proof fn lemma_no_events(frames: Seq<FrameValue>)
    requires
        event_count(frames) == 0,
    ensures
        event_bytes(frames) == 0,
    decreases frames.len(),
{
    if frames.len() > 0 {
        lemma_no_events(frames.drop_last());
    }
}

proof fn lemma_evicted_counts(frames: Seq<FrameValue>, k: nat)
    requires
        k <= event_count(frames),
    ensures
        event_count(without_oldest_events(frames, k)) == event_count(frames) - k,
    decreases k,
{
    if k > 0 {
        lemma_without_oldest(frames);
        lemma_evicted_counts(without_oldest(frames), (k - 1) as nat);
    }
}

proof fn lemma_evictions_bounded(
    frames: Seq<FrameValue>,
    incoming: nat,
    max_events: nat,
    max_event_bytes: nat,
)
    ensures
        evictions(frames, incoming, max_events, max_event_bytes) <= event_count(frames),
    decreases event_count(frames),
{
    if !fits(frames, incoming, max_events, max_event_bytes) {
        lemma_without_oldest(frames);
        lemma_evictions_bounded(without_oldest(frames), incoming, max_events, max_event_bytes);
    }
}

/// An event that is put in is answered for: it waits, or it or an older one
/// counts as dropped.
pub proof fn queue_answers_for_each_event(queue: QueueValue, text: Seq<char>)
    ensures
        queue.with_event(text).accounted() == wrapped(queue.accounted() + 1),
{
    let incoming = byte_len(text);
    let n = event_count(queue.frames);
    lemma_wrapped_add(queue.delivered + queue.dropped + n, 1);
    if incoming > queue.max_event_bytes {
        lemma_wrapped_add(queue.dropped + 1, queue.delivered + n);
    } else {
        let k = evictions(queue.frames, incoming, queue.max_events, queue.max_event_bytes);
        lemma_evictions_bounded(queue.frames, incoming, queue.max_events, queue.max_event_bytes);
        lemma_evicted_counts(queue.frames, k);
        let rest = without_oldest_events(queue.frames, k);
        assert(rest.push(event_frame(text)).drop_last() =~= rest);
        lemma_wrapped_add(queue.dropped + k, queue.delivered + (n - k + 1));
    }
}

/// Where the first event stands.
fn position_of_event(frames: &VecDeque<Frame>) -> (at: usize)
    requires
        event_count(frame_values(frames@)) > 0,
    ensures
        at == oldest_event(frame_values(frames@)),
        at < frames@.len(),
{
    let ghost values = frame_values(frames@);
    proof {
        lemma_oldest_event(values);
    }
    let n: usize = frames.len();
    let mut i: usize = 0;
    while !frames[i].is_event
        invariant
            n == frames@.len(),
            values == frame_values(frames@),
            i <= oldest_event(values) < frames@.len(),
            values[oldest_event(values) as int].is_event,
        decreases frames@.len() - i,
    {
        assert(!values[i as int].is_event);
        i += 1;
    }
    proof {
        assert(values[i as int].is_event);
    }
    i
}

proof fn lemma_partial_bytes(frames: Seq<FrameValue>, i: int)
    requires
        0 <= i <= frames.len(),
    ensures
        event_bytes(frames.take(i)) <= event_bytes(frames),
        event_count(frames.take(i)) <= event_count(frames),
    decreases frames.len(),
{
    if i < frames.len() {
        assert(frames.drop_last().take(i) =~= frames.take(i));
        lemma_partial_bytes(frames.drop_last(), i);
    } else {
        assert(frames.take(i) =~= frames);
    }
}

/// Whether room has to be made for an event of `incoming` bytes.
fn over_budget(
    frames: &VecDeque<Frame>,
    incoming: usize,
    max_events: usize,
    max_event_bytes: usize,
) -> (over: bool)
    requires
        incoming <= max_event_bytes,
        event_bytes(frame_values(frames@)) <= max_event_bytes,
    ensures
        over == !fits(
            frame_values(frames@),
            incoming as nat,
            max_events as nat,
            max_event_bytes as nat,
        ),
{
    let ghost values = frame_values(frames@);
    let mut count: usize = 0;
    let mut bytes: usize = 0;
    let mut i: usize = 0;
    while i < frames.len()
        invariant
            i <= frames@.len(),
            values == frame_values(frames@),
            event_bytes(values) <= max_event_bytes,
            count == event_count(values.take(i as int)),
            count <= i,
            bytes == event_bytes(values.take(i as int)),
        decreases frames@.len() - i,
    {
        proof {
            assert(values.take(i as int + 1).drop_last() =~= values.take(i as int));
            assert(values[i as int] == frames@[i as int]@);
            lemma_partial_bytes(values, i as int + 1);
        }
        if frames[i].is_event {
            count += 1;
            bytes += frames[i].text.as_str().as_bytes().len();
        }
        i += 1;
    }
    assert(values.take(i as int) =~= values);
    count > 0 && (count >= max_events || bytes > max_event_bytes - incoming)
}

/// The events among the frames, in their order.
pub open spec fn events_of(frames: Seq<FrameValue>) -> Seq<FrameValue> {
    frames.filter(|f: FrameValue| f.is_event)
}

/// The control frames among the frames, in their order.
pub open spec fn controls_of(frames: Seq<FrameValue>) -> Seq<FrameValue> {
    frames.filter(|f: FrameValue| !f.is_event)
}

proof fn lemma_filter_all(frames: Seq<FrameValue>, events: bool)
    requires
        forall|i: int| 0 <= i < frames.len() ==> (#[trigger] frames[i]).is_event != events,
    ensures
        frames.filter(|f: FrameValue| f.is_event == events) == Seq::<FrameValue>::empty(),
    decreases frames.len(),
{
    reveal(Seq::filter);
    if frames.len() > 0 {
        assert forall|i: int| 0 <= i < frames.drop_last().len() implies (#[trigger] frames.drop_last()[i]).is_event
            != events by {
            assert(frames.drop_last()[i] == frames[i]);
        }
        lemma_filter_all(frames.drop_last(), events);
    }
}

proof fn lemma_filter_one_out(frames: Seq<FrameValue>, i: int, keep: spec_fn(FrameValue) -> bool)
    requires
        0 <= i < frames.len(),
    ensures
        keep(frames[i]) ==> frames.filter(keep) == frames.take(i).filter(keep) + seq![frames[i]]
            + frames.skip(i + 1).filter(keep),
        !keep(frames[i]) ==> frames.filter(keep) == frames.take(i).filter(keep) + frames.skip(
            i + 1,
        ).filter(keep),
        frames.remove(i).filter(keep) == frames.take(i).filter(keep) + frames.skip(i + 1).filter(
            keep,
        ),
{
    let head = frames.take(i);
    let one = seq![frames[i]];
    let tail = frames.skip(i + 1);
    assert(frames =~= head + one + tail);
    assert(frames.remove(i) =~= head + tail);
    Seq::filter_distributes_over_add(head + one, tail, keep);
    Seq::filter_distributes_over_add(head, one, keep);
    Seq::filter_distributes_over_add(head, tail, keep);
    reveal_with_fuel(Seq::filter, 2);
    assert(one.drop_last() =~= Seq::<FrameValue>::empty());
    if keep(frames[i]) {
        assert(one.filter(keep) =~= one);
    } else {
        assert(one.filter(keep) =~= Seq::<FrameValue>::empty());
        assert(head.filter(keep) + Seq::<FrameValue>::empty() =~= head.filter(keep));
    }
}

proof fn lemma_without_oldest_order(frames: Seq<FrameValue>)
    requires
        event_count(frames) > 0,
    ensures
        events_of(frames).len() > 0,
        events_of(without_oldest(frames)) == events_of(frames).drop_first(),
        controls_of(without_oldest(frames)) == controls_of(frames),
{
    lemma_oldest_event(frames);
    let i = oldest_event(frames) as int;
    let event = |f: FrameValue| f.is_event;
    let control = |f: FrameValue| !f.is_event;
    lemma_filter_one_out(frames, i, event);
    lemma_filter_one_out(frames, i, control);
    let head = frames.take(i);
    lemma_filter_all(head, true);
    assert(event =~= |f: FrameValue| f.is_event == true);
    assert(head.filter(event) == Seq::<FrameValue>::empty());
    let tail = frames.skip(i + 1).filter(event);
    assert(events_of(frames) =~= seq![frames[i]] + tail);
    assert(events_of(frames).drop_first() =~= tail);
    assert(events_of(without_oldest(frames)) =~= tail);
}

/// Eviction takes the oldest events and nothing else: the later events stay, in
/// their order, and every control frame stays, in its order.
pub proof fn eviction_takes_the_oldest_events(frames: Seq<FrameValue>, k: nat)
    requires
        k <= event_count(frames),
    ensures
        k <= events_of(frames).len(),
        events_of(without_oldest_events(frames, k)) == events_of(frames).skip(k as int),
        controls_of(without_oldest_events(frames, k)) == controls_of(frames),
    decreases k,
{
    if k > 0 {
        lemma_without_oldest(frames);
        lemma_without_oldest_order(frames);
        eviction_takes_the_oldest_events(without_oldest(frames), (k - 1) as nat);
        assert(events_of(frames).drop_first().skip(k - 1) =~= events_of(frames).skip(k as int));
    } else {
        assert(events_of(frames).skip(0) =~= events_of(frames));
    }
}

/// No more events are evicted than the budgets ask for: after `evictions` the
/// incoming event fits, and after fewer it did not.
pub proof fn evictions_are_least(
    frames: Seq<FrameValue>,
    incoming: nat,
    max_events: nat,
    max_event_bytes: nat,
    fewer: nat,
)
    ensures
        ({
            let k = evictions(frames, incoming, max_events, max_event_bytes);
            &&& k <= event_count(frames)
            &&& fits(without_oldest_events(frames, k), incoming, max_events, max_event_bytes)
            &&& fewer < k ==> !fits(
                without_oldest_events(frames, fewer),
                incoming,
                max_events,
                max_event_bytes,
            )
        }),
    decreases event_count(frames),
{
    if !fits(frames, incoming, max_events, max_event_bytes) {
        lemma_without_oldest(frames);
        evictions_are_least(
            without_oldest(frames),
            incoming,
            max_events,
            max_event_bytes,
            if fewer > 0 {
                (fewer - 1) as nat
            } else {
                0
            },
        );
    }
}

/// A queue with room for an event takes it, behind all others, and drops nothing.
pub proof fn room_is_used(queue: QueueValue, text: Seq<char>)
    requires
        event_count(queue.frames) < queue.max_events,
        event_bytes(queue.frames) + byte_len(text) <= queue.max_event_bytes,
    ensures
        ({
            let after = queue.with_event(text);
            &&& after.frames == queue.frames.push(
                FrameValue { text, closing: false, is_event: true },
            )
            &&& after.dropped == queue.dropped % (usize::MAX + 1)
            &&& after.lag == queue.lag % (usize::MAX + 1)
            &&& after.delivered == queue.delivered
            &&& after.max_events == queue.max_events
            &&& after.max_event_bytes == queue.max_event_bytes
        }),
{
}

/// An event that is larger than the whole budget is dropped itself, and nothing makes
/// room for it.
pub proof fn oversized_events_are_dropped(queue: QueueValue, text: Seq<char>)
    requires
        byte_len(text) > queue.max_event_bytes,
        0 <= queue.dropped < usize::MAX,
        0 <= queue.lag < usize::MAX,
    ensures
        queue.with_event(text) == (QueueValue {
            dropped: queue.dropped + 1,
            lag: queue.lag + 1,
            ..queue
        }),
{
    lemma_wrapped_small((queue.dropped + 1) as usize);
    lemma_wrapped_small((queue.lag + 1) as usize);
}

/// Where room has to be made, the oldest events go, as few as possible: with one more
/// of them the new event would have been one too many, or its bytes too many. All of
/// them, and nothing else, count as dropped, and the subscriber is yet to be told.
pub proof fn the_oldest_events_make_room(queue: QueueValue, text: Seq<char>)
    requires
        queue.within_budget(),
        byte_len(text) <= queue.max_event_bytes,
        0 <= queue.dropped,
        0 <= queue.lag,
        queue.dropped + event_count(queue.frames) <= usize::MAX,
        queue.lag + event_count(queue.frames) <= usize::MAX,
    ensures
        ({
            let after = queue.with_event(text);
            let gone = after.dropped - queue.dropped;
            let before = events_of(queue.frames);
            let new = FrameValue { text, closing: false, is_event: true };
            &&& 0 <= gone <= before.len()
            &&& after.lag - queue.lag == gone
            &&& events_of(after.frames) == before.skip(gone).push(new)
            &&& controls_of(after.frames) == controls_of(queue.frames)
            &&& after.within_budget()
            &&& after.delivered == queue.delivered
            &&& gone > 0 ==> ({
                let more = without_oldest_events(queue.frames, (gone - 1) as nat);
                event_count(more) + 1 > queue.max_events || event_bytes(more) + byte_len(text)
                    > queue.max_event_bytes
            })
        }),
{
    let incoming = byte_len(text);
    let k = evictions(queue.frames, incoming, queue.max_events, queue.max_event_bytes);
    evictions_are_least(
        queue.frames,
        incoming,
        queue.max_events,
        queue.max_event_bytes,
        if k > 0 {
            (k - 1) as nat
        } else {
            0
        },
    );
    lemma_wrapped_small((queue.dropped + k) as usize);
    lemma_wrapped_small((queue.lag + k) as usize);
    lemma_evicted_counts(queue.frames, k);
    eviction_takes_the_oldest_events(queue.frames, k);
    let rest = without_oldest_events(queue.frames, k);
    let new = FrameValue { text, closing: false, is_event: true };
    let frames = rest.push(new);
    assert(frames.drop_last() =~= rest);
    reveal(Seq::filter);
    assert(events_of(frames) == events_of(rest).push(new));
    assert(controls_of(frames) == controls_of(rest));
    lemma_event_free(rest);
}

proof fn lemma_event_free(frames: Seq<FrameValue>)
    ensures
        event_count(frames) == 0 ==> event_bytes(frames) == 0,
    decreases frames.len(),
{
    if frames.len() > 0 {
        lemma_event_free(frames.drop_last());
    }
}

/// A queue holds as many events, with as many bytes, as events were put in: each adds
/// one, and its bytes in UTF-8; other frames add nothing.
pub proof fn events_are_measured(frames: Seq<FrameValue>, frame: FrameValue)
    ensures
        event_count(frames.push(frame)) == event_count(frames) + if frame.is_event {
            1nat
        } else {
            0nat
        },
        event_bytes(frames.push(frame)) == event_bytes(frames) + if frame.is_event {
            vstd::utf8::encode_utf8(frame.text).len()
        } else {
            0nat
        },
        event_count(Seq::empty()) == 0,
        event_bytes(Seq::empty()) == 0,
{
    assert(frames.push(frame).drop_last() =~= frames);
}

} // verus!
