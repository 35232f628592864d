//! The registry of connected subscribers.

use vstd::prelude::*;
use vstd::string::*;

use crate::channel;
use crate::channel::Pattern;
use crate::delivery_log;
use crate::delivery_log::StampedEvent;
use crate::messages::{ClosingReason, Event};
use crate::outbound_queue;
use crate::outbound_queue::{Frame, OutboundQueue};
use crate::string_map::StringMap;
use crate::text;

verus! {

/// A connected subscriber.
pub struct Subscriber {
    pub id: u64,
    pub name: String,
    pub remote_addr: Option<String>,
    pub patterns: Vec<Pattern>,
    pub queue: OutboundQueue,
    pub closing: Option<ClosingReason>,
}

/// The value of a [`Subscriber`].
pub struct SubscriberValue {
    pub id: u64,
    pub name: Seq<char>,
    pub remote_addr: Option<Seq<char>>,
    pub patterns: Seq<Seq<char>>,
    pub queue: outbound_queue::QueueValue,
    pub closing: Option<ClosingReason>,
}

impl View for Subscriber {
    type V = SubscriberValue;

    open spec fn view(&self) -> SubscriberValue {
        SubscriberValue {
            id: self.id,
            name: self.name@,
            remote_addr: text::optional(self.remote_addr),
            patterns: channel::pattern_texts(self.patterns@),
            queue: self.queue@,
            closing: self.closing,
        }
    }
}

/// What a connection brings to the registry.
pub struct SubscriberRegistration {
    pub name: String,
    pub remote_addr: Option<String>,
    pub queue: OutboundQueue,
}

/// What is shown of a subscriber.
#[derive(Debug, PartialEq, Eq)]
pub struct SubscriberSnapshot {
    pub name: String,
    pub remote_addr: Option<String>,
    pub patterns: Vec<String>,
    pub delivered: usize,
    pub dropped: usize,
}

/// The value of a [`SubscriberSnapshot`].
pub struct SnapshotValue {
    pub name: Seq<char>,
    pub remote_addr: Option<Seq<char>>,
    pub patterns: Seq<Seq<char>>,
    pub delivered: int,
    pub dropped: int,
}

impl View for SubscriberSnapshot {
    type V = SnapshotValue;

    open spec fn view(&self) -> SnapshotValue {
        SnapshotValue {
            name: self.name@,
            remote_addr: text::optional(self.remote_addr),
            patterns: text::texts(self.patterns@),
            delivered: self.delivered as int,
            dropped: self.dropped as int,
        }
    }
}

/// A subscriber whose connection is asked to close.
pub open spec fn asked_to_close(s: SubscriberValue, reason: ClosingReason) -> SubscriberValue {
    SubscriberValue { closing: Some(reason), ..s }
}

/// What is shown of a subscriber.
pub open spec fn snapshot_of(subscriber: SubscriberValue) -> SnapshotValue {
    SnapshotValue {
        name: subscriber.name,
        remote_addr: subscriber.remote_addr,
        patterns: subscriber.patterns,
        delivered: subscriber.queue.delivered,
        dropped: subscriber.queue.dropped,
    }
}

/// An event on its way to the subscribers: its channel and its serialised frame.
#[derive(Debug, PartialEq, Eq)]
pub struct Delivery {
    pub channel: String,
    pub text: String,
}

/// The value of a [`Delivery`].
pub struct DeliveryValue {
    pub channel: Seq<char>,
    pub text: Seq<char>,
}

impl View for Delivery {
    type V = DeliveryValue;

    open spec fn view(&self) -> DeliveryValue {
        DeliveryValue { channel: self.channel@, text: self.text@ }
    }
}

/// The values of a list of deliveries.
pub open spec fn delivery_values(deliveries: Seq<Delivery>) -> Seq<DeliveryValue> {
    Seq::new(deliveries.len(), |i: int| deliveries[i]@)
}

/// The registry of connected subscribers, in the order in which they connected.
pub struct SubscriberRegistry {
    subscribers: Vec<Subscriber>,
    next_id: u64,
    live_head: u64,
}

/// The value of a [`SubscriberRegistry`]: the subscribers, the number of the
/// next one, and the last sequence number given to an event without a log.
pub struct RegistryValue {
    pub subscribers: Seq<SubscriberValue>,
    pub next_id: int,
    pub live_head: int,
}

impl RegistryValue {
    /// Every subscriber has a number of its own, below the next one.
    pub open spec fn ids_unique(self) -> bool {
        &&& forall|i: int|
            0 <= i < self.subscribers.len() ==> (#[trigger] self.subscribers[i]).id < self.next_id
        &&& forall|i: int, j: int|
            0 <= i < j < self.subscribers.len() ==> (#[trigger] self.subscribers[i]).id < (
            #[trigger] self.subscribers[j]).id
    }

    /// Whether a subscriber has the number `id`.
    pub open spec fn has(self, id: u64) -> bool {
        exists|i: int| 0 <= i < self.subscribers.len() && (#[trigger] self.subscribers[i]).id == id
    }

    /// The registry with every subscriber changed.
    pub open spec fn each(self, change: spec_fn(SubscriberValue) -> SubscriberValue) -> RegistryValue {
        RegistryValue {
            subscribers: Seq::new(
                self.subscribers.len(),
                |i: int| change(self.subscribers[i]),
            ),
            ..self
        }
    }

    /// The registry with one subscriber changed.
    pub open spec fn with(self, id: u64, change: spec_fn(SubscriberValue) -> SubscriberValue) -> RegistryValue {
        RegistryValue {
            subscribers: Seq::new(
                self.subscribers.len(),
                |i: int|
                    if self.subscribers[i].id == id {
                        change(self.subscribers[i])
                    } else {
                        self.subscribers[i]
                    },
            ),
            ..self
        }
    }
}

/// The first fault among the patterns that are asked for.
pub open spec fn first_pattern_error(patterns: Seq<Seq<char>>) -> Option<channel::ChannelFault>
    decreases patterns.len(),
{
    if patterns.len() == 0 {
        None
    } else {
        match first_pattern_error(patterns.drop_last()) {
            Some(fault) => Some(fault),
            None => channel::pattern_fault(patterns.last()),
        }
    }
}

/// The patterns of a subscriber after it has asked for more: each new pattern
/// comes last, and one that it has already is not added again.
pub open spec fn with_patterns(held: Seq<Seq<char>>, asked: Seq<Seq<char>>) -> Seq<Seq<char>>
    decreases asked.len(),
{
    if asked.len() == 0 {
        held
    } else {
        let before = with_patterns(held, asked.drop_last());
        if before.contains(asked.last()) {
            before
        } else {
            before.push(asked.last())
        }
    }
}

/// The patterns of a subscriber after it has given some up.
pub open spec fn without_patterns(held: Seq<Seq<char>>, gone: Seq<Seq<char>>) -> Seq<Seq<char>> {
    held.filter(|pattern: Seq<char>| !gone.contains(pattern))
}

/// The queue of a subscriber with these patterns after the deliveries.
pub open spec fn fanned(
    queue: outbound_queue::QueueValue,
    patterns: Seq<Seq<char>>,
    deliveries: Seq<DeliveryValue>,
) -> outbound_queue::QueueValue
    decreases deliveries.len(),
{
    if deliveries.len() == 0 {
        queue
    } else {
        let before = fanned(queue, patterns, deliveries.drop_last());
        if channel::selected_by_any(patterns, deliveries.last().channel) {
            before.with_event(deliveries.last().text)
        } else {
            before
        }
    }
}

/// A queue after its first frame was taken to be written, along with the count
/// of drops that the subscriber had not been told of.
pub open spec fn taken(queue: outbound_queue::QueueValue) -> outbound_queue::QueueValue {
    outbound_queue::QueueValue {
        frames: queue.frames.drop_first(),
        delivered: if queue.frames[0].is_event {
            outbound_queue::wrapped(queue.delivered + 1)
        } else {
            queue.delivered
        },
        lag: 0,
        ..queue
    }
}

/// How many of the deliveries one of the patterns selects.
pub open spec fn matching(patterns: Seq<Seq<char>>, deliveries: Seq<DeliveryValue>) -> nat
    decreases deliveries.len(),
{
    if deliveries.len() == 0 {
        0
    } else {
        matching(patterns, deliveries.drop_last()) + if channel::selected_by_any(
            patterns,
            deliveries.last().channel,
        ) {
            1nat
        } else {
            0nat
        }
    }
}

/// How many of the subscribers are called `name`.
pub open spec fn connections_of(subscribers: Seq<SubscriberValue>, name: Seq<char>) -> nat
    decreases subscribers.len(),
{
    if subscribers.len() == 0 {
        0
    } else {
        connections_of(subscribers.drop_last(), name) + if subscribers.last().name == name {
            1nat
        } else {
            0nat
        }
    }
}

/// The values of a list of subscribers.
pub open spec fn subscriber_values(subscribers: Seq<Subscriber>) -> Seq<SubscriberValue> {
    Seq::new(subscribers.len(), |i: int| subscribers[i]@)
}

impl View for SubscriberRegistry {
    type V = RegistryValue;

    closed spec fn view(&self) -> RegistryValue {
        RegistryValue {
            subscribers: subscriber_values(self.subscribers@),
            next_id: self.next_id as int,
            live_head: self.live_head as int,
        }
    }
}

impl SubscriberRegistry {
    /// A registry without subscribers. Numbers begin at one.
    pub fn new() -> (registry: SubscriberRegistry)
        ensures
            registry@ == (RegistryValue { subscribers: Seq::empty(), next_id: 1, live_head: 0 }),
            registry@.ids_unique(),
    {
        let registry = SubscriberRegistry { subscribers: Vec::new(), next_id: 1, live_head: 0 };
        assert(registry@.subscribers =~= Seq::<SubscriberValue>::empty());
        registry
    }

    /// Adds a subscriber, without patterns, and returns its number.
    pub fn insert(&mut self, registration: SubscriberRegistration) -> (id: u64)
        requires
            old(self)@.ids_unique(),
            old(self)@.next_id < u64::MAX,
        ensures
            id == old(self)@.next_id,
            !old(self)@.has(id),
            final(self)@ == (RegistryValue {
                subscribers: old(self)@.subscribers.push(
                    SubscriberValue {
                        id,
                        name: registration.name@,
                        remote_addr: text::optional(registration.remote_addr),
                        patterns: Seq::empty(),
                        queue: registration.queue@,
                        closing: None,
                    },
                ),
                next_id: old(self)@.next_id + 1,
                ..old(self)@
            }),
            final(self)@.ids_unique(),
    {
        let ghost before = self@;
        let id: u64 = self.next_id;
        self.next_id = self.next_id + 1;
        let patterns: Vec<Pattern> = Vec::new();
        assert(channel::pattern_texts(patterns@) =~= Seq::<Seq<char>>::empty());
        self.subscribers.push(
            Subscriber {
                id,
                name: registration.name,
                remote_addr: registration.remote_addr,
                patterns,
                queue: registration.queue,
                closing: None,
            },
        );
        assert(self@.subscribers =~= before.subscribers.push(self@.subscribers.last()));
        id
    }

    /// The position of a subscriber.
    fn find(&self, id: u64) -> (at: Option<usize>)
        ensures
            match at {
                Some(i) => i < self.subscribers@.len() && self@.subscribers[i as int].id == id
                    && self@.has(id),
                None => !self@.has(id),
            },
    {
        let mut i: usize = 0;
        while i < self.subscribers.len()
            invariant
                i <= self.subscribers@.len(),
                forall|j: int| 0 <= j < i ==> (#[trigger] self@.subscribers[j]).id != id,
            decreases self.subscribers@.len() - i,
        {
            assert(self@.subscribers[i as int] == self.subscribers@[i as int]@);
            if self.subscribers[i].id == id {
                return Some(i);
            }
            i += 1;
        }
        None
    }

    /// Takes a subscriber out; a number that no subscriber has changes nothing.
    pub fn remove(&mut self, id: u64)
        requires
            old(self)@.ids_unique(),
        ensures
            final(self)@ == (RegistryValue {
                subscribers: old(self)@.subscribers.filter(|s: SubscriberValue| s.id != id),
                ..old(self)@
            }),
            final(self)@.ids_unique(),
            !final(self)@.has(id),
    {
        let ghost before = self@;
        let found: Option<usize> = self.find(id);
        match found {
            Some(i) => {
                let _ = self.subscribers.remove(i);
                proof {
                    assert(self@.subscribers =~= before.subscribers.remove(i as int));
                    lemma_filter_one_id(before.subscribers, i as int, id);
                }
            },
            None => {
                proof {
                    lemma_filter_no_id(before.subscribers, id);
                }
            },
        }
    }

    /// Whether no subscriber is connected.
    pub fn is_empty(&self) -> (empty: bool)
        ensures
            empty == (self@.subscribers.len() == 0),
    {
        self.subscribers.len() == 0
    }
}

/// Whether one of the patterns has this text.
fn holds_pattern(patterns: &[Pattern], wanted: &str) -> (held: bool)
    ensures
        held == channel::pattern_texts(patterns@).contains(wanted@),
{
    let ghost all = channel::pattern_texts(patterns@);
    let mut i: usize = 0;
    while i < patterns.len()
        invariant
            i <= patterns@.len(),
            all == channel::pattern_texts(patterns@),
            forall|j: int| 0 <= j < i ==> all[j] != wanted@,
        decreases patterns@.len() - i,
    {
        if text::same_text(patterns[i].as_str(), wanted) {
            assert(all[i as int] == wanted@);
            return true;
        }
        i += 1;
    }
    false
}

proof fn lemma_first_pattern_error_keeps(patterns: Seq<Seq<char>>, i: int)
    requires
        0 <= i <= patterns.len(),
        first_pattern_error(patterns.take(i)) is Some,
    ensures
        first_pattern_error(patterns) == first_pattern_error(patterns.take(i)),
    decreases patterns.len(),
{
    if i < patterns.len() {
        assert(patterns.drop_last().take(i) =~= patterns.take(i));
        lemma_first_pattern_error_keeps(patterns.drop_last(), i);
    } else {
        assert(patterns.take(i) =~= patterns);
    }
}

/// Where no pattern is faulty, each is valid.
pub proof fn lemma_no_pattern_error(patterns: Seq<Seq<char>>, i: int)
    requires
        first_pattern_error(patterns) is None,
        0 <= i < patterns.len(),
    ensures
        channel::valid_pattern(patterns[i]),
    decreases patterns.len(),
{
    if i < patterns.len() - 1 {
        lemma_no_pattern_error(patterns.drop_last(), i);
    }
}

/// Checks all patterns that are asked for; the first faulty one is reported.
fn parse_patterns(patterns: &[String]) -> (r: Result<Vec<Pattern>, String>)
    ensures
        match r {
            Ok(parsed) => first_pattern_error(text::texts(patterns@)) is None
                && channel::pattern_texts(parsed@) == text::texts(patterns@),
            Err(msg) => match first_pattern_error(text::texts(patterns@)) {
                Some(fault) => msg@ == "invalid pattern: "@ + channel::fault_message(fault),
                None => false,
            },
        },
{
    let ghost all = text::texts(patterns@);
    let mut parsed: Vec<Pattern> = Vec::new();
    let mut i: usize = 0;
    assert(channel::pattern_texts(parsed@) =~= all.take(0));
    while i < patterns.len()
        invariant
            i <= patterns@.len(),
            all == text::texts(patterns@),
            first_pattern_error(all.take(i as int)) is None,
            channel::pattern_texts(parsed@) == all.take(i as int),
        decreases patterns@.len() - i,
    {
        let ghost before = channel::pattern_texts(parsed@);
        assert(all.take(i as int + 1).drop_last() =~= all.take(i as int));
        assert(all[i as int] == patterns@[i as int]@);
        match Pattern::new(patterns[i].clone()) {
            Ok(pattern) => {
                parsed.push(pattern);
                assert(channel::pattern_texts(parsed@) =~= before.push(all[i as int]));
                assert(all.take(i as int + 1) =~= before.push(all[i as int]));
            },
            Err(e) => {
                proof {
                    lemma_first_pattern_error_keeps(all, i as int + 1);
                }
                return Err("invalid pattern: ".to_owned().concat(e.message().as_str()));
            },
        }
        i += 1;
    }
    assert(all.take(i as int) =~= all);
    Ok(parsed)
}

/// Adds patterns to those that are held.
fn add_patterns(held: &mut Vec<Pattern>, asked: Vec<Pattern>)
    ensures
        channel::pattern_texts(final(held)@) == with_patterns(
            channel::pattern_texts(old(held)@),
            channel::pattern_texts(asked@),
        ),
{
    let ghost start = channel::pattern_texts(held@);
    let ghost all = channel::pattern_texts(asked@);
    let mut i: usize = 0;
    assert(with_patterns(start, all.take(0)) == start);
    while i < asked.len()
        invariant
            i <= asked@.len(),
            all == channel::pattern_texts(asked@),
            channel::pattern_texts(held@) == with_patterns(start, all.take(i as int)),
        decreases asked@.len() - i,
    {
        let ghost before = channel::pattern_texts(held@);
        assert(all.take(i as int + 1).drop_last() =~= all.take(i as int));
        assert(all[i as int] == asked@[i as int]@);
        if !holds_pattern(held, asked[i].as_str()) {
            held.push(asked[i].clone());
            assert(channel::pattern_texts(held@) =~= before.push(all[i as int]));
        }
        i += 1;
    }
    assert(all.take(i as int) =~= all);
}

/// The held patterns without those that are given up.
fn keep_patterns(held: &[Pattern], gone: &[String]) -> (kept: Vec<Pattern>)
    ensures
        channel::pattern_texts(kept@) == without_patterns(
            channel::pattern_texts(held@),
            text::texts(gone@),
        ),
{
    let ghost all = channel::pattern_texts(held@);
    let ghost lost = text::texts(gone@);
    let ghost keep = |pattern: Seq<char>| !lost.contains(pattern);
    let mut kept: Vec<Pattern> = Vec::new();
    let mut i: usize = 0;
    proof {
        reveal(Seq::filter);
        assert(channel::pattern_texts(kept@) =~= all.take(0).filter(keep));
    }
    while i < held.len()
        invariant
            i <= held@.len(),
            all == channel::pattern_texts(held@),
            lost == text::texts(gone@),
            keep == |pattern: Seq<char>| !lost.contains(pattern),
            channel::pattern_texts(kept@) == all.take(i as int).filter(keep),
        decreases held@.len() - i,
    {
        let ghost before = channel::pattern_texts(kept@);
        assert(all.take(i as int + 1).drop_last() =~= all.take(i as int));
        assert(all[i as int] == held@[i as int]@);
        if !text::contains_text(gone, held[i].as_str()) {
            kept.push(held[i].clone());
            assert(channel::pattern_texts(kept@) =~= before.push(all[i as int]));
        }
        proof {
            reveal(Seq::filter);
        }
        i += 1;
    }
    assert(all.take(i as int) =~= all);
    kept
}

impl SubscriberRegistry {
    proof fn lemma_changed_one(self, before: RegistryValue, i: int, change: spec_fn(SubscriberValue) -> SubscriberValue)
        requires
            before.ids_unique(),
            0 <= i < before.subscribers.len(),
            self@.next_id == before.next_id,
            self@.live_head == before.live_head,
            self@.subscribers == before.subscribers.update(i, change(before.subscribers[i])),
        ensures
            self@ == before.with(before.subscribers[i].id, change),
    {
        assert forall|j: int| 0 <= j < before.subscribers.len() && j != i implies (
        #[trigger] before.subscribers[j]).id != before.subscribers[i].id by {
            if j < i {
                assert(before.subscribers[j].id < before.subscribers[i].id);
            } else {
                assert(before.subscribers[i].id < before.subscribers[j].id);
            }
        }
        assert(self@.subscribers =~= before.with(
            before.subscribers[i].id,
            change,
        ).subscribers);
    }

    /// Adds patterns to a subscriber. Nothing is added where one of them is
    /// faulty, and nothing happens where no subscriber has the number.
    pub fn subscribe(&mut self, id: u64, patterns: &[String]) -> (r: Result<(), String>)
        requires
            old(self)@.ids_unique(),
        ensures
            match r {
                Ok(()) => first_pattern_error(text::texts(patterns@)) is None && final(self)@
                    == old(self)@.with(
                    id,
                    |s: SubscriberValue|
                        SubscriberValue {
                            patterns: with_patterns(s.patterns, text::texts(patterns@)),
                            ..s
                        },
                ),
                Err(msg) => final(self)@ == old(self)@ && match first_pattern_error(
                    text::texts(patterns@),
                ) {
                    Some(fault) => msg@ == "invalid pattern: "@ + channel::fault_message(fault),
                    None => false,
                },
            },
            final(self)@.ids_unique(),
    {
        let ghost before = self@;
        let ghost change = |s: SubscriberValue|
            SubscriberValue { patterns: with_patterns(s.patterns, text::texts(patterns@)), ..s };
        let parsed: Vec<Pattern> = parse_patterns(patterns)?;
        match self.find(id) {
            Some(i) => {
                add_patterns(&mut self.subscribers[i].patterns, parsed);
                proof {
                    assert(self@.subscribers =~= before.subscribers.update(
                        i as int,
                        change(before.subscribers[i as int]),
                    ));
                    self.lemma_changed_one(before, i as int, change);
                }
            },
            None => {
                assert(before.with(id, change).subscribers =~= before.subscribers);
            },
        }
        Ok(())
    }

    /// Takes patterns from a subscriber.
    pub fn unsubscribe(&mut self, id: u64, patterns: &[String])
        requires
            old(self)@.ids_unique(),
        ensures
            final(self)@ == old(self)@.with(
                id,
                |s: SubscriberValue|
                    SubscriberValue {
                        patterns: without_patterns(s.patterns, text::texts(patterns@)),
                        ..s
                    },
            ),
            final(self)@.ids_unique(),
    {
        let ghost before = self@;
        let ghost change = |s: SubscriberValue|
            SubscriberValue { patterns: without_patterns(s.patterns, text::texts(patterns@)), ..s };
        match self.find(id) {
            Some(i) => {
                let kept: Vec<Pattern> = keep_patterns(&self.subscribers[i].patterns, patterns);
                self.subscribers[i].patterns = kept;
                proof {
                    assert(self@.subscribers =~= before.subscribers.update(
                        i as int,
                        change(before.subscribers[i as int]),
                    ));
                    self.lemma_changed_one(before, i as int, change);
                }
            },
            None => {
                assert(before.with(id, change).subscribers =~= before.subscribers);
            },
        }
    }
}

impl SubscriberRegistry {
    /// Puts each delivery, in order, into the queue of every subscriber that has
    /// a pattern which selects its channel.
    pub fn fanout(&mut self, deliveries: &[Delivery])
        ensures
            final(self)@ == old(self)@.each(
                |s: SubscriberValue|
                    SubscriberValue {
                        queue: fanned(s.queue, s.patterns, delivery_values(deliveries@)),
                        ..s
                    },
            ),
            old(self)@.ids_unique() ==> final(self)@.ids_unique(),
    {
        let ghost before = self@;
        let ghost all = delivery_values(deliveries@);
        let mut i: usize = 0;
        while i < deliveries.len()
            invariant
                i <= deliveries@.len(),
                all == delivery_values(deliveries@),
                self@.next_id == before.next_id,
                self@.live_head == before.live_head,
                self@.subscribers.len() == before.subscribers.len(),
                forall|k: int|
                    0 <= k < before.subscribers.len() ==> (#[trigger] self@.subscribers[k]) == (
                    SubscriberValue {
                        queue: fanned(
                            before.subscribers[k].queue,
                            before.subscribers[k].patterns,
                            all.take(i as int),
                        ),
                        ..before.subscribers[k]
                    }),
            decreases deliveries@.len() - i,
        {
            assert(all.take(i as int + 1).drop_last() =~= all.take(i as int));
            assert(all[i as int] == deliveries@[i as int]@);
            let mut j: usize = 0;
            while j < self.subscribers.len()
                invariant
                    j <= self.subscribers@.len(),
                    i < deliveries@.len(),
                    all == delivery_values(deliveries@),
                    all[i as int] == deliveries@[i as int]@,
                    all.take(i as int + 1).drop_last() == all.take(i as int),
                    self@.next_id == before.next_id,
                    self@.live_head == before.live_head,
                    self@.subscribers.len() == before.subscribers.len(),
                    forall|k: int|
                        0 <= k < before.subscribers.len() ==> (#[trigger] self@.subscribers[k]) == (
                        SubscriberValue {
                            queue: fanned(
                                before.subscribers[k].queue,
                                before.subscribers[k].patterns,
                                all.take(
                                    if k < j {
                                        i + 1
                                    } else {
                                        i as int
                                    },
                                ),
                            ),
                            ..before.subscribers[k]
                        }),
                decreases self.subscribers@.len() - j,
            {
                let ghost now = self@;
                assert(now.subscribers[j as int] == self.subscribers@[j as int]@);
                if channel::any_pattern_matches(
                    &self.subscribers[j].patterns,
                    deliveries[i].channel.as_str(),
                ) {
                    self.subscribers[j].queue.push_event(deliveries[i].text.clone());
                    assert(self@.subscribers =~= now.subscribers.update(
                        j as int,
                        self@.subscribers[j as int],
                    ));
                }
                j += 1;
            }
            i += 1;
        }
        assert(all.take(i as int) =~= all);
        assert(self@.subscribers =~= before.each(
            |s: SubscriberValue| SubscriberValue { queue: fanned(s.queue, s.patterns, all), ..s },
        ).subscribers);
    }

    /// Asks every connection of `name` to close.
    pub fn close_named(&mut self, name: &str, reason: ClosingReason)
        ensures
            final(self)@ == old(self)@.each(
                |s: SubscriberValue|
                    if s.name == name@ {
                        asked_to_close(s, reason)
                    } else {
                        s
                    },
            ),
            old(self)@.ids_unique() ==> final(self)@.ids_unique(),
    {
        let ghost before = self@;
        let ghost change = |s: SubscriberValue|
            if s.name == name@ {
                asked_to_close(s, reason)
            } else {
                s
            };
        let mut i: usize = 0;
        while i < self.subscribers.len()
            invariant
                i <= self.subscribers@.len(),
                change == |s: SubscriberValue|
                    if s.name == name@ {
                        asked_to_close(s, reason)
                    } else {
                        s
                    },
                self@.next_id == before.next_id,
                self@.live_head == before.live_head,
                self@.subscribers.len() == before.subscribers.len(),
                forall|k: int|
                    0 <= k < i ==> (#[trigger] self@.subscribers[k]) == change(
                        before.subscribers[k],
                    ),
                forall|k: int|
                    i <= k < before.subscribers.len() ==> (#[trigger] self@.subscribers[k])
                        == before.subscribers[k],
            decreases self.subscribers@.len() - i,
        {
            let ghost now = self@;
            assert(now.subscribers[i as int] == self.subscribers@[i as int]@);
            if text::same_text(self.subscribers[i].name.as_str(), name) {
                self.subscribers[i].closing = Some(reason);
            }
            assert(self@.subscribers =~= now.subscribers.update(
                i as int,
                change(now.subscribers[i as int]),
            ));
            i += 1;
        }
        assert(self@.subscribers =~= before.each(change).subscribers);
    }

    /// Asks every connection to close.
    pub fn close_all(&mut self, reason: ClosingReason)
        ensures
            final(self)@ == old(self)@.each(
                |s: SubscriberValue| asked_to_close(s, reason),
            ),
            old(self)@.ids_unique() ==> final(self)@.ids_unique(),
    {
        let ghost before = self@;
        let ghost change = |s: SubscriberValue| asked_to_close(s, reason);
        let mut i: usize = 0;
        while i < self.subscribers.len()
            invariant
                i <= self.subscribers@.len(),
                change == |s: SubscriberValue| asked_to_close(s, reason),
                self@.next_id == before.next_id,
                self@.live_head == before.live_head,
                self@.subscribers.len() == before.subscribers.len(),
                forall|k: int|
                    0 <= k < i ==> (#[trigger] self@.subscribers[k]) == change(
                        before.subscribers[k],
                    ),
                forall|k: int|
                    i <= k < before.subscribers.len() ==> (#[trigger] self@.subscribers[k])
                        == before.subscribers[k],
            decreases self.subscribers@.len() - i,
        {
            let ghost now = self@;
            assert(now.subscribers[i as int] == self.subscribers@[i as int]@);
            self.subscribers[i].closing = Some(reason);
            assert(self@.subscribers =~= now.subscribers.update(
                i as int,
                change(now.subscribers[i as int]),
            ));
            i += 1;
        }
        assert(self@.subscribers =~= before.each(change).subscribers);
    }

    /// Why the connection of a subscriber is to close, if it is.
    pub fn closing(&self, id: u64) -> (reason: Option<ClosingReason>)
        requires
            self@.ids_unique(),
        ensures
            forall|i: int|
                0 <= i < self@.subscribers.len() && (#[trigger] self@.subscribers[i]).id == id
                    ==> reason == self@.subscribers[i].closing,
            !self@.has(id) ==> reason is None,
    {
        match self.find(id) {
            Some(i) => {
                assert forall|j: int|
                    0 <= j < self@.subscribers.len() && (#[trigger] self@.subscribers[j]).id
                        == id implies j == i by {
                    if j < i {
                        assert(self@.subscribers[j].id < self@.subscribers[i as int].id);
                    } else if j > i {
                        assert(self@.subscribers[i as int].id < self@.subscribers[j].id);
                    }
                }
                self.subscribers[i].closing
            },
            None => None,
        }
    }

    /// How many connections each name has.
    pub fn active_connection_counts(&self) -> (counts: StringMap<usize>)
        ensures
            forall|name: Seq<char>| #[trigger]
                counts@.contains_key(name) <==> connections_of(self@.subscribers, name) > 0,
            forall|name: Seq<char>| #[trigger]
                counts@.contains_key(name) ==> counts@[name] == connections_of(
                    self@.subscribers,
                    name,
                ),
    {
        let ghost all = self@.subscribers;
        let mut counts: StringMap<usize> = StringMap::new();
        let mut i: usize = 0;
        while i < self.subscribers.len()
            invariant
                i <= self.subscribers@.len(),
                all == self@.subscribers,
                forall|name: Seq<char>| #[trigger]
                    counts@.contains_key(name) <==> connections_of(all.take(i as int), name) > 0,
                forall|name: Seq<char>| #[trigger]
                    counts@.contains_key(name) ==> counts@[name] == connections_of(
                        all.take(i as int),
                        name,
                    ) && counts@[name] <= i,
            decreases self.subscribers@.len() - i,
        {
            assert(all[i as int] == self.subscribers@[i as int]@);
            assert(all.take(i as int + 1).drop_last() =~= all.take(i as int));
            let name: String = self.subscribers[i].name.clone();
            let so_far: usize = match counts.get(name.as_str()) {
                Some(n) => *n,
                None => 0,
            };
            assert(so_far == connections_of(all.take(i as int), name@));
            counts.insert(name, so_far + 1);
            i += 1;
        }
        assert(all.take(i as int) =~= all);
        counts
    }

    /// What is shown of the subscribers, in the order in which they connected.
    pub fn snapshots(&self) -> (rows: Vec<SubscriberSnapshot>)
        ensures
            rows@.len() == self@.subscribers.len(),
            forall|i: int|
                0 <= i < rows@.len() ==> (#[trigger] rows@[i])@ == snapshot_of(self@.subscribers[i]),
    {
        let mut rows: Vec<SubscriberSnapshot> = Vec::new();
        let mut i: usize = 0;
        while i < self.subscribers.len()
            invariant
                i <= self.subscribers@.len(),
                rows@.len() == i,
                forall|k: int|
                    0 <= k < i ==> (#[trigger] rows@[k])@ == snapshot_of(self@.subscribers[k]),
            decreases self.subscribers@.len() - i,
        {
            let s: &Subscriber = &self.subscribers[i];
            assert(self@.subscribers[i as int] == s@);
            rows.push(
                SubscriberSnapshot {
                    name: s.name.clone(),
                    remote_addr: text::clone_optional(&s.remote_addr),
                    patterns: pattern_strings(&s.patterns),
                    delivered: s.queue.delivered(),
                    dropped: s.queue.dropped(),
                },
            );
            i += 1;
        }
        rows
    }

    /// Puts a control frame into the queue of one subscriber.
    pub fn push_control(&mut self, id: u64, text: String, closing: bool)
        requires
            old(self)@.ids_unique(),
        ensures
            final(self)@ == old(self)@.with(
                id,
                |s: SubscriberValue|
                    SubscriberValue {
                        queue: outbound_queue::QueueValue {
                            frames: s.queue.frames.push(
                                outbound_queue::FrameValue { text: text@, closing, is_event: false },
                            ),
                            ..s.queue
                        },
                        ..s
                    },
            ),
            final(self)@.ids_unique(),
    {
        let ghost before = self@;
        let ghost change = |s: SubscriberValue|
            SubscriberValue {
                queue: outbound_queue::QueueValue {
                    frames: s.queue.frames.push(
                        outbound_queue::FrameValue { text: text@, closing, is_event: false },
                    ),
                    ..s.queue
                },
                ..s
            };
        match self.find(id) {
            Some(i) => {
                self.subscribers[i].queue.push_control(text, closing);
                proof {
                    assert(self@.subscribers =~= before.subscribers.update(
                        i as int,
                        change(before.subscribers[i as int]),
                    ));
                    self.lemma_changed_one(before, i as int, change);
                }
            },
            None => {
                assert(before.with(id, change).subscribers =~= before.subscribers);
            },
        }
    }

    /// Takes the next frame of a subscriber to be written, along with the count
    /// of drops that it has not been told of.
    pub fn next_frame(&mut self, id: u64) -> (next: Option<(Option<usize>, Frame)>)
        requires
            old(self)@.ids_unique(),
        ensures
            match next {
                Some((lag, frame)) => old(self)@.has(id) && final(self)@ == old(self)@.with(
                    id,
                    |s: SubscriberValue| SubscriberValue { queue: taken(s.queue), ..s },
                ) && forall|i: int|
                    0 <= i < old(self)@.subscribers.len() && (
                    #[trigger] old(self)@.subscribers[i]).id == id ==> {
                        let queue = old(self)@.subscribers[i].queue;
                        &&& queue.frames.len() > 0
                        &&& frame@ == queue.frames[0]
                        &&& match lag {
                            Some(n) => n > 0 && n == queue.lag,
                            None => queue.lag == 0,
                        }
                    },
                None => final(self)@ == old(self)@ && forall|i: int|
                    0 <= i < old(self)@.subscribers.len() && (
                    #[trigger] old(self)@.subscribers[i]).id == id
                        ==> old(self)@.subscribers[i].queue.frames.len() == 0,
            },
            final(self)@.ids_unique(),
    {
        let ghost before = self@;
        match self.find(id) {
            Some(i) => {
                assert forall|j: int|
                    0 <= j < before.subscribers.len() && (#[trigger] before.subscribers[j]).id
                        == id implies j == i by {
                    if j < i {
                        assert(before.subscribers[j].id < before.subscribers[i as int].id);
                    } else if j > i {
                        assert(before.subscribers[i as int].id < before.subscribers[j].id);
                    }
                }
                assert(before.subscribers[i as int] == self.subscribers@[i as int]@);
                let popped: Option<Frame> = self.subscribers[i].queue.pop();
                match popped {
                    Some(frame) => {
                        let lag: Option<usize> = self.subscribers[i].queue.take_pending_lag();
                        proof {
                            let change = |s: SubscriberValue|
                                SubscriberValue { queue: taken(s.queue), ..s };
                            assert(self@.subscribers =~= before.subscribers.update(
                                i as int,
                                change(before.subscribers[i as int]),
                            ));
                            self.lemma_changed_one(before, i as int, change);
                        }
                        Some((lag, frame))
                    },
                    None => {
                        assert(self@.subscribers =~= before.subscribers);
                        None
                    },
                }
            },
            None => None,
        }
    }

    /// Whether there is a number left for another subscriber.
    pub fn has_free_id(&self) -> (yes: bool)
        ensures
            yes == (self@.next_id < u64::MAX),
    {
        self.next_id < u64::MAX
    }

    /// Whether there are sequence numbers left for `n` events.
    pub fn can_stamp(&self, n: usize) -> (yes: bool)
        ensures
            yes == (self@.live_head + n <= u64::MAX),
    {
        n as u64 <= u64::MAX - self.live_head
    }

    /// Gives events, which no log stores, the next sequence numbers, identifiers
    /// of their own and the time.
    pub fn stamp(&mut self, events: Vec<Event>, ts_ms: u64) -> (stamped: Vec<StampedEvent>)
        requires
            old(self)@.live_head + events@.len() <= u64::MAX,
        ensures
            final(self)@ == (RegistryValue {
                live_head: old(self)@.live_head + events@.len(),
                ..old(self)@
            }),
            delivery_log::stamps(stamped@, events@, old(self)@.live_head, ts_ms),
    {
        let ghost before = self@;
        let stamped: Vec<StampedEvent> = delivery_log::stamp_after(self.live_head, events, ts_ms);
        self.live_head = self.live_head + stamped.len() as u64;
        assert(self@.subscribers =~= before.subscribers);
        stamped
    }
}

/// The texts of patterns as strings.
fn pattern_strings(patterns: &[Pattern]) -> (strings: Vec<String>)
    ensures
        text::texts(strings@) == channel::pattern_texts(patterns@),
{
    let mut strings: Vec<String> = Vec::new();
    let mut i: usize = 0;
    while i < patterns.len()
        invariant
            i <= patterns@.len(),
            strings@.len() == i,
            forall|j: int| 0 <= j < i ==> (#[trigger] strings@[j])@ == patterns@[j]@,
        decreases patterns@.len() - i,
    {
        strings.push(patterns[i].as_str().to_owned());
        i += 1;
    }
    assert(text::texts(strings@) =~= channel::pattern_texts(patterns@));
    strings
}

/// What was delivered to a subscriber, dropped for it or still waits accounts for
/// every event that matched its patterns: fanning out adds exactly those.
pub proof fn fanout_accounts_for_every_match(
    queue: outbound_queue::QueueValue,
    patterns: Seq<Seq<char>>,
    deliveries: Seq<DeliveryValue>,
)
    ensures
        fanned(queue, patterns, deliveries).accounted() == outbound_queue::wrapped(
            queue.delivered + queue.dropped + outbound_queue::event_count(queue.frames) + matching(
                patterns,
                deliveries,
            ),
        ),
    decreases deliveries.len(),
{
    if deliveries.len() > 0 {
        let before = fanned(queue, patterns, deliveries.drop_last());
        fanout_accounts_for_every_match(queue, patterns, deliveries.drop_last());
        if channel::selected_by_any(patterns, deliveries.last().channel) {
            outbound_queue::queue_answers_for_each_event(before, deliveries.last().text);
            outbound_queue::lemma_wrapped_add(
                queue.delivered + queue.dropped + outbound_queue::event_count(queue.frames)
                    + matching(patterns, deliveries.drop_last()),
                1,
            );
        }
    }
}

/// Subscribing never leaves a pattern twice with a subscriber, keeps what it had,
/// and gives it what it asked for.
pub proof fn subscribing_adds_each_pattern_once(held: Seq<Seq<char>>, asked: Seq<Seq<char>>)
    requires
        held.no_duplicates(),
    ensures
        with_patterns(held, asked).no_duplicates(),
        forall|p: Seq<char>| #[trigger]
            with_patterns(held, asked).contains(p) <==> (held.contains(p) || asked.contains(p)),
    decreases asked.len(),
{
    if asked.len() > 0 {
        subscribing_adds_each_pattern_once(held, asked.drop_last());
        let before = with_patterns(held, asked.drop_last());
        let after = with_patterns(held, asked);
        assert forall|p: Seq<char>| #[trigger] after.contains(p) <==> (held.contains(p)
            || asked.contains(p)) by {
            assert(asked.contains(p) <==> (asked.drop_last().contains(p) || p == asked.last())) by {
                if asked.contains(p) {
                    let i = asked.index_of(p);
                    if i < asked.len() - 1 {
                        assert(asked.drop_last()[i] == p);
                    }
                }
                if asked.drop_last().contains(p) {
                    assert(asked[asked.drop_last().index_of(p)] == p);
                }
            }
            assert(after.contains(p) <==> (before.contains(p) || p == asked.last())) by {
                if after.contains(p) && !before.contains(asked.last()) {
                    let i = after.index_of(p);
                    if i < before.len() {
                        assert(before[i] == p);
                    }
                }
                if before.contains(p) {
                    assert(after[before.index_of(p)] == p);
                }
                if p == asked.last() && !before.contains(asked.last()) {
                    assert(after[before.len() as int] == p);
                }
            }
        }
    } else {
        assert forall|p: Seq<char>| !asked.contains(p) by {}
    }
}

/// Unsubscribing takes exactly the patterns that are named.
pub proof fn unsubscribing_takes_the_named_patterns(
    held: Seq<Seq<char>>,
    gone: Seq<Seq<char>>,
    p: Seq<char>,
)
    ensures
        without_patterns(held, gone).contains(p) <==> (held.contains(p) && !gone.contains(p)),
{
    broadcast use vstd::seq_lib::group_filter_ensures;

    let keep = |pattern: Seq<char>| !gone.contains(pattern);
    let left = without_patterns(held, gone);
    if held.contains(p) && !gone.contains(p) {
        held.lemma_filter_contains(keep, held.index_of(p));
    }
    if left.contains(p) {
        held.lemma_filter_pred(keep, left.index_of(p));
        lemma_filter_from(held, keep, p);
    }
}

proof fn lemma_filter_from(held: Seq<Seq<char>>, keep: spec_fn(Seq<char>) -> bool, p: Seq<char>)
    requires
        held.filter(keep).contains(p),
    ensures
        held.contains(p),
    decreases held.len(),
{
    reveal(Seq::filter);
    if held.len() > 0 {
        let head = held.drop_last();
        if p != held.last() {
            let whole = held.filter(keep);
            let i = whole.index_of(p);
            if keep(held.last()) {
                assert(head.filter(keep)[i] == p);
            }
            lemma_filter_from(head, keep, p);
            assert(held[head.index_of(p)] == p);
        } else {
            assert(held[held.len() - 1] == p);
        }
    }
}

proof fn lemma_filter_no_id(subscribers: Seq<SubscriberValue>, id: u64)
    requires
        forall|i: int| 0 <= i < subscribers.len() ==> (#[trigger] subscribers[i]).id != id,
    ensures
        subscribers.filter(|s: SubscriberValue| s.id != id) == subscribers,
    decreases subscribers.len(),
{
    reveal(Seq::filter);
    if subscribers.len() > 0 {
        let head = subscribers.drop_last();
        assert forall|i: int| 0 <= i < head.len() implies (#[trigger] head[i]).id != id by {
            assert(head[i] == subscribers[i]);
        }
        lemma_filter_no_id(head, id);
        assert(head.push(subscribers.last()) =~= subscribers);
    }
}

proof fn lemma_filter_one_id(subscribers: Seq<SubscriberValue>, at: int, id: u64)
    requires
        0 <= at < subscribers.len(),
        subscribers[at].id == id,
        forall|i: int, j: int|
            0 <= i < j < subscribers.len() ==> (#[trigger] subscribers[i]).id < (
            #[trigger] subscribers[j]).id,
    ensures
        subscribers.filter(|s: SubscriberValue| s.id != id) == subscribers.remove(at),
        forall|i: int, j: int|
            0 <= i < j < subscribers.remove(at).len() ==> (#[trigger] subscribers.remove(at)[i]).id < (
            #[trigger] subscribers.remove(at)[j]).id,
        forall|i: int|
            0 <= i < subscribers.remove(at).len() ==> (#[trigger] subscribers.remove(at)[i]).id
                != id,
{
    let keep = |s: SubscriberValue| s.id != id;
    let head = subscribers.take(at);
    let tail = subscribers.skip(at + 1);
    let one = seq![subscribers[at]];
    assert(subscribers =~= head + one + tail);
    assert(subscribers.remove(at) =~= head + tail);
    Seq::filter_distributes_over_add(head + one, tail, keep);
    Seq::filter_distributes_over_add(head, one, keep);
    assert forall|i: int| 0 <= i < head.len() implies (#[trigger] head[i]).id != id by {
        assert(head[i] == subscribers[i]);
    }
    assert forall|i: int| 0 <= i < tail.len() implies (#[trigger] tail[i]).id != id by {
        assert(tail[i] == subscribers[at + 1 + i]);
    }
    lemma_filter_no_id(head, id);
    lemma_filter_no_id(tail, id);
    reveal_with_fuel(Seq::filter, 2);
    assert(one.drop_last() =~= Seq::<SubscriberValue>::empty());
    assert(one.filter(keep) =~= Seq::<SubscriberValue>::empty());
    assert(subscribers.filter(keep) =~= head + tail);
    let left = subscribers.remove(at);
    assert forall|i: int, j: int| 0 <= i < j < left.len() implies (#[trigger] left[i]).id < (
    #[trigger] left[j]).id by {
        let a = if i < at { i } else { i + 1 };
        let b = if j < at { j } else { j + 1 };
        assert(left[i] == subscribers[a] && left[j] == subscribers[b]);
    }
    assert forall|i: int| 0 <= i < left.len() implies (#[trigger] left[i]).id != id by {
        let a = if i < at { i } else { i + 1 };
        assert(left[i] == subscribers[a]);
        if a < at {
            assert(subscribers[a].id < subscribers[at].id);
        } else {
            assert(subscribers[at].id < subscribers[a].id);
        }
    }
}

/// Of the deliveries those that a pattern selects are offered to the queue one after
/// the other, in their order and with their texts; the others are not.
pub proof fn matching_deliveries_are_offered(
    queue: outbound_queue::QueueValue,
    patterns: Seq<Seq<char>>,
    before: Seq<DeliveryValue>,
    delivery: DeliveryValue,
)
    ensures
        fanned(queue, patterns, before.push(delivery)) == (if channel::selected_by_any(
            patterns,
            delivery.channel,
        ) {
            fanned(queue, patterns, before).with_event(delivery.text)
        } else {
            fanned(queue, patterns, before)
        }),
        fanned(queue, patterns, Seq::empty()) == queue,
{
    assert(before.push(delivery).drop_last() =~= before);
}

/// A pattern selects a channel for a subscriber if one of its patterns does, wherever
/// it stands among them; what is no channel is selected by none.
pub proof fn any_pattern_selects(
    before: Seq<Seq<char>>,
    pattern: Seq<char>,
    after: Seq<Seq<char>>,
    name: Seq<char>,
)
    ensures
        channel::valid_channel(name) && channel::selects(pattern, name) ==> channel::selected_by_any(
            before.push(pattern) + after,
            name,
        ),
        !channel::selects(pattern, name) ==> channel::selected_by_any(
            before.push(pattern) + after,
            name,
        ) == channel::selected_by_any(before + after, name),
        !channel::valid_channel(name) ==> !channel::selected_by_any(before + after, name),
        !channel::selected_by_any(Seq::empty(), name),
{
    let with = before.push(pattern) + after;
    let without = before + after;
    assert(with[before.len() as int] == pattern);
    if !channel::selects(pattern, name) {
        if channel::selected_by_any(with, name) {
            let i = choose|i: int|
                0 <= i < with.len() && channel::selects(#[trigger] with[i], name);
            let k = if i < before.len() {
                i
            } else {
                i - 1
            };
            assert(without[k] == with[i]);
        }
        if channel::selected_by_any(without, name) {
            let k = choose|k: int|
                0 <= k < without.len() && channel::selects(#[trigger] without[k], name);
            let i = if k < before.len() {
                k
            } else {
                k + 1
            };
            assert(with[i] == without[k]);
        }
    }
}

/// What is shown of a subscriber is its own: its name, its address, its patterns, and
/// the events that its queue has delivered and dropped.
pub proof fn snapshots_show_their_subscriber(s: SubscriberValue)
    ensures
        snapshot_of(s).name == s.name,
        snapshot_of(s).remote_addr == s.remote_addr,
        snapshot_of(s).patterns == s.patterns,
        snapshot_of(s).delivered == s.queue.delivered,
        snapshot_of(s).dropped == s.queue.dropped,
{
}

/// Connections are counted by their names: each adds one to its own name, and nothing
/// to another.
pub proof fn connections_are_counted(
    others: Seq<SubscriberValue>,
    s: SubscriberValue,
    name: Seq<char>,
)
    ensures
        connections_of(others.push(s), s.name) == connections_of(others, s.name) + 1,
        name != s.name ==> connections_of(others.push(s), name) == connections_of(others, name),
        connections_of(Seq::empty(), name) == 0,
{
    assert(others.push(s).drop_last() =~= others);
}

/// Taking a frame takes the first one, counts it as delivered if it is an event, and
/// with it the subscriber is told of what was dropped.
pub proof fn frames_are_taken_in_order(
    frame: outbound_queue::FrameValue,
    rest: Seq<outbound_queue::FrameValue>,
    queue: outbound_queue::QueueValue,
)
    requires
        queue.frames == seq![frame] + rest,
        0 <= queue.delivered < usize::MAX,
    ensures
        taken(queue).frames == rest,
        taken(queue).delivered == queue.delivered + if frame.is_event {
            1int
        } else {
            0
        },
        taken(queue).dropped == queue.dropped,
        taken(queue).lag == 0,
{
    assert(queue.frames.drop_first() =~= rest);
    assert(queue.frames[0] == frame);
    vstd::arithmetic::div_mod::lemma_small_mod(
        (queue.delivered + 1) as nat,
        (usize::MAX + 1) as nat,
    );
}

/// A subscription is refused for the first of its patterns that is none, and accepted
/// where all are patterns.
pub proof fn the_first_bad_pattern_is_reported(patterns: Seq<Seq<char>>, i: int)
    requires
        0 <= i <= patterns.len(),
        forall|j: int| 0 <= j < i ==> channel::valid_pattern(#[trigger] patterns[j]),
    ensures
        i == patterns.len() ==> first_pattern_error(patterns) is None,
        i < patterns.len() && !channel::valid_pattern(patterns[i]) ==> first_pattern_error(patterns)
            == channel::pattern_fault(patterns[i]),
    decreases patterns.len(),
{
    if patterns.len() > 0 {
        let head = patterns.drop_last();
        assert(forall|j: int| 0 <= j < head.len() ==> head[j] == patterns[j]);
        if i < patterns.len() {
            the_first_bad_pattern_is_reported(head, i);
        } else {
            the_first_bad_pattern_is_reported(head, i - 1);
            assert(channel::valid_pattern(patterns[patterns.len() - 1]));
        }
    }
}

/// A change of one subscriber changes that one alone, and a change of all changes each;
/// both keep the order, the numbers and the counters.
pub proof fn changes_reach_whom_they_concern(
    registry: RegistryValue,
    id: u64,
    change: spec_fn(SubscriberValue) -> SubscriberValue,
    i: int,
)
    requires
        0 <= i < registry.subscribers.len(),
    ensures
        registry.with(id, change).subscribers.len() == registry.subscribers.len(),
        registry.subscribers[i].id == id ==> registry.with(id, change).subscribers[i] == change(
            registry.subscribers[i],
        ),
        registry.subscribers[i].id != id ==> registry.with(id, change).subscribers[i]
            == registry.subscribers[i],
        registry.each(change).subscribers.len() == registry.subscribers.len(),
        registry.each(change).subscribers[i] == change(registry.subscribers[i]),
        registry.with(id, change).next_id == registry.next_id,
        registry.each(change).next_id == registry.next_id,
        registry.with(id, change).live_head == registry.live_head,
        registry.each(change).live_head == registry.live_head,
{
}

/// A subscriber that is asked to close is told why, and loses nothing else.
pub proof fn closing_changes_nothing_else(s: SubscriberValue, reason: ClosingReason)
    ensures
        asked_to_close(s, reason).closing == Some(reason),
        asked_to_close(s, reason).id == s.id,
        asked_to_close(s, reason).name == s.name,
        asked_to_close(s, reason).remote_addr == s.remote_addr,
        asked_to_close(s, reason).patterns == s.patterns,
        asked_to_close(s, reason).queue == s.queue,
{
}

} // verus!
