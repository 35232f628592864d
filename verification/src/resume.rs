//! What a subscriber remembers to handle each event once.
//!
//! A subscriber keeps the number of the last event that it has handled, and the
//! identifiers of those it has handled lately. Numbers are given out across all
//! channels, so that gaps between the numbers it sees mean nothing.

use std::collections::HashSet;
use std::collections::VecDeque;

use vstd::prelude::*;

verus! {

broadcast use vstd::std_specs::hash::group_hash_axioms;

/// The state from which a subscriber resumes.
#[derive(Debug)]
pub struct ResumeState {
    cursor: u64,
    seen: HashSet<u128>,
    order: VecDeque<u128>,
    capacity: usize,
}

/// The value of a [`ResumeState`]: the cursor, and the identifiers of the events
/// handled lately, the oldest first.
pub struct ResumeValue {
    pub cursor: u64,
    pub recent: Seq<u128>,
    pub capacity: nat,
}

/// Whether an event is new: its number is above the cursor, and it is none of
/// those handled lately.
pub open spec fn is_new(state: ResumeValue, id: u128, seq: u64) -> bool {
    seq > state.cursor && !state.recent.contains(id)
}

/// The identifiers handled lately once one more is.
pub open spec fn remembered(recent: Seq<u128>, capacity: nat, id: u128) -> Seq<u128> {
    if recent.contains(id) {
        recent
    } else if recent.len() >= capacity {
        recent.push(id).drop_first()
    } else {
        recent.push(id)
    }
}

/// The state once an event has been handled.
pub open spec fn recorded(state: ResumeValue, id: u128, seq: u64) -> ResumeValue {
    ResumeValue {
        cursor: if seq > state.cursor {
            seq
        } else {
            state.cursor
        },
        recent: remembered(state.recent, state.capacity, id),
        capacity: state.capacity,
    }
}

impl View for ResumeState {
    type V = ResumeValue;

    closed spec fn view(&self) -> ResumeValue {
        ResumeValue {
            cursor: self.cursor,
            recent: self.order@,
            capacity: self.capacity as nat,
        }
    }
}

impl ResumeState {
    #[verifier::type_invariant]
    spec fn is_consistent(self) -> bool {
        &&& self.capacity >= 1
        &&& self.order@.len() <= self.capacity
        &&& self.order@.no_duplicates()
        &&& self.seen@ == self.order@.to_set()
    }

    /// Resumes from `cursor`, remembering up to `capacity` identifiers, and at
    /// least one.
    pub fn new(cursor: u64, capacity: usize) -> (state: ResumeState)
        ensures
            state@.cursor == cursor,
            state@.recent.len() == 0,
            state@.capacity == (if capacity == 0 {
                1
            } else {
                capacity as nat
            }),
    {
        let order: VecDeque<u128> = VecDeque::new();
        let seen: HashSet<u128> = HashSet::new();
        assert(seen@ =~= order@.to_set());
        ResumeState {
            cursor,
            seen,
            order,
            capacity: if capacity == 0 {
                1
            } else {
                capacity
            },
        }
    }

    /// The number of the last event handled, after which to ask for a replay.
    pub fn cursor(&self) -> (cursor: u64)
        ensures
            cursor == self@.cursor,
    {
        self.cursor
    }

    /// Whether an event has to be handled.
    pub fn should_process(&self, id: u128, seq: u64) -> (process: bool)
        ensures
            process == is_new(self@, id, seq),
    {
        proof {
            use_type_invariant(self);
        }
        seq > self.cursor && !self.seen.contains(&id)
    }

    /// Notes that an event has been handled.
    pub fn record(&mut self, id: u128, seq: u64)
        ensures
            final(self)@ == recorded(old(self)@, id, seq),
    {
        proof {
            use_type_invariant(&*self);
        }
        let mut taken: ResumeState = ResumeState::new(0, 1);
        std::mem::swap(&mut taken, self);
        let ResumeState { mut cursor, mut seen, mut order, capacity } = taken;
        let ghost before = order@;
        let fresh: bool = seen.insert(id);
        if fresh {
            assert(!before.contains(id));
            order.push_back(id);
            let ghost longer = order@;
            assert(longer.no_duplicates());
            assert(seen@ =~= longer.to_set()) by {
                lemma_set_of_pushed(before, id);
            }
            if order.len() > capacity {
                match order.pop_front() {
                    Some(oldest) => {
                        seen.remove(&oldest);
                        proof {
                            assert(oldest == longer[0]);
                            assert(order@ =~= longer.drop_first());
                            lemma_set_without_first(longer);
                        }
                        assert(seen@ =~= order@.to_set());
                    },
                    None => {},
                }
            }
        } else {
            assert(before.contains(id));
            assert(seen@ =~= before.to_set());
        }
        if seq > cursor {
            cursor = seq;
        }
        *self = ResumeState { cursor, seen, order, capacity };
    }
}

proof fn lemma_set_of_pushed(s: Seq<u128>, x: u128)
    ensures
        s.push(x).to_set() == s.to_set().insert(x),
{
    assert forall|y: u128| #[trigger]
        s.push(x).to_set().contains(y) <==> s.to_set().insert(x).contains(y) by {
        if s.contains(y) {
            let i = s.index_of(y);
            assert(s.push(x)[i] == y);
        }
        assert(s.push(x)[s.len() as int] == x);
        if s.push(x).contains(y) {
            let i = s.push(x).index_of(y);
            if i < s.len() {
                assert(s[i] == y);
            }
        }
    }
    assert(s.push(x).to_set() =~= s.to_set().insert(x));
}

proof fn lemma_set_without_first(s: Seq<u128>)
    requires
        s.len() > 0,
        s.no_duplicates(),
    ensures
        s.drop_first().to_set() == s.to_set().remove(s[0]),
        s.drop_first().no_duplicates(),
{
    let rest = s.drop_first();
    assert forall|y: u128| rest.contains(y) <==> s.contains(y) && y != s[0] by {
        if rest.contains(y) {
            let i = rest.index_of(y);
            assert(s[i + 1] == y);
        }
        if s.contains(y) && y != s[0] {
            let i = s.index_of(y);
            assert(rest[i - 1] == y);
        }
    }
    assert(rest.to_set() =~= s.to_set().remove(s[0]));
}

/// What identifies an event to a subscriber: its identifier and its number.
pub struct Mark {
    pub id: u128,
    pub seq: u64,
}

/// The state after a list of deliveries, of which the new ones are handled.
pub open spec fn state_after(state: ResumeValue, delivered: Seq<Mark>) -> ResumeValue
    decreases delivered.len(),
{
    if delivered.len() == 0 {
        state
    } else {
        let before = state_after(state, delivered.drop_last());
        let mark = delivered.last();
        if is_new(before, mark.id, mark.seq) {
            recorded(before, mark.id, mark.seq)
        } else {
            before
        }
    }
}

/// Of a list of deliveries those that are handled, in their order.
pub open spec fn handled(state: ResumeValue, delivered: Seq<Mark>) -> Seq<Mark>
    decreases delivered.len(),
{
    if delivered.len() == 0 {
        Seq::empty()
    } else {
        let before = handled(state, delivered.drop_last());
        let mark = delivered.last();
        if is_new(state_after(state, delivered.drop_last()), mark.id, mark.seq) {
            before.push(mark)
        } else {
            before
        }
    }
}

/// The cursor never goes back: it is the number of the last event handled, and
/// stays where it was while none is.
pub proof fn cursor_follows_what_is_handled(state: ResumeValue, delivered: Seq<Mark>)
    ensures
        state_after(state, delivered).cursor == (if handled(state, delivered).len() == 0 {
            state.cursor
        } else {
            handled(state, delivered).last().seq
        }),
        state_after(state, delivered).cursor >= state.cursor,
    decreases delivered.len(),
{
    if delivered.len() > 0 {
        cursor_follows_what_is_handled(state, delivered.drop_last());
    }
}

/// No event is handled twice, however often it is delivered: the numbers of the
/// events that are handled grow, from above the cursor on.
pub proof fn no_event_is_handled_twice(state: ResumeValue, delivered: Seq<Mark>)
    ensures
        forall|i: int|
            0 <= i < handled(state, delivered).len() ==> (#[trigger] handled(
                state,
                delivered,
            )[i]).seq > state.cursor,
        forall|i: int, j: int|
            0 <= i < j < handled(state, delivered).len() ==> (#[trigger] handled(
                state,
                delivered,
            )[i]).seq < (#[trigger] handled(state, delivered)[j]).seq,
    decreases delivered.len(),
{
    if delivered.len() > 0 {
        let head = delivered.drop_last();
        let before = handled(state, head);
        let all = handled(state, delivered);
        no_event_is_handled_twice(state, head);
        cursor_follows_what_is_handled(state, head);
        if all.len() > before.len() {
            assert(all == before.push(delivered.last()));
            assert forall|i: int, j: int| 0 <= i < j < all.len() implies (#[trigger] all[i]).seq < (
            #[trigger] all[j]).seq by {
                assert(all[i] == before[i]);
                if j < before.len() {
                    assert(all[j] == before[j]);
                } else if i < before.len() - 1 {
                    assert(before[i].seq < before[before.len() - 1].seq);
                }
            }
            assert forall|i: int| 0 <= i < all.len() implies (#[trigger] all[i]).seq
                > state.cursor by {
                if i < before.len() {
                    assert(all[i] == before[i]);
                }
            }
        }
    }
}

/// An event that has been handled is never handled again, whatever is handled in
/// between and however few identifiers are remembered.
pub proof fn handled_event_stays_handled(
    state: ResumeValue,
    id: u128,
    seq: u64,
    delivered: Seq<Mark>,
)
    ensures
        !is_new(state_after(recorded(state, id, seq), delivered), id, seq),
{
    cursor_follows_what_is_handled(recorded(state, id, seq), delivered);
}

/// Events that come in the order of their numbers, from above the cursor on, and
/// with identifiers of their own, are all handled.
pub proof fn fresh_events_are_all_handled(state: ResumeValue, delivered: Seq<Mark>)
    requires
        forall|i: int| 0 <= i < delivered.len() ==> (#[trigger] delivered[i]).seq > state.cursor,
        forall|i: int, j: int|
            0 <= i < j < delivered.len() ==> (#[trigger] delivered[i]).seq < (
            #[trigger] delivered[j]).seq,
        forall|i: int, j: int|
            0 <= i < j < delivered.len() ==> (#[trigger] delivered[i]).id != (
            #[trigger] delivered[j]).id,
        forall|i: int|
            0 <= i < delivered.len() ==> !state.recent.contains((#[trigger] delivered[i]).id),
    ensures
        handled(state, delivered) == delivered,
    decreases delivered.len(),
{
    if delivered.len() > 0 {
        let head = delivered.drop_last();
        let last = delivered.last();
        assert forall|i: int| 0 <= i < head.len() implies (#[trigger] head[i]).seq > state.cursor
            && !state.recent.contains(head[i].id) && head[i].seq < last.seq && head[i].id
            != last.id by {
            assert(head[i] == delivered[i]);
            assert(delivered[delivered.len() - 1] == last);
        }
        assert forall|i: int, j: int| 0 <= i < j < head.len() implies (#[trigger] head[i]).seq < (
        #[trigger] head[j]).seq && head[i].id != head[j].id by {
            assert(head[i] == delivered[i] && head[j] == delivered[j]);
        }
        fresh_events_are_all_handled(state, head);
        cursor_follows_what_is_handled(state, head);
        lemma_recent_is_known(state, head, last.id);
        assert(delivered[delivered.len() - 1].seq > state.cursor);
        assert(delivered =~= head.push(last));
    } else {
        assert(delivered =~= Seq::empty());
    }
}

proof fn lemma_recent_is_known(state: ResumeValue, delivered: Seq<Mark>, id: u128)
    requires
        !state.recent.contains(id),
        forall|i: int| 0 <= i < delivered.len() ==> (#[trigger] delivered[i]).id != id,
    ensures
        !state_after(state, delivered).recent.contains(id),
    decreases delivered.len(),
{
    if delivered.len() > 0 {
        let head = delivered.drop_last();
        let last = delivered.last();
        assert forall|i: int| 0 <= i < head.len() implies (#[trigger] head[i]).id != id by {
            assert(head[i] == delivered[i]);
        }
        lemma_recent_is_known(state, head, id);
        let recent = state_after(state, head).recent;
        let longer = recent.push(last.id);
        assert(delivered[delivered.len() - 1] == last);
        assert forall|i: int| 0 <= i < longer.len() implies longer[i] != id by {
            if i < recent.len() {
                assert(recent.contains(recent[i]));
            }
        }
    }
}

/// The latest identifiers are remembered: one that was just handled always, and each
/// other as long as there is room. Where there is none, only the oldest is forgotten.
pub proof fn the_latest_are_remembered(recent: Seq<u128>, capacity: nat, id: u128, other: u128)
    requires
        capacity > 0,
        recent.len() <= capacity,
        recent.no_duplicates(),
    ensures
        remembered(recent, capacity, id).contains(id),
        remembered(recent, capacity, id).len() <= capacity,
        remembered(recent, capacity, id).no_duplicates(),
        recent.contains(other) && (recent.len() < capacity || recent.contains(id) || other
            != recent[0]) ==> remembered(recent, capacity, id).contains(other),
        remembered(recent, capacity, id).contains(other) ==> recent.contains(other) || other == id,
        !recent.contains(id) && recent.len() == capacity ==> !remembered(
            recent,
            capacity,
            id,
        ).contains(recent[0]) && remembered(recent, capacity, id).len() == capacity,
        !recent.contains(id) ==> remembered(recent, capacity, id).last() == id,
{
    let after = remembered(recent, capacity, id);
    if !recent.contains(id) {
        let longer = recent.push(id);
        assert(longer[recent.len() as int] == id);
        let shift: int = if recent.len() >= capacity {
            1
        } else {
            0
        };
        assert(forall|i: int| 0 <= i < after.len() ==> after[i] == longer[i + shift]);
        assert(after[after.len() - 1] == id);
        if recent.contains(other) {
            let i = recent.index_of(other);
            if i >= shift {
                assert(after[i - shift] == other);
            }
        }
        if after.contains(other) {
            let i = after.index_of(other);
            if i + shift < recent.len() {
                assert(recent[i + shift] == other);
            }
        }
        assert forall|i: int, j: int| 0 <= i < j < after.len() implies after[i] != after[j] by {
            if j + shift < recent.len() {
                assert(recent[i + shift] != recent[j + shift]);
            } else {
                assert(recent.contains(recent[i + shift]));
            }
        }
        if recent.len() == capacity {
            if after.contains(recent[0]) {
                let i = after.index_of(recent[0]);
                if i + 1 < recent.len() {
                    assert(recent[i + 1] == recent[0]);
                }
            }
        }
    }
}

/// An event is new exactly where its number lies above the cursor and its identifier
/// was not handled lately; handling it moves the cursor to its number and no other.
pub proof fn what_is_new(state: ResumeValue, id: u128, seq: u64)
    ensures
        seq <= state.cursor ==> !is_new(state, id, seq),
        state.recent.contains(id) ==> !is_new(state, id, seq),
        seq > state.cursor && !state.recent.contains(id) ==> is_new(state, id, seq),
        recorded(state, id, seq).cursor >= state.cursor,
        recorded(state, id, seq).cursor >= seq,
        recorded(state, id, seq).cursor == state.cursor || recorded(state, id, seq).cursor == seq,
        recorded(state, id, seq).capacity == state.capacity,
{
}

} // verus!
