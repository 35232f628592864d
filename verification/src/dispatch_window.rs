//! The window of dispatches that an extension has not answered yet.

use vstd::prelude::*;

use crate::ids;

verus! {

/// The requests that wait for an answer, and how many count as in flight.
///
/// Each waiting request holds one place in the window, so that the two always
/// agree.
pub struct DispatchWindow {
    pending: Vec<u128>,
    in_flight: usize,
}

/// A place in the window that is held for one request. While it is armed, the
/// place is given back when the request is abandoned.
#[derive(Debug, PartialEq, Eq)]
pub struct DispatchReservation {
    pub req_id: u128,
    pub armed: bool,
}

/// How waiting for an answer ended.
#[derive(Clone, Copy, Debug, PartialEq, Eq, Structural)]
pub enum DispatchWait {
    Result,
    Dead,
    Timeout,
}

/// How many places are taken once another is asked for: one more, where fewer than
/// `max` were taken.
pub open spec fn place_taken(taken: nat, max: nat) -> nat {
    if taken < max {
        taken + 1
    } else {
        taken
    }
}

/// How many places are taken once one is given back.
pub open spec fn place_given_back(taken: nat) -> nat {
    if taken == 0 {
        0
    } else {
        (taken - 1) as nat
    }
}

/// Takes a place where fewer than `max` are taken.
pub fn reserve_in_flight(counter: &mut usize, max: usize) -> (taken: bool)
    ensures
        taken == (*old(counter) < max),
        *final(counter) == place_taken(*old(counter) as nat, max as nat),
{
    if *counter >= max {
        return false;
    }
    *counter = *counter + 1;
    true
}

/// Gives a place back.
pub fn release_in_flight(counter: &mut usize)
    ensures
        *final(counter) == place_given_back(*old(counter) as nat),
{
    if *counter > 0 {
        *counter = *counter - 1;
    }
}

impl View for DispatchWindow {
    type V = Set<u128>;

    closed spec fn view(&self) -> Set<u128> {
        self.pending@.to_set()
    }
}

impl DispatchWindow {
    #[verifier::type_invariant]
    spec fn places_agree(self) -> bool {
        self.pending@.no_duplicates() && self.in_flight == self.pending@.len()
    }

    /// How many places are taken.
    pub closed spec fn taken(self) -> nat {
        self.in_flight as nat
    }

    /// An empty window.
    pub fn new() -> (window: DispatchWindow)
        ensures
            window@ == Set::<u128>::empty(),
            window.taken() == 0,
    {
        let window = DispatchWindow { pending: Vec::new(), in_flight: 0 };
        assert(window@ =~= Set::<u128>::empty());
        window
    }

    fn find(&self, req_id: u128) -> (at: Option<usize>)
        ensures
            match at {
                Some(i) => i < self.pending@.len() && self.pending@[i as int] == req_id,
                None => !self.pending@.contains(req_id),
            },
    {
        let mut i: usize = 0;
        while i < self.pending.len()
            invariant
                i <= self.pending@.len(),
                forall|j: int| 0 <= j < i ==> self.pending@[j] != req_id,
            decreases self.pending@.len() - i,
        {
            if self.pending[i] == req_id {
                return Some(i);
            }
            i += 1;
        }
        None
    }

    /// Takes a place for a new request, where fewer than `max` are taken.
    pub fn reserve(&mut self, max: usize) -> (reservation: Option<DispatchReservation>)
        ensures
            reservation is Some <==> old(self).taken() < max,
            reservation is Some && old(self)@.contains(reservation->0.req_id) || final(self).taken()
                == place_taken(old(self).taken(), max as nat),
            match reservation {
                Some(r) => {
                    &&& r.armed
                    &&& ids::is_random_uuid(r.req_id)
                    &&& final(self)@ == old(self)@.insert(r.req_id)
                    &&& final(self).taken() <= max
                    &&& final(self).taken() == old(self).taken() + if old(self)@.contains(
                        r.req_id,
                    ) {
                        0nat
                    } else {
                        1nat
                    }
                },
                None => *final(self) == *old(self),
            },
    {
        proof {
            use_type_invariant(&*self);
        }
        let ghost before = *self;
        let mut in_flight: usize = self.in_flight;
        if !reserve_in_flight(&mut in_flight, max) {
            return None;
        }
        let req_id: u128 = ids::mint_id();
        let known: Option<usize> = self.find(req_id);
        let mut taken: DispatchWindow = DispatchWindow { pending: Vec::new(), in_flight: 0 };
        std::mem::swap(&mut taken, self);
        let mut pending: Vec<u128> = taken.pending;
        match known {
            // The request that held this identifier is replaced, and its place
            // goes back.
            Some(_) => {
                release_in_flight(&mut in_flight);
                assert(before@.insert(req_id) =~= before@);
            },
            None => {
                pending.push(req_id);
                proof {
                    assert(pending@.to_set() =~= before@.insert(req_id)) by {
                        assert forall|id: u128| pending@.contains(id) <==> (
                        before.pending@.contains(id) || id == req_id) by {
                            if before.pending@.contains(id) {
                                assert(pending@[before.pending@.index_of(id)] == id);
                            }
                            if id == req_id {
                                assert(pending@[before.pending@.len() as int] == id);
                            }
                        }
                    }
                    assert forall|i: int, j: int|
                        0 <= i < pending@.len() && 0 <= j < pending@.len() && i
                            != j implies pending@[i] != pending@[j] by {
                        if i == pending@.len() - 1 {
                            assert(before.pending@.contains(pending@[j]));
                        } else if j == pending@.len() - 1 {
                            assert(before.pending@.contains(pending@[i]));
                        }
                    }
                }
            },
        }
        *self = DispatchWindow { pending, in_flight };
        Some(DispatchReservation { req_id, armed: true })
    }

    /// Takes a waiting request out, because its answer came or nobody waits for
    /// it any more. A request that does not wait changes nothing.
    pub fn remove(&mut self, req_id: u128) -> (found: bool)
        ensures
            found == old(self)@.contains(req_id),
            final(self)@ == old(self)@.remove(req_id),
            found ==> final(self).taken() == place_given_back(old(self).taken()),
            final(self).taken() == old(self).taken() - if found {
                1int
            } else {
                0int
            },
    {
        proof {
            use_type_invariant(&*self);
        }
        let ghost before = *self;
        match self.find(req_id) {
            Some(i) => {
                let mut taken: DispatchWindow = DispatchWindow {
                    pending: Vec::new(),
                    in_flight: 0,
                };
                std::mem::swap(&mut taken, self);
                let mut pending: Vec<u128> = taken.pending;
                let mut in_flight: usize = taken.in_flight;
                let _ = pending.remove(i);
                release_in_flight(&mut in_flight);
                proof {
                    assert(before.pending@.contains(before.pending@[i as int]));
                    assert forall|a: int, b: int|
                        0 <= a < pending@.len() && 0 <= b < pending@.len() && a
                            != b implies pending@[a] != pending@[b] by {
                        let x = if a < i { a } else { a + 1 };
                        let y = if b < i { b } else { b + 1 };
                        assert(pending@[a] == before.pending@[x]);
                        assert(pending@[b] == before.pending@[y]);
                    }
                    assert(pending@.to_set() =~= before@.remove(req_id)) by {
                        assert forall|id: u128| pending@.contains(id) <==> (
                        before.pending@.contains(id) && id != req_id) by {
                            if pending@.contains(id) {
                                let a = pending@.index_of(id);
                                let x = if a < i { a } else { a + 1 };
                                assert(before.pending@[x] == id);
                            }
                            if before.pending@.contains(id) && id != req_id {
                                let x = before.pending@.index_of(id);
                                let a = if x < i { x } else { x - 1 };
                                assert(pending@[a] == id);
                            }
                        }
                    }
                }
                *self = DispatchWindow { pending, in_flight };
                true
            },
            None => {
                assert(before@.remove(req_id) =~= before@);
                false
            },
        }
    }

    /// Takes all waiting requests out.
    pub fn clear(&mut self)
        ensures
            final(self)@ == Set::<u128>::empty(),
            final(self).taken() == 0,
    {
        *self = DispatchWindow::new();
    }

    /// Whether no request waits.
    pub fn is_idle(&self) -> (idle: bool)
        ensures
            idle == (self@ == Set::<u128>::empty()),
            idle == (self.taken() == 0),
    {
        proof {
            use_type_invariant(self);
            if self.pending@.len() > 0 {
                assert(self@.contains(self.pending@[0]));
            } else {
                assert(self@ =~= Set::<u128>::empty());
            }
        }
        self.pending.len() == 0 && self.in_flight == 0
    }

    /// How many requests wait.
    pub fn pending_len(&self) -> (n: usize)
        ensures
            n == self@.len(),
            n == self.taken(),
    {
        proof {
            use_type_invariant(self);
            self.pending@.unique_seq_to_set();
        }
        self.pending.len()
    }

    /// How many places are taken: one for each waiting request.
    pub fn in_flight(&self) -> (n: usize)
        ensures
            n == self.taken(),
            n == self@.len(),
    {
        proof {
            use_type_invariant(self);
            self.pending@.unique_seq_to_set();
        }
        self.in_flight
    }
}

impl DispatchReservation {
    /// The identifier of the request.
    pub fn req_id(&self) -> (id: u128)
        ensures
            id == self.req_id,
    {
        self.req_id
    }

    /// Settles a request whose wait has ended. An answer, or the end of the
    /// extension, has taken the request out already; on a timeout it is taken out
    /// here.
    pub fn settle(&mut self, window: &mut DispatchWindow, wait: DispatchWait)
        ensures
            final(self).req_id == old(self).req_id,
            !final(self).armed,
            final(window)@ == (if wait == DispatchWait::Timeout && old(self).armed {
                old(window)@.remove(old(self).req_id)
            } else {
                old(window)@
            }),
            final(window).taken() == old(window).taken() - if wait == DispatchWait::Timeout && old(
                self,
            ).armed && old(window)@.contains(old(self).req_id) {
                1int
            } else {
                0int
            },
    {
        match wait {
            DispatchWait::Result => {
                self.armed = false;
            },
            DispatchWait::Dead => {
                self.armed = false;
            },
            DispatchWait::Timeout => {
                let _ = self.remove_pending(window);
            },
        }
    }

    /// Gives the place back, unless it was given back before.
    pub fn remove_pending(&mut self, window: &mut DispatchWindow) -> (removed: bool)
        ensures
            final(self).req_id == old(self).req_id,
            !final(self).armed,
            removed == (old(self).armed && old(window)@.contains(old(self).req_id)),
            final(window)@ == (if old(self).armed {
                old(window)@.remove(old(self).req_id)
            } else {
                old(window)@
            }),
            final(window).taken() == old(window).taken() - if removed {
                1int
            } else {
                0int
            },
    {
        if !self.armed {
            return false;
        }
        self.armed = false;
        window.remove(self.req_id)
    }
}

/// What happens to the places of a window.
pub enum PlaceStep {
    /// One is asked for.
    Reserve,
    /// One is given back.
    Release,
}

/// How many places are taken after some steps.
pub open spec fn places_after(taken: nat, max: nat, steps: Seq<PlaceStep>) -> nat
    decreases steps.len(),
{
    if steps.len() == 0 {
        taken
    } else {
        let before = places_after(taken, max, steps.drop_last());
        match steps.last() {
            PlaceStep::Reserve => place_taken(before, max),
            PlaceStep::Release => place_given_back(before),
        }
    }
}

/// How many of the requests for a place are granted.
pub open spec fn granted(taken: nat, max: nat, steps: Seq<PlaceStep>) -> nat
    decreases steps.len(),
{
    if steps.len() == 0 {
        0
    } else {
        granted(taken, max, steps.drop_last()) + if steps.last() is Reserve && places_after(
            taken,
            max,
            steps.drop_last(),
        ) < max {
            1nat
        } else {
            0nat
        }
    }
}

/// How many times a place is given back.
pub open spec fn releases(steps: Seq<PlaceStep>) -> nat
    decreases steps.len(),
{
    if steps.len() == 0 {
        0
    } else {
        releases(steps.drop_last()) + if steps.last() is Release {
            1nat
        } else {
            0nat
        }
    }
}

/// In whatever order places are asked for and given back, no more than `max` are ever
/// taken, and no more are granted than were free or were given back. As long as none
/// is given back, each request is granted until all places are taken.
pub proof fn places_never_exceed_the_limit(taken: nat, max: nat, steps: Seq<PlaceStep>)
    requires
        taken <= max,
    ensures
        places_after(taken, max, steps) <= max,
        granted(taken, max, steps) <= max - taken + releases(steps),
        releases(steps) == 0 ==> granted(taken, max, steps) == (if steps.len() <= max - taken {
            steps.len()
        } else {
            (max - taken) as nat
        }),
    decreases steps.len(),
{
    lemma_places_balance(taken, max, steps);
    if steps.len() > 0 {
        places_never_exceed_the_limit(taken, max, steps.drop_last());
    }
}

proof fn lemma_places_balance(taken: nat, max: nat, steps: Seq<PlaceStep>)
    requires
        taken <= max,
    ensures
        places_after(taken, max, steps) <= max,
        places_after(taken, max, steps) + releases(steps) >= taken + granted(taken, max, steps),
        releases(steps) == 0 ==> places_after(taken, max, steps) == taken + granted(
            taken,
            max,
            steps,
        ),
    decreases steps.len(),
{
    if steps.len() > 0 {
        lemma_places_balance(taken, max, steps.drop_last());
    }
}

} // verus!
