//! The book-keeping of the durable delivery log.
//!
//! Every event that is fanned out is first stored under the next sequence
//! number, so that a subscriber that comes back can resume from the last number
//! that it has seen. Old rows are pruned from the front, by age and by size.
//!
//! A stored row holds its sequence number, the identifier and time of the event,
//! its channel and its payload: no token and no secret.

use vstd::prelude::*;

use crate::channel;
use crate::channel::Pattern;
use crate::ids;
use crate::messages::Event;

verus! {

/// An event with the sequence number, identifier and time that the log gave it.
#[derive(Debug, PartialEq, Eq)]
pub struct StampedEvent {
    pub seq: u64,
    pub id: u128,
    pub ts_ms: u64,
    pub channel: String,
    pub payload_b64: String,
}

/// The value of a [`StampedEvent`].
pub struct StampedValue {
    pub seq: u64,
    pub id: u128,
    pub ts_ms: u64,
    pub channel: Seq<char>,
    pub payload_b64: Seq<char>,
}

impl View for StampedEvent {
    type V = StampedValue;

    open spec fn view(&self) -> StampedValue {
        StampedValue {
            seq: self.seq,
            id: self.id,
            ts_ms: self.ts_ms,
            channel: self.channel@,
            payload_b64: self.payload_b64@,
        }
    }
}

/// The values of a list of stamped events.
pub open spec fn stamped_values(events: Seq<StampedEvent>) -> Seq<StampedValue> {
    Seq::new(events.len(), |i: int| events[i]@)
}

/// What pruning looks at of a stored row: its sequence number, how many bytes
/// its value takes, and the time of its event.
#[derive(Clone, Copy, Debug, PartialEq, Eq, Structural)]
pub struct Row {
    pub seq: u64,
    pub bytes: u64,
    pub ts_ms: u64,
}

/// How many bytes the values of the rows take.
pub open spec fn total_bytes(rows: Seq<Row>) -> nat
    decreases rows.len(),
{
    if rows.len() == 0 {
        0
    } else {
        total_bytes(rows.drop_last()) + rows.last().bytes as nat
    }
}

/// The limits of what is retained.
#[derive(Clone, Copy, Debug, PartialEq, Eq, Structural)]
pub struct Retention {
    pub retention_secs: u64,
    pub max_bytes: u64,
    pub max_events: u64,
}

/// The counters of the log: the last sequence number that was given out, the
/// first that is still stored (zero where none is), and how many rows and bytes
/// are stored.
#[derive(Clone, Copy, Debug, PartialEq, Eq, Structural)]
pub struct DeliveryLog {
    pub head: u64,
    pub floor: u64,
    pub retained_count: u64,
    pub retained_bytes: u64,
    pub limits: Retention,
}

/// Whether an event is too old to be retained. Ages count in whole seconds.
pub open spec fn too_old(now_ms: u64, ts_ms: u64, limits: Retention) -> bool {
    (if now_ms >= ts_ms {
        (now_ms - ts_ms) as int
    } else {
        0
    }) / 1000 > limits.retention_secs
}

/// Whether the front row has to go.
pub open spec fn must_prune(
    row: Row,
    count: int,
    bytes: int,
    now_ms: u64,
    limits: Retention,
) -> bool {
    too_old(now_ms, row.ts_ms, limits) || count > limits.max_events || bytes > limits.max_bytes
}

/// `bytes` without those of a row, not below zero.
pub open spec fn bytes_without(bytes: int, row: Row) -> int {
    if bytes >= row.bytes {
        bytes - row.bytes
    } else {
        0
    }
}

/// How many rows at the front are pruned.
pub open spec fn pruned_rows(
    rows: Seq<Row>,
    count: int,
    bytes: int,
    now_ms: u64,
    limits: Retention,
) -> nat
    decreases rows.len(),
{
    if rows.len() == 0 || !must_prune(rows[0], count, bytes, now_ms, limits) {
        0
    } else {
        1 + pruned_rows(
            rows.drop_first(),
            count - 1,
            bytes_without(bytes, rows[0]),
            now_ms,
            limits,
        )
    }
}

/// The number of bytes left after the first `n` rows are gone.
pub open spec fn bytes_after(rows: Seq<Row>, bytes: int, n: nat) -> int
    decreases n,
{
    if n == 0 {
        bytes
    } else {
        bytes_after(rows.drop_first(), bytes_without(bytes, rows[0]), (n - 1) as nat)
    }
}

/// The sequence number of the first row, zero where there is none.
pub open spec fn first_seq(rows: Seq<Row>) -> u64 {
    if rows.len() == 0 {
        0
    } else {
        rows[0].seq
    }
}

/// The first sequence number among the rows that is not zero.
pub open spec fn first_nonzero_seq(rows: Seq<Row>) -> u64
    decreases rows.len(),
{
    if rows.len() == 0 {
        0
    } else if first_nonzero_seq(rows.drop_last()) != 0 {
        first_nonzero_seq(rows.drop_last())
    } else {
        rows.last().seq
    }
}

/// A pass over the front of the log that prunes row by row.
///
/// The pass holds the counters as they would be after the rows that it has told
/// to remove; the log itself changes when the pass is finished.
#[derive(Clone, Copy, Debug, PartialEq, Eq, Structural)]
pub struct PrunePass {
    pub count: u64,
    pub bytes: u64,
    pub pruned: u64,
    pub now_ms: u64,
    pub limits: Retention,
}

impl PrunePass {
    /// Decides on the row that is now at the front. Where the answer is `true`
    /// the row is to be removed and the pass goes on with the next.
    pub fn step(&mut self, front: Row) -> (remove: bool)
        requires
            old(self).count > 0,
            old(self).pruned < u64::MAX,
        ensures
            remove == must_prune(
                front,
                old(self).count as int,
                old(self).bytes as int,
                old(self).now_ms,
                old(self).limits,
            ),
            !remove ==> *final(self) == *old(self),
            remove ==> *final(self) == (PrunePass {
                count: (old(self).count - 1) as u64,
                bytes: bytes_without(old(self).bytes as int, front) as u64,
                pruned: (old(self).pruned + 1) as u64,
                ..*old(self)
            }),
    {
        let age_ms: u64 = if self.now_ms >= front.ts_ms {
            self.now_ms - front.ts_ms
        } else {
            0
        };
        let too_old: bool = age_ms / 1000 > self.limits.retention_secs;
        let too_many: bool = self.count > self.limits.max_events;
        let too_big: bool = self.bytes > self.limits.max_bytes;
        if !(too_old || too_many || too_big) {
            return false;
        }
        self.count = self.count - 1;
        self.bytes = if self.bytes >= front.bytes {
            self.bytes - front.bytes
        } else {
            0
        };
        self.pruned = self.pruned + 1;
        true
    }
}

proof fn lemma_total_bytes_prefix(rows: Seq<Row>, i: int)
    requires
        0 <= i <= rows.len(),
    ensures
        total_bytes(rows.take(i)) <= total_bytes(rows),
    decreases rows.len(),
{
    if i < rows.len() {
        assert(rows.drop_last().take(i) =~= rows.take(i));
        lemma_total_bytes_prefix(rows.drop_last(), i);
    } else {
        assert(rows.take(i) =~= rows);
    }
}

proof fn lemma_total_bytes_front(rows: Seq<Row>)
    requires
        rows.len() > 0,
    ensures
        total_bytes(rows) == rows[0].bytes + total_bytes(rows.drop_first()),
    decreases rows.len(),
{
    if rows.len() > 1 {
        lemma_total_bytes_front(rows.drop_last());
        assert(rows.drop_last().drop_first() =~= rows.drop_first().drop_last());
    } else {
        assert(rows.drop_first() =~= Seq::<Row>::empty());
        assert(rows.drop_last() =~= Seq::<Row>::empty());
    }
}

proof fn lemma_bytes_after_step(rows: Seq<Row>, bytes: int, n: nat)
    requires
        n < rows.len(),
    ensures
        bytes_after(rows, bytes, n + 1) == bytes_without(bytes_after(rows, bytes, n), rows[n as int]),
    decreases n,
{
    reveal_with_fuel(bytes_after, 2);
    if n > 0 {
        lemma_bytes_after_step(
            rows.drop_first(),
            bytes_without(bytes, rows[0]),
            (n - 1) as nat,
        );
        assert(rows.drop_first()[n - 1] == rows[n as int]);
    }
}

/// The counters once `n` rows from `first` on have been stored.
pub open spec fn committed(log: DeliveryLog, first: u64, n: u64, bytes_added: u64) -> DeliveryLog {
    DeliveryLog {
        head: (log.head + n) as u64,
        floor: if log.floor == 0 {
            first
        } else {
            log.floor
        },
        retained_count: log.retained_count.wrapping_add(n),
        retained_bytes: log.retained_bytes.wrapping_add(bytes_added),
        ..log
    }
}

/// The counters of a log of `rows` once the first `pruned` rows are gone.
pub open spec fn without_front(log: DeliveryLog, rows: Seq<Row>, pruned: u64) -> DeliveryLog {
    DeliveryLog {
        floor: first_seq(rows.skip(pruned as int)),
        retained_count: (rows.len() - pruned) as u64,
        retained_bytes: bytes_after(rows, log.retained_bytes as int, pruned as nat) as u64,
        ..log
    }
}

/// The last sequence number that a log has given out: the stored one, or that of
/// its last row where that is higher. The rows alone do not tell, since all of them
/// may have been pruned.
pub open spec fn recovered_head(rows: Seq<Row>, last_head: u64) -> u64 {
    if rows.len() > 0 && rows.last().seq > last_head {
        rows.last().seq
    } else {
        last_head
    }
}

/// The counters of a log that is opened with `rows` and the stored number
/// `last_head`.
pub open spec fn recovered(rows: Seq<Row>, last_head: u64, limits: Retention) -> DeliveryLog {
    DeliveryLog {
        head: recovered_head(rows, last_head),
        floor: first_nonzero_seq(rows),
        retained_count: rows.len() as u64,
        retained_bytes: total_bytes(rows) as u64,
        limits,
    }
}

/// Whether `stamped` are `events` with the sequence numbers that follow `head`, the
/// time and identifiers of their own.
pub open spec fn stamps(
    stamped: Seq<StampedEvent>,
    events: Seq<Event>,
    head: int,
    ts_ms: u64,
) -> bool {
    &&& stamped.len() == events.len()
    &&& forall|i: int|
        0 <= i < stamped.len() ==> {
            &&& (#[trigger] stamped[i]).seq == head + 1 + i
            &&& stamped[i].ts_ms == ts_ms
            &&& stamped[i].channel@ == events[i].channel@
            &&& stamped[i].payload_b64@ == events[i].payload_b64@
            &&& ids::is_random_uuid(stamped[i].id)
        }
}

/// Gives each event the next sequence number after `head`, an identifier of its own
/// and the time.
pub fn stamp_after(head: u64, events: Vec<Event>, ts_ms: u64) -> (stamped: Vec<StampedEvent>)
    requires
        head + events@.len() <= u64::MAX,
    ensures
        stamps(stamped@, events@, head as int, ts_ms),
{
    let mut stamped: Vec<StampedEvent> = Vec::new();
    let mut i: usize = 0;
    while i < events.len()
        invariant
            i <= events@.len(),
            head + events@.len() <= u64::MAX,
            stamps(stamped@, events@.take(i as int), head as int, ts_ms),
        decreases events@.len() - i,
    {
        stamped.push(
            StampedEvent {
                seq: head + 1 + i as u64,
                id: ids::mint_id(),
                ts_ms,
                channel: events[i].channel.clone(),
                payload_b64: events[i].payload_b64.clone(),
            },
        );
        i += 1;
    }
    assert(events@.take(i as int) =~= events@);
    stamped
}

impl DeliveryLog {
    /// The counters of a log that holds `rows`, which come in ascending order, and
    /// that has stored `last_head` as the last number it gave out (zero where it
    /// has given out none).
    pub fn recover(rows: &[Row], last_head: u64, limits: Retention) -> (log: DeliveryLog)
        requires
            total_bytes(rows@) <= u64::MAX,
        ensures
            log == recovered(rows@, last_head, limits),
            log.retained_count == rows@.len(),
            log.retained_bytes == total_bytes(rows@),
    {
        let mut head: u64 = last_head;
        let mut floor: u64 = 0;
        let mut count: u64 = 0;
        let mut bytes: u64 = 0;
        let mut i: usize = 0;
        while i < rows.len()
            invariant
                i <= rows@.len(),
                total_bytes(rows@) <= u64::MAX,
                floor == first_nonzero_seq(rows@.take(i as int)),
                count == i,
                bytes == total_bytes(rows@.take(i as int)),
            decreases rows@.len() - i,
        {
            let row: Row = rows[i];
            proof {
                assert(rows@.take(i as int + 1).drop_last() =~= rows@.take(i as int));
                lemma_total_bytes_prefix(rows@, i as int + 1);
            }
            if floor == 0 {
                floor = row.seq;
            }
            count += 1;
            bytes += row.bytes;
            i += 1;
        }
        assert(rows@.take(i as int) =~= rows@);
        if rows.len() > 0 {
            let last: Row = rows[rows.len() - 1];
            if last.seq > head {
                head = last.seq;
            }
        }
        DeliveryLog { head, floor, retained_count: count, retained_bytes: bytes, limits }
    }

    /// Gives each event the next sequence number, an identifier of its own and
    /// the time. The log changes when the rows have been stored.
    pub fn stamp(&self, events: Vec<Event>, ts_ms: u64) -> (stamped: Vec<StampedEvent>)
        requires
            self.head + events@.len() <= u64::MAX,
        ensures
            stamps(stamped@, events@, self.head as int, ts_ms),
    {
        stamp_after(self.head, events, ts_ms)
    }

    /// Records that stamped events have been stored, whose values take
    /// `bytes_added` bytes. The first rows of an empty log set its floor.
    pub fn commit(&mut self, stamped: &[StampedEvent], bytes_added: u64)
        requires
            stamped@.len() > 0,
            old(self).head + stamped@.len() <= u64::MAX,
        ensures
            *final(self) == committed(
                *old(self),
                stamped@[0].seq,
                stamped@.len() as u64,
                bytes_added,
            ),
    {
        let n: u64 = stamped.len() as u64;
        self.head = self.head + n;
        if self.floor == 0 {
            self.floor = stamped[0].seq;
        }
        self.retained_count = self.retained_count.wrapping_add(n);
        self.retained_bytes = self.retained_bytes.wrapping_add(bytes_added);
    }

    /// Starts a pass that prunes the front of the log.
    pub fn begin_prune(&self, now_ms: u64) -> (pass: PrunePass)
        ensures
            pass == (PrunePass {
                count: self.retained_count,
                bytes: self.retained_bytes,
                pruned: 0,
                now_ms,
                limits: self.limits,
            }),
    {
        PrunePass {
            count: self.retained_count,
            bytes: self.retained_bytes,
            pruned: 0,
            now_ms,
            limits: self.limits,
        }
    }

    /// Records what a pass has pruned, where `front` is the row that is now the
    /// first.
    pub fn finish_prune(&mut self, pass: PrunePass, front: Option<Row>)
        ensures
            *final(self) == (DeliveryLog {
                floor: match front {
                    Some(row) => row.seq,
                    None => 0,
                },
                retained_count: pass.count,
                retained_bytes: pass.bytes,
                ..*old(self)
            }),
    {
        self.retained_count = pass.count;
        self.retained_bytes = pass.bytes;
        self.floor = match front {
            Some(row) => row.seq,
            None => 0,
        };
    }

    /// Prunes a log that holds `rows`, in ascending order, and returns how many
    /// rows go from the front.
    pub fn prune(&mut self, rows: &[Row], now_ms: u64) -> (pruned: u64)
        requires
            old(self).retained_count == rows@.len(),
        ensures
            pruned == pruned_rows(
                rows@,
                rows@.len() as int,
                old(self).retained_bytes as int,
                now_ms,
                old(self).limits,
            ),
            pruned <= rows@.len(),
            *final(self) == without_front(*old(self), rows@, pruned),
    {
        let mut pass: PrunePass = self.begin_prune(now_ms);
        let ghost limits = self.limits;
        let ghost start = self.retained_bytes as int;
        let mut i: usize = 0;
        let mut going: bool = true;
        assert(rows@.skip(0) =~= rows@);
        while going && i < rows.len()
            invariant
                i <= rows@.len(),
                pass.now_ms == now_ms,
                pass.limits == limits,
                pass.count == rows@.len() - i,
                pass.pruned == i,
                pass.bytes == bytes_after(rows@, start, i as nat),
                pruned_rows(rows@, rows@.len() as int, start, now_ms, limits) == i + (if going {
                    pruned_rows(
                        rows@.skip(i as int),
                        rows@.len() - i,
                        pass.bytes as int,
                        now_ms,
                        limits,
                    )
                } else {
                    0
                }),
            decreases rows@.len() - i, going as int,
        {
            proof {
                assert(rows@.skip(i as int)[0] == rows@[i as int]);
                assert(rows@.skip(i as int).drop_first() =~= rows@.skip(i as int + 1));
                lemma_bytes_after_step(rows@, start, i as nat);
            }
            if pass.step(rows[i]) {
                i += 1;
            } else {
                going = false;
            }
        }
        let front: Option<Row> = if i < rows.len() {
            Some(rows[i])
        } else {
            None
        };
        let pruned: u64 = pass.pruned;
        self.finish_prune(pass, front);
        pruned
    }
}

/// Whether a reader asks for an event: all events where it names no patterns.
pub open spec fn wanted(patterns: Option<Seq<Seq<char>>>, channel: Seq<char>) -> bool {
    match patterns {
        Some(texts) => channel::selected_by_any(texts, channel),
        None => true,
    }
}

/// The first sequence number after `after_seq`; the last number is its own
/// successor.
pub open spec fn next_seq(after_seq: u64) -> u64 {
    if after_seq == u64::MAX {
        u64::MAX
    } else {
        (after_seq + 1) as u64
    }
}

/// Of the stored events those that come after `after_seq` and that the reader
/// asks for, in their order.
pub open spec fn events_after(
    rows: Seq<StampedValue>,
    after_seq: u64,
    patterns: Option<Seq<Seq<char>>>,
) -> Seq<StampedValue> {
    rows.filter(|row: StampedValue| row.seq >= next_seq(after_seq) && wanted(patterns, row.channel))
}

/// The texts of patterns, where there are any.
pub open spec fn optional_texts(patterns: Option<&[Pattern]>) -> Option<Seq<Seq<char>>> {
    match patterns {
        Some(list) => Some(channel::pattern_texts(list@)),
        None => None,
    }
}

/// Selects from the stored events those that come after `after_seq` and that one
/// of the patterns selects.
pub fn read_after(
    rows: Vec<StampedEvent>,
    after_seq: u64,
    patterns: Option<&[Pattern]>,
) -> (out: Vec<StampedEvent>)
    ensures
        stamped_values(out@) == events_after(
            stamped_values(rows@),
            after_seq,
            optional_texts(patterns),
        ),
{
    let ghost all = stamped_values(rows@);
    let ghost texts = optional_texts(patterns);
    let ghost keep = |row: StampedValue|
        row.seq >= next_seq(after_seq) && wanted(texts, row.channel);
    let start: u64 = if after_seq == u64::MAX {
        u64::MAX
    } else {
        after_seq + 1
    };
    let mut out: Vec<StampedEvent> = Vec::new();
    let mut i: usize = 0;
    proof {
        reveal(Seq::filter);
        assert(stamped_values(out@) =~= all.take(0).filter(keep));
    }
    while i < rows.len()
        invariant
            i <= rows@.len(),
            all == stamped_values(rows@),
            texts == optional_texts(patterns),
            keep == |row: StampedValue|
                row.seq >= next_seq(after_seq) && wanted(texts, row.channel),
            start == next_seq(after_seq),
            stamped_values(out@) == all.take(i as int).filter(keep),
        decreases rows@.len() - i,
    {
        let row: &StampedEvent = &rows[i];
        let ghost before = stamped_values(out@);
        assert(all[i as int] == row@);
        assert(all.take(i as int + 1).drop_last() =~= all.take(i as int));
        let matched: bool = match patterns {
            Some(list) => channel::any_pattern_matches(list, row.channel.as_str()),
            None => true,
        };
        if row.seq >= start && matched {
            out.push(
                StampedEvent {
                    seq: row.seq,
                    id: row.id,
                    ts_ms: row.ts_ms,
                    channel: row.channel.clone(),
                    payload_b64: row.payload_b64.clone(),
                },
            );
            assert(stamped_values(out@) =~= before.push(row@));
        }
        proof {
            reveal(Seq::filter);
        }
        i += 1;
    }
    assert(all.take(i as int) =~= all);
    out
}

/// Whether the counters are those of a log that holds `rows` and has given out the
/// numbers up to `issued`: the rows have successive sequence numbers, the last of
/// which is `issued`, and the head is `issued` even where no row is left.
pub open spec fn agrees(log: DeliveryLog, rows: Seq<Row>, issued: u64) -> bool {
    &&& gapless(rows)
    &&& rows.len() > 0 ==> rows.last().seq == issued
    &&& log.head == issued
    &&& log.floor == first_seq(rows)
    &&& log.retained_count == rows.len()
    &&& log.retained_bytes == total_bytes(rows)
}

/// Successive sequence numbers, none of them zero.
pub open spec fn gapless(rows: Seq<Row>) -> bool {
    &&& rows.len() > 0 ==> rows[0].seq >= 1
    &&& forall|i: int| 0 <= i < rows.len() ==> (#[trigger] rows[i]).seq == rows[0].seq + i
}

proof fn lemma_first_nonzero(rows: Seq<Row>)
    requires
        gapless(rows),
    ensures
        first_nonzero_seq(rows) == first_seq(rows),
    decreases rows.len(),
{
    reveal_with_fuel(first_nonzero_seq, 2);
    if rows.len() > 1 {
        assert forall|i: int| 0 <= i < rows.drop_last().len() implies (#[trigger] rows.drop_last()[i]).seq
            == rows.drop_last()[0].seq + i by {
            assert(rows[i].seq == rows[0].seq + i);
        }
        lemma_first_nonzero(rows.drop_last());
    } else if rows.len() == 1 {
        assert(rows.drop_last() =~= Seq::<Row>::empty());
    }
}

/// A log that is opened again has the counters that it had, and its numbers go on
/// where they had stopped: also where every row has been pruned.
pub proof fn recovery_agrees(rows: Seq<Row>, issued: u64, limits: Retention)
    requires
        gapless(rows),
        rows.len() > 0 ==> rows.last().seq == issued,
        rows.len() <= u64::MAX,
        total_bytes(rows) <= u64::MAX,
    ensures
        agrees(recovered(rows, issued, limits), rows, issued),
        recovered(rows, issued, limits).head == issued,
{
    lemma_first_nonzero(rows);
}

/// Storing rows under the numbers that follow the head leaves no gap, and the
/// counters agree with the longer log.
pub proof fn appending_leaves_no_gap(log: DeliveryLog, rows: Seq<Row>, new: Seq<Row>)
    requires
        agrees(log, rows, log.head),
        new.len() > 0,
        log.head + new.len() <= u64::MAX,
        rows.len() + new.len() <= u64::MAX,
        total_bytes(rows + new) <= u64::MAX,
        forall|i: int| 0 <= i < new.len() ==> (#[trigger] new[i]).seq == log.head + 1 + i,
    ensures
        agrees(
            committed(log, new[0].seq, new.len() as u64, total_bytes(new) as u64),
            rows + new,
            (log.head + new.len()) as u64,
        ),
{
    let all = rows + new;
    lemma_total_bytes_concat(rows, new);
    assert forall|i: int| 0 <= i < all.len() implies (#[trigger] all[i]).seq == all[0].seq + i by {
        if rows.len() > 0 {
            assert(rows[rows.len() - 1].seq == rows[0].seq + (rows.len() - 1));
        }
        if i < rows.len() {
            assert(all[i] == rows[i]);
        } else {
            assert(all[i] == new[i - rows.len()]);
        }
    }
    assert(all.last() == new.last());
    assert(new[new.len() - 1].seq == log.head + new.len());
}

proof fn lemma_total_bytes_concat(a: Seq<Row>, b: Seq<Row>)
    ensures
        total_bytes(a + b) == total_bytes(a) + total_bytes(b),
    decreases b.len(),
{
    if b.len() > 0 {
        assert((a + b).drop_last() =~= a + b.drop_last());
        lemma_total_bytes_concat(a, b.drop_last());
    } else {
        assert(a + b =~= a);
    }
}

proof fn lemma_bytes_after_total(rows: Seq<Row>, n: nat)
    requires
        n <= rows.len(),
    ensures
        bytes_after(rows, total_bytes(rows) as int, n) == total_bytes(rows.skip(n as int)),
    decreases n,
{
    if n > 0 {
        lemma_total_bytes_front(rows);
        lemma_bytes_after_total(rows.drop_first(), (n - 1) as nat);
        assert(rows.drop_first().skip(n - 1) =~= rows.skip(n as int));
    } else {
        assert(rows.skip(0) =~= rows);
    }
}

proof fn lemma_pruned_rows(rows: Seq<Row>, now_ms: u64, limits: Retention)
    ensures
        ({
            let k = pruned_rows(rows, rows.len() as int, total_bytes(rows) as int, now_ms, limits);
            &&& k <= rows.len()
            &&& k < rows.len() ==> !must_prune(
                rows[k as int],
                rows.len() - k,
                total_bytes(rows.skip(k as int)) as int,
                now_ms,
                limits,
            )
            &&& forall|j: int|
                0 <= j < k ==> must_prune(
                    #[trigger] rows[j],
                    rows.len() - j,
                    total_bytes(rows.skip(j)) as int,
                    now_ms,
                    limits,
                )
        }),
    decreases rows.len(),
{
    let k = pruned_rows(rows, rows.len() as int, total_bytes(rows) as int, now_ms, limits);
    assert(rows.skip(0) =~= rows);
    if rows.len() > 0 && must_prune(
        rows[0],
        rows.len() as int,
        total_bytes(rows) as int,
        now_ms,
        limits,
    ) {
        let rest = rows.drop_first();
        lemma_total_bytes_front(rows);
        lemma_pruned_rows(rest, now_ms, limits);
        assert(k == 1 + pruned_rows(
            rest,
            rest.len() as int,
            total_bytes(rest) as int,
            now_ms,
            limits,
        ));
        if k < rows.len() {
            assert(rest[k - 1] == rows[k as int]);
            assert(rest.skip(k - 1) =~= rows.skip(k as int));
        }
        assert forall|j: int| 0 <= j < k implies must_prune(
            #[trigger] rows[j],
            rows.len() - j,
            total_bytes(rows.skip(j)) as int,
            now_ms,
            limits,
        ) by {
            if j > 0 {
                assert(rest[j - 1] == rows[j]);
                assert(rest.skip(j - 1) =~= rows.skip(j));
            }
        }
    }
}

/// After pruning, the counters agree with the rows that are left: these are
/// again gapless, within the limits, and their first is not too old. No row went
/// that did not have to: each was too old, or stood over a limit, when its turn
/// came.
pub proof fn pruning_keeps_what_is_within_limits(
    log: DeliveryLog,
    rows: Seq<Row>,
    now_ms: u64,
    pruned: u64,
)
    requires
        agrees(log, rows, log.head),
        pruned == pruned_rows(
            rows,
            rows.len() as int,
            log.retained_bytes as int,
            now_ms,
            log.limits,
        ),
    ensures
        pruned <= rows.len(),
        agrees(without_front(log, rows, pruned), rows.skip(pruned as int), log.head),
        rows.len() > pruned ==> {
            &&& !too_old(now_ms, rows[pruned as int].ts_ms, log.limits)
            &&& rows.skip(pruned as int).len() <= log.limits.max_events
            &&& total_bytes(rows.skip(pruned as int)) <= log.limits.max_bytes
        },
        forall|j: int|
            0 <= j < pruned ==> must_prune(
                #[trigger] rows[j],
                rows.len() - j,
                total_bytes(rows.skip(j)) as int,
                now_ms,
                log.limits,
            ),
{
    lemma_pruned_rows(rows, now_ms, log.limits);
    lemma_bytes_after_total(rows, pruned as nat);
    let left = rows.skip(pruned as int);
    lemma_total_bytes_concat(rows.take(pruned as int), left);
    assert(rows.take(pruned as int) + left =~= rows);
    assert forall|i: int| 0 <= i < left.len() implies (#[trigger] left[i]).seq == left[0].seq + i by {
        assert(left[i] == rows[pruned + i]);
        assert(left[0] == rows[pruned as int]);
    }
    if left.len() > 0 {
        assert(left.last() == rows.last());
        assert(left[0] == rows[pruned as int]);
    }
}

/// A log in use: its counters, the rows that it holds, and the last number given
/// out, which is stored along with the rows.
pub struct StoredLog {
    pub counters: DeliveryLog,
    pub rows: Seq<Row>,
    pub stored_head: u64,
}

/// What happens to a log.
pub enum LogStep {
    /// Rows are stored, and with them the new head.
    Append { rows: Seq<Row> },
    /// The front is pruned.
    Prune { now_ms: u64 },
    /// The log is closed and opened again; what was only in memory is gone.
    Reopen { limits: Retention },
}

/// Whether a step can be taken: rows are stored under the numbers that follow the
/// head, as far as the counters reach.
pub open spec fn possible(log: StoredLog, step: LogStep) -> bool {
    match step {
        LogStep::Append { rows } => {
            &&& rows.len() > 0
            &&& log.counters.head + rows.len() <= u64::MAX
            &&& log.rows.len() + rows.len() <= u64::MAX
            &&& total_bytes(log.rows + rows) <= u64::MAX
            &&& forall|i: int|
                0 <= i < rows.len() ==> (#[trigger] rows[i]).seq == log.counters.head + 1 + i
        },
        LogStep::Prune { .. } => true,
        LogStep::Reopen { .. } => true,
    }
}

/// A log after a step.
pub open spec fn stepped(log: StoredLog, step: LogStep) -> StoredLog {
    match step {
        LogStep::Append { rows } => {
            let counters = committed(
                log.counters,
                rows[0].seq,
                rows.len() as u64,
                total_bytes(rows) as u64,
            );
            StoredLog { counters, rows: log.rows + rows, stored_head: counters.head }
        },
        LogStep::Prune { now_ms } => {
            let pruned = pruned_rows(
                log.rows,
                log.rows.len() as int,
                log.counters.retained_bytes as int,
                now_ms,
                log.counters.limits,
            ) as u64;
            StoredLog {
                counters: without_front(log.counters, log.rows, pruned),
                rows: log.rows.skip(pruned as int),
                stored_head: log.stored_head,
            }
        },
        LogStep::Reopen { limits } => StoredLog {
            counters: recovered(log.rows, log.stored_head, limits),
            ..log
        },
    }
}

/// A log after a run of steps.
pub open spec fn after_steps(log: StoredLog, steps: Seq<LogStep>) -> StoredLog
    decreases steps.len(),
{
    if steps.len() == 0 {
        log
    } else {
        stepped(after_steps(log, steps.drop_last()), steps.last())
    }
}

/// Whether each step of a run can be taken when its turn comes.
pub open spec fn all_possible(log: StoredLog, steps: Seq<LogStep>) -> bool
    decreases steps.len(),
{
    steps.len() > 0 ==> all_possible(log, steps.drop_last()) && possible(
        after_steps(log, steps.drop_last()),
        steps.last(),
    )
}

/// Whether a log is as its rows and its stored head say.
pub open spec fn sound(log: StoredLog) -> bool {
    agrees(log.counters, log.rows, log.stored_head)
}

/// How many events a run of steps stores.
pub open spec fn appended(steps: Seq<LogStep>) -> nat
    decreases steps.len(),
{
    if steps.len() == 0 {
        0
    } else {
        appended(steps.drop_last()) + match steps.last() {
            LogStep::Append { rows } => rows.len(),
            _ => 0,
        }
    }
}

/// The last sequence number never goes back, whatever is stored, pruned and opened
/// again: it grows by one for each event and by nothing else, so that no number is
/// given out twice and none is left out.
pub proof fn head_never_goes_back(log: StoredLog, steps: Seq<LogStep>)
    requires
        sound(log),
        all_possible(log, steps),
    ensures
        sound(after_steps(log, steps)),
        after_steps(log, steps).counters.head == log.counters.head + appended(steps),
        after_steps(log, steps).counters.head >= log.counters.head,
    decreases steps.len(),
{
    if steps.len() > 0 {
        head_never_goes_back(log, steps.drop_last());
        let before = after_steps(log, steps.drop_last());
        match steps.last() {
            LogStep::Append { rows } => {
                appending_leaves_no_gap(before.counters, before.rows, rows);
            },
            LogStep::Prune { now_ms } => {
                lemma_pruned_rows(before.rows, now_ms, before.counters.limits);
                let pruned = pruned_rows(
                    before.rows,
                    before.rows.len() as int,
                    before.counters.retained_bytes as int,
                    now_ms,
                    before.counters.limits,
                ) as u64;
                pruning_keeps_what_is_within_limits(before.counters, before.rows, now_ms, pruned);
            },
            LogStep::Reopen { limits } => {
                recovery_agrees(before.rows, before.stored_head, limits);
            },
        }
    }
}

/// An event is kept for the whole of its last second: it is too old only once more
/// whole seconds have passed than it is to be kept. One from the future is not.
pub proof fn age_counts_in_whole_seconds(now_ms: u64, ts_ms: u64, limits: Retention)
    ensures
        too_old(now_ms, ts_ms, limits) <==> now_ms - ts_ms >= 1000 * (limits.retention_secs + 1),
        now_ms <= ts_ms ==> !too_old(now_ms, ts_ms, limits),
{
    if now_ms >= ts_ms {
        let age: int = now_ms - ts_ms;
        let secs: int = limits.retention_secs as int;
        assert(age / 1000 > secs <==> age >= 1000 * (secs + 1)) by (nonlinear_arith)
            requires
                age >= 0,
        ;
    }
}

/// What pruning leaves is within all limits: not more events, not more bytes, and the
/// first of them not older than is to be kept. What it takes had to go: each row was
/// too old, or stood in a log with too many events or too many bytes, counted from that
/// row on.
pub proof fn pruning_takes_what_is_over_the_limits(
    log: DeliveryLog,
    rows: Seq<Row>,
    now_ms: u64,
    pruned: u64,
    j: int,
)
    requires
        agrees(log, rows, log.head),
        pruned == pruned_rows(
            rows,
            rows.len() as int,
            log.retained_bytes as int,
            now_ms,
            log.limits,
        ),
    ensures
        pruned <= rows.len(),
        pruned < rows.len() ==> {
            &&& rows.len() - pruned <= log.limits.max_events
            &&& total_bytes(rows.skip(pruned as int)) <= log.limits.max_bytes
            &&& now_ms - rows[pruned as int].ts_ms < 1000 * (log.limits.retention_secs + 1)
        },
        0 <= j < pruned ==> {
            ||| now_ms - rows[j].ts_ms >= 1000 * (log.limits.retention_secs + 1)
            ||| rows.len() - j > log.limits.max_events
            ||| total_bytes(rows.skip(j)) > log.limits.max_bytes
        },
        without_front(log, rows, pruned).head == log.head,
        without_front(log, rows, pruned).retained_count == rows.len() - pruned,
        without_front(log, rows, pruned).retained_bytes == total_bytes(rows.skip(pruned as int)),
        pruned < rows.len() ==> without_front(log, rows, pruned).floor == rows[pruned as int].seq,
        pruned == rows.len() ==> without_front(log, rows, pruned).floor == 0,
{
    pruning_keeps_what_is_within_limits(log, rows, now_ms, pruned);
    if pruned < rows.len() {
        age_counts_in_whole_seconds(now_ms, rows[pruned as int].ts_ms, log.limits);
    }
    if 0 <= j < pruned {
        age_counts_in_whole_seconds(now_ms, rows[j].ts_ms, log.limits);
        assert(must_prune(
            rows[j],
            rows.len() - j,
            total_bytes(rows.skip(j)) as int,
            now_ms,
            log.limits,
        ));
    }
}

/// Storing rows moves the head by as many, counts them and their bytes, and gives the
/// log its first row where it had none.
pub proof fn storing_is_counted(log: DeliveryLog, first: u64, n: u64, bytes: u64)
    requires
        log.head + n <= u64::MAX,
        log.retained_count + n <= u64::MAX,
        log.retained_bytes + bytes <= u64::MAX,
    ensures
        committed(log, first, n, bytes).head == log.head + n,
        committed(log, first, n, bytes).retained_count == log.retained_count + n,
        committed(log, first, n, bytes).retained_bytes == log.retained_bytes + bytes,
        log.floor > 0 ==> committed(log, first, n, bytes).floor == log.floor,
        log.floor == 0 ==> committed(log, first, n, bytes).floor == first,
        committed(log, first, n, bytes).limits == log.limits,
{
}

/// Stamped events keep their channels and payloads, come in the order in which they
/// were given, have the numbers that follow the head without a gap, and all have the
/// time.
pub proof fn stamps_follow_the_head(
    stamped: Seq<StampedEvent>,
    events: Seq<Event>,
    head: int,
    ts_ms: u64,
    i: int,
)
    requires
        stamps(stamped, events, head, ts_ms),
        0 <= i < events.len(),
    ensures
        stamped.len() == events.len(),
        stamped[i].seq == head + i + 1,
        i > 0 ==> stamped[i].seq == stamped[i - 1].seq + 1,
        stamped[i].ts_ms == ts_ms,
        stamped[i].channel@ == events[i].channel@,
        stamped[i].payload_b64@ == events[i].payload_b64@,
{
}

/// A reader gets the stored events with higher numbers than the one it names, all of
/// them where it names no patterns, and those that its patterns select otherwise.
pub proof fn readers_get_what_comes_after(
    before: Seq<StampedValue>,
    row: StampedValue,
    after_seq: u64,
    patterns: Seq<Seq<char>>,
)
    requires
        after_seq < u64::MAX,
    ensures
        events_after(before.push(row), after_seq, None) == (if row.seq > after_seq {
            events_after(before, after_seq, None).push(row)
        } else {
            events_after(before, after_seq, None)
        }),
        events_after(before.push(row), after_seq, Some(patterns)) == (if row.seq > after_seq
            && channel::selected_by_any(patterns, row.channel) {
            events_after(before, after_seq, Some(patterns)).push(row)
        } else {
            events_after(before, after_seq, Some(patterns))
        }),
        events_after(Seq::empty(), after_seq, None).len() == 0,
        events_after(Seq::empty(), after_seq, Some(patterns)).len() == 0,
{
    reveal(Seq::filter);
    assert(before.push(row).drop_last() =~= before);
}

/// A log that is opened counts its rows and their bytes, begins at its first row, and
/// goes on from its last number: the stored one or that of its last row.
pub proof fn opened_logs_are_counted(rows: Seq<Row>, last_head: u64, limits: Retention)
    requires
        gapless(rows),
        rows.len() <= u64::MAX,
        total_bytes(rows) <= u64::MAX,
    ensures
        ({
            let log = recovered(rows, last_head, limits);
            &&& log.head >= last_head
            &&& rows.len() > 0 ==> log.head >= rows.last().seq && log.floor == rows[0].seq
            &&& log.head == last_head || (rows.len() > 0 && log.head == rows.last().seq)
            &&& rows.len() == 0 ==> log.floor == 0
            &&& log.retained_count == rows.len()
            &&& log.retained_bytes == total_bytes(rows)
            &&& log.limits == limits
        }),
{
    lemma_first_nonzero(rows);
}

/// The bytes of rows add up.
pub proof fn bytes_add_up(rows: Seq<Row>, row: Row)
    ensures
        total_bytes(rows.push(row)) == total_bytes(rows) + row.bytes,
        total_bytes(Seq::empty()) == 0,
{
    assert(rows.push(row).drop_last() =~= rows);
}

} // verus!
