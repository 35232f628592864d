//! Starting, stopping and restarting extensions.

use vstd::prelude::*;
use vstd::string::*;

use crate::channel_claims;
use crate::config::{LimitsConfig, TimeoutsConfig};
use crate::daemon;
use crate::daemon::{Daemon, ExtHandle, SupervisorState};
use crate::string_map;
use crate::string_map::StringMap;
use crate::text;

verus! {

/// The delay before the first restart.
pub const INITIAL_RESPAWN_BACKOFF_MS: u64 = 500;

/// The longest delay before a restart.
pub const MAX_RESPAWN_BACKOFF_MS: u64 = 30_000;

/// The state once an extension has lost its routes and prefixes. What was said of
/// its routes is forgotten.
pub open spec fn unrouted(
    state: daemon::DaemonValue,
    handle: daemon::HandleValue,
) -> daemon::DaemonValue {
    daemon::DaemonValue {
        routes: string_map::without_value(state.routes, handle.id),
        prefixes: string_map::without_value(state.prefixes, handle.id),
        unavailable: daemon::without_keys(
            state.unavailable.remove(handle.candidate_id),
            handle.paths,
        ),
        ..state
    }
}

/// The state once some extensions have lost their routes, one after the other.
pub open spec fn unrouted_each(
    state: daemon::DaemonValue,
    ids: Seq<Seq<char>>,
) -> daemon::DaemonValue
    decreases ids.len(),
{
    if ids.len() == 0 {
        state
    } else {
        let before = unrouted_each(state, ids.drop_last());
        unrouted(before, state.extensions[ids.last()])
    }
}

fn unroute(
    routes: &mut StringMap<String>,
    prefixes: &mut StringMap<String>,
    unavailable: &mut StringMap<String>,
    handle: &ExtHandle,
)
    ensures
        string_map::text_map(final(routes)@) == string_map::without_value(
            string_map::text_map(old(routes)@),
            handle@.id,
        ),
        string_map::text_map(final(prefixes)@) == string_map::without_value(
            string_map::text_map(old(prefixes)@),
            handle@.id,
        ),
        string_map::text_map(final(unavailable)@) == daemon::without_keys(
            string_map::text_map(old(unavailable)@).remove(handle@.candidate_id),
            handle@.paths,
        ),
{
    string_map::drop_value(routes, handle.id.as_str());
    string_map::drop_value(prefixes, handle.id.as_str());
    string_map::drop_text(unavailable, handle.candidate_id.as_str());
    daemon::drop_texts(unavailable, &handle.paths);
}

/// An extension that has lost its routes owns no channel any more, and the state
/// stays consistent.
pub proof fn unrouting_keeps_consistency(
    state: daemon::DaemonValue,
    handle: daemon::HandleValue,
    channel: Seq<char>,
)
    requires
        daemon::consistent(state),
    ensures
        daemon::consistent(unrouted(state, handle)),
        !channel_claims::owned_by(
            channel,
            handle.id,
            unrouted(state, handle).routes,
            unrouted(state, handle).prefixes,
        ),
{
    let after = unrouted(state, handle);
    assert forall|p: Seq<char>, q: Seq<char>|
        #![trigger after.prefixes.contains_key(p), after.prefixes.contains_key(q)]
        after.prefixes.contains_key(p) && after.prefixes.contains_key(q) && after.prefixes[p]
            != after.prefixes[q] implies !channel_claims::prefixes_overlap(p, q) by {
        assert(state.prefixes.contains_key(p) && state.prefixes.contains_key(q));
    }
    assert forall|p: Seq<char>| #[trigger]
        after.prefixes.contains_key(p) && after.routes.contains_key(
            channel_claims::first_segment(p),
        ) implies after.routes[channel_claims::first_segment(p)] == after.prefixes[p] by {
        assert(state.prefixes.contains_key(p));
    }
    assert forall|path: Seq<char>| #[trigger]
        after.routes.contains_key(path) implies after.extensions.contains_key(
        after.routes[path],
    ) by {
        assert(state.routes.contains_key(path));
    }
    assert forall|prefix: Seq<char>| #[trigger]
        after.prefixes.contains_key(prefix) implies after.extensions.contains_key(
        after.prefixes[prefix],
    ) by {
        assert(state.prefixes.contains_key(prefix));
    }
}

proof fn lemma_unrouted_each_consistent(state: daemon::DaemonValue, ids: Seq<Seq<char>>)
    requires
        daemon::consistent(state),
    ensures
        daemon::consistent(unrouted_each(state, ids)),
        unrouted_each(state, ids).extensions == state.extensions,
    decreases ids.len(),
{
    if ids.len() > 0 {
        lemma_unrouted_each_consistent(state, ids.drop_last());
        unrouting_keeps_consistency(
            unrouted_each(state, ids.drop_last()),
            state.extensions[ids.last()],
            Seq::empty(),
        );
    }
}

/// The candidates that are to run: all that were found, or those that are
/// enabled.
pub open spec fn desired(
    found: Map<Seq<char>, Seq<char>>,
    enabled: Seq<Seq<char>>,
    autostart_all: bool,
) -> Map<Seq<char>, Seq<char>> {
    if autostart_all {
        found
    } else {
        Map::new(
            |k: Seq<char>| found.contains_key(k) && enabled.contains(k),
            |k: Seq<char>| found[k],
        )
    }
}

/// A candidate that is not enabled never starts, unless all are to start.
pub proof fn unlisted_candidates_stay_off(
    found: Map<Seq<char>, Seq<char>>,
    enabled: Seq<Seq<char>>,
    autostart_all: bool,
    candidate: Seq<char>,
)
    requires
        desired(found, enabled, autostart_all).contains_key(candidate),
    ensures
        autostart_all || enabled.contains(candidate),
        found.contains_key(candidate),
        desired(found, enabled, autostart_all)[candidate] == found[candidate],
{
}

/// What is said of an enabled extension that was not found.
pub open spec fn not_found_text() -> Seq<char> {
    "extension binary not found on PATH"@
}

/// The state once the enabled extensions that were not found are noted.
pub open spec fn missing_noted(
    state: daemon::DaemonValue,
    enabled: Seq<Seq<char>>,
    wanted: Map<Seq<char>, Seq<char>>,
) -> daemon::DaemonValue
    decreases enabled.len(),
{
    if enabled.len() == 0 {
        state
    } else {
        let before = missing_noted(state, enabled.drop_last(), wanted);
        let id = enabled.last();
        if daemon::runs(state.extensions, id) || wanted.contains_key(id) {
            before
        } else {
            daemon::DaemonValue {
                failed: before.failed.insert(id, not_found_text()),
                unavailable: before.unavailable.insert(id, not_found_text()),
                ..before
            }
        }
    }
}

/// A candidate for an extension: its identifier and its file.
#[derive(Debug, PartialEq, Eq)]
pub struct Candidate {
    pub id: String,
    pub path: String,
}

/// The identifiers of candidates.
pub open spec fn candidate_ids(candidates: Seq<Candidate>) -> Seq<Seq<char>> {
    Seq::new(candidates.len(), |i: int| candidates[i].id@)
}

/// The state once some candidates are being started: they have not failed any more.
pub open spec fn starting(state: daemon::DaemonValue, ids: Seq<Seq<char>>) -> daemon::DaemonValue {
    daemon::DaemonValue { failed: daemon::without_keys(state.failed, ids), ..state }
}

/// What is to be done after a scan: which extensions are to drain, and which
/// candidates are to start.
#[derive(Debug)]
pub struct StartPlan {
    pub drain: Vec<String>,
    pub start: Vec<Candidate>,
}

fn desired_candidates(
    found: &StringMap<String>,
    enabled: &[String],
    autostart_all: bool,
) -> (wanted: StringMap<String>)
    ensures
        string_map::text_map(wanted@) == desired(
            string_map::text_map(found@),
            text::texts(enabled@),
            autostart_all,
        ),
{
    if autostart_all {
        return string_map::clone_text_map(found);
    }
    let ghost all = text::texts(enabled@);
    let ghost files = string_map::text_map(found@);
    let mut wanted: StringMap<String> = StringMap::new();
    let mut i: usize = 0;
    proof {
        assert(string_map::text_map(wanted@) =~= desired(files, all.take(0), false));
    }
    while i < enabled.len()
        invariant
            i <= enabled@.len(),
            all == text::texts(enabled@),
            files == string_map::text_map(found@),
            string_map::text_map(wanted@) == desired(files, all.take(i as int), false),
        decreases enabled@.len() - i,
    {
        let id: &str = enabled[i].as_str();
        let ghost before = string_map::text_map(wanted@);
        proof {
            assert(all[i as int] == id@);
            text::lemma_take_one_more(all, i as int);
        }
        match found.get(id) {
            Some(path) => {
                string_map::put_text(&mut wanted, id, path.as_str());
                assert(files[id@] == path@);
            },
            None => {},
        }
        i += 1;
        assert(string_map::text_map(wanted@) =~= desired(files, all.take(i as int), false));
    }
    assert(all.take(i as int) =~= all);
    wanted
}

impl Daemon {
    /// Takes the routes from the extensions whose candidates are not wanted any
    /// more. They stay, to finish what they are at.
    fn stop_removed(&mut self, wanted: &StringMap<String>) -> (drain: Vec<String>)
        ensures
            final(self).config == old(self).config,
            final(self)@ == unrouted_each(old(self)@, text::texts(drain@)),
            string_map::ascending(text::texts(drain@)),
            forall|id: Seq<char>| #[trigger]
                text::texts(drain@).contains(id) <==> old(self)@.extensions.contains_key(id)
                    && !wanted@.contains_key(old(self)@.extensions[id].candidate_id),
    {
        let ghost before = self@;
        let n: usize = self.extensions.len();
        let ghost keys = self.extensions.key_seq();
        let mut drain: Vec<String> = Vec::new();
        let mut i: usize = 0;
        assert(text::texts(drain@) =~= Seq::<Seq<char>>::empty());
        while i < n
            invariant
                i <= n == keys.len(),
                keys == self.extensions.key_seq(),
                self.extensions.keys_agree(),
                self.config == old(self).config,
                before == old(self)@,
                self@.extensions == before.extensions,
                self@ == unrouted_each(before, text::texts(drain@)),
                string_map::ascending(text::texts(drain@)),
                forall|id: Seq<char>| #[trigger]
                    text::texts(drain@).contains(id) <==> keys.take(i as int).contains(id)
                        && !wanted@.contains_key(before.extensions[id].candidate_id),
            decreases n - i,
        {
            let ghost past = text::texts(drain@);
            let handle: &ExtHandle = self.extensions.value_at(i);
            let key: String = self.extensions.key_at(i).clone();
            let ghost id = key@;
            assert(before.extensions[id] == handle@);
            proof {
                text::lemma_take_one_more(keys, i as int);
            }
            if !wanted.contains_key(handle.candidate_id.as_str()) {
                unroute(
                    &mut self.routes,
                    &mut self.channel_prefixes,
                    &mut self.unavailable_routes,
                    handle,
                );
                drain.push(key);
                proof {
                    let now = text::texts(drain@);
                    assert(now =~= past.push(id));
                    assert(now.drop_last() =~= past);
                    assert forall|a: int, b: int| 0 <= a < b < now.len() implies text::lex_lt(
                        #[trigger] now[a],
                        #[trigger] now[b],
                    ) by {
                        assert(now[a] == past[a]);
                        if b < past.len() {
                            assert(now[b] == past[b]);
                        } else {
                            assert(past.contains(past[a]));
                            let j = keys.take(i as int).index_of(past[a]);
                            assert(keys[j] == past[a]);
                            assert(text::lex_lt(keys[j], keys[i as int]));
                        }
                    }
                    text::lemma_push_contains(past, id);
                }
            }
            i += 1;
        }
        assert(keys.take(n as int) =~= keys);
        assert forall|id: Seq<char>| #[trigger]
            text::texts(drain@).contains(id) <==> before.extensions.contains_key(id)
                && !wanted@.contains_key(before.extensions[id].candidate_id) by {
            assert(self.extensions@.contains_key(id) <==> keys.contains(id));
        }
        drain
    }

    /// Notes the enabled extensions that were not found.
    fn note_missing(&mut self, wanted: &StringMap<String>)
        ensures
            final(self).config == old(self).config,
            final(self)@ == missing_noted(
                old(self)@,
                text::texts(old(self).config.extensions.enabled@),
                string_map::text_map(wanted@),
            ),
    {
        let ghost before = self@;
        let ghost all = text::texts(self.config.extensions.enabled@);
        let ghost names = string_map::text_map(wanted@);
        let mut i: usize = 0;
        while i < self.config.extensions.enabled.len()
            invariant
                i <= self.config.extensions.enabled@.len(),
                self.config == old(self).config,
                all == text::texts(self.config.extensions.enabled@),
                names == string_map::text_map(wanted@),
                self@ == missing_noted(before, all.take(i as int), names),
                self@.extensions == before.extensions,
            decreases self.config.extensions.enabled@.len() - i,
        {
            assert(all.take(i as int + 1).drop_last() =~= all.take(i as int));
            let id: String = self.config.extensions.enabled[i].clone();
            assert(all[i as int] == id@);
            if !self.candidate_is_active(id.as_str()) && !wanted.contains_key(id.as_str()) {
                string_map::put_text(
                    &mut self.failed_extensions,
                    id.as_str(),
                    "extension binary not found on PATH",
                );
                string_map::put_text(
                    &mut self.unavailable_routes,
                    id.as_str(),
                    "extension binary not found on PATH",
                );
            }
            i += 1;
        }
        assert(all.take(i as int) =~= all);
    }

    /// Decides what is to be done after a scan that found these candidates: at
    /// the start, and whenever the configuration was read again. Extensions that
    /// are not wanted any more lose their routes at once and are to drain; wanted
    /// ones that do not run are to start, whether they had failed before or not;
    /// enabled ones that were not found are noted.
    pub fn plan_start(&mut self, found: &StringMap<String>) -> (plan: StartPlan)
        ensures
            final(self).config == old(self).config,
            ({
                let wanted = desired(
                    string_map::text_map(found@),
                    text::texts(old(self).config.extensions.enabled@),
                    old(self).config.extensions.autostart_all,
                );
                &&& string_map::ascending(text::texts(plan.drain@))
                &&& forall|id: Seq<char>| #[trigger]
                    text::texts(plan.drain@).contains(id) <==> old(self)@.extensions.contains_key(
                        id,
                    ) && !wanted.contains_key(old(self)@.extensions[id].candidate_id)
                &&& final(self)@ == starting(
                    missing_noted(
                        unrouted_each(old(self)@, text::texts(plan.drain@)),
                        text::texts(old(self).config.extensions.enabled@),
                        wanted,
                    ),
                    candidate_ids(plan.start@),
                )
                &&& string_map::ascending(candidate_ids(plan.start@))
                &&& forall|id: Seq<char>| #[trigger]
                    candidate_ids(plan.start@).contains(id) <==> wanted.contains_key(id)
                        && !daemon::runs(old(self)@.extensions, id)
                &&& forall|i: int|
                    0 <= i < plan.start@.len() ==> (#[trigger] plan.start@[i]).path@
                        == wanted[plan.start@[i].id@]
            }),
            daemon::consistent(old(self)@) ==> daemon::consistent(final(self)@),
    {
        let ghost before = self@;
        let wanted: StringMap<String> = desired_candidates(
            found,
            &self.config.extensions.enabled,
            self.config.extensions.autostart_all,
        );
        let ghost names = string_map::text_map(wanted@);
        let drain: Vec<String> = self.stop_removed(&wanted);
        let ghost stopped = self@;
        self.note_missing(&wanted);
        let ghost noted = self@;
        proof {
            lemma_unrouted_each_extensions(before, text::texts(drain@));
            lemma_missing_noted_keeps(
                stopped,
                text::texts(self.config.extensions.enabled@),
                names,
            );
            if daemon::consistent(before) {
                lemma_unrouted_each_consistent(before, text::texts(drain@));
            }
            assert forall|id: Seq<char>| #[trigger]
                text::texts(drain@).contains(id) <==> before.extensions.contains_key(id)
                    && !names.contains_key(before.extensions[id].candidate_id) by {
                assert(names.contains_key(before.extensions[id].candidate_id)
                    == wanted@.contains_key(before.extensions[id].candidate_id));
            }
        }
        let n: usize = wanted.len();
        let ghost keys = wanted.key_seq();
        let mut start: Vec<Candidate> = Vec::new();
        let mut i: usize = 0;
        assert(candidate_ids(start@) =~= Seq::<Seq<char>>::empty());
        while i < n
            invariant
                i <= n == keys.len(),
                self.config == old(self).config,
                self@ == starting(noted, candidate_ids(start@)),
                noted.extensions == before.extensions,
                keys == wanted.key_seq(),
                wanted.keys_agree(),
                names == string_map::text_map(wanted@),
                string_map::ascending(candidate_ids(start@)),
                forall|id: Seq<char>| #[trigger]
                    candidate_ids(start@).contains(id) <==> keys.take(i as int).contains(id)
                        && !daemon::runs(before.extensions, id),
                forall|j: int|
                    0 <= j < start@.len() ==> (#[trigger] start@[j]).path@ == names[start@[j].id@],
            decreases n - i,
        {
            let ghost past = candidate_ids(start@);
            let id: String = wanted.key_at(i).clone();
            let path: String = wanted.value_at(i).clone();
            let ghost key = id@;
            assert(names[key] == path@);
            proof {
                text::lemma_take_one_more(keys, i as int);
            }
            if !self.candidate_is_active(id.as_str()) {
                string_map::drop_text(&mut self.failed_extensions, id.as_str());
                start.push(Candidate { id, path });
                proof {
                    let now = candidate_ids(start@);
                    assert(now =~= past.push(key));
                    assert(now.drop_last() =~= past);
                    assert forall|a: int, b: int| 0 <= a < b < now.len() implies text::lex_lt(
                        #[trigger] now[a],
                        #[trigger] now[b],
                    ) by {
                        assert(now[a] == past[a]);
                        if b < past.len() {
                            assert(now[b] == past[b]);
                        } else {
                            assert(past.contains(past[a]));
                            let j = keys.take(i as int).index_of(past[a]);
                            assert(keys[j] == past[a]);
                            assert(text::lex_lt(keys[j], keys[i as int]));
                        }
                    }
                    text::lemma_push_contains(past, key);
                }
            }
            i += 1;
        }
        assert(keys.take(n as int) =~= keys);
        assert forall|id: Seq<char>| #[trigger]
            candidate_ids(start@).contains(id) <==> names.contains_key(id) && !daemon::runs(
                before.extensions,
                id,
            ) by {
            assert(wanted@.contains_key(id) <==> keys.contains(id));
        }
        StartPlan { drain, start }
    }

    /// Notes that a candidate could not be started.
    pub fn start_failed(&mut self, candidate_id: &str, why: &str)
        ensures
            final(self).config == old(self).config,
            daemon::consistent(old(self)@) ==> daemon::consistent(final(self)@),
            final(self)@ == (daemon::DaemonValue {
                failed: old(self)@.failed.insert(candidate_id@, why@),
                unavailable: old(self)@.unavailable.insert(candidate_id@, why@),
                ..old(self)@
            }),
    {
        string_map::put_text(&mut self.failed_extensions, candidate_id, why);
        string_map::put_text(&mut self.unavailable_routes, candidate_id, why);
    }

    /// Notes that a candidate was started.
    pub fn start_succeeded(&mut self, candidate_id: &str)
        ensures
            final(self).config == old(self).config,
            daemon::consistent(old(self)@) ==> daemon::consistent(final(self)@),
            final(self)@ == (daemon::DaemonValue {
                failed: old(self)@.failed.remove(candidate_id@),
                ..old(self)@
            }),
    {
        string_map::drop_text(&mut self.failed_extensions, candidate_id);
    }
}

proof fn lemma_unrouted_each_extensions(state: daemon::DaemonValue, ids: Seq<Seq<char>>)
    ensures
        unrouted_each(state, ids).extensions == state.extensions,
        unrouted_each(state, ids).failed == state.failed,
        unrouted_each(state, ids).supervisor == state.supervisor,
    decreases ids.len(),
{
    if ids.len() > 0 {
        lemma_unrouted_each_extensions(state, ids.drop_last());
    }
}

proof fn lemma_missing_noted_keeps(
    state: daemon::DaemonValue,
    enabled: Seq<Seq<char>>,
    wanted: Map<Seq<char>, Seq<char>>,
)
    ensures
        missing_noted(state, enabled, wanted).extensions == state.extensions,
        missing_noted(state, enabled, wanted).routes == state.routes,
        missing_noted(state, enabled, wanted).prefixes == state.prefixes,
    decreases enabled.len(),
{
    if enabled.len() > 0 {
        lemma_missing_noted_keeps(state, enabled.drop_last(), wanted);
    }
}

/// The state once a run of an extension has ended. Its routes are gone; where it
/// may come back they are noted as unavailable, else nothing is said of them.
pub open spec fn cleaned(
    state: daemon::DaemonValue,
    id: Seq<char>,
    reason: Seq<char>,
    mark_unavailable: bool,
) -> daemon::DaemonValue {
    let handle = state.extensions[id];
    let after = unrouted(state, handle);
    daemon::DaemonValue {
        extensions: state.extensions.remove(id),
        unavailable: if mark_unavailable {
            daemon::with_keys(
                after.unavailable.insert(handle.candidate_id, reason),
                handle.paths,
                reason,
            )
        } else {
            daemon::without_keys(after.unavailable.remove(handle.candidate_id), handle.paths)
        },
        ..after
    }
}

/// Whether this run of an extension is the current one.
pub open spec fn current(state: daemon::DaemonValue, id: Seq<char>, generation: u128) -> bool {
    state.extensions.contains_key(id) && state.extensions[id].generation == generation
}

/// Whether a candidate that has exited is to be started again.
pub open spec fn wants_respawn(
    state: daemon::DaemonValue,
    enabled: Seq<Seq<char>>,
    autostart_all: bool,
    candidate: Seq<char>,
) -> bool {
    !state.shutting_down && !state.failed.contains_key(candidate) && (autostart_all
        || enabled.contains(candidate))
}

/// The exits that still count at `now_ms`: from the first one on that lies within
/// the window.
pub open spec fn still_counting(exits: Seq<u64>, now_ms: u64, window_ms: u64) -> Seq<u64>
    decreases exits.len(),
{
    if exits.len() > 0 && now_ms - exits[0] > window_ms {
        still_counting(exits.drop_first(), now_ms, window_ms)
    } else {
        exits
    }
}

/// At least one.
pub open spec fn at_least_one(n: int) -> int {
    if n < 1 {
        1
    } else {
        n
    }
}

/// Two to the power of `n`.
pub open spec fn doubled(n: nat) -> nat
    decreases n,
{
    if n == 0 {
        1
    } else {
        2 * doubled((n - 1) as nat)
    }
}

/// The delay before a restart: it doubles with every restart up to a limit.
pub open spec fn respawn_delay(restarts: nat) -> nat {
    let delay = INITIAL_RESPAWN_BACKOFF_MS as nat * doubled(restarts);
    if delay > MAX_RESPAWN_BACKOFF_MS {
        MAX_RESPAWN_BACKOFF_MS as nat
    } else {
        delay
    }
}

/// What is said of an extension that has exited too often.
pub open spec fn crashloop_text(threshold: nat, window_ms: nat) -> Seq<char> {
    "extension entered crashloop: "@ + text::decimal(threshold) + " exits within "@
        + text::decimal(window_ms) + "ms"@
}

/// The supervisor's record of a candidate, which at first says nothing.
pub open spec fn record_of(
    state: daemon::DaemonValue,
    candidate: Seq<char>,
) -> daemon::SupervisorValue {
    if state.supervisor.contains_key(candidate) {
        state.supervisor[candidate]
    } else {
        daemon::SupervisorValue {
            restarts: 0,
            recent_exits: Seq::empty(),
            claims: Seq::empty(),
        }
    }
}

/// The exits that count once another came at `now_ms`.
pub open spec fn exits_with(
    state: daemon::DaemonValue,
    candidate: Seq<char>,
    now_ms: u64,
    limits: LimitsConfig,
) -> Seq<u64> {
    still_counting(
        record_of(state, candidate).recent_exits,
        now_ms,
        at_least_one(limits.crashloop_window_ms as int) as u64,
    ).push(now_ms)
}

/// Whether another exit at `now_ms` is one too many.
pub open spec fn crashloops(
    state: daemon::DaemonValue,
    candidate: Seq<char>,
    now_ms: u64,
    limits: LimitsConfig,
) -> bool {
    exits_with(state, candidate, now_ms, limits).len() >= at_least_one(
        limits.crashloop_threshold as int,
    )
}

/// One more restart, as far as the counter goes.
pub open spec fn one_more(restarts: usize) -> usize {
    if restarts < usize::MAX {
        (restarts + 1) as usize
    } else {
        restarts
    }
}

/// The state once an exit of a candidate at `now_ms` is recorded.
pub open spec fn exit_recorded(
    state: daemon::DaemonValue,
    candidate: Seq<char>,
    now_ms: u64,
    limits: LimitsConfig,
) -> daemon::DaemonValue {
    let record = record_of(state, candidate);
    let exits = exits_with(state, candidate, now_ms, limits);
    if crashloops(state, candidate, now_ms, limits) {
        let why = crashloop_text(
            at_least_one(limits.crashloop_threshold as int) as nat,
            at_least_one(limits.crashloop_window_ms as int) as nat,
        );
        daemon::DaemonValue {
            supervisor: state.supervisor.insert(
                candidate,
                daemon::SupervisorValue { recent_exits: exits, ..record },
            ),
            failed: state.failed.insert(candidate, why),
            unavailable: if state.unavailable.contains_key(candidate) {
                state.unavailable
            } else {
                state.unavailable.insert(candidate, why)
            },
            ..state
        }
    } else {
        daemon::DaemonValue {
            supervisor: state.supervisor.insert(
                candidate,
                daemon::SupervisorValue {
                    restarts: one_more(record.restarts),
                    recent_exits: exits,
                    ..record
                },
            ),
            ..state
        }
    }
}

/// The state once the path ids are noted that a candidate had claimed whose exits
/// became too many.
pub open spec fn claims_noted(
    state: daemon::DaemonValue,
    candidate: Seq<char>,
    claims: Seq<Seq<char>>,
) -> daemon::DaemonValue {
    daemon::DaemonValue {
        supervisor: state.supervisor.insert(
            candidate,
            daemon::SupervisorValue { claims, ..record_of(state, candidate) },
        ),
        ..state
    }
}

/// Whether a path id belongs to a candidate that has failed: by the name of the
/// candidate, or because the candidate had claimed it.
pub open spec fn has_failed(state: daemon::DaemonValue, key: Seq<char>) -> bool {
    state.failed.contains_key(key) || exists|candidate: Seq<char>| #[trigger]
        state.failed.contains_key(candidate) && record_of(state, candidate).claims.contains(key)
}

/// The exits that still count.
fn drop_old_exits(exits: Vec<u64>, now_ms: u64, window_ms: u64) -> (left: Vec<u64>)
    ensures
        left@ == still_counting(exits@, now_ms, window_ms),
{
    let mut left: Vec<u64> = exits;
    let ghost all = exits@;
    while left.len() > 0 && now_ms >= left[0] && now_ms - left[0] > window_ms
        invariant
            still_counting(left@, now_ms, window_ms) == still_counting(all, now_ms, window_ms),
        decreases left@.len(),
    {
        let ghost before = left@;
        let _ = left.remove(0);
        assert(left@ =~= before.drop_first());
    }
    left
}

fn backoff_ms(restarts: usize) -> (delay: u64)
    ensures
        delay == respawn_delay(restarts as nat),
{
    let steps: usize = if restarts < 7 {
        restarts
    } else {
        7
    };
    let mut factor: u64 = 1;
    let mut i: usize = 0;
    while i < steps
        invariant
            i <= steps <= 7,
            factor == doubled(i as nat),
            factor <= doubled(i as nat) <= 128,
        decreases steps - i,
    {
        proof {
            reveal_with_fuel(doubled, 9);
            assert(doubled(i as nat + 1) <= 128) by {
                reveal_with_fuel(doubled, 9);
            }
        }
        factor = factor * 2;
        i += 1;
    }
    let delay: u64 = INITIAL_RESPAWN_BACKOFF_MS * factor;
    proof {
        lemma_doubled(restarts as nat);
        assert(doubled(7) == 128) by {
            reveal_with_fuel(doubled, 9);
        }
    }
    if delay > MAX_RESPAWN_BACKOFF_MS {
        MAX_RESPAWN_BACKOFF_MS
    } else {
        delay
    }
}

/// Why a run of an extension ended.
#[derive(Debug, PartialEq, Eq)]
pub enum ExitCause {
    /// The process exited; `status` shows how.
    Exited { status: String },
    /// Waiting for the process failed.
    WaitFailed { why: String },
    /// It was drained and stopped.
    Drained { reason: String },
    /// It was killed because it misbehaved.
    Killed { reason: String },
    /// Nobody is left to give it orders.
    Abandoned,
}

/// What is said of the end of a run.
pub open spec fn exit_text(cause: ExitCause) -> Seq<char> {
    match cause {
        ExitCause::Exited { status } => "extension exited with "@ + status@,
        ExitCause::WaitFailed { why } => "extension wait failed: "@ + why@,
        ExitCause::Drained { reason } => reason@,
        ExitCause::Killed { reason } => reason@,
        ExitCause::Abandoned => "extension supervisor command channel closed"@,
    }
}

/// Whether an extension may come back after such an end.
pub open spec fn may_return(cause: ExitCause) -> bool {
    match cause {
        ExitCause::Exited { .. } => true,
        ExitCause::WaitFailed { .. } => true,
        ExitCause::Drained { .. } => false,
        ExitCause::Killed { .. } => true,
        ExitCause::Abandoned => false,
    }
}

/// What is said of the end of a run, and whether the extension may come back.
pub fn exit_reason(cause: ExitCause) -> (r: (String, bool))
    ensures
        r.0@ == exit_text(cause),
        r.1 == may_return(cause),
{
    match cause {
        ExitCause::Exited { status } => (
            "extension exited with ".to_owned().concat(status.as_str()),
            true,
        ),
        ExitCause::WaitFailed { why } => (
            "extension wait failed: ".to_owned().concat(why.as_str()),
            true,
        ),
        ExitCause::Drained { reason } => (reason, false),
        ExitCause::Killed { reason } => (reason, true),
        ExitCause::Abandoned => (
            "extension supervisor command channel closed".to_owned(),
            false,
        ),
    }
}

/// What follows the end of a run.
#[derive(Clone, Copy, Debug, PartialEq, Eq, Structural)]
pub enum AfterExit {
    /// The extension stays away.
    Stop,
    /// It has exited too often and stays away until the next scan.
    CrashLoop,
    /// It is started again after a delay, if it is still wanted by then.
    Respawn { delay_ms: u64 },
}

impl Daemon {
    /// Ends a run of an extension, unless another run has taken its place.
    /// Returns what was known of it.
    pub fn cleanup(
        &mut self,
        id: &str,
        generation: u128,
        reason: &str,
        mark_unavailable: bool,
    ) -> (ended: Option<ExtHandle>)
        ensures
            final(self).config == old(self).config,
            match ended {
                Some(handle) => {
                    &&& current(old(self)@, id@, generation)
                    &&& final(self)@ == cleaned(old(self)@, id@, reason@, mark_unavailable)
                    &&& handle@ == (daemon::HandleValue {
                        waiting: Set::empty(),
                        in_flight: 0,
                        ..old(self)@.extensions[id@]
                    })
                },
                None => !current(old(self)@, id@, generation) && final(self)@ == old(self)@,
            },
            daemon::consistent(old(self)@) ==> daemon::consistent(final(self)@),
    {
        let ghost before = self@;
        if !self.is_active(id, generation) {
            return None;
        }
        match self.extensions.remove(id) {
            Some(handle) => {
                let mut handle: ExtHandle = handle;
                assert(before.extensions[id@] == handle@);
                unroute(
                    &mut self.routes,
                    &mut self.channel_prefixes,
                    &mut self.unavailable_routes,
                    &handle,
                );
                handle.dispatches.clear();
                if mark_unavailable {
                    string_map::put_text(
                        &mut self.unavailable_routes,
                        handle.candidate_id.as_str(),
                        reason,
                    );
                    daemon::put_texts(&mut self.unavailable_routes, &handle.paths, reason);
                } else {
                    string_map::drop_text(
                        &mut self.unavailable_routes,
                        handle.candidate_id.as_str(),
                    );
                    daemon::drop_texts(&mut self.unavailable_routes, &handle.paths);
                }
                proof {
                    assert(self@.extensions =~= before.extensions.remove(id@));
                    if daemon::consistent(before) {
                        ending_keeps_consistency(before, id@, reason@, mark_unavailable);
                    }
                }
                Some(handle)
            },
            None => None,
        }
    }

    /// Whether a candidate that has exited is to be started again.
    pub fn should_respawn(&self, candidate_id: &str) -> (yes: bool)
        ensures
            yes == wants_respawn(
                self@,
                text::texts(self.config.extensions.enabled@),
                self.config.extensions.autostart_all,
                candidate_id@,
            ),
    {
        if self.shutting_down {
            return false;
        }
        if self.failed_extensions.contains_key(candidate_id) {
            return false;
        }
        self.config.extensions.autostart_all || text::contains_text(
            &self.config.extensions.enabled,
            candidate_id,
        )
    }

    /// Whether a candidate whose delay has passed is still to be started.
    pub fn may_start_again(&self, candidate_id: &str) -> (yes: bool)
        ensures
            yes == (wants_respawn(
                self@,
                text::texts(self.config.extensions.enabled@),
                self.config.extensions.autostart_all,
                candidate_id@,
            ) && !daemon::runs(self@.extensions, candidate_id@)),
    {
        self.should_respawn(candidate_id) && !self.candidate_is_active(candidate_id)
    }

    /// Records an exit at `now_ms` and returns the delay before the restart;
    /// nothing where the exits have become too many.
    pub fn next_respawn_delay(&mut self, candidate_id: &str, now_ms: u64) -> (delay: Option<u64>)
        ensures
            final(self).config == old(self).config,
            daemon::consistent(old(self)@) ==> daemon::consistent(final(self)@),
            final(self)@ == exit_recorded(
                old(self)@,
                candidate_id@,
                now_ms,
                old(self).config.limits,
            ),
            match delay {
                Some(ms) => !crashloops(old(self)@, candidate_id@, now_ms, old(self).config.limits)
                    && ms == respawn_delay(
                    record_of(old(self)@, candidate_id@).restarts as nat,
                ),
                None => crashloops(old(self)@, candidate_id@, now_ms, old(self).config.limits),
            },
    {
        let ghost before = self@;
        let limits: LimitsConfig = self.config.limits;
        let threshold: usize = if limits.crashloop_threshold < 1 {
            1
        } else {
            limits.crashloop_threshold
        };
        let window_ms: u64 = if limits.crashloop_window_ms < 1 {
            1
        } else {
            limits.crashloop_window_ms
        };
        let record: SupervisorState = match self.supervisor.remove(candidate_id) {
            Some(record) => record,
            None => SupervisorState {
                restarts: 0,
                recent_exits: Vec::new(),
                claims: Vec::new(),
            },
        };
        proof {
            if !before.supervisor.contains_key(candidate_id@) {
                assert(record.recent_exits@ =~= Seq::<u64>::empty());
                assert(text::texts(record.claims@) =~= Seq::<Seq<char>>::empty());
            }
            assert(record@ == record_of(before, candidate_id@));
        }
        let restarts: usize = record.restarts;
        let claims: Vec<String> = record.claims;
        let mut exits: Vec<u64> = drop_old_exits(record.recent_exits, now_ms, window_ms);
        exits.push(now_ms);
        assert(exits@ == exits_with(before, candidate_id@, now_ms, limits));
        if exits.len() >= threshold {
            let updated: SupervisorState = SupervisorState { restarts, recent_exits: exits, claims };
            let ghost value = updated@;
            let _ = self.supervisor.insert(candidate_id.to_owned(), updated);
            assert(self@.supervisor =~= before.supervisor.insert(candidate_id@, value));
            let mut why: String = "extension entered crashloop: ".to_owned();
            text::push_decimal(&mut why, threshold as u64);
            why.append(" exits within ");
            text::push_decimal(&mut why, window_ms);
            why.append("ms");
            string_map::put_text(&mut self.failed_extensions, candidate_id, why.as_str());
            if !self.unavailable_routes.contains_key(candidate_id) {
                string_map::put_text(&mut self.unavailable_routes, candidate_id, why.as_str());
            }
            return None;
        }
        let delay: u64 = backoff_ms(restarts);
        let restarts_now: usize = if restarts < usize::MAX {
            restarts + 1
        } else {
            restarts
        };
        let updated: SupervisorState = SupervisorState {
            restarts: restarts_now,
            recent_exits: exits,
            claims,
        };
        let ghost value = updated@;
        let _ = self.supervisor.insert(candidate_id.to_owned(), updated);
        assert(self@.supervisor =~= before.supervisor.insert(candidate_id@, value));
        Some(delay)
    }

    /// Ends a run of an extension and decides whether it comes back. An end that
    /// no longer concerns the current run changes nothing.
    pub fn on_exit(
        &mut self,
        candidate_id: &str,
        id: &str,
        generation: u128,
        cause: ExitCause,
        now_ms: u64,
    ) -> (after: AfterExit)
        ensures
            final(self).config == old(self).config,
            daemon::consistent(old(self)@) ==> daemon::consistent(final(self)@),
            cause is Drained ==> after == AfterExit::Stop,
            ({
                let state = old(self)@;
                let limits = old(self).config.limits;
                let ended = cleaned(state, id@, exit_text(cause), may_return(cause));
                if !current(state, id@, generation) {
                    &&& after == AfterExit::Stop
                    &&& final(self)@ == state
                } else if !may_return(cause) || !wants_respawn(
                    ended,
                    text::texts(old(self).config.extensions.enabled@),
                    old(self).config.extensions.autostart_all,
                    candidate_id@,
                ) {
                    &&& after == AfterExit::Stop
                    &&& final(self)@ == ended
                } else {
                    if crashloops(ended, candidate_id@, now_ms, limits) {
                        &&& after == AfterExit::CrashLoop
                        &&& final(self)@ == claims_noted(
                            exit_recorded(ended, candidate_id@, now_ms, limits),
                            candidate_id@,
                            state.extensions[id@].paths,
                        )
                    } else {
                        &&& final(self)@ == exit_recorded(ended, candidate_id@, now_ms, limits)
                        &&& after == AfterExit::Respawn {
                            delay_ms: respawn_delay(
                                record_of(ended, candidate_id@).restarts as nat,
                            ) as u64,
                        }
                    }
                }
            }),
    {
        let (reason, comes_back) = exit_reason(cause);
        let ended: Option<ExtHandle> = self.cleanup(id, generation, reason.as_str(), comes_back);
        match ended {
            Some(handle) => {
                if !comes_back || !self.should_respawn(candidate_id) {
                    return AfterExit::Stop;
                }
                match self.next_respawn_delay(candidate_id, now_ms) {
                    Some(delay_ms) => AfterExit::Respawn { delay_ms },
                    None => {
                        self.note_claims(candidate_id, handle.paths);
                        AfterExit::CrashLoop
                    },
                }
            },
            None => AfterExit::Stop,
        }
    }

    /// Notes the path ids that a candidate had claimed whose exits became too many.
    fn note_claims(&mut self, candidate_id: &str, claims: Vec<String>)
        ensures
            final(self).config == old(self).config,
            final(self)@ == claims_noted(old(self)@, candidate_id@, text::texts(claims@)),
            daemon::consistent(old(self)@) ==> daemon::consistent(final(self)@),
    {
        let ghost before = self@;
        let updated: SupervisorState = match self.supervisor.remove(candidate_id) {
            Some(record) => SupervisorState {
                restarts: record.restarts,
                recent_exits: record.recent_exits,
                claims,
            },
            None => SupervisorState { restarts: 0, recent_exits: Vec::new(), claims },
        };
        let ghost value = updated@;
        proof {
            let record = record_of(before, candidate_id@);
            assert(value.recent_exits =~= record.recent_exits);
            assert(value == (daemon::SupervisorValue { claims: text::texts(claims@), ..record }));
        }
        let _ = self.supervisor.insert(candidate_id.to_owned(), updated);
        assert(self@.supervisor =~= before.supervisor.insert(candidate_id@, value));
    }

    /// Whether a path id belongs to a candidate that has failed.
    pub fn route_has_failed(&self, route_key: &str) -> (failed: bool)
        ensures
            failed == has_failed(self@, route_key@),
    {
        if self.failed_extensions.contains_key(route_key) {
            return true;
        }
        let n: usize = self.failed_extensions.len();
        let ghost keys = self.failed_extensions.key_seq();
        let mut i: usize = 0;
        while i < n
            invariant
                i <= n == keys.len(),
                keys == self.failed_extensions.key_seq(),
                self.failed_extensions.keys_agree(),
                !self@.failed.contains_key(route_key@),
                forall|j: int|
                    0 <= j < i ==> !record_of(self@, #[trigger] keys[j]).claims.contains(
                        route_key@,
                    ),
            decreases n - i,
        {
            let candidate: &String = self.failed_extensions.key_at(i);
            match self.supervisor.get(candidate.as_str()) {
                Some(record) => {
                    assert(record@ == record_of(self@, candidate@));
                    if text::contains_text(&record.claims, route_key) {
                        assert(self@.failed.contains_key(candidate@));
                        return true;
                    }
                },
                None => {},
            }
            i += 1;
        }
        assert forall|candidate: Seq<char>| #[trigger]
            self@.failed.contains_key(candidate) implies !record_of(
            self@,
            candidate,
        ).claims.contains(route_key@) by {
            assert(self.failed_extensions@.contains_key(candidate));
            assert(keys[keys.index_of(candidate)] == candidate);
        }
        false
    }
}

/// Ending a run keeps the state consistent, and leaves the extension without any
/// route or prefix.
pub proof fn ending_keeps_consistency(
    state: daemon::DaemonValue,
    id: Seq<char>,
    reason: Seq<char>,
    mark_unavailable: bool,
)
    requires
        daemon::consistent(state),
        state.extensions.contains_key(id),
    ensures
        daemon::consistent(cleaned(state, id, reason, mark_unavailable)),
        !cleaned(state, id, reason, mark_unavailable).extensions.contains_key(id),
        forall|path: Seq<char>| #[trigger]
            cleaned(state, id, reason, mark_unavailable).routes.contains_key(path) ==> cleaned(
                state,
                id,
                reason,
                mark_unavailable,
            ).routes[path] != id,
        forall|prefix: Seq<char>| #[trigger]
            cleaned(state, id, reason, mark_unavailable).prefixes.contains_key(prefix) ==> cleaned(
                state,
                id,
                reason,
                mark_unavailable,
            ).prefixes[prefix] != id,
{
    let handle = state.extensions[id];
    let after = cleaned(state, id, reason, mark_unavailable);
    unrouting_keeps_consistency(state, handle, Seq::empty());
    let middle = unrouted(state, handle);
    assert forall|path: Seq<char>| #[trigger]
        after.routes.contains_key(path) implies after.extensions.contains_key(
        after.routes[path],
    ) by {
        assert(middle.routes.contains_key(path));
    }
    assert forall|prefix: Seq<char>| #[trigger]
        after.prefixes.contains_key(prefix) implies after.extensions.contains_key(
        after.prefixes[prefix],
    ) by {
        assert(middle.prefixes.contains_key(prefix));
    }
    assert forall|a: Seq<char>| #[trigger] after.extensions.contains_key(a) implies after.extensions[a].id
        == a by {
        assert(state.extensions.contains_key(a));
    }
    assert forall|a: Seq<char>, b: Seq<char>|
        #![trigger after.extensions.contains_key(a), after.extensions.contains_key(b)]
        after.extensions.contains_key(a) && after.extensions.contains_key(b)
            && after.extensions[a].candidate_id == after.extensions[b].candidate_id implies a
        == b by {
        assert(state.extensions.contains_key(a) && state.extensions.contains_key(b));
    }
}

proof fn lemma_doubled(n: nat)
    ensures
        n <= 7 ==> doubled(n) <= 128,
        n >= 7 ==> doubled(n) >= 128,
        doubled(n) >= 1,
    decreases n,
{
    reveal_with_fuel(doubled, 9);
    if n > 0 {
        lemma_doubled((n - 1) as nat);
    }
}

/// The delays before restarts begin at the first delay, never shrink, double from
/// one restart to the next until they reach their limit, and never exceed it.
pub proof fn delays_double_up_to_the_limit(restarts: nat)
    ensures
        respawn_delay(0) == INITIAL_RESPAWN_BACKOFF_MS,
        respawn_delay(restarts) <= MAX_RESPAWN_BACKOFF_MS,
        respawn_delay(restarts) <= respawn_delay(restarts + 1),
        respawn_delay(restarts + 1) == (if 2 * respawn_delay(restarts) > MAX_RESPAWN_BACKOFF_MS {
            MAX_RESPAWN_BACKOFF_MS as nat
        } else {
            2 * respawn_delay(restarts)
        }),
{
    reveal_with_fuel(doubled, 2);
    lemma_doubled(restarts);
}

/// An extension that is in a crash loop is not started again until the record of
/// its failure is gone.
pub proof fn crashloop_stops_restarts(
    state: daemon::DaemonValue,
    candidate: Seq<char>,
    now_ms: u64,
    limits: LimitsConfig,
    enabled: Seq<Seq<char>>,
    autostart_all: bool,
)
    requires
        crashloops(state, candidate, now_ms, limits),
    ensures
        !wants_respawn(
            exit_recorded(state, candidate, now_ms, limits),
            enabled,
            autostart_all,
            candidate,
        ),
{
}

/// How long the shutdown of all extensions is waited for: the time to drain, and
/// twice the grace, and a little more.
pub fn shutdown_wait_ms(timeouts: &TimeoutsConfig) -> (ms: u64)
    ensures
        ms == ({
            let sum = timeouts.drain_ms + 2 * timeouts.term_grace_ms + 100;
            if sum > u64::MAX {
                u64::MAX as int
            } else {
                sum
            }
        }),
        ms >= 1,
{
    let graces: u64 = timeouts.term_grace_ms.saturating_add(timeouts.term_grace_ms);
    let wait: u64 = timeouts.drain_ms.saturating_add(graces).saturating_add(100);
    if wait < 1 {
        1
    } else {
        wait
    }
}

/// How far the stop of an extension has gone.
#[derive(Clone, Copy, Debug, PartialEq, Eq, Structural)]
pub enum StopStage {
    /// It finishes the requests that it is at.
    Draining,
    /// It was asked to shut down.
    Asked,
    /// It was told to terminate.
    Terminated,
    /// It was killed.
    Killed,
    /// It is gone.
    Gone,
}

/// What is seen of an extension that is to stop.
#[derive(Clone, Copy, Debug, PartialEq, Eq, Structural)]
pub struct StopLook {
    /// No request waits for its answer.
    pub drained: bool,
    /// The time to drain has passed.
    pub drain_over: bool,
    /// Its process has exited. Once it was asked to shut down, a look is taken when
    /// the process exits or the grace has passed.
    pub exited: bool,
}

/// What is to be done with an extension that is to stop.
#[derive(Clone, Copy, Debug, PartialEq, Eq, Structural)]
pub enum StopAction {
    /// Wait, and look again.
    Wait,
    /// Send it the message that it is to shut down.
    SendShutdown,
    /// Tell its process to terminate.
    Terminate,
    /// Kill its process.
    Kill,
    /// Nothing more: it is gone.
    Finish,
}

/// The next stage of a stop, and what it asks for.
#[derive(Clone, Copy, Debug, PartialEq, Eq, Structural)]
pub struct StopStep {
    pub stage: StopStage,
    pub action: StopAction,
}

/// A step of a stop. An extension finishes its requests, as long as there is time for
/// them, before it is asked to shut down; one that does not go is told more firmly.
pub open spec fn stop_step(stage: StopStage, look: StopLook) -> StopStep {
    match stage {
        StopStage::Draining => if look.drained || look.drain_over {
            StopStep { stage: StopStage::Asked, action: StopAction::SendShutdown }
        } else {
            StopStep { stage, action: StopAction::Wait }
        },
        StopStage::Gone => StopStep { stage, action: StopAction::Finish },
        _ => if look.exited {
            StopStep { stage: StopStage::Gone, action: StopAction::Finish }
        } else {
            match stage {
                StopStage::Asked => StopStep {
                    stage: StopStage::Terminated,
                    action: StopAction::Terminate,
                },
                StopStage::Terminated => StopStep {
                    stage: StopStage::Killed,
                    action: StopAction::Kill,
                },
                _ => StopStep { stage, action: StopAction::Wait },
            }
        },
    }
}

/// Takes a step of a stop.
pub fn next_stop(stage: StopStage, look: StopLook) -> (step: StopStep)
    ensures
        step == stop_step(stage, look),
{
    match stage {
        StopStage::Draining => {
            if look.drained || look.drain_over {
                StopStep { stage: StopStage::Asked, action: StopAction::SendShutdown }
            } else {
                StopStep { stage, action: StopAction::Wait }
            }
        },
        StopStage::Gone => StopStep { stage, action: StopAction::Finish },
        _ => {
            if look.exited {
                return StopStep { stage: StopStage::Gone, action: StopAction::Finish };
            }
            match stage {
                StopStage::Asked => StopStep {
                    stage: StopStage::Terminated,
                    action: StopAction::Terminate,
                },
                StopStage::Terminated => StopStep {
                    stage: StopStage::Killed,
                    action: StopAction::Kill,
                },
                _ => StopStep { stage, action: StopAction::Wait },
            }
        },
    }
}

impl Daemon {
    /// Takes a step of the stop of a run of an extension. The run has drained when no
    /// request waits for its answer, or when it is not the current run any more.
    pub fn next_stop_of(
        &self,
        id: &str,
        generation: u128,
        stage: StopStage,
        drain_over: bool,
        exited: bool,
    ) -> (step: StopStep)
        ensures
            step == stop_step(
                stage,
                (StopLook {
                    drained: !current(self@, id@, generation) || self@.extensions[id@].waiting
                        == Set::<u128>::empty(),
                    drain_over,
                    exited,
                }),
            ),
    {
        let drained: bool = self.is_drained(id, generation);
        next_stop(stage, StopLook { drained, drain_over, exited })
    }
}

/// The stage of a stop after some looks.
pub open spec fn stop_stage_after(stage: StopStage, looks: Seq<StopLook>) -> StopStage
    decreases looks.len(),
{
    if looks.len() == 0 {
        stage
    } else {
        stop_step(stop_stage_after(stage, looks.drop_last()), looks.last()).stage
    }
}

/// What a stop that begins with the draining asks for at its look number `i`.
pub open spec fn stop_action_at(looks: Seq<StopLook>, i: int) -> StopAction {
    stop_step(stop_stage_after(StopStage::Draining, looks.take(i)), looks[i]).action
}

proof fn lemma_draining_until(looks: Seq<StopLook>, i: int)
    requires
        0 <= i <= looks.len(),
    ensures
        stop_stage_after(StopStage::Draining, looks.take(i)) == StopStage::Draining <==> forall|j: int|
            0 <= j < i ==> !(#[trigger] looks[j]).drained && !looks[j].drain_over,
    decreases i,
{
    if i > 0 {
        lemma_draining_until(looks, i - 1);
        assert(looks.take(i).drop_last() =~= looks.take(i - 1));
        assert(looks.take(i).last() == looks[i - 1]);
    }
}

/// An extension is asked to shut down when it has drained or the time to drain has
/// passed, and at no other time: at the first such look, and never again. Until that
/// look nothing is done to it.
pub proof fn shutdown_waits_for_the_drain(looks: Seq<StopLook>, i: int)
    requires
        0 <= i < looks.len(),
    ensures
        stop_action_at(looks, i) == StopAction::SendShutdown <==> {
            &&& looks[i].drained || looks[i].drain_over
            &&& forall|j: int|
                0 <= j < i ==> !(#[trigger] looks[j]).drained && !looks[j].drain_over
        },
        (forall|j: int| 0 <= j <= i ==> !(#[trigger] looks[j]).drained && !looks[j].drain_over)
            ==> stop_action_at(looks, i) == StopAction::Wait,
{
    lemma_draining_until(looks, i);
}

/// An extension is told to terminate only when it was asked to shut down by the look
/// before and has not exited since, and is killed only when it was told to terminate
/// by the look before and has not exited since.
pub proof fn force_comes_last(looks: Seq<StopLook>, i: int)
    requires
        0 <= i < looks.len(),
    ensures
        stop_action_at(looks, i) == StopAction::Terminate <==> i > 0 && !looks[i].exited
            && stop_action_at(looks, i - 1) == StopAction::SendShutdown,
        stop_action_at(looks, i) == StopAction::Kill <==> i > 0 && !looks[i].exited
            && stop_action_at(looks, i - 1) == StopAction::Terminate,
{
    if i > 0 {
        assert(looks.take(i).drop_last() =~= looks.take(i - 1));
        assert(looks.take(i).last() == looks[i - 1]);
    } else {
        assert(looks.take(0).len() == 0);
    }
}

/// Once an extension was asked to shut down, the stop ends as soon as its process is
/// seen to have exited, and it stays ended.
pub proof fn a_stop_ends(looks: Seq<StopLook>, i: int)
    requires
        0 < i < looks.len(),
        stop_stage_after(StopStage::Draining, looks.take(i)) != StopStage::Draining,
        looks[i].exited,
    ensures
        stop_action_at(looks, i) == StopAction::Finish,
        stop_stage_after(StopStage::Draining, looks.take(i + 1)) == StopStage::Gone,
        i + 1 < looks.len() ==> stop_action_at(looks, i + 1) == StopAction::Finish,
{
    assert(looks.take(i + 1).drop_last() =~= looks.take(i));
    assert(looks.take(i + 1).last() == looks[i]);
}

/// Whether times stand in ascending order.
pub open spec fn times_ascend(times: Seq<u64>) -> bool {
    forall|i: int, j: int| 0 <= i <= j < times.len() ==> #[trigger] times[i] <= #[trigger] times[j]
}

proof fn lemma_exits_that_count(exits: Seq<u64>, now_ms: u64, window_ms: u64) -> (n: int)
    requires
        times_ascend(exits),
    ensures
        0 <= n <= exits.len(),
        still_counting(exits, now_ms, window_ms) == exits.skip(n),
        forall|i: int| 0 <= i < n ==> now_ms - #[trigger] exits[i] > window_ms,
        forall|i: int| n <= i < exits.len() ==> now_ms - #[trigger] exits[i] <= window_ms,
    decreases exits.len(),
{
    if exits.len() > 0 && now_ms - exits[0] > window_ms {
        let rest = exits.drop_first();
        assert forall|i: int, j: int| 0 <= i <= j < rest.len() implies #[trigger] rest[i]
            <= #[trigger] rest[j] by {
            assert(exits[i + 1] <= exits[j + 1]);
        }
        let m = lemma_exits_that_count(rest, now_ms, window_ms);
        assert(rest.skip(m) =~= exits.skip(m + 1));
        assert forall|i: int| 0 <= i < m + 1 implies now_ms - #[trigger] exits[i] > window_ms by {
            if i > 0 {
                assert(rest[i - 1] == exits[i]);
            }
        }
        assert forall|i: int| m + 1 <= i < exits.len() implies now_ms - #[trigger] exits[i]
            <= window_ms by {
            assert(rest[i - 1] == exits[i]);
        }
        m + 1
    } else {
        assert(exits.skip(0) =~= exits);
        assert forall|i: int| 0 <= i < exits.len() implies now_ms - #[trigger] exits[i]
            <= window_ms by {
            assert(exits[0] <= exits[i]);
        }
        0
    }
}

/// Of exits in the order of their times exactly those count that lie within the
/// window, each as often as it came; they keep their order.
pub proof fn recent_exits_count(exits: Seq<u64>, now_ms: u64, window_ms: u64, t: u64)
    requires
        times_ascend(exits),
    ensures
        still_counting(exits, now_ms, window_ms).contains(t) <==> exits.contains(t) && now_ms - t
            <= window_ms,
        exists|n: int|
            0 <= n <= exits.len() && still_counting(exits, now_ms, window_ms) == #[trigger] exits.skip(
                n,
            ) && forall|i: int|
                0 <= i < exits.len() ==> (n <= i <==> now_ms - #[trigger] exits[i] <= window_ms),
        times_ascend(still_counting(exits, now_ms, window_ms)),
{
    let n = lemma_exits_that_count(exits, now_ms, window_ms);
    let left = exits.skip(n);
    if exits.contains(t) && now_ms - t <= window_ms {
        let i = exits.index_of(t);
        assert(exits[i] == t);
        assert(left[i - n] == t);
    }
    if left.contains(t) {
        let i = left.index_of(t);
        assert(exits[i + n] == t);
    }
    assert forall|i: int, j: int| 0 <= i <= j < left.len() implies #[trigger] left[i]
        <= #[trigger] left[j] by {
        assert(exits[i + n] <= exits[j + n]);
    }
}

/// How many of the times lie within the window before `now_ms`.
pub open spec fn recent(times: Seq<u64>, now_ms: u64, window_ms: int) -> nat
    decreases times.len(),
{
    if times.len() == 0 {
        0
    } else {
        recent(times.drop_last(), now_ms, window_ms) + if now_ms - times.last() <= window_ms {
            1nat
        } else {
            0nat
        }
    }
}

proof fn lemma_recent_of_split(times: Seq<u64>, now_ms: u64, window_ms: int, n: int)
    requires
        0 <= n <= times.len(),
        forall|i: int| 0 <= i < n ==> now_ms - #[trigger] times[i] > window_ms,
        forall|i: int| n <= i < times.len() ==> now_ms - #[trigger] times[i] <= window_ms,
    ensures
        recent(times, now_ms, window_ms) == times.len() - n,
    decreases times.len(),
{
    if times.len() > 0 {
        let head = times.drop_last();
        assert(forall|i: int| 0 <= i < head.len() ==> head[i] == times[i]);
        if n == times.len() {
            lemma_recent_of_split(head, now_ms, window_ms, n - 1);
        } else {
            lemma_recent_of_split(head, now_ms, window_ms, n);
        }
    }
}

/// An exit begins a crash loop if and only if the exits within the window before it,
/// and it, are as many as the threshold; a threshold of zero counts as one, and so
/// does a window of zero.
pub proof fn a_crash_loop_is_many_recent_exits(
    state: daemon::DaemonValue,
    candidate: Seq<char>,
    now_ms: u64,
    limits: LimitsConfig,
)
    requires
        state.supervisor.contains_key(candidate),
        times_ascend(state.supervisor[candidate].recent_exits),
    ensures
        ({
            let window = if limits.crashloop_window_ms == 0 {
                1
            } else {
                limits.crashloop_window_ms as int
            };
            let before = recent(state.supervisor[candidate].recent_exits, now_ms, window);
            crashloops(state, candidate, now_ms, limits) <==> before + 1
                >= limits.crashloop_threshold
        }),
{
    let window: u64 = if limits.crashloop_window_ms == 0 {
        1
    } else {
        limits.crashloop_window_ms
    };
    let exits = state.supervisor[candidate].recent_exits;
    let n = lemma_exits_that_count(exits, now_ms, window);
    lemma_recent_of_split(exits, now_ms, window as int, n);
}

/// The first exit of a candidate begins a crash loop only where one exit is too many.
pub proof fn a_first_exit_is_no_crash_loop(
    state: daemon::DaemonValue,
    candidate: Seq<char>,
    now_ms: u64,
    limits: LimitsConfig,
)
    requires
        !state.supervisor.contains_key(candidate),
    ensures
        crashloops(state, candidate, now_ms, limits) <==> limits.crashloop_threshold <= 1,
{
    let n = lemma_exits_that_count(
        Seq::empty(),
        now_ms,
        at_least_one(limits.crashloop_window_ms as int) as u64,
    );
}

/// The state after exits of a candidate at some times.
pub open spec fn after_exits(
    state: daemon::DaemonValue,
    candidate: Seq<char>,
    times: Seq<u64>,
    limits: LimitsConfig,
) -> daemon::DaemonValue
    decreases times.len(),
{
    if times.len() == 0 {
        state
    } else {
        exit_recorded(
            after_exits(state, candidate, times.drop_last(), limits),
            candidate,
            times.last(),
            limits,
        )
    }
}

/// An extension whose exits lie further apart than the window never enters a crash
/// loop, however often it exits: it is restarted every time, with twice the delay of
/// the time before up to the limit. Nothing else is recorded of it or of others.
pub proof fn exits_far_apart_are_no_crash_loop(
    state: daemon::DaemonValue,
    candidate: Seq<char>,
    times: Seq<u64>,
    limits: LimitsConfig,
    other: Seq<char>,
)
    requires
        !state.supervisor.contains_key(candidate),
        other != candidate,
        limits.crashloop_threshold > 1,
        limits.crashloop_window_ms > 0,
        times.len() < usize::MAX,
        forall|i: int|
            0 < i < times.len() ==> (#[trigger] times[i]) - times[i - 1]
                > limits.crashloop_window_ms,
    ensures
        ({
            let after = after_exits(state, candidate, times, limits);
            &&& times.len() > 0 ==> !crashloops(
                after_exits(state, candidate, times.drop_last(), limits),
                candidate,
                times.last(),
                limits,
            )
            &&& times.len() > 0 ==> after.supervisor.contains_key(candidate)
                && after.supervisor[candidate].restarts == times.len()
                && after.supervisor[candidate].recent_exits == seq![times.last()]
            &&& after.failed == state.failed
            &&& after.unavailable == state.unavailable
            &&& after.routes == state.routes
            &&& after.prefixes == state.prefixes
            &&& after.extensions == state.extensions
            &&& after.shutting_down == state.shutting_down
            &&& after.supervisor.contains_key(other) == state.supervisor.contains_key(other)
            &&& after.supervisor.contains_key(other) ==> after.supervisor[other]
                == state.supervisor[other]
        }),
    decreases times.len(),
{
    if times.len() > 0 {
        let head = times.drop_last();
        let now_ms = times.last();
        assert(forall|i: int| 0 <= i < head.len() ==> head[i] == times[i]);
        exits_far_apart_are_no_crash_loop(state, candidate, head, limits, other);
        let before = after_exits(state, candidate, head, limits);
        let exits = exits_with(before, candidate, now_ms, limits);
        if head.len() > 0 {
            assert(times[times.len() - 1] - times[times.len() - 2] > limits.crashloop_window_ms);
        }
        let past = record_of(before, candidate).recent_exits;
        let n = lemma_exits_that_count(
            past,
            now_ms,
            at_least_one(limits.crashloop_window_ms as int) as u64,
        );
        if past.len() > 0 && n == 0 {
            assert(now_ms - past[0] <= limits.crashloop_window_ms);
        }
        assert(exits =~= seq![now_ms]);
    }
}

/// As many exits within the window as the threshold are a crash loop: the candidate
/// has failed, with a sentence that names the two limits, and is not started again.
pub proof fn exits_close_together_are_a_crash_loop(
    state: daemon::DaemonValue,
    candidate: Seq<char>,
    now_ms: u64,
    limits: LimitsConfig,
    enabled: Seq<Seq<char>>,
    autostart_all: bool,
)
    requires
        state.supervisor.contains_key(candidate),
        times_ascend(state.supervisor[candidate].recent_exits),
        limits.crashloop_threshold > 0,
        limits.crashloop_window_ms > 0,
        recent(
            state.supervisor[candidate].recent_exits,
            now_ms,
            limits.crashloop_window_ms as int,
        ) + 1 >= limits.crashloop_threshold,
    ensures
        ({
            let after = exit_recorded(state, candidate, now_ms, limits);
            &&& after.failed == state.failed.insert(
                candidate,
                "extension entered crashloop: "@ + text::decimal(limits.crashloop_threshold as nat)
                    + " exits within "@ + text::decimal(limits.crashloop_window_ms as nat) + "ms"@,
            )
            &&& after.unavailable.contains_key(candidate)
            &&& after.supervisor[candidate].restarts == state.supervisor[candidate].restarts
            &&& !wants_respawn(after, enabled, autostart_all, candidate)
        }),
{
    a_crash_loop_is_many_recent_exits(state, candidate, now_ms, limits);
}

/// A candidate is started again exactly where the router is not shutting down, the
/// candidate has not failed, and it is enabled or all are started: adding it to the
/// enabled ones never keeps it from being started, and a shutdown always does.
pub proof fn who_is_started_again(
    state: daemon::DaemonValue,
    enabled: Seq<Seq<char>>,
    candidate: Seq<char>,
)
    ensures
        state.shutting_down || state.failed.contains_key(candidate) ==> !wants_respawn(
            state,
            enabled,
            true,
            candidate,
        ) && !wants_respawn(state, enabled, false, candidate),
        !state.shutting_down && !state.failed.contains_key(candidate) ==> wants_respawn(
            state,
            enabled,
            true,
            candidate,
        ) && wants_respawn(state, enabled.push(candidate), false, candidate),
        !enabled.contains(candidate) ==> !wants_respawn(state, enabled, false, candidate),
{
    assert(enabled.push(candidate)[enabled.len() as int] == candidate);
}

/// A candidate is to run where it was found and is enabled, or all are to run; and under
/// the file that was found.
pub proof fn enabled_candidates_run(
    found: Map<Seq<char>, Seq<char>>,
    enabled: Seq<Seq<char>>,
    candidate: Seq<char>,
)
    requires
        found.contains_key(candidate),
    ensures
        desired(found, enabled, true).contains_key(candidate),
        desired(found, enabled, true)[candidate] == found[candidate],
        enabled.contains(candidate) ==> desired(found, enabled, false).contains_key(candidate)
            && desired(found, enabled, false)[candidate] == found[candidate],
        !enabled.contains(candidate) ==> !desired(found, enabled, false).contains_key(candidate),
        !desired(found.remove(candidate), enabled, true).contains_key(candidate),
        !desired(found.remove(candidate), enabled, false).contains_key(candidate),
{
}

/// An extension that loses its routes loses all of them and all its prefixes, and no
/// other extension loses any; it goes on running.
pub proof fn only_its_own_routes_go(
    state: daemon::DaemonValue,
    handle: daemon::HandleValue,
    name: Seq<char>,
)
    ensures
        ({
            let after = unrouted(state, handle);
            &&& after.routes.contains_key(name) <==> state.routes.contains_key(name)
                && state.routes[name] != handle.id
            &&& after.routes.contains_key(name) ==> after.routes[name] == state.routes[name]
            &&& after.prefixes.contains_key(name) <==> state.prefixes.contains_key(name)
                && state.prefixes[name] != handle.id
            &&& after.prefixes.contains_key(name) ==> after.prefixes[name] == state.prefixes[name]
            &&& after.unavailable.contains_key(name) <==> state.unavailable.contains_key(name)
                && name != handle.candidate_id && !handle.paths.contains(name)
            &&& after.extensions == state.extensions
            &&& after.failed == state.failed
            &&& after.supervisor == state.supervisor
            &&& after.shutting_down == state.shutting_down
        }),
{
    daemon::without_keys_takes_those_keys(
        state.unavailable.remove(handle.candidate_id),
        handle.paths,
        name,
    );
}

/// When a run ends, its extension is gone and its routes with it. Where it may come
/// back, each of its path ids is unavailable with the reason; where not, none is.
pub proof fn ended_runs_leave_their_reason(
    state: daemon::DaemonValue,
    id: Seq<char>,
    reason: Seq<char>,
    name: Seq<char>,
)
    requires
        state.extensions.contains_key(id),
    ensures
        ({
            let handle = state.extensions[id];
            let away = cleaned(state, id, reason, true);
            let gone = cleaned(state, id, reason, false);
            let own = name == handle.candidate_id || handle.paths.contains(name);
            &&& own ==> away.unavailable.contains_key(name) && away.unavailable[name] == reason
            &&& own ==> !gone.unavailable.contains_key(name)
            &&& !own ==> away.unavailable.contains_key(name) == state.unavailable.contains_key(name)
            &&& !own ==> gone.unavailable.contains_key(name) == state.unavailable.contains_key(name)
            &&& !away.extensions.contains_key(id) && !gone.extensions.contains_key(id)
            &&& name != id ==> away.extensions.contains_key(name) == state.extensions.contains_key(
                name,
            )
            &&& away.failed == state.failed
            &&& away.supervisor == state.supervisor
        }),
{
    let handle = state.extensions[id];
    let after = unrouted(state, handle);
    only_its_own_routes_go(state, handle, name);
    daemon::with_keys_puts_those_keys(
        after.unavailable.insert(handle.candidate_id, reason),
        handle.paths,
        reason,
        name,
    );
    daemon::without_keys_takes_those_keys(
        after.unavailable.remove(handle.candidate_id),
        handle.paths,
        name,
    );
}

/// An enabled extension that neither runs nor was found has failed for that reason, and
/// is unavailable; of the others nothing is noted.
pub proof fn missing_extensions_are_noted(
    state: daemon::DaemonValue,
    enabled: Seq<Seq<char>>,
    wanted: Map<Seq<char>, Seq<char>>,
    id: Seq<char>,
)
    ensures
        ({
            let after = missing_noted(state, enabled, wanted);
            let missing = enabled.contains(id) && !daemon::runs(state.extensions, id)
                && !wanted.contains_key(id);
            &&& missing ==> after.failed.contains_key(id) && after.failed[id]
                == "extension binary not found on PATH"@ && after.unavailable.contains_key(id)
                && after.unavailable[id] == "extension binary not found on PATH"@
            &&& !missing ==> after.failed.contains_key(id) == state.failed.contains_key(id)
                && after.unavailable.contains_key(id) == state.unavailable.contains_key(id)
            &&& !missing && state.failed.contains_key(id) ==> after.failed[id] == state.failed[id]
            &&& after.routes == state.routes
            &&& after.prefixes == state.prefixes
            &&& after.extensions == state.extensions
        }),
    decreases enabled.len(),
{
    if enabled.len() > 0 {
        missing_extensions_are_noted(state, enabled.drop_last(), wanted, id);
        if enabled.contains(id) {
            let i = enabled.index_of(id);
            if i < enabled.len() - 1 {
                assert(enabled.drop_last()[i] == id);
            }
        }
        if enabled.drop_last().contains(id) {
            assert(enabled[enabled.drop_last().index_of(id)] == id);
        }
        assert(enabled[enabled.len() - 1] == enabled.last());
    }
}

/// Candidates that are being started have not failed any more; the failures of others
/// stay.
pub proof fn starting_forgets_failures(
    state: daemon::DaemonValue,
    ids: Seq<Seq<char>>,
    id: Seq<char>,
)
    ensures
        starting(state, ids).failed.contains_key(id) <==> state.failed.contains_key(id)
            && !ids.contains(id),
        starting(state, ids) == (daemon::DaemonValue {
            failed: starting(state, ids).failed,
            ..state
        }),
{
    daemon::without_keys_takes_those_keys(state.failed, ids, id);
}

/// What is said of the end of a run names how it ended.
pub proof fn ends_are_named(status: String, reason: String)
    ensures
        exit_text(ExitCause::Exited { status }) == "extension exited with "@ + status@,
        exit_text(ExitCause::WaitFailed { why: reason }) == "extension wait failed: "@ + reason@,
        exit_text(ExitCause::Drained { reason }) == reason@,
        exit_text(ExitCause::Killed { reason }) == reason@,
        may_return(ExitCause::Exited { status }),
        may_return(ExitCause::WaitFailed { why: reason }),
        may_return(ExitCause::Killed { reason }),
        !may_return(ExitCause::Drained { reason }),
        !may_return(ExitCause::Abandoned),
{
}

/// A run is the current one of its extension only under its own number: a later run, and
/// an extension that is gone, are not it.
pub proof fn runs_are_told_apart(
    state: daemon::DaemonValue,
    id: Seq<char>,
    a: u128,
    b: u128,
)
    requires
        current(state, id, a),
    ensures
        state.extensions[id].generation == a,
        b != a ==> !current(state, id, b),
        !current(daemon::DaemonValue { extensions: state.extensions.remove(id), ..state }, id, a),
{
}

/// Where several extensions lose their routes, a route stays exactly where it belongs to
/// none of them, and so does a prefix; none of the extensions goes.
pub proof fn only_their_routes_go(
    state: daemon::DaemonValue,
    ids: Seq<Seq<char>>,
    name: Seq<char>,
)
    requires
        forall|i: int|
            0 <= i < ids.len() ==> state.extensions[#[trigger] ids[i]].id == ids[i],
    ensures
        unrouted_each(state, ids).routes.contains_key(name) <==> state.routes.contains_key(name)
            && !ids.contains(state.routes[name]),
        unrouted_each(state, ids).routes.contains_key(name) ==> unrouted_each(
            state,
            ids,
        ).routes[name] == state.routes[name],
        unrouted_each(state, ids).prefixes.contains_key(name) <==> state.prefixes.contains_key(
            name,
        ) && !ids.contains(state.prefixes[name]),
        unrouted_each(state, ids).prefixes.contains_key(name) ==> unrouted_each(
            state,
            ids,
        ).prefixes[name] == state.prefixes[name],
        unrouted_each(state, ids).extensions == state.extensions,
    decreases ids.len(),
{
    if ids.len() > 0 {
        let rest = ids.drop_last();
        assert forall|i: int| 0 <= i < rest.len() implies state.extensions[#[trigger] rest[i]].id
            == rest[i] by {
            assert(rest[i] == ids[i]);
        }
        only_their_routes_go(state, rest, name);
        only_its_own_routes_go(unrouted_each(state, rest), state.extensions[ids.last()], name);
        assert(ids[ids.len() - 1] == ids.last());
        assert forall|x: Seq<char>| #[trigger] ids.contains(x) <==> rest.contains(x) || x
            == ids.last() by {
            if ids.contains(x) {
                let i = ids.index_of(x);
                if i < rest.len() {
                    assert(rest[i] == x);
                }
            }
            if rest.contains(x) {
                assert(ids[rest.index_of(x)] == x);
            }
            if x == ids.last() {
                assert(ids[ids.len() - 1] == x);
            }
        }
    }
}

/// The count of restarts goes up by one with each, and stays at the highest number that
/// it can hold.
pub proof fn restarts_are_counted(restarts: usize)
    ensures
        restarts < usize::MAX ==> one_more(restarts) == restarts + 1,
        one_more(usize::MAX) == usize::MAX,
        one_more(restarts) >= restarts,
{
}

} // verus!
