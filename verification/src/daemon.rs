//! The state of the running router: which extensions run, what they have
//! claimed, and what is known of those that do not run.

use vstd::prelude::*;
use vstd::string::*;

use crate::channel_claims;
use crate::channel_claims::{validate_registration_claims, ClaimError};
use crate::config;
use crate::config::{Config, ConfigError};
use crate::dispatch_window::DispatchWindow;
use crate::extension_registration::ExtensionRegistration;
use crate::ids;
use crate::string_map;
use crate::string_map::StringMap;
use crate::text;

verus! {

/// What an extension has emitted so far. An extension that only polls takes no
/// dispatches, so that its silence is the only sign of its failure.
#[derive(Clone, Copy, Debug, PartialEq, Eq, Structural)]
pub struct EventStats {
    pub emitted: usize,
    /// The time of the last event; zero where there was none.
    pub last_at_ms: u64,
}

/// The statistics after `count` more events at `now_ms`. The counter wraps
/// around.
pub open spec fn recorded(stats: EventStats, count: usize, now_ms: u64) -> EventStats {
    if count == 0 {
        stats
    } else {
        EventStats { emitted: stats.emitted.wrapping_add(count), last_at_ms: now_ms }
    }
}

impl EventStats {
    /// No events yet.
    pub fn new() -> (stats: EventStats)
        ensures
            stats == (EventStats { emitted: 0, last_at_ms: 0 }),
    {
        EventStats { emitted: 0, last_at_ms: 0 }
    }

    /// Records that `count` events were emitted at `now_ms`.
    pub fn record(&mut self, count: usize, now_ms: u64)
        ensures
            *final(self) == recorded(*old(self), count, now_ms),
    {
        if count == 0 {
            return;
        }
        self.emitted = self.emitted.wrapping_add(count);
        self.last_at_ms = now_ms;
    }

    /// When the last event was emitted, if there was one.
    pub fn last_event_at_ms(&self) -> (at: Option<u64>)
        ensures
            at == (if self.last_at_ms == 0 {
                None
            } else {
                Some(self.last_at_ms)
            }),
    {
        if self.last_at_ms == 0 {
            None
        } else {
            Some(self.last_at_ms)
        }
    }
}

/// A running extension.
pub struct ExtHandle {
    /// The identifier of its file.
    pub candidate_id: String,
    /// The identifier that it registered.
    pub id: String,
    /// Tells this run of the extension from earlier and later ones.
    pub generation: u128,
    pub path: String,
    /// The path ids that it has claimed, its own identifier first.
    pub paths: Vec<String>,
    /// The channel prefixes that it has claimed.
    pub channels: Vec<String>,
    pub dispatches: DispatchWindow,
    pub protocol_errors: usize,
    pub namespace_violations: usize,
    pub consecutive_timeouts: usize,
    pub restarts: usize,
    pub event_stats: EventStats,
    pub pid: Option<u32>,
}

/// The value of an [`ExtHandle`].
pub struct HandleValue {
    pub candidate_id: Seq<char>,
    pub id: Seq<char>,
    pub generation: u128,
    pub path: Seq<char>,
    pub paths: Seq<Seq<char>>,
    pub channels: Seq<Seq<char>>,
    pub waiting: Set<u128>,
    pub in_flight: nat,
    pub protocol_errors: usize,
    pub namespace_violations: usize,
    pub consecutive_timeouts: usize,
    pub restarts: usize,
    pub event_stats: EventStats,
    pub pid: Option<u32>,
}

impl View for ExtHandle {
    type V = HandleValue;

    open spec fn view(&self) -> HandleValue {
        HandleValue {
            candidate_id: self.candidate_id@,
            id: self.id@,
            generation: self.generation,
            path: self.path@,
            paths: text::texts(self.paths@),
            channels: text::texts(self.channels@),
            waiting: self.dispatches@,
            in_flight: self.dispatches.taken(),
            protocol_errors: self.protocol_errors,
            namespace_violations: self.namespace_violations,
            consecutive_timeouts: self.consecutive_timeouts,
            restarts: self.restarts,
            event_stats: self.event_stats,
            pid: self.pid,
        }
    }
}

/// How often an extension was restarted, and when it last exited.
#[derive(Debug)]
pub struct SupervisorState {
    pub restarts: usize,
    /// The times of the exits that count towards a crash loop, oldest first.
    pub recent_exits: Vec<u64>,
    /// The path ids that it had claimed when its exits became too many.
    pub claims: Vec<String>,
}

/// The value of a [`SupervisorState`].
pub struct SupervisorValue {
    pub restarts: usize,
    pub recent_exits: Seq<u64>,
    pub claims: Seq<Seq<char>>,
}

impl View for SupervisorState {
    type V = SupervisorValue;

    open spec fn view(&self) -> SupervisorValue {
        SupervisorValue {
            restarts: self.restarts,
            recent_exits: self.recent_exits@,
            claims: text::texts(self.claims@),
        }
    }
}

/// The state of the router.
pub struct Daemon {
    pub config: Config,
    /// The extension behind each path id.
    pub routes: StringMap<String>,
    /// Path ids that nothing serves for now, and why.
    pub unavailable_routes: StringMap<String>,
    /// The extension behind each channel prefix.
    pub channel_prefixes: StringMap<String>,
    /// The running extensions, by the identifiers that they registered.
    pub extensions: StringMap<ExtHandle>,
    /// The candidates that failed, and why.
    pub failed_extensions: StringMap<String>,
    pub supervisor: StringMap<SupervisorState>,
    pub shutting_down: bool,
}

/// The value of a [`Daemon`], apart from its configuration.
pub struct DaemonValue {
    pub routes: Map<Seq<char>, Seq<char>>,
    pub unavailable: Map<Seq<char>, Seq<char>>,
    pub prefixes: Map<Seq<char>, Seq<char>>,
    pub extensions: Map<Seq<char>, HandleValue>,
    pub failed: Map<Seq<char>, Seq<char>>,
    pub supervisor: Map<Seq<char>, SupervisorValue>,
    pub shutting_down: bool,
}

/// A map of handles, by their values.
pub open spec fn handle_map(map: Map<Seq<char>, ExtHandle>) -> Map<Seq<char>, HandleValue> {
    map.map_values(|h: ExtHandle| h@)
}

/// A map of supervisor states, by their values.
pub open spec fn supervisor_map(map: Map<Seq<char>, SupervisorState>) -> Map<
    Seq<char>,
    SupervisorValue,
> {
    map.map_values(|s: SupervisorState| s@)
}

impl View for Daemon {
    type V = DaemonValue;

    open spec fn view(&self) -> DaemonValue {
        DaemonValue {
            routes: string_map::text_map(self.routes@),
            unavailable: string_map::text_map(self.unavailable_routes@),
            prefixes: string_map::text_map(self.channel_prefixes@),
            extensions: handle_map(self.extensions@),
            failed: string_map::text_map(self.failed_extensions@),
            supervisor: supervisor_map(self.supervisor@),
            shutting_down: self.shutting_down,
        }
    }
}

/// Whether a candidate runs.
pub open spec fn runs(extensions: Map<Seq<char>, HandleValue>, candidate: Seq<char>) -> bool {
    exists|id: Seq<char>| #[trigger]
        extensions.contains_key(id) && extensions[id].candidate_id == candidate
}

/// A map without some keys.
pub open spec fn without_keys(
    map: Map<Seq<char>, Seq<char>>,
    keys: Seq<Seq<char>>,
) -> Map<Seq<char>, Seq<char>>
    decreases keys.len(),
{
    if keys.len() == 0 {
        map
    } else {
        without_keys(map, keys.drop_last()).remove(keys.last())
    }
}

/// A map in which some keys have one value.
pub open spec fn with_keys(
    map: Map<Seq<char>, Seq<char>>,
    keys: Seq<Seq<char>>,
    value: Seq<char>,
) -> Map<Seq<char>, Seq<char>>
    decreases keys.len(),
{
    if keys.len() == 0 {
        map
    } else {
        with_keys(map, keys.drop_last(), value).insert(keys.last(), value)
    }
}

/// What every state of the router keeps: the namespaces of the extensions are
/// apart, every route and every prefix belongs to an extension that runs, each
/// extension is known by the identifier that it registered, and no candidate runs
/// twice.
pub open spec fn consistent(state: DaemonValue) -> bool {
    &&& channel_claims::namespaces_apart(state.routes, state.prefixes)
    &&& forall|path: Seq<char>| #[trigger]
        state.routes.contains_key(path) ==> state.extensions.contains_key(state.routes[path])
    &&& forall|prefix: Seq<char>| #[trigger]
        state.prefixes.contains_key(prefix) ==> state.extensions.contains_key(
            state.prefixes[prefix],
        )
    &&& forall|id: Seq<char>| #[trigger]
        state.extensions.contains_key(id) ==> state.extensions[id].id == id
    &&& forall|a: Seq<char>, b: Seq<char>|
        #![trigger state.extensions.contains_key(a), state.extensions.contains_key(b)]
        state.extensions.contains_key(a) && state.extensions.contains_key(b)
            && state.extensions[a].candidate_id == state.extensions[b].candidate_id ==> a == b
}

/// Why an extension could not be started.
#[derive(Debug)]
pub enum StartError {
    AlreadyRunning { id: String },
    Claims(ClaimError),
}

/// The value of a [`StartError`].
pub enum StartFault {
    AlreadyRunning { id: Seq<char> },
    Claims(channel_claims::ClaimFault),
}

impl View for StartError {
    type V = StartFault;

    open spec fn view(&self) -> StartFault {
        match self {
            StartError::AlreadyRunning { id } => StartFault::AlreadyRunning { id: id@ },
            StartError::Claims(error) => StartFault::Claims(error@),
        }
    }
}

/// The sentence that reports a failed start.
pub open spec fn fault_message(fault: StartFault) -> Seq<char> {
    match fault {
        StartFault::AlreadyRunning { id } => "extension collision: "@ + id + " is already running"@,
        StartFault::Claims(fault) => channel_claims::fault_message(fault),
    }
}

impl StartError {
    /// The sentence that reports this error.
    pub fn message(&self) -> (msg: String)
        ensures
            msg@ == fault_message(self@),
    {
        match self {
            StartError::AlreadyRunning { id } => "extension collision: ".to_owned().concat(
                id.as_str(),
            ).concat(" is already running"),
            StartError::Claims(error) => error.message(),
        }
    }
}

/// Takes some keys out of a map of strings.
pub fn drop_texts(map: &mut StringMap<String>, keys: &[String])
    ensures
        string_map::text_map(final(map)@) == without_keys(
            string_map::text_map(old(map)@),
            text::texts(keys@),
        ),
{
    let ghost start = string_map::text_map(map@);
    let ghost all = text::texts(keys@);
    let mut i: usize = 0;
    while i < keys.len()
        invariant
            i <= keys@.len(),
            all == text::texts(keys@),
            string_map::text_map(map@) == without_keys(start, all.take(i as int)),
        decreases keys@.len() - i,
    {
        assert(all.take(i as int + 1).drop_last() =~= all.take(i as int));
        assert(all[i as int] == keys@[i as int]@);
        string_map::drop_text(map, keys[i].as_str());
        i += 1;
    }
    assert(all.take(i as int) =~= all);
}

/// Gives some keys of a map of strings one value.
pub fn put_texts(map: &mut StringMap<String>, keys: &[String], value: &str)
    ensures
        string_map::text_map(final(map)@) == with_keys(
            string_map::text_map(old(map)@),
            text::texts(keys@),
            value@,
        ),
{
    let ghost start = string_map::text_map(map@);
    let ghost all = text::texts(keys@);
    let mut i: usize = 0;
    while i < keys.len()
        invariant
            i <= keys@.len(),
            all == text::texts(keys@),
            string_map::text_map(map@) == with_keys(start, all.take(i as int), value@),
        decreases keys@.len() - i,
    {
        assert(all.take(i as int + 1).drop_last() =~= all.take(i as int));
        assert(all[i as int] == keys@[i as int]@);
        string_map::put_text(map, keys[i].as_str(), value);
        i += 1;
    }
    assert(all.take(i as int) =~= all);
}

/// Granting names to an owner, one after the other.
pub proof fn lemma_with_keys_is_granted(
    map: Map<Seq<char>, Seq<char>>,
    keys: Seq<Seq<char>>,
    value: Seq<char>,
)
    ensures
        with_keys(map, keys, value) == channel_claims::granted(map, keys, value),
    decreases keys.len(),
{
    if keys.len() > 0 {
        let head = keys.drop_last();
        lemma_with_keys_is_granted(map, head, value);
        assert(head.push(keys.last()) =~= keys);
        text::lemma_push_contains(head, keys.last());
        assert(with_keys(map, keys, value) =~= channel_claims::granted(map, keys, value));
    } else {
        assert forall|k: Seq<char>| !keys.contains(k) by {}
        assert(map =~= channel_claims::granted(map, keys, value));
    }
}

/// The path ids that an extension claims: its identifier, then its aliases.
pub open spec fn claims_of(id: Seq<char>, aliases: Seq<Seq<char>>) -> Seq<Seq<char>> {
    seq![id] + aliases
}

/// What is known of an extension that has just registered. Events that came too early
/// count as protocol errors.
pub open spec fn fresh_handle(
    candidate_id: Seq<char>,
    path: Seq<char>,
    id: Seq<char>,
    aliases: Seq<Seq<char>>,
    channels: Seq<Seq<char>>,
    generation: u128,
    restarts: usize,
    pid: Option<u32>,
    dropped_events: usize,
) -> HandleValue {
    HandleValue {
        candidate_id,
        id,
        generation,
        path,
        paths: claims_of(id, aliases),
        channels,
        waiting: Set::empty(),
        in_flight: 0,
        protocol_errors: dropped_events,
        namespace_violations: 0,
        consecutive_timeouts: 0,
        restarts,
        event_stats: EventStats { emitted: 0, last_at_ms: 0 },
        pid,
    }
}

/// How often a candidate was restarted.
pub open spec fn restarts_of(
    supervisor: Map<Seq<char>, SupervisorValue>,
    candidate: Seq<char>,
) -> usize {
    if supervisor.contains_key(candidate) {
        supervisor[candidate].restarts
    } else {
        0
    }
}

/// The state once an extension has registered.
pub open spec fn registered(
    state: DaemonValue,
    candidate_id: Seq<char>,
    handle: HandleValue,
) -> DaemonValue {
    DaemonValue {
        extensions: state.extensions.insert(handle.id, handle),
        routes: with_keys(state.routes, handle.paths, handle.id),
        prefixes: with_keys(state.prefixes, handle.channels, handle.id),
        failed: state.failed.remove(candidate_id).remove(handle.id),
        unavailable: without_keys(state.unavailable.remove(candidate_id), handle.paths),
        ..state
    }
}

impl Daemon {
    /// The state of a router that has just started, with a configuration that
    /// meets the rules.
    pub fn new(config: Config) -> (r: Result<Daemon, ConfigError>)
        ensures
            match r {
                Ok(daemon) => config::first_error(config) is None && daemon.config == config
                    && daemon@ == (DaemonValue {
                    routes: Map::empty(),
                    unavailable: Map::empty(),
                    prefixes: Map::empty(),
                    extensions: Map::empty(),
                    failed: Map::empty(),
                    supervisor: Map::empty(),
                    shutting_down: false,
                }) && consistent(daemon@),
                Err(e) => config::first_error(config) == Some(e),
            },
    {
        config.validate()?;
        let daemon: Daemon = Daemon {
            config,
            routes: StringMap::new(),
            unavailable_routes: StringMap::new(),
            channel_prefixes: StringMap::new(),
            extensions: StringMap::new(),
            failed_extensions: StringMap::new(),
            supervisor: StringMap::new(),
            shutting_down: false,
        };
        proof {
            assert(daemon@.routes =~= Map::<Seq<char>, Seq<char>>::empty());
            assert(daemon@.unavailable =~= Map::<Seq<char>, Seq<char>>::empty());
            assert(daemon@.prefixes =~= Map::<Seq<char>, Seq<char>>::empty());
            assert(daemon@.extensions =~= Map::<Seq<char>, HandleValue>::empty());
            assert(daemon@.failed =~= Map::<Seq<char>, Seq<char>>::empty());
            assert(daemon@.supervisor =~= Map::<Seq<char>, SupervisorValue>::empty());
        }
        Ok(daemon)
    }

    /// Whether a candidate runs.
    pub fn candidate_is_active(&self, candidate_id: &str) -> (active: bool)
        ensures
            active == runs(self@.extensions, candidate_id@),
    {
        let n: usize = self.extensions.len();
        let ghost keys = self.extensions.key_seq();
        let ghost running = self@.extensions;
        let mut i: usize = 0;
        while i < n
            invariant
                i <= n == keys.len(),
                keys == self.extensions.key_seq(),
                self.extensions.keys_agree(),
                running == self@.extensions,
                forall|j: int|
                    0 <= j < i ==> running[#[trigger] keys[j]].candidate_id != candidate_id@,
            decreases n - i,
        {
            let handle: &ExtHandle = self.extensions.value_at(i);
            assert(running[keys[i as int]] == handle@);
            if text::same_text(handle.candidate_id.as_str(), candidate_id) {
                assert(running.contains_key(keys[i as int]));
                return true;
            }
            i += 1;
        }
        assert forall|id: Seq<char>| #[trigger]
            running.contains_key(id) implies running[id].candidate_id != candidate_id@ by {
            assert(self.extensions@.contains_key(id));
            assert(keys[keys.index_of(id)] == id);
        }
        false
    }

    /// Whether this run of an extension is the current one.
    pub fn is_active(&self, id: &str, generation: u128) -> (active: bool)
        ensures
            active == (self@.extensions.contains_key(id@) && self@.extensions[id@].generation
                == generation),
    {
        match self.extensions.get(id) {
            Some(handle) => handle.generation == generation,
            None => false,
        }
    }

    /// How often a candidate was restarted.
    pub fn restart_count(&self, candidate_id: &str) -> (n: usize)
        ensures
            n == restarts_of(self@.supervisor, candidate_id@),
    {
        match self.supervisor.get(candidate_id) {
            Some(state) => state.restarts,
            None => 0,
        }
    }

    /// Takes up an extension that has registered: first claim wins, and nothing
    /// is claimed where anything collides. Returns the identifier of this run.
    pub fn register(
        &mut self,
        candidate_id: &str,
        path: &str,
        registration: ExtensionRegistration,
        pid: Option<u32>,
    ) -> (r: Result<u128, StartError>)
        ensures
            final(self).config == old(self).config,
            r is Ok <==> !old(self)@.extensions.contains_key(registration.id@) && !runs(
                old(self)@.extensions,
                candidate_id@,
            ) && channel_claims::claims_ok(
                registration.id@,
                claims_of(registration.id@, text::texts(registration.paths@)),
                text::texts(registration.channels@),
                old(self)@.routes,
                old(self)@.prefixes,
            ),
            match r {
                Ok(generation) => {
                    &&& ids::is_random_uuid(generation)
                    &&& final(self)@ == registered(
                        old(self)@,
                        candidate_id@,
                        fresh_handle(
                            candidate_id@,
                            path@,
                            registration.id@,
                            text::texts(registration.paths@),
                            text::texts(registration.channels@),
                            generation,
                            restarts_of(old(self)@.supervisor, candidate_id@),
                            pid,
                            registration.dropped_events,
                        ),
                    )
                },
                Err(e) => {
                    &&& final(self)@ == old(self)@
                    &&& if old(self)@.extensions.contains_key(registration.id@) {
                        e@ == (StartFault::AlreadyRunning { id: registration.id@ })
                    } else if runs(old(self)@.extensions, candidate_id@) {
                        e@ == (StartFault::AlreadyRunning { id: candidate_id@ })
                    } else {
                        match e@ {
                            StartFault::Claims(fault) => channel_claims::first_fault(
                                fault,
                                registration.id@,
                                claims_of(registration.id@, text::texts(registration.paths@)),
                                text::texts(registration.channels@),
                                old(self)@.routes,
                                old(self)@.prefixes,
                            ),
                            _ => false,
                        }
                    }
                },
            },
            consistent(old(self)@) ==> consistent(final(self)@),
    {
        let ghost before = self@;
        let ghost aliases = text::texts(registration.paths@);
        let id: String = registration.id;
        let mut claims: Vec<String> = Vec::new();
        claims.push(id.clone());
        let mut i: usize = 0;
        while i < registration.paths.len()
            invariant
                i <= registration.paths@.len(),
                claims@.len() == i + 1,
                claims@[0]@ == id@,
                forall|j: int|
                    1 <= j <= i ==> (#[trigger] claims@[j])@ == registration.paths@[j - 1]@,
            decreases registration.paths@.len() - i,
        {
            claims.push(registration.paths[i].clone());
            i += 1;
        }
        assert(text::texts(claims@) =~= claims_of(id@, aliases));
        let channels: Vec<String> = registration.channels;
        if self.extensions.contains_key(id.as_str()) {
            return Err(StartError::AlreadyRunning { id });
        }
        if self.candidate_is_active(candidate_id) {
            return Err(StartError::AlreadyRunning { id: candidate_id.to_owned() });
        }
        match validate_registration_claims(
            id.as_str(),
            &claims,
            &channels,
            &self.routes,
            &self.channel_prefixes,
        ) {
            Ok(()) => {},
            Err(error) => {
                return Err(StartError::Claims(error));
            },
        }
        let generation: u128 = ids::mint_id();
        let restarts: usize = self.restart_count(candidate_id);
        put_texts(&mut self.routes, &claims, id.as_str());
        put_texts(&mut self.channel_prefixes, &channels, id.as_str());
        string_map::drop_text(&mut self.failed_extensions, candidate_id);
        string_map::drop_text(&mut self.failed_extensions, id.as_str());
        string_map::drop_text(&mut self.unavailable_routes, candidate_id);
        drop_texts(&mut self.unavailable_routes, &claims);
        let handle: ExtHandle = ExtHandle {
            candidate_id: candidate_id.to_owned(),
            id: id.clone(),
            generation,
            path: path.to_owned(),
            paths: claims,
            channels,
            dispatches: DispatchWindow::new(),
            protocol_errors: registration.dropped_events,
            namespace_violations: 0,
            consecutive_timeouts: 0,
            restarts,
            event_stats: EventStats::new(),
            pid,
        };
        let ghost value = handle@;
        let _ = self.extensions.insert(id, handle);
        proof {
            assert(self@.extensions =~= before.extensions.insert(value.id, value));
            assert(value == fresh_handle(
                candidate_id@,
                path@,
                value.id,
                aliases,
                value.channels,
                generation,
                restarts,
                pid,
                registration.dropped_events,
            ));
            assert(self@ == registered(before, candidate_id@, value));
            if consistent(before) {
                registering_keeps_consistency(before, candidate_id@, value);
            }
        }
        Ok(generation)
    }
}

/// Registering an extension whose claims were granted keeps the state consistent.
pub proof fn registering_keeps_consistency(
    state: DaemonValue,
    candidate_id: Seq<char>,
    handle: HandleValue,
)
    requires
        consistent(state),
        handle.candidate_id == candidate_id,
        !state.extensions.contains_key(handle.id),
        !runs(state.extensions, candidate_id),
        channel_claims::claims_ok(
            handle.id,
            handle.paths,
            handle.channels,
            state.routes,
            state.prefixes,
        ),
    ensures
        consistent(registered(state, candidate_id, handle)),
{
    let after = registered(state, candidate_id, handle);
    lemma_with_keys_is_granted(state.routes, handle.paths, handle.id);
    lemma_with_keys_is_granted(state.prefixes, handle.channels, handle.id);
    channel_claims::granting_keeps_namespaces_apart(
        handle.id,
        handle.paths,
        handle.channels,
        state.routes,
        state.prefixes,
    );
    assert forall|path: Seq<char>| #[trigger]
        after.routes.contains_key(path) implies after.extensions.contains_key(
        after.routes[path],
    ) by {
        if !handle.paths.contains(path) {
            assert(state.routes.contains_key(path));
        }
    }
    assert forall|prefix: Seq<char>| #[trigger]
        after.prefixes.contains_key(prefix) implies after.extensions.contains_key(
        after.prefixes[prefix],
    ) by {
        if !handle.channels.contains(prefix) {
            assert(state.prefixes.contains_key(prefix));
        }
    }
    assert forall|a: Seq<char>, b: Seq<char>|
        #![trigger after.extensions.contains_key(a), after.extensions.contains_key(b)]
        after.extensions.contains_key(a) && after.extensions.contains_key(b)
            && after.extensions[a].candidate_id == after.extensions[b].candidate_id implies a
        == b by {
        if a == handle.id && b != handle.id {
            assert(state.extensions.contains_key(b));
        } else if b == handle.id && a != handle.id {
            assert(state.extensions.contains_key(a));
        } else if a != handle.id {
            assert(state.extensions.contains_key(a) && state.extensions.contains_key(b));
        }
    }
}

/// Events are counted one by one, and their time is that of the last of them; where
/// there are none, nothing changes.
pub proof fn events_are_counted(stats: EventStats, count: usize, now_ms: u64)
    requires
        stats.emitted + count <= usize::MAX,
    ensures
        recorded(stats, count, now_ms).emitted == stats.emitted + count,
        recorded(stats, count, now_ms).last_at_ms == (if count > 0 {
            now_ms
        } else {
            stats.last_at_ms
        }),
{
}

/// Taking keys out of a map takes exactly those, and leaves the others as they were.
pub proof fn without_keys_takes_those_keys(
    map: Map<Seq<char>, Seq<char>>,
    keys: Seq<Seq<char>>,
    key: Seq<char>,
)
    ensures
        without_keys(map, keys).contains_key(key) <==> map.contains_key(key) && !keys.contains(key),
        without_keys(map, keys).contains_key(key) ==> without_keys(map, keys)[key] == map[key],
    decreases keys.len(),
{
    if keys.len() > 0 {
        without_keys_takes_those_keys(map, keys.drop_last(), key);
        if keys.contains(key) {
            let i = keys.index_of(key);
            if i < keys.len() - 1 {
                assert(keys.drop_last()[i] == key);
            }
        }
        if keys.drop_last().contains(key) {
            assert(keys[keys.drop_last().index_of(key)] == key);
        }
        assert(keys[keys.len() - 1] == keys.last());
    }
}

/// Putting keys into a map gives each of them the value, and leaves the others as they
/// were.
pub proof fn with_keys_puts_those_keys(
    map: Map<Seq<char>, Seq<char>>,
    keys: Seq<Seq<char>>,
    value: Seq<char>,
    key: Seq<char>,
)
    ensures
        with_keys(map, keys, value).contains_key(key) <==> map.contains_key(key) || keys.contains(
            key,
        ),
        keys.contains(key) ==> with_keys(map, keys, value)[key] == value,
        !keys.contains(key) && map.contains_key(key) ==> with_keys(map, keys, value)[key]
            == map[key],
    decreases keys.len(),
{
    if keys.len() > 0 {
        with_keys_puts_those_keys(map, keys.drop_last(), value, key);
        if keys.contains(key) {
            let i = keys.index_of(key);
            if i < keys.len() - 1 {
                assert(keys.drop_last()[i] == key);
            }
        }
        if keys.drop_last().contains(key) {
            assert(keys[keys.drop_last().index_of(key)] == key);
        }
        assert(keys[keys.len() - 1] == keys.last());
    }
}

/// Registering gives the extension its routes and its prefixes, and takes back what was
/// said of its failure and of its routes. Nothing else changes: other routes, prefixes
/// and extensions stay.
pub proof fn registering_grants_the_claims(
    state: DaemonValue,
    handle: HandleValue,
    candidate_id: Seq<char>,
    name: Seq<char>,
)
    ensures
        ({
            let after = registered(state, candidate_id, handle);
            &&& after.extensions.contains_key(handle.id)
            &&& after.extensions[handle.id] == handle
            &&& name != handle.id ==> after.extensions.contains_key(name)
                == state.extensions.contains_key(name)
            &&& name != handle.id && state.extensions.contains_key(name) ==> after.extensions[name]
                == state.extensions[name]
            &&& handle.paths.contains(name) ==> after.routes.contains_key(name)
                && after.routes[name] == handle.id && !after.unavailable.contains_key(name)
            &&& !handle.paths.contains(name) ==> after.routes.contains_key(name)
                == state.routes.contains_key(name)
            &&& !handle.paths.contains(name) && state.routes.contains_key(name)
                ==> after.routes[name] == state.routes[name]
            &&& handle.channels.contains(name) ==> after.prefixes.contains_key(name)
                && after.prefixes[name] == handle.id
            &&& !handle.channels.contains(name) ==> after.prefixes.contains_key(name)
                == state.prefixes.contains_key(name)
            &&& !after.failed.contains_key(candidate_id)
            &&& !after.unavailable.contains_key(candidate_id)
            &&& name != candidate_id && name != handle.id ==> after.failed.contains_key(name)
                == state.failed.contains_key(name)
            &&& name != candidate_id && !handle.paths.contains(name)
                ==> after.unavailable.contains_key(name) == state.unavailable.contains_key(name)
            &&& after.supervisor == state.supervisor
            &&& after.shutting_down == state.shutting_down
        }),
{
    with_keys_puts_those_keys(state.routes, handle.paths, handle.id, name);
    with_keys_puts_those_keys(state.prefixes, handle.channels, handle.id, name);
    without_keys_takes_those_keys(state.unavailable.remove(candidate_id), handle.paths, name);
    without_keys_takes_those_keys(
        state.unavailable.remove(candidate_id),
        handle.paths,
        candidate_id,
    );
}

/// An extension that has just registered is reached under its identifier and its
/// aliases, has no request in flight, no event, no timeout and no violation, and as
/// many protocol errors as events came too early.
pub proof fn fresh_extensions_are_idle(
    candidate_id: Seq<char>,
    path: Seq<char>,
    id: Seq<char>,
    aliases: Seq<Seq<char>>,
    channels: Seq<Seq<char>>,
    generation: u128,
    restarts: usize,
    pid: Option<u32>,
    dropped_events: usize,
)
    ensures
        ({
            let handle = fresh_handle(
                candidate_id,
                path,
                id,
                aliases,
                channels,
                generation,
                restarts,
                pid,
                dropped_events,
            );
            &&& handle.candidate_id == candidate_id
            &&& handle.path == path
            &&& handle.id == id
            &&& handle.channels == channels
            &&& handle.generation == generation
            &&& handle.restarts == restarts
            &&& handle.pid == pid
            &&& handle.protocol_errors == dropped_events
            &&& handle.paths.len() == aliases.len() + 1
            &&& handle.paths[0] == id
            &&& forall|i: int|
                0 <= i < aliases.len() ==> handle.paths[i + 1] == #[trigger] aliases[i]
            &&& forall|req_id: u128| !handle.waiting.contains(req_id)
            &&& handle.in_flight == 0
            &&& handle.namespace_violations == 0
            &&& handle.consecutive_timeouts == 0
            &&& handle.event_stats.emitted == 0
            &&& handle.event_stats.last_at_ms == 0
        }),
{
}

/// How often an extension was started again is what was last noted of it, and nothing
/// that is noted of another changes it.
pub proof fn restarts_are_remembered(
    supervisor: Map<Seq<char>, SupervisorValue>,
    candidate: Seq<char>,
    other: Seq<char>,
    noted: SupervisorValue,
)
    ensures
        restarts_of(supervisor.insert(candidate, noted), candidate) == noted.restarts,
        other != candidate ==> restarts_of(supervisor.insert(other, noted), candidate)
            == restarts_of(supervisor, candidate),
        restarts_of(supervisor.remove(candidate), candidate) == 0,
{
}

/// An extension that runs already is reported by its id, and a refused claim as the claim
/// is reported.
pub proof fn refused_starts_are_reported(id: Seq<char>, fault: channel_claims::ClaimFault)
    ensures
        fault_message(StartFault::AlreadyRunning { id }) == "extension collision: "@ + id
            + " is already running"@,
        fault_message(StartFault::Claims(fault)) == channel_claims::fault_message(fault),
{
}

/// A candidate runs while an extension that it was started as is there, and not where
/// all that is there was started from others.
pub proof fn candidates_run_as_extensions(
    extensions: Map<Seq<char>, HandleValue>,
    id: Seq<char>,
    candidate: Seq<char>,
)
    ensures
        extensions.contains_key(id) ==> runs(extensions, extensions[id].candidate_id),
        (forall|other: Seq<char>| #[trigger]
            extensions.contains_key(other) ==> extensions[other].candidate_id != candidate)
            ==> !runs(extensions, candidate),
        !runs(Map::empty(), candidate),
{
}

} // verus!
