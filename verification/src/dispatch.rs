//! Dispatching webhooks to extensions, and reading what extensions send.

use vstd::prelude::*;
use vstd::string::*;

use crate::channel;
use crate::channel_claims;
use crate::channel_claims::filter_owned_events;
use crate::config::LimitsConfig;
use crate::daemon;
use crate::daemon::{Daemon, ExtHandle};
use crate::dispatch_window::DispatchReservation;
use crate::encoding;
use crate::ext_kit;
use crate::ids;
use crate::ingest::DispatchError;
use crate::messages;
use crate::messages::{Event, ExtMsg, HttpReply, LogLevel, SrvMsg};
use crate::string_map::StringMap;
use crate::supervisor;
use crate::text;

verus! {

/// What a route leads to: the extension behind it, or why there is none.
pub open spec fn resolved(
    state: daemon::DaemonValue,
    enabled: Seq<Seq<char>>,
    key: Seq<char>,
) -> Result<Seq<char>, DispatchError> {
    if state.routes.contains_key(key) {
        if state.extensions.contains_key(state.routes[key]) {
            Ok(state.routes[key])
        } else {
            Err(DispatchError::Starting)
        }
    } else if supervisor::has_failed(state, key) {
        Err(DispatchError::Failed)
    } else if enabled.contains(key) || state.unavailable.contains_key(key) {
        Err(DispatchError::Starting)
    } else {
        Err(DispatchError::NotFound)
    }
}

/// The state with what is known of one extension changed.
pub open spec fn with_handle(
    state: daemon::DaemonValue,
    id: Seq<char>,
    handle: daemon::HandleValue,
) -> daemon::DaemonValue {
    daemon::DaemonValue { extensions: state.extensions.insert(id, handle), ..state }
}

/// A webhook as it came in.
pub struct WebhookRequest {
    pub method: String,
    pub path: String,
    pub query: Option<String>,
    pub headers: StringMap<String>,
    pub body: Vec<u8>,
}

/// A dispatch that waits for its answer.
#[derive(Debug)]
pub struct DispatchTicket {
    pub ext_id: String,
    pub generation: u128,
    pub reservation: DispatchReservation,
    /// What the extension had claimed when the webhook was dispatched.
    pub paths: Vec<String>,
    pub channels: Vec<String>,
}

/// The secret of an extension, if it has one.
pub open spec fn secret_of(secrets: Map<Seq<char>, String>, id: Seq<char>) -> Option<Seq<char>> {
    if secrets.contains_key(id) {
        Some(secrets[id]@)
    } else {
        None
    }
}

/// Whether a message carries a webhook to an extension, under an identifier and
/// with a secret. The body goes in base64, so that the exact bytes arrive.
pub open spec fn carries(
    msg: SrvMsg,
    request: WebhookRequest,
    id: u128,
    given_secret: Option<Seq<char>>,
) -> bool {
    match msg {
        SrvMsg::Dispatch { req_id, method, path, query, headers, body_b64, secret } => {
            &&& req_id == id
            &&& method@ == request.method@
            &&& path@ == request.path@
            &&& text::optional(query) == text::optional(request.query)
            &&& headers@ == request.headers@
            &&& body_b64@ == encoding::base64(request.body@)
            &&& text::optional(secret) == given_secret
        },
        SrvMsg::Shutdown => false,
    }
}

/// What a message of an extension asks for.
pub enum ReaderAction {
    /// The run is over; nothing more is read.
    Stop,
    /// Hand an answer to the webhook that waits for it.
    Answer { req_id: u128, http: HttpReply, events: Vec<Event> },
    /// An answer that nobody waits for is dropped.
    Unknown { req_id: u128 },
    /// Fan events out.
    Fanout { events: Vec<Event> },
    /// Write a line to the log.
    Log { level: LogLevel, msg: String },
    /// A second registration is ignored.
    DuplicateRegister,
}

/// How many violations there are after `dropped` more; the counter wraps around.
pub open spec fn violations_after(before: usize, dropped: int) -> usize {
    ((before + dropped) % (usize::MAX + 1)) as usize
}

/// The events of an extension that may go out.
pub open spec fn passed(
    handle: daemon::HandleValue,
    events: Seq<messages::EventValue>,
) -> Seq<messages::EventValue> {
    channel_claims::owned_events(events, handle.paths, handle.channels)
}

/// What is known of an extension once its events were filtered.
pub open spec fn after_filter(
    handle: daemon::HandleValue,
    events: Seq<messages::EventValue>,
) -> daemon::HandleValue {
    daemon::HandleValue {
        namespace_violations: violations_after(
            handle.namespace_violations,
            events.len() - passed(handle, events).len(),
        ),
        ..handle
    }
}

impl Daemon {
    /// The extension that serves a route, or why none does.
    pub fn resolve_route(&self, route_key: &str) -> (r: Result<String, DispatchError>)
        ensures
            match r {
                Ok(id) => resolved(
                    self@,
                    text::texts(self.config.extensions.enabled@),
                    route_key@,
                ) == Ok::<Seq<char>, DispatchError>(id@),
                Err(e) => resolved(
                    self@,
                    text::texts(self.config.extensions.enabled@),
                    route_key@,
                ) == Err::<Seq<char>, DispatchError>(e),
            },
    {
        match self.routes.get(route_key) {
            Some(id) => {
                if self.extensions.contains_key(id.as_str()) {
                    Ok(id.clone())
                } else {
                    Err(DispatchError::Starting)
                }
            },
            None => {
                if self.route_has_failed(route_key) {
                    Err(DispatchError::Failed)
                } else if text::contains_text(&self.config.extensions.enabled, route_key)
                    || self.unavailable_routes.contains_key(route_key) {
                    Err(DispatchError::Starting)
                } else {
                    Err(DispatchError::NotFound)
                }
            },
        }
    }

    /// Puts what is known of an extension back.
    fn put_back(&mut self, id: &str, handle: ExtHandle)
        ensures
            final(self).config == old(self).config,
            final(self)@ == with_handle(old(self)@, id@, handle@),
    {
        let ghost before = self@;
        let ghost value = handle@;
        let _ = self.extensions.insert(id.to_owned(), handle);
        assert(self@.extensions =~= before.extensions.insert(id@, value));
    }

    /// Takes a place in the window of the extension behind a route and prepares
    /// the message that carries the webhook.
    pub fn begin_dispatch(&mut self, route_key: &str, request: WebhookRequest) -> (r: Result<
        (DispatchTicket, SrvMsg),
        DispatchError,
    >)
        ensures
            final(self).config == old(self).config,
            daemon::consistent(old(self)@) ==> daemon::consistent(final(self)@),
            match resolved(
                old(self)@,
                text::texts(old(self).config.extensions.enabled@),
                route_key@,
            ) {
                Err(e) => final(self)@ == old(self)@ && r == Err::<
                    (DispatchTicket, SrvMsg),
                    DispatchError,
                >(e),
                Ok(id) => {
                    let handle = old(self)@.extensions[id];
                    if handle.in_flight >= old(self).config.limits.max_in_flight {
                        final(self)@ == old(self)@ && r == Err::<
                            (DispatchTicket, SrvMsg),
                            DispatchError,
                        >(DispatchError::Busy)
                    } else {
                        match r {
                            Ok((ticket, msg)) => {
                                let req_id = ticket.reservation.req_id;
                                &&& ticket.ext_id@ == id
                                &&& ticket.generation == handle.generation
                                &&& ticket.reservation.armed
                                &&& ids::is_random_uuid(req_id)
                                &&& text::texts(ticket.paths@) == handle.paths
                                &&& text::texts(ticket.channels@) == handle.channels
                                &&& carries(
                                    msg,
                                    request,
                                    req_id,
                                    secret_of(old(self).config.secrets@, handle.id),
                                )
                                &&& final(self)@ == with_handle(
                                    old(self)@,
                                    id,
                                    daemon::HandleValue {
                                        waiting: handle.waiting.insert(req_id),
                                        in_flight: handle.in_flight + if handle.waiting.contains(
                                            req_id,
                                        ) {
                                            0nat
                                        } else {
                                            1nat
                                        },
                                        ..handle
                                    },
                                )
                                &&& final(self)@.extensions[id].in_flight
                                    <= old(self).config.limits.max_in_flight
                            },
                            Err(_) => false,
                        }
                    }
                },
            },
    {
        let ghost before = self@;
        let ext_id: String = self.resolve_route(route_key)?;
        let max: usize = self.config.limits.max_in_flight;
        match self.extensions.remove(ext_id.as_str()) {
            Some(handle) => {
                let mut handle: ExtHandle = handle;
                assert(before.extensions[ext_id@] == handle@);
                let reserved: Option<DispatchReservation> = handle.dispatches.reserve(max);
                match reserved {
                    None => {
                        self.put_back(ext_id.as_str(), handle);
                        assert(self@.extensions =~= before.extensions);
                        Err(DispatchError::Busy)
                    },
                    Some(reservation) => {
                        let secret: Option<String> = match self.config.secrets.get(
                            handle.id.as_str(),
                        ) {
                            Some(secret) => Some(secret.clone()),
                            None => None,
                        };
                        let msg: SrvMsg = SrvMsg::Dispatch {
                            req_id: reservation.req_id,
                            method: request.method,
                            path: request.path,
                            query: request.query,
                            headers: request.headers,
                            body_b64: encoding::encode_base64(&request.body),
                            secret,
                        };
                        let generation: u128 = handle.generation;
                        let paths: Vec<String> = text::clone_texts(&handle.paths);
                        let channels: Vec<String> = text::clone_texts(&handle.channels);
                        let ghost value = handle@;
                        self.put_back(ext_id.as_str(), handle);
                        proof {
                            assert(self@.extensions =~= before.extensions.insert(ext_id@, value));
                            if daemon::consistent(before) {
                                handling_keeps_consistency(before, ext_id@, value);
                            }
                        }
                        Ok((
                            DispatchTicket { ext_id, generation, reservation, paths, channels },
                            msg,
                        ))
                    },
                }
            },
            None => Err(DispatchError::Starting),
        }
    }

    /// Gives the place of a dispatch back: it could not be sent, nobody waits for
    /// it any more, or it was not answered in time.
    pub fn abandon_dispatch(&mut self, ticket: &mut DispatchTicket)
        ensures
            final(self).config == old(self).config,
            daemon::consistent(old(self)@) ==> daemon::consistent(final(self)@),
            !final(ticket).reservation.armed,
            final(ticket).reservation.req_id == old(ticket).reservation.req_id,
            final(ticket).ext_id == old(ticket).ext_id,
            final(ticket).generation == old(ticket).generation,
            final(ticket).paths == old(ticket).paths,
            final(ticket).channels == old(ticket).channels,
            ({
                let id = old(ticket).ext_id@;
                let handle = old(self)@.extensions[id];
                let req_id = old(ticket).reservation.req_id;
                if old(ticket).reservation.armed && supervisor::current(
                    old(self)@,
                    id,
                    old(ticket).generation,
                ) && handle.waiting.contains(req_id) {
                    final(self)@ == with_handle(
                        old(self)@,
                        id,
                        daemon::HandleValue {
                            waiting: handle.waiting.remove(req_id),
                            in_flight: (handle.in_flight - 1) as nat,
                            ..handle
                        },
                    )
                } else {
                    final(self)@ == old(self)@
                }
            }),
    {
        let ghost before = self@;
        if ticket.reservation.armed && self.is_active(ticket.ext_id.as_str(), ticket.generation) {
            match self.extensions.remove(ticket.ext_id.as_str()) {
                Some(handle) => {
                    let mut handle: ExtHandle = handle;
                    let ghost known = handle@;
                    assert(before.extensions[ticket.ext_id@] == known);
                    let _ = ticket.reservation.remove_pending(&mut handle.dispatches);
                    let ghost value = handle@;
                    self.put_back(ticket.ext_id.as_str(), handle);
                    proof {
                        assert(self@.extensions =~= before.extensions.insert(
                            ticket.ext_id@,
                            value,
                        ));
                        if !known.waiting.contains(ticket.reservation.req_id) {
                            assert(known.waiting.remove(ticket.reservation.req_id)
                                =~= known.waiting);
                            assert(self@.extensions =~= before.extensions);
                        }
                        if daemon::consistent(before) {
                            handling_keeps_consistency(before, ticket.ext_id@, value);
                        }
                    }
                },
                None => {},
            }
        }
        ticket.reservation.armed = false;
    }

    /// Takes up the answer to a dispatch. Its events are held to what the
    /// extension had claimed; those that may go out are recorded and returned.
    pub fn finish_dispatch(
        &mut self,
        ticket: DispatchTicket,
        events: Vec<Event>,
        now_ms: u64,
    ) -> (out: Vec<Event>)
        ensures
            final(self).config == old(self).config,
            daemon::consistent(old(self)@) ==> daemon::consistent(final(self)@),
            messages::event_values(out@) == channel_claims::owned_events(
                messages::event_values(events@),
                text::texts(ticket.paths@),
                text::texts(ticket.channels@),
            ),
            ({
                let id = ticket.ext_id@;
                let handle = old(self)@.extensions[id];
                if supervisor::current(old(self)@, id, ticket.generation) {
                    final(self)@ == with_handle(
                        old(self)@,
                        id,
                        daemon::HandleValue {
                            namespace_violations: violations_after(
                                handle.namespace_violations,
                                events@.len() - out@.len(),
                            ),
                            event_stats: daemon::recorded(
                                handle.event_stats,
                                out@.len() as usize,
                                now_ms,
                            ),
                            ..handle
                        },
                    )
                } else {
                    final(self)@ == old(self)@
                }
            }),
    {
        let ghost before = self@;
        let mut violations: usize = 0;
        if self.is_active(ticket.ext_id.as_str(), ticket.generation) {
            match self.extensions.remove(ticket.ext_id.as_str()) {
                Some(handle) => {
                    let mut handle: ExtHandle = handle;
                    let ghost known = handle@;
                    assert(before.extensions[ticket.ext_id@] == known);
                    violations = handle.namespace_violations;
                    let out: Vec<Event> = filter_owned_events(
                        ticket.ext_id.as_str(),
                        &ticket.paths,
                        &ticket.channels,
                        &mut violations,
                        events,
                    );
                    handle.namespace_violations = violations;
                    handle.event_stats.record(out.len(), now_ms);
                    let ghost value = handle@;
                    self.put_back(ticket.ext_id.as_str(), handle);
                    proof {
                        assert(self@.extensions =~= before.extensions.insert(
                            ticket.ext_id@,
                            value,
                        ));
                        if daemon::consistent(before) {
                            handling_keeps_consistency(before, ticket.ext_id@, value);
                        }
                    }
                    return out;
                },
                None => {},
            }
        }
        filter_owned_events(
            ticket.ext_id.as_str(),
            &ticket.paths,
            &ticket.channels,
            &mut violations,
            events,
        )
    }

    /// Takes up that a dispatch was not answered in time. Where the timeouts in a
    /// row have just become too many, the reason is returned why the extension is
    /// to be killed.
    pub fn dispatch_timed_out(&mut self, ticket: &mut DispatchTicket) -> (kill: Option<String>)
        ensures
            final(self).config == old(self).config,
            daemon::consistent(old(self)@) ==> daemon::consistent(final(self)@),
            !final(ticket).reservation.armed,
            final(ticket).reservation.req_id == old(ticket).reservation.req_id,
            final(ticket).ext_id == old(ticket).ext_id,
            final(ticket).generation == old(ticket).generation,
            final(ticket).paths == old(ticket).paths,
            final(ticket).channels == old(ticket).channels,
            ({
                let id = old(ticket).ext_id@;
                let handle = old(self)@.extensions[id];
                let req_id = old(ticket).reservation.req_id;
                let timeouts = handle.consecutive_timeouts.wrapping_add(1);
                let threshold = supervisor::at_least_one(
                    old(self).config.limits.hang_kill_threshold as int,
                );
                if supervisor::current(old(self)@, id, old(ticket).generation) {
                    let released = old(ticket).reservation.armed && handle.waiting.contains(req_id);
                    &&& final(self)@ == with_handle(
                        old(self)@,
                        id,
                        daemon::HandleValue {
                            waiting: if released {
                                handle.waiting.remove(req_id)
                            } else {
                                handle.waiting
                            },
                            in_flight: if released {
                                (handle.in_flight - 1) as nat
                            } else {
                                handle.in_flight
                            },
                            consecutive_timeouts: timeouts,
                            ..handle
                        },
                    )
                    &&& match kill {
                        Some(reason) => timeouts == threshold && reason@ == text::decimal(
                            timeouts as nat,
                        ) + " consecutive dispatch timeouts"@,
                        None => timeouts != threshold,
                    }
                } else {
                    &&& final(self)@ == old(self)@
                    &&& kill is None
                }
            }),
    {
        let ghost before = self@;
        self.abandon_dispatch(ticket);
        let ghost middle = self@;
        if !self.is_active(ticket.ext_id.as_str(), ticket.generation) {
            return None;
        }
        let threshold: usize = if self.config.limits.hang_kill_threshold < 1 {
            1
        } else {
            self.config.limits.hang_kill_threshold
        };
        match self.extensions.remove(ticket.ext_id.as_str()) {
            Some(handle) => {
                let mut handle: ExtHandle = handle;
                assert(middle.extensions[ticket.ext_id@] == handle@);
                handle.consecutive_timeouts = handle.consecutive_timeouts.wrapping_add(1);
                let timeouts: usize = handle.consecutive_timeouts;
                let ghost value = handle@;
                self.put_back(ticket.ext_id.as_str(), handle);
                proof {
                    let id = ticket.ext_id@;
                    assert(self@.extensions =~= middle.extensions.insert(id, value));
                    assert(middle.extensions.insert(id, value) =~= before.extensions.insert(
                        id,
                        value,
                    ));
                    if daemon::consistent(before) {
                        handling_keeps_consistency(before, id, value);
                    }
                }
                if timeouts == threshold {
                    let mut reason: String = text::to_decimal(timeouts as u64);
                    reason.append(" consecutive dispatch timeouts");
                    Some(reason)
                } else {
                    None
                }
            },
            None => None,
        }
    }
}

/// What a message of an extension asks for, where its run is the current one.
pub open spec fn answers(
    action: ReaderAction,
    msg: ExtMsg,
    handle: daemon::HandleValue,
) -> bool {
    match msg {
        ExtMsg::Result { req_id, http, events } => if handle.waiting.contains(req_id) {
            match action {
                ReaderAction::Answer { req_id: id, http: reply, events: out } => {
                    &&& id == req_id
                    &&& reply == http
                    &&& messages::event_values(out@) == passed(
                        handle,
                        messages::event_values(events@),
                    )
                },
                _ => false,
            }
        } else {
            action == (ReaderAction::Unknown { req_id })
        },
        ExtMsg::Event { ev } => match action {
            ReaderAction::Fanout { events: out } => messages::event_values(out@) == passed(
                handle,
                seq![ev@],
            ),
            _ => false,
        },
        ExtMsg::Log { level, msg: line } => match action {
            ReaderAction::Log { level: l, msg: m } => l == level && m@ == line@,
            _ => false,
        },
        ExtMsg::Register { .. } => action is DuplicateRegister,
    }
}

/// What is known of an extension after one of its messages.
pub open spec fn after_message(
    handle: daemon::HandleValue,
    msg: ExtMsg,
    now_ms: u64,
) -> daemon::HandleValue {
    match msg {
        ExtMsg::Result { req_id, http: _, events } => if handle.waiting.contains(req_id) {
            daemon::HandleValue {
                waiting: handle.waiting.remove(req_id),
                in_flight: (handle.in_flight - 1) as nat,
                consecutive_timeouts: 0,
                ..after_filter(handle, messages::event_values(events@))
            }
        } else {
            handle
        },
        ExtMsg::Event { ev } => daemon::HandleValue {
            event_stats: daemon::recorded(
                handle.event_stats,
                passed(handle, seq![ev@]).len() as usize,
                now_ms,
            ),
            ..after_filter(handle, seq![ev@])
        },
        _ => handle,
    }
}

impl Daemon {
    /// Takes up a message of an extension. An answer is handed on only to a
    /// webhook that waits for it, and once; events are held to what the extension
    /// has claimed.
    pub fn on_ext_msg(
        &mut self,
        id: &str,
        generation: u128,
        msg: ExtMsg,
        now_ms: u64,
    ) -> (action: ReaderAction)
        ensures
            final(self).config == old(self).config,
            daemon::consistent(old(self)@) ==> daemon::consistent(final(self)@),
            if supervisor::current(old(self)@, id@, generation) {
                let handle = old(self)@.extensions[id@];
                &&& answers(action, msg, handle)
                &&& final(self)@ == with_handle(
                    old(self)@,
                    id@,
                    after_message(handle, msg, now_ms),
                )
            } else {
                &&& action is Stop
                &&& final(self)@ == old(self)@
            },
    {
        let ghost before = self@;
        if !self.is_active(id, generation) {
            return ReaderAction::Stop;
        }
        match self.extensions.remove(id) {
            Some(handle) => {
                let mut handle: ExtHandle = handle;
                let ghost known = handle@;
                assert(before.extensions[id@] == known);
                let action: ReaderAction = match msg {
                    ExtMsg::Result { req_id, http, events } => {
                        if handle.dispatches.remove(req_id) {
                            handle.consecutive_timeouts = 0;
                            let mut violations: usize = handle.namespace_violations;
                            let out: Vec<Event> = filter_owned_events(
                                id,
                                &handle.paths,
                                &handle.channels,
                                &mut violations,
                                events,
                            );
                            handle.namespace_violations = violations;
                            proof {
                                assert(messages::event_values(out@).len() == out@.len());
                                assert(messages::event_values(events@).len() == events@.len());
                            }
                            ReaderAction::Answer { req_id, http, events: out }
                        } else {
                            assert(known.waiting.remove(req_id) =~= known.waiting);
                            ReaderAction::Unknown { req_id }
                        }
                    },
                    ExtMsg::Event { ev } => {
                        let mut violations: usize = handle.namespace_violations;
                        let mut events: Vec<Event> = Vec::new();
                        events.push(ev);
                        assert(messages::event_values(events@) =~= seq![ev@]);
                        let out: Vec<Event> = filter_owned_events(
                            id,
                            &handle.paths,
                            &handle.channels,
                            &mut violations,
                            events,
                        );
                        handle.namespace_violations = violations;
                        handle.event_stats.record(out.len(), now_ms);
                        proof {
                            assert(messages::event_values(out@).len() == out@.len());
                        }
                        ReaderAction::Fanout { events: out }
                    },
                    ExtMsg::Log { level, msg: line } => ReaderAction::Log { level, msg: line },
                    ExtMsg::Register { protocol: _, id: _, paths: _, channels: _, meta: _ } => {
                        ReaderAction::DuplicateRegister
                    },
                };
                let ghost value = handle@;
                self.put_back(id, handle);
                proof {
                    assert(value == after_message(known, msg, now_ms));
                    assert(self@.extensions =~= before.extensions.insert(id@, value));
                    if daemon::consistent(before) {
                        handling_keeps_consistency(before, id@, value);
                    }
                }
                action
            },
            None => ReaderAction::Stop,
        }
    }

    /// Takes up a line of an extension that is no message. Where these lines have
    /// become too many, the reason is returned why the extension is to be killed.
    pub fn on_protocol_error(&mut self, id: &str, generation: u128) -> (kill: Option<String>)
        ensures
            final(self).config == old(self).config,
            daemon::consistent(old(self)@) ==> daemon::consistent(final(self)@),
            if supervisor::current(old(self)@, id@, generation) {
                let handle = old(self)@.extensions[id@];
                let count = handle.protocol_errors.wrapping_add(1);
                &&& final(self)@ == with_handle(
                    old(self)@,
                    id@,
                    daemon::HandleValue { protocol_errors: count, ..handle },
                )
                &&& match kill {
                    Some(reason) => count >= supervisor::at_least_one(
                        old(self).config.limits.max_protocol_errors as int,
                    ) && reason@ == text::decimal(count as nat) + " protocol errors"@,
                    None => count < supervisor::at_least_one(
                        old(self).config.limits.max_protocol_errors as int,
                    ),
                }
            } else {
                &&& kill is None
                &&& final(self)@ == old(self)@
            },
    {
        let ghost before = self@;
        if !self.is_active(id, generation) {
            return None;
        }
        let threshold: usize = if self.config.limits.max_protocol_errors < 1 {
            1
        } else {
            self.config.limits.max_protocol_errors
        };
        match self.extensions.remove(id) {
            Some(handle) => {
                let mut handle: ExtHandle = handle;
                assert(before.extensions[id@] == handle@);
                handle.protocol_errors = handle.protocol_errors.wrapping_add(1);
                let count: usize = handle.protocol_errors;
                let ghost value = handle@;
                self.put_back(id, handle);
                proof {
                    assert(self@.extensions =~= before.extensions.insert(id@, value));
                    if daemon::consistent(before) {
                        handling_keeps_consistency(before, id@, value);
                    }
                }
                if count >= threshold {
                    let mut reason: String = text::to_decimal(count as u64);
                    reason.append(" protocol errors");
                    Some(reason)
                } else {
                    None
                }
            },
            None => None,
        }
    }

    /// Whether an extension has finished what it was at: no request waits for it,
    /// or its run is over.
    pub fn is_drained(&self, id: &str, generation: u128) -> (drained: bool)
        ensures
            drained == (!supervisor::current(self@, id@, generation)
                || self@.extensions[id@].waiting == Set::<u128>::empty()),
    {
        match self.extensions.get(id) {
            Some(handle) => handle.generation != generation || handle.dispatches.is_idle(),
            None => true,
        }
    }
}

/// An answer that was handed on, or that came too late, is not handed on again:
/// the request waits no more, so that a second answer finds nobody.
pub proof fn answers_are_handed_on_once(
    handle: daemon::HandleValue,
    req_id: u128,
    http: HttpReply,
    events: Vec<Event>,
    again: ExtMsg,
    now_ms: u64,
    action: ReaderAction,
)
    requires
        answers(
            action,
            again,
            after_message(handle, ExtMsg::Result { req_id, http, events }, now_ms),
        ),
        match again {
            ExtMsg::Result { req_id: id, .. } => id == req_id,
            _ => false,
        },
    ensures
        action == (ReaderAction::Unknown { req_id }),
{
}

/// An extension that has registered is reached under its own identifier and under
/// each path id that it claimed.
pub proof fn registered_extension_is_reached(
    state: daemon::DaemonValue,
    candidate_id: Seq<char>,
    handle: daemon::HandleValue,
    enabled: Seq<Seq<char>>,
    path: Seq<char>,
)
    requires
        handle.paths.contains(path),
    ensures
        resolved(daemon::registered(state, candidate_id, handle), enabled, path) == Ok::<
            Seq<char>,
            DispatchError,
        >(handle.id),
{
    daemon::lemma_with_keys_is_granted(state.routes, handle.paths, handle.id);
}

/// The answer to a dispatch reaches the webhook that waits for it, unchanged, and
/// gives the place of the dispatch back: the window is as it was before.
pub proof fn answered_dispatch_gives_its_place_back(
    handle: daemon::HandleValue,
    req_id: u128,
    http: HttpReply,
    events: Vec<Event>,
    now_ms: u64,
    action: ReaderAction,
)
    requires
        !handle.waiting.contains(req_id),
        answers(
            action,
            ExtMsg::Result { req_id, http, events },
            daemon::HandleValue {
                waiting: handle.waiting.insert(req_id),
                in_flight: handle.in_flight + 1,
                ..handle
            },
        ),
    ensures
        match action {
            ReaderAction::Answer { req_id: id, http: reply, .. } => id == req_id && reply == http,
            _ => false,
        },
        ({
            let after = after_message(
                daemon::HandleValue {
                    waiting: handle.waiting.insert(req_id),
                    in_flight: handle.in_flight + 1,
                    ..handle
                },
                ExtMsg::Result { req_id, http, events },
                now_ms,
            );
            after.waiting == handle.waiting && after.in_flight == handle.in_flight
        }),
{
    assert(handle.waiting.insert(req_id).remove(req_id) =~= handle.waiting);
}

/// Nothing that an extension sends reaches a subscriber outside the namespace of
/// the extension.
pub proof fn nothing_leaves_the_namespace(
    handle: daemon::HandleValue,
    events: Seq<messages::EventValue>,
    i: int,
)
    requires
        0 <= i < passed(handle, events).len(),
    ensures
        channel_claims::may_emit(passed(handle, events)[i], handle.paths, handle.channels),
{
    let keep = |event: messages::EventValue|
        channel_claims::may_emit(event, handle.paths, handle.channels);
    events.lemma_filter_pred(keep, i);
}

/// Changing what is known of a running extension, but neither its identifiers nor
/// its claims, keeps the state consistent.
pub proof fn handling_keeps_consistency(
    state: daemon::DaemonValue,
    id: Seq<char>,
    handle: daemon::HandleValue,
)
    requires
        daemon::consistent(state),
        state.extensions.contains_key(id),
        handle.id == state.extensions[id].id,
        handle.candidate_id == state.extensions[id].candidate_id,
    ensures
        daemon::consistent(with_handle(state, id, handle)),
{
    let after = with_handle(state, id, handle);
    assert forall|path: Seq<char>| #[trigger]
        after.routes.contains_key(path) implies after.extensions.contains_key(
        after.routes[path],
    ) by {
        assert(state.routes.contains_key(path));
    }
    assert forall|prefix: Seq<char>| #[trigger]
        after.prefixes.contains_key(prefix) implies after.extensions.contains_key(
        after.prefixes[prefix],
    ) by {
        assert(state.prefixes.contains_key(prefix));
    }
    assert forall|a: Seq<char>, b: Seq<char>|
        #![trigger after.extensions.contains_key(a), after.extensions.contains_key(b)]
        after.extensions.contains_key(a) && after.extensions.contains_key(b)
            && after.extensions[a].candidate_id == after.extensions[b].candidate_id implies a
        == b by {
        assert(state.extensions.contains_key(a) && state.extensions.contains_key(b));
    }
    assert forall|a: Seq<char>| #[trigger] after.extensions.contains_key(a) implies after.extensions[a].id
        == a by {
        assert(state.extensions.contains_key(a));
    }
}

/// Webhooks for an extension that is in a crash loop are refused as failed, by
/// whichever of its path ids they come, unless another extension serves it.
pub proof fn crash_looping_routes_have_failed(
    state: daemon::DaemonValue,
    id: Seq<char>,
    reason: Seq<char>,
    now_ms: u64,
    limits: LimitsConfig,
    enabled: Seq<Seq<char>>,
    key: Seq<char>,
)
    requires
        state.extensions.contains_key(id),
        state.extensions[id].paths.contains(key) || key == state.extensions[id].candidate_id,
        supervisor::crashloops(
            supervisor::cleaned(state, id, reason, true),
            state.extensions[id].candidate_id,
            now_ms,
            limits,
        ),
    ensures
        ({
            let candidate = state.extensions[id].candidate_id;
            let after = supervisor::claims_noted(
                supervisor::exit_recorded(
                    supervisor::cleaned(state, id, reason, true),
                    candidate,
                    now_ms,
                    limits,
                ),
                candidate,
                state.extensions[id].paths,
            );
            !after.routes.contains_key(key) ==> resolved(after, enabled, key) == Err::<
                Seq<char>,
                DispatchError,
            >(DispatchError::Failed)
        }),
{
    let candidate = state.extensions[id].candidate_id;
    let after = supervisor::claims_noted(
        supervisor::exit_recorded(
            supervisor::cleaned(state, id, reason, true),
            candidate,
            now_ms,
            limits,
        ),
        candidate,
        state.extensions[id].paths,
    );
    assert(after.failed.contains_key(candidate));
    assert(supervisor::record_of(after, candidate).claims == state.extensions[id].paths);
}

/// A path id leads to the extension that has claimed it, where that runs. Otherwise it
/// is refused: as failed where its candidate has failed, as starting where it is enabled
/// or is known to be unavailable, and as unknown where nothing is known of it.
pub proof fn where_webhooks_go(
    state: daemon::DaemonValue,
    enabled: Seq<Seq<char>>,
    key: Seq<char>,
    id: Seq<char>,
)
    ensures
        state.routes.contains_key(key) && state.routes[key] == id && state.extensions.contains_key(
            id,
        ) ==> resolved(state, enabled, key) == Ok::<Seq<char>, DispatchError>(id),
        state.routes.contains_key(key) && !state.extensions.contains_key(state.routes[key])
            ==> resolved(state, enabled, key) == Err::<Seq<char>, DispatchError>(
            DispatchError::Starting,
        ),
        !state.routes.contains_key(key) && state.failed.contains_key(key) ==> resolved(
            state,
            enabled,
            key,
        ) == Err::<Seq<char>, DispatchError>(DispatchError::Failed),
        !state.routes.contains_key(key) && state.failed == Map::<Seq<char>, Seq<char>>::empty() && (
        enabled.contains(key) || state.unavailable.contains_key(key)) ==> resolved(
            state,
            enabled,
            key,
        ) == Err::<Seq<char>, DispatchError>(DispatchError::Starting),
        !state.routes.contains_key(key) && state.failed == Map::<Seq<char>, Seq<char>>::empty()
            && !enabled.contains(key) && !state.unavailable.contains_key(key) ==> resolved(
            state,
            enabled,
            key,
        ) == Err::<Seq<char>, DispatchError>(DispatchError::NotFound),
        resolved(state, enabled, key) is Ok ==> state.extensions.contains_key(
            resolved(state, enabled, key)->Ok_0,
        ),
{
}

/// A dispatch carries the webhook as it came, under its identifier, with the secret of
/// the extension alone; from its body the exact bytes are read.
pub proof fn dispatches_carry_the_webhook(
    msg: SrvMsg,
    request: WebhookRequest,
    id: u128,
    given: Option<Seq<char>>,
)
    requires
        carries(msg, request, id, given),
    ensures
        match msg {
            SrvMsg::Dispatch { req_id, method, path, query, headers, body_b64, secret } => {
                &&& req_id == id
                &&& method@ == request.method@
                &&& path@ == request.path@
                &&& match (query, request.query) {
                    (Some(a), Some(b)) => a@ == b@,
                    (None, None) => true,
                    _ => false,
                }
                &&& headers@ == request.headers@
                &&& ext_kit::decoded(body_b64@) == Some(request.body@)
                &&& match (secret, given) {
                    (Some(a), Some(b)) => a@ == b,
                    (None, None) => true,
                    _ => false,
                }
            },
            SrvMsg::Shutdown => false,
        },
{
    ext_kit::decoded_undoes_base64(request.body@);
}

/// An extension gets the secret that is configured under its identifier, and none
/// where none is.
pub proof fn extensions_get_their_own_secret(
    secrets: Map<Seq<char>, String>,
    id: Seq<char>,
    other: Seq<char>,
    secret: String,
)
    ensures
        secret_of(secrets.insert(id, secret), id) == Some(secret@),
        secret_of(secrets.remove(id), id) is None,
        other != id ==> secret_of(secrets.insert(other, secret), id) == secret_of(secrets, id),
{
}

/// Each event that may not go out counts as one violation of the namespace.
pub proof fn violations_are_counted(
    handle: daemon::HandleValue,
    events: Seq<messages::EventValue>,
)
    requires
        handle.namespace_violations + events.len() <= usize::MAX,
    ensures
        after_filter(handle, events).namespace_violations == handle.namespace_violations
            + events.len() - passed(handle, events).len(),
        after_filter(handle, events) == (daemon::HandleValue {
            namespace_violations: after_filter(handle, events).namespace_violations,
            ..handle
        }),
        passed(handle, events).len() <= events.len(),
{
    let keep = |event: messages::EventValue|
        channel_claims::may_emit(event, handle.paths, handle.channels);
    events.lemma_filter_len(keep);
    let sum = handle.namespace_violations + events.len() - passed(handle, events).len();
    vstd::arithmetic::div_mod::lemma_small_mod(sum as nat, (usize::MAX + 1) as nat);
}

/// An answer ends a run of timeouts and frees its place, and its own events are not yet
/// counted; an event counts if it may go out, and as a violation if not. Every other
/// message, and an answer that nobody waits for, changes nothing.
pub proof fn what_messages_change(
    handle: daemon::HandleValue,
    msg: ExtMsg,
    now_ms: u64,
)
    requires
        handle.namespace_violations < usize::MAX,
        handle.event_stats.emitted < usize::MAX,
    ensures
        match msg {
            ExtMsg::Result { req_id, .. } => if handle.waiting.contains(req_id) {
                let after = after_message(handle, msg, now_ms);
                &&& !after.waiting.contains(req_id)
                &&& forall|other: u128|
                    other != req_id ==> (#[trigger] after.waiting.contains(other)
                        <==> handle.waiting.contains(other))
                &&& handle.in_flight > 0 ==> after.in_flight == handle.in_flight - 1
                &&& after.consecutive_timeouts == 0
                &&& after.event_stats == handle.event_stats
                &&& after.protocol_errors == handle.protocol_errors
            } else {
                after_message(handle, msg, now_ms) == handle
            },
            ExtMsg::Event { ev } => {
                let after = after_message(handle, msg, now_ms);
                let owned = channel::valid_channel(ev@.channel) && channel_claims::owns(
                    ev@.channel,
                    handle.paths,
                    handle.channels,
                );
                &&& after.event_stats.emitted == handle.event_stats.emitted + if owned {
                    1int
                } else {
                    0
                }
                &&& after.event_stats.last_at_ms == (if owned {
                    now_ms
                } else {
                    handle.event_stats.last_at_ms
                })
                &&& after.namespace_violations == handle.namespace_violations + if owned {
                    0int
                } else {
                    1
                }
                &&& after.waiting == handle.waiting
                &&& after.in_flight == handle.in_flight
                &&& after.consecutive_timeouts == handle.consecutive_timeouts
            },
            ExtMsg::Log { .. } => after_message(handle, msg, now_ms) == handle,
            ExtMsg::Register { .. } => after_message(handle, msg, now_ms) == handle,
        },
{
    match msg {
        ExtMsg::Event { ev } => {
            let one = seq![ev@];
            let none = Seq::<messages::EventValue>::empty();
            assert(one =~= none.push(ev@));
            channel_claims::owned_events_go_out(none, ev@, handle.paths, handle.channels);
            violations_are_counted(handle, one);
        },
        _ => {},
    }
}

/// An event of an extension that may go out is fanned out as it came, and one that may
/// not is not; a line for the log is handed on as it came.
pub proof fn what_messages_ask_for(handle: daemon::HandleValue, msg: ExtMsg, action: ReaderAction)
    requires
        answers(action, msg, handle),
    ensures
        match msg {
            ExtMsg::Event { ev } => match action {
                ReaderAction::Fanout { events } => if channel::valid_channel(ev@.channel)
                    && channel_claims::owns(ev@.channel, handle.paths, handle.channels) {
                    events@.len() == 1 && events@[0]@ == ev@
                } else {
                    events@.len() == 0
                },
                _ => false,
            },
            ExtMsg::Log { level, msg: line } => match action {
                ReaderAction::Log { level: l, msg: m } => l == level && m@ == line@,
                _ => false,
            },
            ExtMsg::Result { req_id, http, .. } => match action {
                ReaderAction::Answer { req_id: id, http: reply, .. } => {
                    handle.waiting.contains(req_id) && id == req_id && reply == http
                },
                ReaderAction::Unknown { req_id: id } => {
                    !handle.waiting.contains(req_id) && id == req_id
                },
                _ => false,
            },
            ExtMsg::Register { .. } => action is DuplicateRegister,
        },
{
    match (msg, action) {
        (ExtMsg::Event { ev }, ReaderAction::Fanout { events }) => {
            let none = Seq::<messages::EventValue>::empty();
            assert(seq![ev@] =~= none.push(ev@));
            channel_claims::owned_events_go_out(none, ev@, handle.paths, handle.channels);
            let out = messages::event_values(events@);
            assert(out.len() == events@.len());
            if events@.len() == 1 {
                assert(out[0] == events@[0]@);
            }
        },
        _ => {},
    }
}

} // verus!
