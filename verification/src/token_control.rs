//! Token management over the control socket.
//!
//! A change of the tokens is planned on a copy of the store. Only once the copy
//! has been written to disk does it take the place of the store, so that what
//! runs and what is stored never differ.

use vstd::prelude::*;

use crate::messages::{ClosingReason, ControlRequest, ControlResponse, TokenSummary};
use crate::subscribers;
use crate::subscribers::SubscriberRegistry;
use crate::text;
use crate::token_store;
use crate::token_store::TokenStore;

verus! {

/// A change of the tokens that waits to be written to disk.
pub struct TokenPlan {
    /// The store as it will be.
    pub next: TokenStore,
    /// The name that is changed.
    pub name: String,
    /// The token that was minted, if one was.
    pub token: Option<String>,
    /// Whether the connections of the name are to close.
    pub closes: bool,
}

/// Plans to mint a token under a new name.
pub fn plan_add(store: &TokenStore, name: String) -> (r: Result<TokenPlan, String>)
    ensures
        r is Ok <==> token_store::valid_name(name@) && !store@.tokens.contains_key(name@),
        match r {
            Ok(plan) => plan.name@ == name@ && !plan.closes && mints(plan, *store),
            Err(msg) => msg@ == token_store::fault_message(
                if !token_store::valid_name(name@) {
                    token_store::TokenFault::InvalidName { name: name@ }
                } else {
                    token_store::TokenFault::NameExists { name: name@ }
                },
            ),
        },
{
    let mut next: TokenStore = store.copy();
    match next.add(name.as_str()) {
        Ok(token) => Ok(TokenPlan { next, name, token: Some(token), closes: false }),
        Err(e) => Err(e.message()),
    }
}

/// Plans to mint a new token for a name; its connections close.
pub fn plan_rotate(store: &TokenStore, name: String) -> (r: Result<TokenPlan, String>)
    ensures
        r is Ok <==> token_store::valid_name(name@) && store@.tokens.contains_key(name@),
        match r {
            Ok(plan) => plan.name@ == name@ && plan.closes && mints(plan, *store),
            Err(msg) => msg@ == token_store::fault_message(
                if !token_store::valid_name(name@) {
                    token_store::TokenFault::InvalidName { name: name@ }
                } else {
                    token_store::TokenFault::UnknownName { name: name@ }
                },
            ),
        },
{
    let mut next: TokenStore = store.copy();
    match next.rotate(name.as_str()) {
        Ok(token) => Ok(TokenPlan { next, name, token: Some(token), closes: true }),
        Err(e) => Err(e.message()),
    }
}

/// Plans to forget a name; its connections close.
pub fn plan_revoke(store: &TokenStore, name: String) -> (r: Result<TokenPlan, String>)
    ensures
        r is Ok <==> store@.tokens.contains_key(name@),
        match r {
            Ok(plan) => plan.name@ == name@ && plan.closes && plan.token is None && plan.next@ == (
            token_store::StoreValue { tokens: store@.tokens.remove(name@), ..store@ }),
            Err(msg) => msg@ == token_store::fault_message(
                token_store::TokenFault::UnknownName { name: name@ },
            ),
        },
{
    let mut next: TokenStore = store.copy();
    match next.revoke(name.as_str()) {
        Ok(()) => Ok(TokenPlan { next, name, token: None, closes: true }),
        Err(e) => Err(e.message()),
    }
}

/// Whether a plan puts a freshly minted token in the place of what the store has
/// under its name.
pub open spec fn mints(plan: TokenPlan, store: TokenStore) -> bool {
    match plan.token {
        Some(token) => {
            &&& token_store::is_token(token@)
            &&& token_store::mints_into(store@, plan.next@, plan.name@, token@)
            &&& token_store::keeps_no_token(store@.tokens) ==> token_store::keeps_no_token(
                plan.next@.tokens,
            )
        },
        None => false,
    }
}

/// Answers a change of the tokens once it is known whether the store could be
/// written. Where it could, the change takes effect and the connections that it
/// concerns close; where not, nothing has happened.
pub fn finish(
    store: &mut TokenStore,
    registry: &mut SubscriberRegistry,
    plan: TokenPlan,
    persisted: Result<(), String>,
) -> (response: ControlResponse)
    ensures
        match persisted {
            Ok(()) => {
                &&& final(store)@ == plan.next@
                &&& final(registry)@ == if plan.closes {
                    old(registry)@.each(
                        |s: subscribers::SubscriberValue|
                            if s.name == plan.name@ {
                                subscribers::asked_to_close(s, ClosingReason::Revoked)
                            } else {
                                s
                            },
                    )
                } else {
                    old(registry)@
                }
                &&& match (plan.token, response) {
                    (
                        Some(minted),
                        ControlResponse::Token { name, token },
                    ) => name@ == plan.name@ && token@ == minted@,
                    (None, ControlResponse::Done) => true,
                    _ => false,
                }
            },
            Err(why) => {
                &&& final(store)@ == old(store)@
                &&& final(registry)@ == old(registry)@
                &&& match response {
                    ControlResponse::Error { msg } => msg@ == why@,
                    _ => false,
                }
            },
        },
        old(registry)@.ids_unique() ==> final(registry)@.ids_unique(),
{
    match persisted {
        Ok(()) => {
            *store = plan.next;
            if plan.closes {
                registry.close_named(plan.name.as_str(), ClosingReason::Revoked);
            }
            match plan.token {
                Some(token) => ControlResponse::Token { name: plan.name, token },
                None => ControlResponse::Done,
            }
        },
        Err(why) => ControlResponse::Error { msg: why },
    }
}

/// Lists the tokens, with the number of connections that each has.
pub fn list(store: &TokenStore, registry: &SubscriberRegistry) -> (response: ControlResponse)
    ensures
        lists_all(response, *store, *registry),
{
    let active = registry.active_connection_counts();
    let rows: Vec<TokenSummary> = store.list(&active);
    assert forall|i: int| 0 <= i < rows@.len() implies lists(
        #[trigger] rows@[i],
        store.tokens.key_seq()[i],
        *store,
        *registry,
    ) by {
        let name = store.tokens.key_seq()[i];
        assert(token_store::summarises(rows@[i], name, store@.tokens[name], active@));
        assert(active@.contains_key(name) <==> subscribers::connections_of(
            registry@.subscribers,
            name,
        ) > 0);
    }
    ControlResponse::Tokens { tokens: rows }
}

/// Whether an answer shows every token, in the order of their names.
pub open spec fn lists_all(
    response: ControlResponse,
    store: TokenStore,
    registry: SubscriberRegistry,
) -> bool {
    match response {
        ControlResponse::Tokens { tokens } => {
            &&& tokens@.len() == store.tokens.key_seq().len()
            &&& store.tokens.keys_agree()
            &&& forall|i: int|
                0 <= i < tokens@.len() ==> lists(
                    #[trigger] tokens@[i],
                    store.tokens.key_seq()[i],
                    store,
                    registry,
                )
        },
        _ => false,
    }
}

/// Whether a summary shows the token `name`, with its connections.
pub open spec fn lists(
    summary: TokenSummary,
    name: Seq<char>,
    store: TokenStore,
    registry: SubscriberRegistry,
) -> bool {
    &&& summary.name@ == name
    &&& summary.fingerprint@ == token_store::fingerprint_of(store@.tokens[name].hash)
    &&& summary.created@ == store@.tokens[name].created
    &&& summary.active_conns == subscribers::connections_of(registry@.subscribers, name)
}

/// A subscriber once another store of tokens is in force: its connection is asked
/// to close where the token of its name is gone or another one.
pub open spec fn under_other_tokens(
    held: Map<Seq<char>, token_store::RecordValue>,
    next: Map<Seq<char>, token_store::RecordValue>,
    s: subscribers::SubscriberValue,
) -> subscribers::SubscriberValue {
    if token_store::invalidated(held, next, s.name) {
        subscribers::asked_to_close(s, ClosingReason::Revoked)
    } else {
        s
    }
}

/// Puts another store in the place of the one in force, as when the configuration
/// is read again. The connections of the names whose tokens are gone or others are
/// asked to close.
pub fn adopt(store: &mut TokenStore, registry: &mut SubscriberRegistry, next: TokenStore)
    ensures
        final(store)@ == next@,
        final(registry)@ == old(registry)@.each(
            |s: subscribers::SubscriberValue|
                under_other_tokens(old(store)@.tokens, next@.tokens, s),
        ),
        old(registry)@.ids_unique() ==> final(registry)@.ids_unique(),
{
    let names: Vec<String> = store.invalidated_names(&next);
    let ghost held = store@.tokens;
    let ghost all = text::texts(names@);
    let ghost before = registry@;
    let mut i: usize = 0;
    while i < names.len()
        invariant
            i <= names@.len(),
            all == text::texts(names@),
            registry@.next_id == before.next_id,
            registry@.live_head == before.live_head,
            registry@.subscribers.len() == before.subscribers.len(),
            before.ids_unique() ==> registry@.ids_unique(),
            forall|k: int|
                0 <= k < before.subscribers.len() ==> (#[trigger] registry@.subscribers[k]) == if all.take(
                    i as int,
                ).contains(before.subscribers[k].name) {
                    subscribers::asked_to_close(before.subscribers[k], ClosingReason::Revoked)
                } else {
                    before.subscribers[k]
                },
        decreases names@.len() - i,
    {
        let ghost past = all.take(i as int);
        let ghost now = all.take(i as int + 1);
        assert(all[i as int] == names@[i as int]@);
        assert forall|n: Seq<char>| #[trigger] now.contains(n) <==> past.contains(n) || n
            == all[i as int] by {
            if now.contains(n) {
                let j = now.index_of(n);
                if j < i {
                    assert(past[j] == n);
                }
            }
            if past.contains(n) {
                assert(now[past.index_of(n)] == n);
            }
            assert(now[i as int] == all[i as int]);
        }
        registry.close_named(names[i].as_str(), ClosingReason::Revoked);
        i += 1;
    }
    assert(all.take(i as int) =~= all);
    assert(registry@.subscribers =~= before.each(
        |s: subscribers::SubscriberValue| under_other_tokens(held, next@.tokens, s),
    ).subscribers);
    *store = next;
}

/// What answers a request on the control socket.
pub enum ControlStep {
    /// The answer is known.
    Answer(ControlResponse),
    /// The change has first to be written to disk; [`finish`] gives the answer.
    Persist(TokenPlan),
    /// The answer is the status of the router.
    Status,
}

/// Decides what answers a request on the control socket.
pub fn handle_control_request(
    store: &TokenStore,
    registry: &SubscriberRegistry,
    request: ControlRequest,
) -> (step: ControlStep)
    ensures
        match request {
            ControlRequest::Status => step is Status,
            ControlRequest::TokenAdd { name } => match step {
                ControlStep::Persist(plan) => {
                    &&& token_store::valid_name(name@)
                    &&& !store@.tokens.contains_key(name@)
                    &&& plan.name@ == name@
                    &&& !plan.closes
                    &&& mints(plan, *store)
                },
                ControlStep::Answer(ControlResponse::Error { msg }) => if !token_store::valid_name(
                    name@,
                ) {
                    msg@ == token_store::fault_message(
                        token_store::TokenFault::InvalidName { name: name@ },
                    )
                } else {
                    &&& store@.tokens.contains_key(name@)
                    &&& msg@ == token_store::fault_message(
                        token_store::TokenFault::NameExists { name: name@ },
                    )
                },
                _ => false,
            },
            ControlRequest::TokenRotate { name } => match step {
                ControlStep::Persist(plan) => {
                    &&& token_store::valid_name(name@)
                    &&& store@.tokens.contains_key(name@)
                    &&& plan.name@ == name@
                    &&& plan.closes
                    &&& mints(plan, *store)
                },
                ControlStep::Answer(ControlResponse::Error { msg }) => if !token_store::valid_name(
                    name@,
                ) {
                    msg@ == token_store::fault_message(
                        token_store::TokenFault::InvalidName { name: name@ },
                    )
                } else {
                    &&& !store@.tokens.contains_key(name@)
                    &&& msg@ == token_store::fault_message(
                        token_store::TokenFault::UnknownName { name: name@ },
                    )
                },
                _ => false,
            },
            ControlRequest::TokenRevoke { name } => match step {
                ControlStep::Persist(plan) => {
                    &&& store@.tokens.contains_key(name@)
                    &&& plan.name@ == name@
                    &&& plan.closes
                    &&& plan.token is None
                    &&& plan.next@ == (token_store::StoreValue {
                        tokens: store@.tokens.remove(name@),
                        ..store@
                    })
                },
                ControlStep::Answer(ControlResponse::Error { msg }) => {
                    &&& !store@.tokens.contains_key(name@)
                    &&& msg@ == token_store::fault_message(
                        token_store::TokenFault::UnknownName { name: name@ },
                    )
                },
                _ => false,
            },
            ControlRequest::TokenList => match step {
                ControlStep::Answer(response) => lists_all(response, *store, *registry),
                _ => false,
            },
        },
{
    let planned: Result<TokenPlan, String> = match request {
        ControlRequest::Status => {
            return ControlStep::Status;
        },
        ControlRequest::TokenList => {
            return ControlStep::Answer(list(store, registry));
        },
        ControlRequest::TokenAdd { name } => plan_add(store, name),
        ControlRequest::TokenRotate { name } => plan_rotate(store, name),
        ControlRequest::TokenRevoke { name } => plan_revoke(store, name),
    };
    match planned {
        Ok(plan) => ControlStep::Persist(plan),
        Err(msg) => ControlStep::Answer(ControlResponse::Error { msg }),
    }
}

/// When other tokens come into force, the connections of a name are asked to close if
/// and only if its token is gone or is another; nothing else of them changes.
pub proof fn stale_connections_close(
    held: Map<Seq<char>, token_store::RecordValue>,
    next: Map<Seq<char>, token_store::RecordValue>,
    s: subscribers::SubscriberValue,
)
    ensures
        held.contains_key(s.name) && !next.contains_key(s.name) ==> under_other_tokens(
            held,
            next,
            s,
        ).closing == Some(ClosingReason::Revoked),
        held.contains_key(s.name) && next.contains_key(s.name) && (next[s.name].hash
            != held[s.name].hash || next[s.name].created != held[s.name].created)
            ==> under_other_tokens(held, next, s).closing == Some(ClosingReason::Revoked),
        held.contains_key(s.name) && next.contains_key(s.name) && next[s.name] == held[s.name]
            ==> under_other_tokens(held, next, s) == s,
        under_other_tokens(held, next, s).id == s.id,
        under_other_tokens(held, next, s).name == s.name,
        under_other_tokens(held, next, s).patterns == s.patterns,
        under_other_tokens(held, next, s).queue == s.queue,
{
}

/// The answer to a request for the tokens has one row for each token of the store, under
/// its name and in the order of the names, with its time and with the number of the
/// connections that are open under it.
pub proof fn tokens_are_listed(
    response: ControlResponse,
    store: TokenStore,
    registry: SubscriberRegistry,
)
    requires
        lists_all(response, store, registry),
    ensures
        match response {
            ControlResponse::Tokens { tokens } => {
                &&& tokens@.len() == store.tokens.key_seq().len()
                &&& forall|i: int|
                    0 <= i < tokens@.len() ==> {
                        let row = #[trigger] tokens@[i];
                        &&& row.name@ == store.tokens.key_seq()[i]
                        &&& row.created@ == store@.tokens[row.name@].created
                        &&& row.fingerprint@ == token_store::fingerprint_of(
                            store@.tokens[row.name@].hash,
                        )
                        &&& row.active_conns == subscribers::connections_of(
                            registry@.subscribers,
                            row.name@,
                        )
                    }
            },
            _ => false,
        },
{
}

} // verus!
