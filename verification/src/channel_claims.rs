//! What an extension may claim, and what it may emit.
//!
//! An extension claims path ids and channel prefixes when it registers. It may
//! emit only under those, and no claim may collide with the routes or prefixes
//! of another extension.

use vstd::prelude::*;
use vstd::string::*;

use crate::channel;
use crate::channel::{validate_channel, valid_plain_token, ChannelError};
use crate::messages;
use crate::messages::Event;
use crate::string_map;
use crate::string_map::StringMap;
use crate::text;

verus! {

/// Why a claim or an emitted channel is refused.
#[derive(Debug)]
pub enum ClaimError {
    InvalidPathClaim { claim: String },
    DuplicatePathClaim { claim: String },
    PathCollision { claim: String, owner: String },
    PathPrefixCollision { claim: String, prefix: String, owner: String },
    InvalidPrefix { prefix: String, error: ChannelError },
    PrefixesCollide { prefix: String, other: String },
    PrefixRouteCollision { prefix: String, route: String, owner: String },
    PrefixCollision { prefix: String, existing: String, owner: String },
    InvalidEventChannel { channel: String, error: ChannelError },
    NotOwned { channel: String, ext_id: String },
}

/// The value of a [`ClaimError`].
pub enum ClaimFault {
    InvalidPathClaim { claim: Seq<char> },
    DuplicatePathClaim { claim: Seq<char> },
    PathCollision { claim: Seq<char>, owner: Seq<char> },
    PathPrefixCollision { claim: Seq<char>, prefix: Seq<char>, owner: Seq<char> },
    InvalidPrefix { prefix: Seq<char>, fault: channel::ChannelFault },
    PrefixesCollide { prefix: Seq<char>, other: Seq<char> },
    PrefixRouteCollision { prefix: Seq<char>, route: Seq<char>, owner: Seq<char> },
    PrefixCollision { prefix: Seq<char>, existing: Seq<char>, owner: Seq<char> },
    InvalidEventChannel { channel: Seq<char>, fault: channel::ChannelFault },
    NotOwned { channel: Seq<char>, ext_id: Seq<char> },
}

impl View for ClaimError {
    type V = ClaimFault;

    open spec fn view(&self) -> ClaimFault {
        match self {
            ClaimError::InvalidPathClaim { claim } => ClaimFault::InvalidPathClaim { claim: claim@ },
            ClaimError::DuplicatePathClaim { claim } => ClaimFault::DuplicatePathClaim {
                claim: claim@,
            },
            ClaimError::PathCollision { claim, owner } => ClaimFault::PathCollision {
                claim: claim@,
                owner: owner@,
            },
            ClaimError::PathPrefixCollision { claim, prefix, owner } => {
                ClaimFault::PathPrefixCollision { claim: claim@, prefix: prefix@, owner: owner@ }
            },
            ClaimError::InvalidPrefix { prefix, error } => ClaimFault::InvalidPrefix {
                prefix: prefix@,
                fault: error@,
            },
            ClaimError::PrefixesCollide { prefix, other } => ClaimFault::PrefixesCollide {
                prefix: prefix@,
                other: other@,
            },
            ClaimError::PrefixRouteCollision { prefix, route, owner } => {
                ClaimFault::PrefixRouteCollision { prefix: prefix@, route: route@, owner: owner@ }
            },
            ClaimError::PrefixCollision { prefix, existing, owner } => ClaimFault::PrefixCollision {
                prefix: prefix@,
                existing: existing@,
                owner: owner@,
            },
            ClaimError::InvalidEventChannel { channel, error } => ClaimFault::InvalidEventChannel {
                channel: channel@,
                fault: error@,
            },
            ClaimError::NotOwned { channel, ext_id } => ClaimFault::NotOwned {
                channel: channel@,
                ext_id: ext_id@,
            },
        }
    }
}

/// The sentence that reports a refusal.
pub open spec fn fault_message(fault: ClaimFault) -> Seq<char> {
    match fault {
        ClaimFault::InvalidPathClaim { claim } => "invalid path claim: "@ + claim,
        ClaimFault::DuplicatePathClaim { claim } => "duplicate path claim: "@ + claim,
        ClaimFault::PathCollision { claim, owner } => "path collision: "@ + claim
            + " already claimed by "@ + owner,
        ClaimFault::PathPrefixCollision { claim, prefix, owner } => "path claim "@ + claim
            + " collides with channel prefix "@ + prefix + " owned by "@ + owner,
        ClaimFault::InvalidPrefix { prefix, fault: _ } => "invalid channel prefix: "@ + prefix,
        ClaimFault::PrefixesCollide { prefix, other } => "channel prefix "@ + prefix
            + " collides with channel prefix "@ + other,
        ClaimFault::PrefixRouteCollision { prefix, route, owner } => "channel prefix "@ + prefix
            + " collides with route "@ + route + " owned by "@ + owner,
        ClaimFault::PrefixCollision { prefix, existing, owner } => "channel prefix "@ + prefix
            + " collides with channel prefix "@ + existing + " owned by "@ + owner,
        ClaimFault::InvalidEventChannel { channel, fault: _ } => "invalid event channel: "@
            + channel,
        ClaimFault::NotOwned { channel, ext_id } => "channel "@ + channel
            + " is not owned by extension "@ + ext_id,
    }
}

impl ClaimError {
    /// The sentence that reports this refusal.
    pub fn message(&self) -> (msg: String)
        ensures
            msg@ == fault_message(self@),
    {
        match self {
            ClaimError::InvalidPathClaim { claim } => "invalid path claim: ".to_owned().concat(
                claim.as_str(),
            ),
            ClaimError::DuplicatePathClaim { claim } => "duplicate path claim: ".to_owned().concat(
                claim.as_str(),
            ),
            ClaimError::PathCollision { claim, owner } => "path collision: ".to_owned().concat(
                claim.as_str(),
            ).concat(" already claimed by ").concat(owner.as_str()),
            ClaimError::PathPrefixCollision { claim, prefix, owner } => "path claim ".to_owned()
                .concat(claim.as_str()).concat(" collides with channel prefix ").concat(
                prefix.as_str(),
            ).concat(" owned by ").concat(owner.as_str()),
            ClaimError::InvalidPrefix { prefix, error: _ } => "invalid channel prefix: ".to_owned()
                .concat(prefix.as_str()),
            ClaimError::PrefixesCollide { prefix, other } => "channel prefix ".to_owned().concat(
                prefix.as_str(),
            ).concat(" collides with channel prefix ").concat(other.as_str()),
            ClaimError::PrefixRouteCollision { prefix, route, owner } => "channel prefix ".to_owned()
                .concat(prefix.as_str()).concat(" collides with route ").concat(
                route.as_str(),
            ).concat(" owned by ").concat(owner.as_str()),
            ClaimError::PrefixCollision { prefix, existing, owner } => "channel prefix ".to_owned()
                .concat(prefix.as_str()).concat(" collides with channel prefix ").concat(
                existing.as_str(),
            ).concat(" owned by ").concat(owner.as_str()),
            ClaimError::InvalidEventChannel { channel, error: _ } => "invalid event channel: "
                .to_owned().concat(channel.as_str()),
            ClaimError::NotOwned { channel, ext_id } => "channel ".to_owned().concat(
                channel.as_str(),
            ).concat(" is not owned by extension ").concat(ext_id.as_str()),
        }
    }
}

/// The first token of a channel.
pub open spec fn first_segment(channel: Seq<char>) -> Seq<char> {
    text::split(channel, '.')[0]
}

/// Whether a channel is a prefix, or lies below it.
pub open spec fn in_prefix(channel: Seq<char>, prefix: Seq<char>) -> bool {
    channel == prefix || (text::begins(channel, prefix) && prefix.len() < channel.len()
        && channel[prefix.len() as int] == '.')
}

/// Whether some channel can lie below both prefixes.
pub open spec fn prefixes_overlap(left: Seq<char>, right: Seq<char>) -> bool {
    in_prefix(left, right) || in_prefix(right, left)
}

/// Whether the `i`-th path claim of `id` can be granted beside what is claimed
/// already.
pub open spec fn claim_ok(
    id: Seq<char>,
    claims: Seq<Seq<char>>,
    i: int,
    routes: Map<Seq<char>, Seq<char>>,
    prefixes: Map<Seq<char>, Seq<char>>,
) -> bool {
    &&& channel::plain_token(claims[i])
    &&& !claims.take(i).contains(claims[i])
    &&& !routes.contains_key(claims[i])
    &&& forall|prefix: Seq<char>| #[trigger]
        prefixes.contains_key(prefix) ==> prefixes[prefix] == id || first_segment(prefix)
            != claims[i]
}

/// Whether the `i`-th channel prefix of `id` can be granted beside what is
/// claimed already.
pub open spec fn prefix_ok(
    id: Seq<char>,
    wanted: Seq<Seq<char>>,
    i: int,
    routes: Map<Seq<char>, Seq<char>>,
    prefixes: Map<Seq<char>, Seq<char>>,
) -> bool {
    &&& channel::valid_channel(wanted[i])
    &&& forall|j: int| 0 <= j < i ==> !prefixes_overlap(wanted[i], #[trigger] wanted[j])
    &&& routes.contains_key(first_segment(wanted[i])) ==> routes[first_segment(wanted[i])] == id
    &&& forall|prefix: Seq<char>| #[trigger]
        prefixes.contains_key(prefix) ==> prefixes[prefix] == id || !prefixes_overlap(
            wanted[i],
            prefix,
        )
}

/// Whether `fault` is what is wrong with the `i`-th path claim.
pub open spec fn claim_fault(
    fault: ClaimFault,
    id: Seq<char>,
    claims: Seq<Seq<char>>,
    i: int,
    routes: Map<Seq<char>, Seq<char>>,
    prefixes: Map<Seq<char>, Seq<char>>,
) -> bool {
    match fault {
        ClaimFault::InvalidPathClaim { claim } => claim == claims[i] && !channel::plain_token(claim),
        ClaimFault::DuplicatePathClaim { claim } => claim == claims[i] && channel::plain_token(
            claim,
        ) && claims.take(i).contains(claim),
        ClaimFault::PathCollision { claim, owner } => claim == claims[i] && channel::plain_token(
            claim,
        ) && !claims.take(i).contains(claim) && routes.contains_key(claim) && routes[claim]
            == owner,
        ClaimFault::PathPrefixCollision { claim, prefix, owner } => claim == claims[i]
            && channel::plain_token(claim) && !claims.take(i).contains(claim)
            && !routes.contains_key(claim) && prefixes.contains_key(prefix) && prefixes[prefix]
            == owner && owner != id && first_segment(prefix) == claim,
        _ => false,
    }
}

/// Whether `fault` is what is wrong with the `i`-th channel prefix.
pub open spec fn prefix_fault(
    fault: ClaimFault,
    id: Seq<char>,
    wanted: Seq<Seq<char>>,
    i: int,
    routes: Map<Seq<char>, Seq<char>>,
    prefixes: Map<Seq<char>, Seq<char>>,
) -> bool {
    match fault {
        ClaimFault::InvalidPrefix { prefix, fault } => prefix == wanted[i]
            && channel::channel_fault(prefix) == Some(fault),
        ClaimFault::PrefixesCollide { prefix, other } => prefix == wanted[i]
            && channel::valid_channel(prefix) && exists|j: int|
            0 <= j < i && #[trigger] wanted[j] == other && prefixes_overlap(wanted[i], other) && (
            forall|k: int| 0 <= k < j ==> !prefixes_overlap(wanted[i], #[trigger] wanted[k])),
        ClaimFault::PrefixRouteCollision { prefix, route, owner } => prefix == wanted[i]
            && channel::valid_channel(prefix) && route == first_segment(prefix)
            && routes.contains_key(route) && routes[route] == owner && owner != id && (forall|j: int|
            0 <= j < i ==> !prefixes_overlap(wanted[i], #[trigger] wanted[j])),
        ClaimFault::PrefixCollision { prefix, existing, owner } => prefix == wanted[i]
            && channel::valid_channel(prefix) && prefixes.contains_key(existing)
            && prefixes[existing] == owner && owner != id && prefixes_overlap(prefix, existing) && (
        routes.contains_key(first_segment(prefix)) ==> routes[first_segment(prefix)] == id) && (
        forall|j: int| 0 <= j < i ==> !prefixes_overlap(wanted[i], #[trigger] wanted[j])),
        _ => false,
    }
}

/// Whether all path claims and channel prefixes of `id` can be granted.
pub open spec fn claims_ok(
    id: Seq<char>,
    claims: Seq<Seq<char>>,
    wanted: Seq<Seq<char>>,
    routes: Map<Seq<char>, Seq<char>>,
    prefixes: Map<Seq<char>, Seq<char>>,
) -> bool {
    &&& forall|i: int| 0 <= i < claims.len() ==> #[trigger] claim_ok(id, claims, i, routes, prefixes)
    &&& forall|i: int| 0 <= i < wanted.len() ==> #[trigger] prefix_ok(id, wanted, i, routes, prefixes)
}

/// Whether `fault` is the first thing that is wrong with a registration: path
/// claims come before channel prefixes, each in their order.
pub open spec fn first_fault(
    fault: ClaimFault,
    id: Seq<char>,
    claims: Seq<Seq<char>>,
    wanted: Seq<Seq<char>>,
    routes: Map<Seq<char>, Seq<char>>,
    prefixes: Map<Seq<char>, Seq<char>>,
) -> bool {
    ||| exists|i: int|
        0 <= i < claims.len() && #[trigger] claim_fault(fault, id, claims, i, routes, prefixes) && (
        forall|j: int| 0 <= j < i ==> #[trigger] claim_ok(id, claims, j, routes, prefixes))
    ||| ((forall|j: int|
        0 <= j < claims.len() ==> #[trigger] claim_ok(id, claims, j, routes, prefixes))
        && exists|i: int|
        0 <= i < wanted.len() && #[trigger] prefix_fault(fault, id, wanted, i, routes, prefixes) && (
        forall|j: int| 0 <= j < i ==> #[trigger] prefix_ok(id, wanted, j, routes, prefixes)))
}

/// Whether an extension with these claims and prefixes owns a channel.
pub open spec fn owns(
    channel: Seq<char>,
    claims: Seq<Seq<char>>,
    prefixes: Seq<Seq<char>>,
) -> bool {
    claims.contains(first_segment(channel)) || exists|i: int|
        0 <= i < prefixes.len() && in_prefix(channel, #[trigger] prefixes[i])
}

/// The first token of a channel.
pub fn first_channel_segment(channel: &str) -> (first: String)
    ensures
        first@ == first_segment(channel@),
{
    let parts: Vec<String> = text::split_on(channel, '.');
    proof {
        text::split_then_join(channel@, '.');
        assert(text::texts(parts@)[0] == parts@[0]@);
    }
    parts[0].clone()
}

fn channel_is_in_prefix(channel: &str, prefix: &str) -> (inside: bool)
    ensures
        inside == in_prefix(channel@, prefix@),
{
    if text::same_text(channel, prefix) {
        return true;
    }
    match text::strip_prefix(channel, prefix) {
        Some(suffix) => {
            let chars: Vec<char> = text::chars_of(suffix.as_str());
            proof {
                if chars@.len() > 0 {
                    assert(chars@[0] == channel@[prefix@.len() as int]);
                }
            }
            chars.len() > 0 && chars[0] == '.'
        },
        None => false,
    }
}

fn channel_prefixes_overlap(left: &str, right: &str) -> (overlap: bool)
    ensures
        overlap == prefixes_overlap(left@, right@),
{
    channel_is_in_prefix(left, right) || channel_is_in_prefix(right, left)
}

/// Checks that a path claim is one plain token.
pub fn validate_path_claim(claim: &str) -> (r: Result<(), ClaimError>)
    ensures
        match r {
            Ok(()) => channel::plain_token(claim@),
            Err(e) => !channel::plain_token(claim@) && e@ == (ClaimFault::InvalidPathClaim {
                claim: claim@,
            }),
        },
{
    if valid_plain_token(claim) {
        Ok(())
    } else {
        Err(ClaimError::InvalidPathClaim { claim: claim.to_owned() })
    }
}

/// Checks one path claim.
fn check_claim(
    id: &str,
    claims: &[String],
    i: usize,
    routes: &StringMap<String>,
    existing_prefixes: &StringMap<String>,
) -> (r: Result<(), ClaimError>)
    requires
        i < claims@.len(),
    ensures
        match r {
            Ok(()) => claim_ok(
                id@,
                text::texts(claims@),
                i as int,
                string_map::text_map(routes@),
                string_map::text_map(existing_prefixes@),
            ),
            Err(e) => claim_fault(
                e@,
                id@,
                text::texts(claims@),
                i as int,
                string_map::text_map(routes@),
                string_map::text_map(existing_prefixes@),
            ),
        },
{
    let ghost all = text::texts(claims@);
    let ghost owners = string_map::text_map(existing_prefixes@);
    let claim: &str = claims[i].as_str();
    assert(all[i as int] == claim@);
    validate_path_claim(claim)?;
    let mut j: usize = 0;
    while j < i
        invariant
            j <= i < claims@.len(),
            all == text::texts(claims@),
            claim@ == all[i as int],
            channel::plain_token(claim@),
            forall|k: int| 0 <= k < j ==> all[k] != claim@,
        decreases i - j,
    {
        if text::same_text(claims[j].as_str(), claim) {
            assert(all.take(i as int)[j as int] == claim@);
            return Err(ClaimError::DuplicatePathClaim { claim: claim.to_owned() });
        }
        j += 1;
    }
    assert(!all.take(i as int).contains(claim@));
    if let Some(owner) = routes.get(claim) {
        return Err(ClaimError::PathCollision { claim: claim.to_owned(), owner: owner.clone() });
    }
    let n: usize = existing_prefixes.len();
    let ghost keys = existing_prefixes.key_seq();
    let mut k: usize = 0;
    while k < n
        invariant
            k <= n == keys.len(),
            i < claims@.len(),
            keys == existing_prefixes.key_seq(),
            existing_prefixes.keys_agree(),
            owners == string_map::text_map(existing_prefixes@),
            all == text::texts(claims@),
            claim@ == all[i as int],
            channel::plain_token(claim@),
            !all.take(i as int).contains(claim@),
            !routes@.contains_key(claim@),
            forall|m: int|
                0 <= m < k ==> owners[#[trigger] keys[m]] == id@ || first_segment(keys[m])
                    != claim@,
        decreases n - k,
    {
        let prefix: &String = existing_prefixes.key_at(k);
        let owner: &String = existing_prefixes.value_at(k);
        assert(owners[keys[k as int]] == owner@);
        if !text::same_text(owner.as_str(), id) && text::same_text(
            first_channel_segment(prefix.as_str()).as_str(),
            claim,
        ) {
            return Err(
                ClaimError::PathPrefixCollision {
                    claim: claim.to_owned(),
                    prefix: prefix.clone(),
                    owner: owner.clone(),
                },
            );
        }
        k += 1;
    }
    assert forall|prefix: Seq<char>| #[trigger] owners.contains_key(prefix) implies owners[prefix]
        == id@ || first_segment(prefix) != claim@ by {
        assert(existing_prefixes@.contains_key(prefix));
        assert(keys[keys.index_of(prefix)] == prefix);
    }
    Ok(())
}

/// Checks one channel prefix.
fn check_prefix(
    id: &str,
    wanted: &[String],
    i: usize,
    routes: &StringMap<String>,
    existing_prefixes: &StringMap<String>,
) -> (r: Result<(), ClaimError>)
    requires
        i < wanted@.len(),
    ensures
        match r {
            Ok(()) => prefix_ok(
                id@,
                text::texts(wanted@),
                i as int,
                string_map::text_map(routes@),
                string_map::text_map(existing_prefixes@),
            ),
            Err(e) => prefix_fault(
                e@,
                id@,
                text::texts(wanted@),
                i as int,
                string_map::text_map(routes@),
                string_map::text_map(existing_prefixes@),
            ),
        },
{
    let ghost all = text::texts(wanted@);
    let ghost owners = string_map::text_map(existing_prefixes@);
    let prefix: &str = wanted[i].as_str();
    assert(all[i as int] == prefix@);
    match validate_channel(prefix) {
        Ok(()) => {},
        Err(error) => {
            return Err(ClaimError::InvalidPrefix { prefix: prefix.to_owned(), error });
        },
    }
    let mut j: usize = 0;
    while j < i
        invariant
            j <= i < wanted@.len(),
            all == text::texts(wanted@),
            prefix@ == all[i as int],
            channel::valid_channel(prefix@),
            forall|k: int| 0 <= k < j ==> !prefixes_overlap(all[i as int], #[trigger] all[k]),
        decreases i - j,
    {
        assert(all[j as int] == wanted@[j as int]@);
        if channel_prefixes_overlap(prefix, wanted[j].as_str()) {
            return Err(
                ClaimError::PrefixesCollide { prefix: prefix.to_owned(), other: wanted[j].clone() },
            );
        }
        j += 1;
    }
    let first: String = first_channel_segment(prefix);
    if let Some(owner) = routes.get(first.as_str()) {
        if !text::same_text(owner.as_str(), id) {
            return Err(
                ClaimError::PrefixRouteCollision {
                    prefix: prefix.to_owned(),
                    route: first,
                    owner: owner.clone(),
                },
            );
        }
    }
    let ghost owned_routes = string_map::text_map(routes@);
    let n: usize = existing_prefixes.len();
    let ghost keys = existing_prefixes.key_seq();
    let mut k: usize = 0;
    while k < n
        invariant
            k <= n == keys.len(),
            i < wanted@.len(),
            keys == existing_prefixes.key_seq(),
            existing_prefixes.keys_agree(),
            owners == string_map::text_map(existing_prefixes@),
            owned_routes == string_map::text_map(routes@),
            all == text::texts(wanted@),
            prefix@ == all[i as int],
            channel::valid_channel(prefix@),
            owned_routes.contains_key(first_segment(prefix@)) ==> owned_routes[first_segment(
                prefix@,
            )] == id@,
            forall|m: int| 0 <= m < i ==> !prefixes_overlap(all[i as int], #[trigger] all[m]),
            forall|m: int|
                0 <= m < k ==> owners[#[trigger] keys[m]] == id@ || !prefixes_overlap(
                    prefix@,
                    keys[m],
                ),
        decreases n - k,
    {
        let existing: &String = existing_prefixes.key_at(k);
        let owner: &String = existing_prefixes.value_at(k);
        assert(owners[keys[k as int]] == owner@);
        if !text::same_text(owner.as_str(), id) && channel_prefixes_overlap(
            prefix,
            existing.as_str(),
        ) {
            return Err(
                ClaimError::PrefixCollision {
                    prefix: prefix.to_owned(),
                    existing: existing.clone(),
                    owner: owner.clone(),
                },
            );
        }
        k += 1;
    }
    assert forall|other: Seq<char>| #[trigger] owners.contains_key(other) implies owners[other]
        == id@ || !prefixes_overlap(prefix@, other) by {
        assert(existing_prefixes@.contains_key(other));
        assert(keys[keys.index_of(other)] == other);
    }
    Ok(())
}

/// Checks what an extension claims when it registers, beside what the other
/// extensions have claimed. Nothing is claimed by the check itself.
pub fn validate_registration_claims(
    id: &str,
    claims: &[String],
    channel_prefixes: &[String],
    routes: &StringMap<String>,
    existing_prefixes: &StringMap<String>,
) -> (r: Result<(), ClaimError>)
    ensures
        r is Ok <==> claims_ok(
            id@,
            text::texts(claims@),
            text::texts(channel_prefixes@),
            string_map::text_map(routes@),
            string_map::text_map(existing_prefixes@),
        ),
        match r {
            Ok(()) => true,
            Err(e) => first_fault(
                e@,
                id@,
                text::texts(claims@),
                text::texts(channel_prefixes@),
                string_map::text_map(routes@),
                string_map::text_map(existing_prefixes@),
            ),
        },
{
    let ghost all = text::texts(claims@);
    let ghost wanted = text::texts(channel_prefixes@);
    let ghost owned_routes = string_map::text_map(routes@);
    let ghost owners = string_map::text_map(existing_prefixes@);
    let mut i: usize = 0;
    while i < claims.len()
        invariant
            i <= claims@.len(),
            all == text::texts(claims@),
            wanted == text::texts(channel_prefixes@),
            owned_routes == string_map::text_map(routes@),
            owners == string_map::text_map(existing_prefixes@),
            forall|j: int| 0 <= j < i ==> #[trigger] claim_ok(id@, all, j, owned_routes, owners),
        decreases claims@.len() - i,
    {
        match check_claim(id, claims, i, routes, existing_prefixes) {
            Ok(()) => {},
            Err(error) => {
                assert(!claim_ok(id@, all, i as int, owned_routes, owners));
                return Err(error);
            },
        }
        i += 1;
    }
    let mut i: usize = 0;
    while i < channel_prefixes.len()
        invariant
            i <= channel_prefixes@.len(),
            all == text::texts(claims@),
            wanted == text::texts(channel_prefixes@),
            owned_routes == string_map::text_map(routes@),
            owners == string_map::text_map(existing_prefixes@),
            forall|j: int|
                0 <= j < all.len() ==> #[trigger] claim_ok(id@, all, j, owned_routes, owners),
            forall|j: int| 0 <= j < i ==> #[trigger] prefix_ok(id@, wanted, j, owned_routes, owners),
        decreases channel_prefixes@.len() - i,
    {
        match check_prefix(id, channel_prefixes, i, routes, existing_prefixes) {
            Ok(()) => {},
            Err(error) => {
                assert(!prefix_ok(id@, wanted, i as int, owned_routes, owners));
                return Err(error);
            },
        }
        i += 1;
    }
    Ok(())
}

/// Checks that a channel is one and that the extension owns it.
pub fn validate_emitted_channel(
    channel: &str,
    ext_id: &str,
    claims: &[String],
    registered_prefixes: &[String],
) -> (r: Result<(), ClaimError>)
    ensures
        match r {
            Ok(()) => channel::valid_channel(channel@) && owns(
                channel@,
                text::texts(claims@),
                text::texts(registered_prefixes@),
            ),
            Err(e) => match channel::channel_fault(channel@) {
                Some(fault) => e@ == (ClaimFault::InvalidEventChannel { channel: channel@, fault }),
                None => !owns(channel@, text::texts(claims@), text::texts(registered_prefixes@))
                    && e@ == (ClaimFault::NotOwned { channel: channel@, ext_id: ext_id@ }),
            },
        },
{
    match validate_channel(channel) {
        Ok(()) => {},
        Err(error) => {
            return Err(ClaimError::InvalidEventChannel { channel: channel.to_owned(), error });
        },
    }
    let first: String = first_channel_segment(channel);
    if text::contains_text(claims, first.as_str()) {
        return Ok(());
    }
    let ghost held = text::texts(registered_prefixes@);
    let mut i: usize = 0;
    while i < registered_prefixes.len()
        invariant
            i <= registered_prefixes@.len(),
            held == text::texts(registered_prefixes@),
            channel::valid_channel(channel@),
            forall|j: int| 0 <= j < i ==> !in_prefix(channel@, #[trigger] held[j]),
        decreases registered_prefixes@.len() - i,
    {
        assert(held[i as int] == registered_prefixes@[i as int]@);
        if channel_is_in_prefix(channel, registered_prefixes[i].as_str()) {
            return Ok(());
        }
        i += 1;
    }
    Err(ClaimError::NotOwned { channel: channel.to_owned(), ext_id: ext_id.to_owned() })
}

/// Whether an extension may emit an event.
pub open spec fn may_emit(
    event: messages::EventValue,
    claims: Seq<Seq<char>>,
    prefixes: Seq<Seq<char>>,
) -> bool {
    channel::valid_channel(event.channel) && owns(event.channel, claims, prefixes)
}

/// The events that an extension may emit, in their order.
pub open spec fn owned_events(
    events: Seq<messages::EventValue>,
    claims: Seq<Seq<char>>,
    prefixes: Seq<Seq<char>>,
) -> Seq<messages::EventValue> {
    events.filter(|event: messages::EventValue| may_emit(event, claims, prefixes))
}

/// Holding events to the namespace of an extension a second time changes nothing:
/// no event is counted as a violation twice.
pub proof fn filtering_again_changes_nothing(
    events: Seq<messages::EventValue>,
    claims: Seq<Seq<char>>,
    prefixes: Seq<Seq<char>>,
)
    ensures
        owned_events(owned_events(events, claims, prefixes), claims, prefixes) == owned_events(
            events,
            claims,
            prefixes,
        ),
{
    let keep = |event: messages::EventValue| may_emit(event, claims, prefixes);
    let once = events.filter(keep);
    assert forall|i: int| 0 <= i < once.len() implies keep(#[trigger] once[i]) by {
        events.lemma_filter_pred(keep, i);
    }
    lemma_filter_keeps_all(once, keep);
}

proof fn lemma_filter_keeps_all<A>(s: Seq<A>, keep: spec_fn(A) -> bool)
    requires
        forall|i: int| 0 <= i < s.len() ==> keep(#[trigger] s[i]),
    ensures
        s.filter(keep) == s,
    decreases s.len(),
{
    reveal(Seq::filter);
    if s.len() > 0 {
        lemma_filter_keeps_all(s.drop_last(), keep);
        assert(s.drop_last().push(s.last()) =~= s);
    }
}

/// Keeps the events that the extension may emit and counts the others. The
/// counter wraps around at its end.
pub fn filter_owned_events(
    ext_id: &str,
    paths: &[String],
    registered_prefixes: &[String],
    violations: &mut usize,
    events: Vec<Event>,
) -> (kept: Vec<Event>)
    ensures
        messages::event_values(kept@) == owned_events(
            messages::event_values(events@),
            text::texts(paths@),
            text::texts(registered_prefixes@),
        ),
        kept@.len() <= events@.len(),
        *final(violations) as int == (*old(violations) + (events@.len() - kept@.len())) % (usize::MAX
            + 1),
{
    let ghost all = messages::event_values(events@);
    let ghost claims = text::texts(paths@);
    let ghost prefixes = text::texts(registered_prefixes@);
    let ghost allowed = |event: messages::EventValue| may_emit(event, claims, prefixes);
    let mut kept: Vec<Event> = Vec::new();
    let mut i: usize = 0;
    proof {
        reveal(Seq::filter);
        assert(messages::event_values(kept@) =~= all.take(0).filter(allowed));
        vstd::arithmetic::div_mod::lemma_small_mod(
            *old(violations) as nat,
            (usize::MAX + 1) as nat,
        );
    }
    while i < events.len()
        invariant
            i <= events@.len(),
            all == messages::event_values(events@),
            claims == text::texts(paths@),
            prefixes == text::texts(registered_prefixes@),
            allowed == |event: messages::EventValue| may_emit(event, claims, prefixes),
            kept@.len() <= i,
            messages::event_values(kept@) == all.take(i as int).filter(allowed),
            *violations as int == (*old(violations) + (i - kept@.len())) % (usize::MAX + 1),
        decreases events@.len() - i,
    {
        let event: &Event = &events[i];
        let ghost before = messages::event_values(kept@);
        let ghost dropped = *old(violations) + (i - kept@.len());
        assert(all[i as int] == event@);
        assert(all.take(i as int + 1).drop_last() =~= all.take(i as int));
        match validate_emitted_channel(event.channel.as_str(), ext_id, paths, registered_prefixes) {
            Ok(()) => {
                kept.push(event.clone());
                assert(messages::event_values(kept@) =~= before.push(event@));
            },
            Err(_) => {
                *violations = violations.wrapping_add(1);
                proof {
                    vstd::arithmetic::div_mod::lemma_add_mod_noop(dropped, 1, usize::MAX + 1);
                    vstd::arithmetic::div_mod::lemma_small_mod(1, (usize::MAX + 1) as nat);
                }
            },
        }
        proof {
            reveal(Seq::filter);
        }
        i += 1;
    }
    assert(all.take(i as int) =~= all);
    kept
}

/// The owners once `names` have been granted to `id`.
pub open spec fn granted(
    owners: Map<Seq<char>, Seq<char>>,
    names: Seq<Seq<char>>,
    id: Seq<char>,
) -> Map<Seq<char>, Seq<char>> {
    Map::new(
        |name: Seq<char>| owners.contains_key(name) || names.contains(name),
        |name: Seq<char>|
            if names.contains(name) {
                id
            } else {
                owners[name]
            },
    )
}

/// Prefixes of different extensions do not overlap, and where the first token of
/// a prefix is a route, both have one owner.
pub open spec fn namespaces_apart(
    routes: Map<Seq<char>, Seq<char>>,
    prefixes: Map<Seq<char>, Seq<char>>,
) -> bool {
    &&& forall|p: Seq<char>, q: Seq<char>|
        #![trigger prefixes.contains_key(p), prefixes.contains_key(q)]
        prefixes.contains_key(p) && prefixes.contains_key(q) && prefixes[p] != prefixes[q]
            ==> !prefixes_overlap(p, q)
    &&& forall|p: Seq<char>| #[trigger]
        prefixes.contains_key(p) && routes.contains_key(first_segment(p))
            ==> routes[first_segment(p)] == prefixes[p]
}

/// Whether an extension owns a channel by its routes or its prefixes.
pub open spec fn owned_by(
    channel: Seq<char>,
    who: Seq<char>,
    routes: Map<Seq<char>, Seq<char>>,
    prefixes: Map<Seq<char>, Seq<char>>,
) -> bool {
    ||| routes.contains_key(first_segment(channel)) && routes[first_segment(channel)] == who
    ||| exists|p: Seq<char>| #[trigger]
        prefixes.contains_key(p) && prefixes[p] == who && in_prefix(channel, p)
}

/// Granting what the check of a registration lets pass keeps the namespaces of
/// the extensions apart.
pub proof fn granting_keeps_namespaces_apart(
    id: Seq<char>,
    claims: Seq<Seq<char>>,
    wanted: Seq<Seq<char>>,
    routes: Map<Seq<char>, Seq<char>>,
    prefixes: Map<Seq<char>, Seq<char>>,
)
    requires
        namespaces_apart(routes, prefixes),
        claims_ok(id, claims, wanted, routes, prefixes),
    ensures
        namespaces_apart(granted(routes, claims, id), granted(prefixes, wanted, id)),
{
    let new_routes = granted(routes, claims, id);
    let new_prefixes = granted(prefixes, wanted, id);
    assert forall|p: Seq<char>, q: Seq<char>|
        #![trigger new_prefixes.contains_key(p), new_prefixes.contains_key(q)]
        new_prefixes.contains_key(p) && new_prefixes.contains_key(q) && new_prefixes[p]
            != new_prefixes[q] implies !prefixes_overlap(p, q) by {
        if wanted.contains(p) {
            assert(prefix_ok(id, wanted, wanted.index_of(p), routes, prefixes));
            assert(prefixes.contains_key(q));
        } else if wanted.contains(q) {
            assert(prefix_ok(id, wanted, wanted.index_of(q), routes, prefixes));
            assert(prefixes.contains_key(p));
        } else {
            assert(prefixes.contains_key(p) && prefixes.contains_key(q));
        }
    }
    assert forall|p: Seq<char>| #[trigger]
        new_prefixes.contains_key(p) && new_routes.contains_key(
            first_segment(p),
        ) implies new_routes[first_segment(p)] == new_prefixes[p] by {
        let first = first_segment(p);
        if claims.contains(first) {
            assert(claim_ok(id, claims, claims.index_of(first), routes, prefixes));
            if !wanted.contains(p) {
                assert(prefixes.contains_key(p));
            }
        } else {
            assert(routes.contains_key(first));
            if wanted.contains(p) {
                assert(prefix_ok(id, wanted, wanted.index_of(p), routes, prefixes));
            } else {
                assert(prefixes.contains_key(p));
            }
        }
    }
}

proof fn lemma_first_segment_of_prefix(channel: Seq<char>, prefix: Seq<char>)
    requires
        in_prefix(channel, prefix),
    ensures
        first_segment(channel) == first_segment(prefix),
{
    if channel != prefix {
        let rest = channel.skip(prefix.len() as int + 1);
        assert(prefix.push('.') + rest =~= channel) by {
            assert(channel.take(prefix.len() as int) == prefix);
            assert forall|i: int| 0 <= i < prefix.len() implies prefix[i] == channel[i] by {
                assert(channel.take(prefix.len() as int)[i] == channel[i]);
            }
        }
        text::split_of_joined(prefix, rest, '.');
        text::split_then_join(prefix, '.');
    }
}

proof fn lemma_shared_channel_overlap(channel: Seq<char>, p: Seq<char>, q: Seq<char>)
    requires
        in_prefix(channel, p),
        in_prefix(channel, q),
        p.len() <= q.len(),
    ensures
        in_prefix(q, p),
{
    if channel != q {
        assert forall|i: int| 0 <= i < q.len() implies q[i] == channel[i] by {
            assert(channel.take(q.len() as int)[i] == channel[i]);
        }
        if channel != p {
            assert forall|i: int| 0 <= i < p.len() implies p[i] == channel[i] by {
                assert(channel.take(p.len() as int)[i] == channel[i]);
            }
            assert(q.take(p.len() as int) =~= p);
            if p.len() == q.len() {
                assert(p =~= q);
            }
        }
    }
}

/// While the namespaces are apart, no channel has two owners.
pub proof fn channel_has_one_owner(
    channel: Seq<char>,
    a: Seq<char>,
    b: Seq<char>,
    routes: Map<Seq<char>, Seq<char>>,
    prefixes: Map<Seq<char>, Seq<char>>,
)
    requires
        namespaces_apart(routes, prefixes),
        owned_by(channel, a, routes, prefixes),
        owned_by(channel, b, routes, prefixes),
    ensures
        a == b,
{
    let first = first_segment(channel);
    let by_route_a = routes.contains_key(first) && routes[first] == a;
    let by_route_b = routes.contains_key(first) && routes[first] == b;
    if !by_route_a {
        let p = choose|p: Seq<char>| #[trigger]
            prefixes.contains_key(p) && prefixes[p] == a && in_prefix(channel, p);
        lemma_first_segment_of_prefix(channel, p);
        if !by_route_b {
            let q = choose|q: Seq<char>| #[trigger]
                prefixes.contains_key(q) && prefixes[q] == b && in_prefix(channel, q);
            if p.len() <= q.len() {
                lemma_shared_channel_overlap(channel, p, q);
            } else {
                lemma_shared_channel_overlap(channel, q, p);
            }
        }
    } else if !by_route_b {
        let q = choose|q: Seq<char>| #[trigger]
            prefixes.contains_key(q) && prefixes[q] == b && in_prefix(channel, q);
        lemma_first_segment_of_prefix(channel, q);
    }
}

proof fn lemma_joined_prefix(front: Seq<Seq<char>>, rest: Seq<Seq<char>>)
    requires
        front.len() > 0,
        rest.len() > 0,
    ensures
        text::join(front + rest, '.') == text::join(front, '.').push('.') + text::join(rest, '.'),
    decreases rest.len(),
{
    let all = front + rest;
    assert(all.drop_last() =~= front + rest.drop_last());
    assert(all.last() == rest.last());
    if rest.len() > 1 {
        lemma_joined_prefix(front, rest.drop_last());
        assert(text::join(all, '.') =~= text::join(front, '.').push('.') + text::join(rest, '.'));
    } else {
        assert(front + rest.drop_last() =~= front);
        assert(text::join(rest, '.') == rest[0]);
    }
}

/// A channel lies within a prefix if and only if its words begin with those of the
/// prefix.
pub proof fn prefixes_hold_whole_words(words: Seq<Seq<char>>, prefix: Seq<Seq<char>>)
    requires
        words.len() > 0,
        prefix.len() > 0,
        forall|i: int| 0 <= i < words.len() ==> !(#[trigger] words[i]).contains('.'),
        forall|i: int| 0 <= i < prefix.len() ==> !(#[trigger] prefix[i]).contains('.'),
    ensures
        in_prefix(text::join(words, '.'), text::join(prefix, '.')) <==> words.len() >= prefix.len()
            && words.take(prefix.len() as int) == prefix,
{
    let a = text::join(words, '.');
    let b = text::join(prefix, '.');
    text::split_undoes_join(words, '.');
    text::split_undoes_join(prefix, '.');
    let n = prefix.len() as int;
    if words.len() >= n && words.take(n) == prefix {
        if words.len() == n {
            assert(words.take(n) =~= words);
        } else {
            let rest = words.skip(n);
            lemma_joined_prefix(prefix, rest);
            assert(prefix + rest =~= words);
            assert(a.take(b.len() as int) =~= b);
        }
    }
    if in_prefix(a, b) && a != b {
        let rest = a.skip(b.len() as int + 1);
        assert(a =~= b.push('.') + rest) by {
            assert forall|i: int| 0 <= i < b.len() implies b[i] == a[i] by {
                assert(a.take(b.len() as int)[i] == a[i]);
            }
        }
        text::split_of_joined(b, rest, '.');
        assert(words == prefix + text::split(rest, '.'));
        assert(words.take(n) =~= prefix);
    }
    if a == b {
        assert(words.take(n) =~= prefix);
    }
}

/// An extension owns the channels whose first word is one of its path ids, and those
/// whose words begin with the words of one of its prefixes; and no others.
pub proof fn ownership_goes_by_words(
    words: Seq<Seq<char>>,
    claims: Seq<Seq<char>>,
    prefixes: Seq<Seq<Seq<char>>>,
    dotted: Seq<Seq<char>>,
)
    requires
        words.len() > 0,
        forall|i: int| 0 <= i < words.len() ==> !(#[trigger] words[i]).contains('.'),
        prefixes.len() == dotted.len(),
        forall|k: int|
            0 <= k < prefixes.len() ==> #[trigger] dotted[k] == text::join(prefixes[k], '.')
                && prefixes[k].len() > 0 && forall|i: int|
                0 <= i < prefixes[k].len() ==> !(#[trigger] prefixes[k][i]).contains('.'),
    ensures
        owns(text::join(words, '.'), claims, dotted) <==> claims.contains(words[0]) || exists|k: int|
            0 <= k < prefixes.len() && words.len() >= (#[trigger] prefixes[k]).len() && words.take(
                prefixes[k].len() as int,
            ) == prefixes[k],
{
    let channel = text::join(words, '.');
    text::split_undoes_join(words, '.');
    assert forall|k: int| 0 <= k < prefixes.len() implies in_prefix(channel, #[trigger] dotted[k])
        == (words.len() >= prefixes[k].len() && words.take(prefixes[k].len() as int)
        == prefixes[k]) by {
        assert(dotted[k] == text::join(prefixes[k], '.'));
        prefixes_hold_whole_words(words, prefixes[k]);
    }
    if owns(channel, claims, dotted) && !claims.contains(words[0]) {
        let k = choose|k: int| 0 <= k < dotted.len() && in_prefix(channel, #[trigger] dotted[k]);
        assert(words.len() >= prefixes[k].len());
    }
    if exists|k: int|
        0 <= k < prefixes.len() && words.len() >= (#[trigger] prefixes[k]).len() && words.take(
            prefixes[k].len() as int,
        ) == prefixes[k] {
        let k = choose|k: int|
            0 <= k < prefixes.len() && words.len() >= (#[trigger] prefixes[k]).len() && words.take(
                prefixes[k].len() as int,
            ) == prefixes[k];
        assert(in_prefix(channel, dotted[k]));
    }
}

/// Of the events of an extension exactly those go out that are on a valid channel which
/// it owns: one that may go out is neither lost nor changed, and one that may not never
/// goes out.
pub proof fn owned_events_go_out(
    before: Seq<messages::EventValue>,
    event: messages::EventValue,
    claims: Seq<Seq<char>>,
    prefixes: Seq<Seq<char>>,
)
    ensures
        owned_events(before.push(event), claims, prefixes) == (if channel::valid_channel(
            event.channel,
        ) && owns(event.channel, claims, prefixes) {
            owned_events(before, claims, prefixes).push(event)
        } else {
            owned_events(before, claims, prefixes)
        }),
        owned_events(Seq::empty(), claims, prefixes).len() == 0,
{
    reveal(Seq::filter);
    assert(before.push(event).drop_last() =~= before);
}

/// The first claim wins: a registration that claims a path id of another extension, or
/// a prefix within one of another extension or around it, is refused; so is one that
/// claims what is no word, or no channel, or one path id twice.
pub proof fn the_first_claim_wins(
    id: Seq<char>,
    claims: Seq<Seq<char>>,
    wanted: Seq<Seq<char>>,
    routes: Map<Seq<char>, Seq<char>>,
    prefixes: Map<Seq<char>, Seq<char>>,
    i: int,
    j: int,
    held: Seq<char>,
)
    requires
        claims_ok(id, claims, wanted, routes, prefixes),
    ensures
        0 <= i < claims.len() ==> channel::is_word(claims[i]) && !routes.contains_key(claims[i]),
        0 <= i < j < claims.len() ==> claims[i] != claims[j],
        0 <= i < wanted.len() ==> channel::valid_channel(wanted[i]),
        0 <= i < wanted.len() && prefixes.contains_key(held) && prefixes[held] != id ==> !in_prefix(
            wanted[i],
            held,
        ) && !in_prefix(held, wanted[i]),
        0 <= i < j < wanted.len() ==> !in_prefix(wanted[i], wanted[j]) && !in_prefix(
            wanted[j],
            wanted[i],
        ),
        0 <= i < claims.len() && prefixes.contains_key(held) && prefixes[held] != id
            ==> first_segment(held) != claims[i],
        0 <= i < wanted.len() && routes.contains_key(first_segment(wanted[i]))
            ==> routes[first_segment(wanted[i])] == id,
{
    if 0 <= i < claims.len() {
        assert(claim_ok(id, claims, i, routes, prefixes));
        assert forall|k: int| 0 <= k < claims[i].len() implies 'a' <= (#[trigger] claims[i][k])
            <= 'z' || '0' <= claims[i][k] <= '9' || claims[i][k] == '_' || claims[i][k] == '-' by {
            assert(channel::plain_char(claims[i][k]));
        }
    }
    if 0 <= i < j < claims.len() {
        assert(claim_ok(id, claims, j, routes, prefixes));
        assert(claims.take(j)[i] == claims[i]);
    }
    if 0 <= i < wanted.len() {
        assert(prefix_ok(id, wanted, i, routes, prefixes));
    }
    if 0 <= i < j < wanted.len() {
        assert(prefix_ok(id, wanted, j, routes, prefixes));
        assert(!prefixes_overlap(wanted[j], wanted[i]));
    }
}

/// A registration is granted where it claims different words that nobody has, and
/// prefixes that do not overlap with each other or with anything that others have.
pub proof fn free_claims_are_granted(
    id: Seq<char>,
    claims: Seq<Seq<char>>,
    wanted: Seq<Seq<char>>,
    routes: Map<Seq<char>, Seq<char>>,
    prefixes: Map<Seq<char>, Seq<char>>,
)
    requires
        forall|i: int|
            0 <= i < claims.len() ==> channel::is_word(#[trigger] claims[i])
                && !routes.contains_key(claims[i]),
        forall|i: int, j: int| 0 <= i < j < claims.len() ==> #[trigger] claims[i]
            != #[trigger] claims[j],
        forall|i: int| 0 <= i < wanted.len() ==> channel::valid_channel(#[trigger] wanted[i]),
        forall|i: int, j: int|
            0 <= i < j < wanted.len() ==> !in_prefix(#[trigger] wanted[i], #[trigger] wanted[j])
                && !in_prefix(wanted[j], wanted[i]),
        forall|i: int|
            0 <= i < wanted.len() ==> !routes.contains_key(first_segment(#[trigger] wanted[i])),
        forall|i: int, held: Seq<char>|
            0 <= i < wanted.len() && #[trigger] prefixes.contains_key(held) && prefixes[held] != id
                ==> !in_prefix(#[trigger] wanted[i], held) && !in_prefix(held, wanted[i]),
        forall|i: int, held: Seq<char>|
            0 <= i < claims.len() && #[trigger] prefixes.contains_key(held) && prefixes[held] != id
                ==> first_segment(held) != #[trigger] claims[i],
    ensures
        claims_ok(id, claims, wanted, routes, prefixes),
{
    assert forall|i: int| 0 <= i < claims.len() implies #[trigger] claim_ok(
        id,
        claims,
        i,
        routes,
        prefixes,
    ) by {
        assert(channel::is_word(claims[i]));
        assert forall|k: int| 0 <= k < claims[i].len() implies channel::plain_char(
            #[trigger] claims[i][k],
        ) by {}
        if claims.take(i).contains(claims[i]) {
            let k = claims.take(i).index_of(claims[i]);
            assert(claims[k] == claims[i]);
        }
    }
    assert forall|i: int| 0 <= i < wanted.len() implies #[trigger] prefix_ok(
        id,
        wanted,
        i,
        routes,
        prefixes,
    ) by {
        assert(channel::valid_channel(wanted[i]));
    }
}

/// A refused registration is reported with what was claimed, and with whom it collides.
pub proof fn refusals_name_the_claim(
    claim: Seq<char>,
    other: Seq<char>,
    owner: Seq<char>,
    fault: channel::ChannelFault,
)
    ensures
        fault_message(ClaimFault::InvalidPathClaim { claim }) == "invalid path claim: "@ + claim,
        fault_message(ClaimFault::DuplicatePathClaim { claim }) == "duplicate path claim: "@ + claim,
        fault_message(ClaimFault::PathCollision { claim, owner }) == "path collision: "@ + claim
            + " already claimed by "@ + owner,
        fault_message(ClaimFault::PathPrefixCollision { claim, prefix: other, owner })
            == "path claim "@ + claim + " collides with channel prefix "@ + other + " owned by "@
            + owner,
        fault_message(ClaimFault::InvalidPrefix { prefix: claim, fault })
            == "invalid channel prefix: "@ + claim,
        fault_message(ClaimFault::PrefixesCollide { prefix: claim, other }) == "channel prefix "@
            + claim + " collides with channel prefix "@ + other,
        fault_message(ClaimFault::PrefixRouteCollision { prefix: claim, route: other, owner })
            == "channel prefix "@ + claim + " collides with route "@ + other + " owned by "@ + owner,
        fault_message(ClaimFault::PrefixCollision { prefix: claim, existing: other, owner })
            == "channel prefix "@ + claim + " collides with channel prefix "@ + other
            + " owned by "@ + owner,
        fault_message(ClaimFault::InvalidEventChannel { channel: claim, fault })
            == "invalid event channel: "@ + claim,
        fault_message(ClaimFault::NotOwned { channel: claim, ext_id: owner }) == "channel "@ + claim
            + " is not owned by extension "@ + owner,
{
}

} // verus!
