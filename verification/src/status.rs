//! The status document: what runs, what failed, and who is connected.

use vstd::prelude::*;

use crate::daemon;
use crate::daemon::{Daemon, ExtHandle};
use crate::json;
use crate::json::Json;
use crate::subscribers;
use crate::subscribers::SubscriberSnapshot;

verus! {

/// A number that may be missing.
pub open spec fn optional_number(n: Option<u64>) -> json::JsonValue {
    match n {
        Some(n) => json::JsonValue::Unsigned(n),
        None => json::JsonValue::Null,
    }
}

/// The time of the last event, if there was one.
pub open spec fn last_event(stats: daemon::EventStats) -> Option<u64> {
    if stats.last_at_ms == 0 {
        None
    } else {
        Some(stats.last_at_ms)
    }
}

/// The members of the row of a running extension.
pub open spec fn ready_row_members(handle: daemon::HandleValue) -> Seq<(Seq<char>, json::JsonValue)> {
    seq![
        ("candidate_id"@, json::JsonValue::Text(handle.candidate_id)),
        ("id"@, json::JsonValue::Text(handle.id)),
        ("state"@, json::JsonValue::Text("Ready"@)),
        (
            "pid"@,
            optional_number(
                match handle.pid {
                    Some(pid) => Some(pid as u64),
                    None => None,
                },
            ),
        ),
        ("path"@, json::JsonValue::Text(handle.path)),
        ("restarts"@, json::JsonValue::Unsigned(handle.restarts as u64)),
        ("paths"@, json::JsonValue::Array(json::text_values(handle.paths))),
        ("channels"@, json::JsonValue::Array(json::text_values(handle.channels))),
        ("in_flight"@, json::JsonValue::Unsigned(handle.in_flight as u64)),
        ("protocol_errors"@, json::JsonValue::Unsigned(handle.protocol_errors as u64)),
        ("namespace_violations"@, json::JsonValue::Unsigned(handle.namespace_violations as u64)),
        ("consecutive_timeouts"@, json::JsonValue::Unsigned(handle.consecutive_timeouts as u64)),
        ("events_emitted"@, json::JsonValue::Unsigned(handle.event_stats.emitted as u64)),
        ("last_event_at_ms"@, optional_number(last_event(handle.event_stats))),
    ]
}

/// The row of a running extension.
pub open spec fn ready_row(handle: daemon::HandleValue) -> json::JsonValue {
    json::JsonValue::Object(ready_row_members(handle))
}

/// The members of the row of a candidate that failed.
pub open spec fn failed_row_members(id: Seq<char>, reason: Seq<char>) -> Seq<(Seq<char>, json::JsonValue)> {
    seq![
        ("id"@, json::JsonValue::Text(id)),
        ("state"@, json::JsonValue::Text("Failed"@)),
        ("reason"@, json::JsonValue::Text(reason)),
    ]
}

/// The row of a candidate that failed.
pub open spec fn failed_row(id: Seq<char>, reason: Seq<char>) -> json::JsonValue {
    json::JsonValue::Object(failed_row_members(id, reason))
}

/// The members of the row of a subscriber.
pub open spec fn subscriber_row_members(row: subscribers::SnapshotValue) -> Seq<(Seq<char>, json::JsonValue)> {
    seq![
        ("name"@, json::JsonValue::Text(row.name)),
        (
            "remote_addr"@,
            match row.remote_addr {
                Some(addr) => json::JsonValue::Text(addr),
                None => json::JsonValue::Null,
            },
        ),
        ("patterns"@, json::JsonValue::Array(json::text_values(row.patterns))),
        ("delivered"@, json::JsonValue::Unsigned(row.delivered as u64)),
        ("dropped"@, json::JsonValue::Unsigned(row.dropped as u64)),
    ]
}

/// The row of a subscriber.
pub open spec fn subscriber_row(row: subscribers::SnapshotValue) -> json::JsonValue {
    json::JsonValue::Object(subscriber_row_members(row))
}

/// The rows of the running extensions, in the order of their identifiers.
pub open spec fn ready_rows(
    ids: Seq<Seq<char>>,
    extensions: Map<Seq<char>, daemon::HandleValue>,
) -> Seq<json::JsonValue> {
    Seq::new(ids.len(), |i: int| ready_row(extensions[ids[i]]))
}

/// The rows of the candidates that failed, in the order of their identifiers.
pub open spec fn failed_rows(
    ids: Seq<Seq<char>>,
    failed: Map<Seq<char>, Seq<char>>,
) -> Seq<json::JsonValue> {
    Seq::new(ids.len(), |i: int| failed_row(ids[i], failed[ids[i]]))
}

/// The rows of the subscribers.
pub open spec fn subscriber_rows(rows: Seq<SubscriberSnapshot>) -> Seq<json::JsonValue> {
    Seq::new(rows.len(), |i: int| subscriber_row(rows[i]@))
}

/// The counters of the router as a whole.
pub open spec fn global_members(daemon: Daemon, connections: nat) -> Seq<
    (Seq<char>, json::JsonValue),
> {
    seq![
        ("routes"@, json::JsonValue::Unsigned(daemon.routes.key_seq().len() as u64)),
        (
            "unavailable_routes"@,
            json::JsonValue::Unsigned(daemon.unavailable_routes.key_seq().len() as u64),
        ),
        (
            "channel_prefixes"@,
            json::JsonValue::Unsigned(daemon.channel_prefixes.key_seq().len() as u64),
        ),
        ("subscriber_count"@, json::JsonValue::Unsigned(connections as u64)),
    ]
}

/// The members of the status document.
pub open spec fn status_members(
    daemon: Daemon,
    snapshots: Seq<SubscriberSnapshot>,
    uptime_ms: u64,
) -> Seq<(Seq<char>, json::JsonValue)> {
    seq![
        ("uptime_ms"@, json::JsonValue::Unsigned(uptime_ms)),
        (
            "extensions"@,
            json::JsonValue::Array(
                ready_rows(daemon.extensions.key_seq(), daemon@.extensions) + failed_rows(
                    daemon.failed_extensions.key_seq(),
                    daemon@.failed,
                ),
            ),
        ),
        ("subscribers"@, json::JsonValue::Array(subscriber_rows(snapshots))),
        ("global"@, json::JsonValue::Object(global_members(daemon, snapshots.len()))),
    ]
}

/// The status document.
pub open spec fn status_value(
    daemon: Daemon,
    snapshots: Seq<SubscriberSnapshot>,
    uptime_ms: u64,
) -> json::JsonValue {
    json::JsonValue::Object(status_members(daemon, snapshots, uptime_ms))
}

fn number_or_null(n: Option<u64>) -> (json: Json)
    ensures
        json@ == optional_number(n),
{
    match n {
        Some(n) => Json::Unsigned(n),
        None => Json::Null,
    }
}

/// No members yet.
fn no_members() -> (members: Vec<(String, Json)>)
    ensures
        json::member_values(members@) == Seq::<(Seq<char>, json::JsonValue)>::empty(),
{
    let members: Vec<(String, Json)> = Vec::new();
    assert(json::member_values(members@) =~= Seq::<(Seq<char>, json::JsonValue)>::empty());
    members
}

fn show_handle(handle: &ExtHandle) -> (row: Json)
    ensures
        row@ == ready_row(handle@),
{
    let mut members: Vec<(String, Json)> = no_members();
    let pid: Option<u64> = match handle.pid {
        Some(pid) => Some(pid as u64),
        None => None,
    };
    json::push_member(
        &mut members,
        "candidate_id",
        json::string(handle.candidate_id.as_str()),
    );
    json::push_member(&mut members, "id", json::string(handle.id.as_str()));
    json::push_member(&mut members, "state", json::string("Ready"));
    json::push_member(&mut members, "pid", number_or_null(pid));
    json::push_member(&mut members, "path", json::string(handle.path.as_str()));
    json::push_member(&mut members, "restarts", Json::Unsigned(handle.restarts as u64));
    json::push_member(&mut members, "paths", json::string_array(&handle.paths));
    json::push_member(&mut members, "channels", json::string_array(&handle.channels));
    json::push_member(
        &mut members,
        "in_flight",
        Json::Unsigned(handle.dispatches.in_flight() as u64),
    );
    json::push_member(
        &mut members,
        "protocol_errors",
        Json::Unsigned(handle.protocol_errors as u64),
    );
    json::push_member(
        &mut members,
        "namespace_violations",
        Json::Unsigned(handle.namespace_violations as u64),
    );
    json::push_member(
        &mut members,
        "consecutive_timeouts",
        Json::Unsigned(handle.consecutive_timeouts as u64),
    );
    json::push_member(
        &mut members,
        "events_emitted",
        Json::Unsigned(handle.event_stats.emitted as u64),
    );
    json::push_member(
        &mut members,
        "last_event_at_ms",
        number_or_null(handle.event_stats.last_event_at_ms()),
    );
    assert(json::member_values(members@) =~= ready_row_members(handle@));
    json::object(members)
}

fn show_failed(id: &str, reason: &str) -> (row: Json)
    ensures
        row@ == failed_row(id@, reason@),
{
    let mut members: Vec<(String, Json)> = no_members();
    json::push_member(&mut members, "id", json::string(id));
    json::push_member(&mut members, "state", json::string("Failed"));
    json::push_member(&mut members, "reason", json::string(reason));
    assert(json::member_values(members@) =~= failed_row_members(id@, reason@));
    json::object(members)
}

fn show_subscriber(snapshot: &SubscriberSnapshot) -> (row: Json)
    ensures
        row@ == subscriber_row(snapshot@),
{
    let mut members: Vec<(String, Json)> = no_members();
    let addr: Json = match &snapshot.remote_addr {
        Some(addr) => json::string(addr.as_str()),
        None => Json::Null,
    };
    json::push_member(&mut members, "name", json::string(snapshot.name.as_str()));
    json::push_member(&mut members, "remote_addr", addr);
    json::push_member(&mut members, "patterns", json::string_array(&snapshot.patterns));
    json::push_member(&mut members, "delivered", Json::Unsigned(snapshot.delivered as u64));
    json::push_member(&mut members, "dropped", Json::Unsigned(snapshot.dropped as u64));
    assert(json::member_values(members@) =~= subscriber_row_members(snapshot@));
    json::object(members)
}

impl Daemon {
    fn extension_rows(&self) -> (rows: Vec<Json>)
        ensures
            json::values_of(rows@) == ready_rows(self.extensions.key_seq(), self@.extensions)
                + failed_rows(self.failed_extensions.key_seq(), self@.failed),
    {
        let mut rows: Vec<Json> = Vec::new();
        let ready: usize = self.extensions.len();
        let ghost ids = self.extensions.key_seq();
        let ghost running = self@.extensions;
        let mut i: usize = 0;
        while i < ready
            invariant
                i <= ready == ids.len(),
                ids == self.extensions.key_seq(),
                running == self@.extensions,
                rows@.len() == i,
                forall|j: int| 0 <= j < i ==> (#[trigger] rows@[j])@ == ready_row(running[ids[j]]),
            decreases ready - i,
        {
            let handle: &ExtHandle = self.extensions.value_at(i);
            assert(running[ids[i as int]] == handle@);
            rows.push(show_handle(handle));
            i += 1;
        }
        let failed: usize = self.failed_extensions.len();
        let ghost lost = self.failed_extensions.key_seq();
        let ghost reasons = self@.failed;
        let mut k: usize = 0;
        while k < failed
            invariant
                k <= failed == lost.len(),
                ready == ids.len(),
                lost == self.failed_extensions.key_seq(),
                reasons == self@.failed,
                rows@.len() == ready + k,
                forall|j: int|
                    0 <= j < ready ==> (#[trigger] rows@[j])@ == ready_row(running[ids[j]]),
                forall|j: int|
                    ready <= j < ready + k ==> (#[trigger] rows@[j])@ == failed_row(
                        lost[j - ready],
                        reasons[lost[j - ready]],
                    ),
            decreases failed - k,
        {
            let id: &String = self.failed_extensions.key_at(k);
            let reason: &String = self.failed_extensions.value_at(k);
            assert(reasons[lost[k as int]] == reason@);
            rows.push(show_failed(id.as_str(), reason.as_str()));
            k += 1;
        }
        assert(json::values_of(rows@) =~= ready_rows(ids, running) + failed_rows(lost, reasons));
        rows
    }

    /// The status document: the control socket serves it, and the metrics are
    /// rendered from it.
    pub fn status_json(&self, snapshots: &[SubscriberSnapshot], uptime_ms: u64) -> (status: Json)
        ensures
            status@ == status_value(*self, snapshots@, uptime_ms),
    {
        let ext_rows: Vec<Json> = self.extension_rows();
        let mut sub_rows: Vec<Json> = Vec::new();
        let mut i: usize = 0;
        while i < snapshots.len()
            invariant
                i <= snapshots@.len(),
                sub_rows@.len() == i,
                forall|j: int|
                    0 <= j < i ==> (#[trigger] sub_rows@[j])@ == subscriber_row(snapshots@[j]@),
            decreases snapshots@.len() - i,
        {
            sub_rows.push(show_subscriber(&snapshots[i]));
            i += 1;
        }
        assert(json::values_of(sub_rows@) =~= subscriber_rows(snapshots@));
        let mut global: Vec<(String, Json)> = no_members();
        json::push_member(&mut global, "routes", Json::Unsigned(self.routes.len() as u64));
        json::push_member(
            &mut global,
            "unavailable_routes",
            Json::Unsigned(self.unavailable_routes.len() as u64),
        );
        json::push_member(
            &mut global,
            "channel_prefixes",
            Json::Unsigned(self.channel_prefixes.len() as u64),
        );
        json::push_member(
            &mut global,
            "subscriber_count",
            Json::Unsigned(snapshots.len() as u64),
        );
        assert(json::member_values(global@) =~= global_members(*self, snapshots@.len()));
        let mut members: Vec<(String, Json)> = no_members();
        json::push_member(&mut members, "uptime_ms", Json::Unsigned(uptime_ms));
        json::push_member(&mut members, "extensions", json::array(ext_rows));
        json::push_member(&mut members, "subscribers", json::array(sub_rows));
        json::push_member(&mut members, "global", json::object(global));
        assert(json::member_values(members@) =~= status_members(*self, snapshots@, uptime_ms));
        json::object(members)
    }
}

/// The row of a subscriber shows under each name what the name says: its name and its
/// address, its patterns, and how many events were delivered and how many dropped.
pub proof fn subscriber_rows_show_what_they_say(row: subscribers::SnapshotValue)
    ensures
        json::member(subscriber_row(row), "name"@) == Some(json::JsonValue::Text(row.name)),
        json::member(subscriber_row(row), "remote_addr"@) == Some(
            match row.remote_addr {
                Some(addr) => json::JsonValue::Text(addr),
                None => json::JsonValue::Null,
            },
        ),
        match json::member(subscriber_row(row), "patterns"@) {
            Some(json::JsonValue::Array(items)) => items.len() == row.patterns.len() && forall|
                i: int,
            |
                0 <= i < items.len() ==> #[trigger] items[i] == json::JsonValue::Text(
                    row.patterns[i],
                ),
            _ => false,
        },
        json::member(subscriber_row(row), "delivered"@) == Some(
            json::JsonValue::Unsigned(row.delivered as u64),
        ),
        json::member(subscriber_row(row), "dropped"@) == Some(
            json::JsonValue::Unsigned(row.dropped as u64),
        ),
{
    let members = subscriber_row_members(row);
    reveal_strlit("name");
    reveal_strlit("remote_addr");
    reveal_strlit("patterns");
    reveal_strlit("delivered");
    reveal_strlit("dropped");
    assert("name"@.len() == 4 && "remote_addr"@.len() == 11 && "patterns"@.len() == 8
        && "delivered"@.len() == 9 && "dropped"@.len() == 7);
    json::member_is_found(members, 0, "name"@, members[0].1);
    json::member_is_found(members, 1, "remote_addr"@, members[1].1);
    json::member_is_found(members, 2, "patterns"@, members[2].1);
    json::member_is_found(members, 3, "delivered"@, members[3].1);
    json::member_is_found(members, 4, "dropped"@, members[4].1);
}

/// Two subscribers that differ in how many events were dropped have rows that differ
/// in that, and one without drops shows none, whatever was delivered to it.
pub proof fn drops_are_told_apart(
    a: subscribers::SnapshotValue,
    b: subscribers::SnapshotValue,
)
    requires
        0 <= a.dropped <= u64::MAX,
        0 <= b.dropped <= u64::MAX,
        a.dropped != b.dropped,
    ensures
        json::member(subscriber_row(a), "dropped"@) != json::member(
            subscriber_row(b),
            "dropped"@,
        ),
        a.dropped == 0 ==> json::member(subscriber_row(a), "dropped"@) == Some(
            json::JsonValue::Unsigned(0),
        ),
{
    subscriber_rows_show_what_they_say(a);
    subscriber_rows_show_what_they_say(b);
}

/// The row of a running extension shows under each name what the name says.
pub proof fn ready_rows_show_what_they_say(handle: daemon::HandleValue)
    ensures
        ({
            let row = ready_row(handle);
            &&& json::member(row, "candidate_id"@) == Some(
                json::JsonValue::Text(handle.candidate_id),
            )
            &&& json::member(row, "id"@) == Some(json::JsonValue::Text(handle.id))
            &&& json::member(row, "state"@) == Some(json::JsonValue::Text("Ready"@))
            &&& json::member(row, "path"@) == Some(json::JsonValue::Text(handle.path))
            &&& json::member(row, "pid"@) == Some(
                match handle.pid {
                    Some(pid) => json::JsonValue::Unsigned(pid as u64),
                    None => json::JsonValue::Null,
                },
            )
            &&& json::member(row, "restarts"@) == Some(
                json::JsonValue::Unsigned(handle.restarts as u64),
            )
            &&& json::member(row, "in_flight"@) == Some(
                json::JsonValue::Unsigned(handle.in_flight as u64),
            )
            &&& json::member(row, "protocol_errors"@) == Some(
                json::JsonValue::Unsigned(handle.protocol_errors as u64),
            )
            &&& json::member(row, "namespace_violations"@) == Some(
                json::JsonValue::Unsigned(handle.namespace_violations as u64),
            )
            &&& json::member(row, "consecutive_timeouts"@) == Some(
                json::JsonValue::Unsigned(handle.consecutive_timeouts as u64),
            )
            &&& json::member(row, "events_emitted"@) == Some(
                json::JsonValue::Unsigned(handle.event_stats.emitted as u64),
            )
            &&& json::member(row, "last_event_at_ms"@) == Some(
                if handle.event_stats.last_at_ms == 0 {
                    json::JsonValue::Null
                } else {
                    json::JsonValue::Unsigned(handle.event_stats.last_at_ms)
                },
            )
            &&& match json::member(row, "paths"@) {
                Some(json::JsonValue::Array(items)) => items.len() == handle.paths.len() && forall|
                    i: int,
                |
                    0 <= i < items.len() ==> #[trigger] items[i] == json::JsonValue::Text(
                        handle.paths[i],
                    ),
                _ => false,
            }
            &&& match json::member(row, "channels"@) {
                Some(json::JsonValue::Array(items)) => items.len() == handle.channels.len()
                    && forall|i: int|
                    0 <= i < items.len() ==> #[trigger] items[i] == json::JsonValue::Text(
                        handle.channels[i],
                    ),
                _ => false,
            }
        }),
{
    let members = ready_row_members(handle);
    reveal_strlit("candidate_id");
    reveal_strlit("id");
    reveal_strlit("state");
    reveal_strlit("pid");
    reveal_strlit("path");
    reveal_strlit("restarts");
    reveal_strlit("paths");
    reveal_strlit("channels");
    reveal_strlit("in_flight");
    reveal_strlit("protocol_errors");
    reveal_strlit("namespace_violations");
    reveal_strlit("consecutive_timeouts");
    reveal_strlit("events_emitted");
    reveal_strlit("last_event_at_ms");
    assert("candidate_id"@.len() == 12 && "id"@.len() == 2 && "state"@.len() == 5 && "pid"@.len()
        == 3 && "path"@.len() == 4 && "restarts"@.len() == 8 && "paths"@.len() == 5
        && "channels"@.len() == 8 && "in_flight"@.len() == 9 && "protocol_errors"@.len() == 15
        && "namespace_violations"@.len() == 20 && "consecutive_timeouts"@.len() == 20
        && "events_emitted"@.len() == 14 && "last_event_at_ms"@.len() == 16);
    assert("state"@[0] == 's' && "paths"@[0] == 'p' && "restarts"@[0] == 'r' && "channels"@[0]
        == 'c' && "namespace_violations"@[0] == 'n' && "consecutive_timeouts"@[0] == 'c');
    json::member_is_found(members, 0, "candidate_id"@, members[0].1);
    json::member_is_found(members, 1, "id"@, members[1].1);
    json::member_is_found(members, 2, "state"@, members[2].1);
    json::member_is_found(members, 3, "pid"@, members[3].1);
    json::member_is_found(members, 4, "path"@, members[4].1);
    json::member_is_found(members, 5, "restarts"@, members[5].1);
    json::member_is_found(members, 6, "paths"@, members[6].1);
    json::member_is_found(members, 7, "channels"@, members[7].1);
    json::member_is_found(members, 8, "in_flight"@, members[8].1);
    json::member_is_found(members, 9, "protocol_errors"@, members[9].1);
    json::member_is_found(members, 10, "namespace_violations"@, members[10].1);
    json::member_is_found(members, 11, "consecutive_timeouts"@, members[11].1);
    json::member_is_found(members, 12, "events_emitted"@, members[12].1);
    json::member_is_found(members, 13, "last_event_at_ms"@, members[13].1);
}

/// The row of a candidate that failed shows which it is and why it failed.
pub proof fn failed_rows_show_what_they_say(id: Seq<char>, reason: Seq<char>)
    ensures
        json::member(failed_row(id, reason), "id"@) == Some(json::JsonValue::Text(id)),
        json::member(failed_row(id, reason), "state"@) == Some(json::JsonValue::Text("Failed"@)),
        json::member(failed_row(id, reason), "reason"@) == Some(json::JsonValue::Text(reason)),
{
    let members = failed_row_members(id, reason);
    reveal_strlit("id");
    reveal_strlit("state");
    reveal_strlit("reason");
    assert("id"@.len() == 2 && "state"@.len() == 5 && "reason"@.len() == 6);
    json::member_is_found(members, 0, "id"@, members[0].1);
    json::member_is_found(members, 1, "state"@, members[1].1);
    json::member_is_found(members, 2, "reason"@, members[2].1);
}

/// The status shows the uptime, a row for each running extension and behind them one
/// for each candidate that failed, both in the order of their names, a row for each
/// connection, and how many routes, unavailable routes, channel prefixes and
/// connections there are.
pub proof fn status_shows_everything(
    daemon: Daemon,
    snapshots: Seq<SubscriberSnapshot>,
    uptime_ms: u64,
)
    ensures
        ({
            let status = status_value(daemon, snapshots, uptime_ms);
            let running = daemon.extensions.key_seq();
            let failed = daemon.failed_extensions.key_seq();
            &&& json::member(status, "uptime_ms"@) == Some(json::JsonValue::Unsigned(uptime_ms))
            &&& match json::member(status, "extensions"@) {
                Some(json::JsonValue::Array(rows)) => {
                    &&& rows.len() == running.len() + failed.len()
                    &&& forall|i: int|
                        0 <= i < running.len() ==> #[trigger] rows[i] == ready_row(
                            daemon@.extensions[running[i]],
                        )
                    &&& forall|i: int|
                        0 <= i < failed.len() ==> rows[running.len() + i] == failed_row(
                            #[trigger] failed[i],
                            daemon@.failed[failed[i]],
                        )
                },
                _ => false,
            }
            &&& match json::member(status, "subscribers"@) {
                Some(json::JsonValue::Array(rows)) => {
                    &&& rows.len() == snapshots.len()
                    &&& forall|i: int|
                        0 <= i < rows.len() ==> #[trigger] rows[i] == subscriber_row(snapshots[i]@)
                },
                _ => false,
            }
            &&& match json::member(status, "global"@) {
                Some(global) => {
                    &&& json::member(global, "routes"@) == Some(
                        json::JsonValue::Unsigned(daemon.routes.key_seq().len() as u64),
                    )
                    &&& json::member(global, "unavailable_routes"@) == Some(
                        json::JsonValue::Unsigned(daemon.unavailable_routes.key_seq().len() as u64),
                    )
                    &&& json::member(global, "channel_prefixes"@) == Some(
                        json::JsonValue::Unsigned(daemon.channel_prefixes.key_seq().len() as u64),
                    )
                    &&& json::member(global, "subscriber_count"@) == Some(
                        json::JsonValue::Unsigned(snapshots.len() as u64),
                    )
                },
                None => false,
            }
        }),
{
    let members = status_members(daemon, snapshots, uptime_ms);
    let global = global_members(daemon, snapshots.len());
    reveal_strlit("uptime_ms");
    reveal_strlit("extensions");
    reveal_strlit("subscribers");
    reveal_strlit("global");
    reveal_strlit("routes");
    reveal_strlit("unavailable_routes");
    reveal_strlit("channel_prefixes");
    reveal_strlit("subscriber_count");
    assert("uptime_ms"@.len() == 9 && "extensions"@.len() == 10 && "subscribers"@.len() == 11
        && "global"@.len() == 6);
    assert("routes"@.len() == 6 && "unavailable_routes"@.len() == 18 && "channel_prefixes"@.len()
        == 16 && "subscriber_count"@.len() == 16);
    assert("channel_prefixes"@[0] == 'c' && "subscriber_count"@[0] == 's');
    json::member_is_found(members, 0, "uptime_ms"@, members[0].1);
    json::member_is_found(members, 1, "extensions"@, members[1].1);
    json::member_is_found(members, 2, "subscribers"@, members[2].1);
    json::member_is_found(members, 3, "global"@, members[3].1);
    json::member_is_found(global, 0, "routes"@, global[0].1);
    json::member_is_found(global, 1, "unavailable_routes"@, global[1].1);
    json::member_is_found(global, 2, "channel_prefixes"@, global[2].1);
    json::member_is_found(global, 3, "subscriber_count"@, global[3].1);
    let ready = ready_rows(daemon.extensions.key_seq(), daemon@.extensions);
    let lost = failed_rows(daemon.failed_extensions.key_seq(), daemon@.failed);
    assert forall|i: int| 0 <= i < lost.len() implies (ready + lost)[ready.len() + i]
        == lost[i] by {}
}

} // verus!
