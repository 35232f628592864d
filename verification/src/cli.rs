//! What the control client prints.

use vstd::prelude::*;
use vstd::string::*;

use crate::json;
use crate::json::Json;
use crate::messages::{ControlResponse, TokenSummary};
use crate::text;

verus! {

/// A duration by its two largest units, where it has days, hours or minutes, and
/// else in seconds.
pub open spec fn humanized(ms: nat) -> Seq<char> {
    let secs = ms / 1000;
    if secs >= 86_400 {
        text::decimal(secs / 86_400) + "d "@ + text::decimal(secs % 86_400 / 3_600) + "h"@
    } else if secs >= 3_600 {
        text::decimal(secs / 3_600) + "h "@ + text::decimal(secs % 3_600 / 60) + "m"@
    } else if secs >= 60 {
        text::decimal(secs / 60) + "m "@ + text::decimal(secs % 60) + "s"@
    } else {
        text::decimal(secs) + "s"@
    }
}

/// A duration in milliseconds by its two largest units, such as `10h 32m`.
pub fn humanize_ms(ms: u64) -> (shown: String)
    ensures
        shown@ == humanized(ms as nat),
{
    let total_secs: u64 = ms / 1000;
    let days: u64 = total_secs / 86_400;
    let hours: u64 = (total_secs % 86_400) / 3_600;
    let mins: u64 = (total_secs % 3_600) / 60;
    let secs: u64 = total_secs % 60;
    let mut shown: String = String::new();
    if days > 0 {
        text::push_decimal(&mut shown, days);
        shown.append("d ");
        text::push_decimal(&mut shown, hours);
        shown.append("h");
    } else if hours > 0 {
        text::push_decimal(&mut shown, hours);
        shown.append("h ");
        text::push_decimal(&mut shown, mins);
        shown.append("m");
    } else if mins > 0 {
        text::push_decimal(&mut shown, mins);
        shown.append("m ");
        text::push_decimal(&mut shown, secs);
        shown.append("s");
    } else {
        text::push_decimal(&mut shown, secs);
        shown.append("s");
    }
    assert(shown@ =~= humanized(ms as nat));
    shown
}

/// The line of an extension, given the texts of its numbers.
pub open spec fn extension_text(
    id: Seq<char>,
    state: Seq<char>,
    pid: Seq<char>,
    events: Seq<char>,
    last: Seq<char>,
) -> Seq<char> {
    "  "@ + id + "\t"@ + state + "\tpid="@ + pid + "\tevents="@ + events + "\tlast_event_at_ms="@
        + last + "\n"@
}

/// The line of an extension, given the texts of its numbers.
pub fn extension_line(id: &str, state: &str, pid: &str, events: &str, last: &str) -> (line: String)
    ensures
        line@ == extension_text(id@, state@, pid@, events@, last@),
{
    let mut line: String = "  ".to_owned();
    line.append(id);
    line.append("\t");
    line.append(state);
    line.append("\tpid=");
    line.append(pid);
    line.append("\tevents=");
    line.append(events);
    line.append("\tlast_event_at_ms=");
    line.append(last);
    line.append("\n");
    line
}

/// The line of a subscriber, given the texts of its patterns and numbers.
pub open spec fn subscriber_text(
    name: Seq<char>,
    patterns: Seq<char>,
    delivered: Seq<char>,
    dropped: Seq<char>,
) -> Seq<char> {
    "  "@ + name + "\tpatterns="@ + patterns + "\tdelivered="@ + delivered + "\tdropped="@ + dropped
        + "\n"@
}

/// The line of a subscriber, given the texts of its patterns and numbers.
pub fn subscriber_line(name: &str, patterns: &str, delivered: &str, dropped: &str) -> (line: String)
    ensures
        line@ == subscriber_text(name@, patterns@, delivered@, dropped@),
{
    let mut line: String = "  ".to_owned();
    line.append(name);
    line.append("\tpatterns=");
    line.append(patterns);
    line.append("\tdelivered=");
    line.append(delivered);
    line.append("\tdropped=");
    line.append(dropped);
    line.append("\n");
    line
}

/// The text of a member, or a question mark where it has none.
pub open spec fn text_or_unknown(value: json::JsonValue, name: Seq<char>) -> Seq<char> {
    match json::as_text(json::member_or_null(value, name)) {
        Some(s) => s,
        None => "?"@,
    }
}

/// A member as JSON writes it, where what is missing is null.
pub open spec fn shown_member(value: json::JsonValue, name: Seq<char>) -> Seq<char> {
    json::shown(json::member_or_null(value, name))
}

/// The line of an extension in a status.
pub open spec fn extension_row(ext: json::JsonValue) -> Seq<char> {
    extension_text(
        text_or_unknown(ext, "id"@),
        text_or_unknown(ext, "state"@),
        shown_member(ext, "pid"@),
        shown_member(ext, "events_emitted"@),
        shown_member(ext, "last_event_at_ms"@),
    )
}

/// The line of a subscriber in a status.
pub open spec fn subscriber_row(sub: json::JsonValue) -> Seq<char> {
    subscriber_text(
        text_or_unknown(sub, "name"@),
        shown_member(sub, "patterns"@),
        shown_member(sub, "delivered"@),
        shown_member(sub, "dropped"@),
    )
}

/// The lines of all extensions.
pub open spec fn extension_rows(exts: Seq<json::JsonValue>) -> Seq<char>
    decreases exts.len(),
{
    if exts.len() == 0 {
        Seq::empty()
    } else {
        extension_rows(exts.drop_last()) + extension_row(exts.last())
    }
}

/// The lines of all subscribers.
pub open spec fn subscriber_rows(subs: Seq<json::JsonValue>) -> Seq<char>
    decreases subs.len(),
{
    if subs.len() == 0 {
        Seq::empty()
    } else {
        subscriber_rows(subs.drop_last()) + subscriber_row(subs.last())
    }
}

/// The items of a member; none where it is no array.
pub open spec fn items_of(value: json::JsonValue, name: Seq<char>) -> Seq<json::JsonValue> {
    match json::as_items(json::member_or_null(value, name)) {
        Some(items) => items,
        None => Seq::empty(),
    }
}

/// The uptime in a status, zero where it has none.
pub open spec fn uptime_of(status: json::JsonValue) -> u64 {
    match json::as_unsigned(json::member_or_null(status, "uptime_ms"@)) {
        Some(ms) => ms,
        None => 0,
    }
}

/// What is printed of a status.
pub open spec fn status_text(status: json::JsonValue) -> Seq<char> {
    "uptime_ms: "@ + text::decimal(uptime_of(status) as nat) + " ("@ + humanized(
        uptime_of(status) as nat,
    ) + ")\nextensions:\n"@ + extension_rows(items_of(status, "extensions"@)) + "subscribers:\n"@
        + subscriber_rows(items_of(status, "subscribers"@))
}

/// The text of a member, or a question mark where it has none.
fn read_text(value: &Json, name: &str) -> (shown: String)
    ensures
        shown@ == text_or_unknown(value@, name@),
{
    match value.get(name) {
        Some(found) => match found.as_str() {
            Some(s) => s.to_owned(),
            None => "?".to_owned(),
        },
        None => "?".to_owned(),
    }
}

/// A member as JSON writes it.
fn show_member(value: &Json, name: &str) -> (shown: String)
    ensures
        shown@ == shown_member(value@, name@),
{
    match value.get(name) {
        Some(found) => json::show(found),
        None => json::show(&Json::Null),
    }
}

/// What is printed of a status.
pub fn print_status(status: &Json) -> (shown: String)
    ensures
        shown@ == status_text(status@),
{
    let uptime_ms: u64 = match status.get("uptime_ms") {
        Some(found) => match found.as_u64() {
            Some(ms) => ms,
            None => 0,
        },
        None => 0,
    };
    let mut shown: String = "uptime_ms: ".to_owned();
    text::push_decimal(&mut shown, uptime_ms);
    shown.append(" (");
    shown.append(humanize_ms(uptime_ms).as_str());
    shown.append(")\nextensions:\n");
    match status.get("extensions") {
        Some(found) => match found.as_array() {
            Some(items) => {
                push_extensions(&mut shown, items);
            },
            None => {},
        },
        None => {},
    }
    shown.append("subscribers:\n");
    match status.get("subscribers") {
        Some(found) => match found.as_array() {
            Some(items) => {
                push_subscribers(&mut shown, items);
            },
            None => {},
        },
        None => {},
    }
    assert(shown@ =~= status_text(status@));
    shown
}

/// Adds the lines of extensions.
fn push_extensions(shown: &mut String, items: &[Json])
    ensures
        final(shown)@ == old(shown)@ + extension_rows(json::values_of(items@)),
{
    let ghost before = shown@;
    let ghost all = json::values_of(items@);
    let mut i: usize = 0;
    assert(shown@ =~= before + extension_rows(all.take(0)));
    while i < items.len()
        invariant
            i <= items@.len(),
            all == json::values_of(items@),
            shown@ == before + extension_rows(all.take(i as int)),
        decreases items@.len() - i,
    {
        let ext: &Json = &items[i];
        assert(all.take(i as int + 1).drop_last() =~= all.take(i as int));
        assert(all[i as int] == ext@);
        let line: String = extension_line(
            read_text(ext, "id").as_str(),
            read_text(ext, "state").as_str(),
            show_member(ext, "pid").as_str(),
            show_member(ext, "events_emitted").as_str(),
            show_member(ext, "last_event_at_ms").as_str(),
        );
        shown.append(line.as_str());
        i += 1;
        assert(shown@ =~= before + extension_rows(all.take(i as int)));
    }
    assert(all.take(i as int) =~= all);
}

/// Adds the lines of subscribers.
fn push_subscribers(shown: &mut String, items: &[Json])
    ensures
        final(shown)@ == old(shown)@ + subscriber_rows(json::values_of(items@)),
{
    let ghost before = shown@;
    let ghost all = json::values_of(items@);
    let mut i: usize = 0;
    assert(shown@ =~= before + subscriber_rows(all.take(0)));
    while i < items.len()
        invariant
            i <= items@.len(),
            all == json::values_of(items@),
            shown@ == before + subscriber_rows(all.take(i as int)),
        decreases items@.len() - i,
    {
        let sub: &Json = &items[i];
        assert(all.take(i as int + 1).drop_last() =~= all.take(i as int));
        assert(all[i as int] == sub@);
        let line: String = subscriber_line(
            read_text(sub, "name").as_str(),
            show_member(sub, "patterns").as_str(),
            show_member(sub, "delivered").as_str(),
            show_member(sub, "dropped").as_str(),
        );
        shown.append(line.as_str());
        i += 1;
        assert(shown@ =~= before + subscriber_rows(all.take(i as int)));
    }
    assert(all.take(i as int) =~= all);
}

/// The line of a token.
pub open spec fn token_text(token: TokenSummary) -> Seq<char> {
    token.name@ + "\t"@ + token.fingerprint@ + "\t"@ + token.created@ + "\t"@ + text::decimal(
        token.active_conns as nat,
    ) + "\n"@
}

/// The lines of tokens.
pub open spec fn token_rows(tokens: Seq<TokenSummary>) -> Seq<char>
    decreases tokens.len(),
{
    if tokens.len() == 0 {
        Seq::empty()
    } else {
        token_rows(tokens.drop_last()) + token_text(tokens.last())
    }
}

/// The table of tokens, below its heading.
pub fn token_table(tokens: &[TokenSummary]) -> (shown: String)
    ensures
        shown@ == "NAME\tFINGERPRINT\tCREATED\tACTIVE\n"@ + token_rows(tokens@),
{
    let ghost heading = "NAME\tFINGERPRINT\tCREATED\tACTIVE\n"@;
    let mut shown: String = "NAME\tFINGERPRINT\tCREATED\tACTIVE\n".to_owned();
    let mut i: usize = 0;
    assert(shown@ =~= heading + token_rows(tokens@.take(0)));
    while i < tokens.len()
        invariant
            i <= tokens@.len(),
            shown@ == heading + token_rows(tokens@.take(i as int)),
        decreases tokens@.len() - i,
    {
        let token: &TokenSummary = &tokens[i];
        assert(tokens@.take(i as int + 1).drop_last() =~= tokens@.take(i as int));
        shown.append(token.name.as_str());
        shown.append("\t");
        shown.append(token.fingerprint.as_str());
        shown.append("\t");
        shown.append(token.created.as_str());
        shown.append("\t");
        text::push_decimal(&mut shown, token.active_conns as u64);
        shown.append("\n");
        i += 1;
        assert(shown@ =~= heading + token_rows(tokens@.take(i as int)));
    }
    assert(tokens@.take(i as int) =~= tokens@);
    shown
}

/// What the client does with an answer.
#[derive(Debug)]
pub enum Output {
    /// Print the text.
    Print(String),
    /// Print the document, indented.
    PrintJson(Json),
    /// Fail with the message.
    Fail(String),
    /// Fail, because the answer does not fit the request.
    Unexpected(ControlResponse),
}

/// What the client was asked for.
#[derive(Clone, Copy, Debug, PartialEq, Eq, Structural)]
pub enum Asked {
    Status { json: bool },
    Token,
}

/// Decides what the client does with an answer.
pub fn render_response(asked: Asked, response: ControlResponse) -> (out: Output)
    ensures
        match response {
            ControlResponse::Status { status } => match asked {
                Asked::Status { json: true } => out == Output::PrintJson(status),
                Asked::Status { json: false } => out matches Output::Print(s) && s@ == status_text(
                    status@,
                ),
                Asked::Token => out == Output::Unexpected(response),
            },
            ControlResponse::Token { name, token } => out matches Output::Print(s) && s@ == name@
                + ": "@ + token@ + "\n"@,
            ControlResponse::Tokens { tokens } => out matches Output::Print(s) && s@
                == "NAME\tFINGERPRINT\tCREATED\tACTIVE\n"@ + token_rows(tokens@),
            ControlResponse::Done => out matches Output::Print(s) && s@ == "ok\n"@,
            ControlResponse::Error { msg } => out matches Output::Fail(s) && s@ == msg@,
        },
{
    match response {
        ControlResponse::Status { status } => match asked {
            Asked::Status { json: true } => Output::PrintJson(status),
            Asked::Status { json: false } => Output::Print(print_status(&status)),
            Asked::Token => Output::Unexpected(ControlResponse::Status { status }),
        },
        ControlResponse::Token { name, token } => {
            let mut shown: String = name;
            shown.append(": ");
            shown.append(token.as_str());
            shown.append("\n");
            Output::Print(shown)
        },
        ControlResponse::Tokens { tokens } => Output::Print(token_table(&tokens)),
        ControlResponse::Done => Output::Print("ok\n".to_owned()),
        ControlResponse::Error { msg } => Output::Fail(msg),
    }
}

/// A duration is shown by how often its larger unit fits into it, and how often the
/// next smaller unit fits into what is left: days and hours, hours and minutes,
/// minutes and seconds, or seconds alone.
pub proof fn durations_are_rounded_down(ms: nat, large: nat, small: nat)
    ensures
        large > 0 && small < 24 && 1000 * (86_400 * large + 3_600 * small) <= ms < 1000 * (86_400
            * large + 3_600 * (small + 1)) ==> humanized(ms) == text::decimal(large) + "d "@
            + text::decimal(small) + "h"@,
        0 < large < 24 && small < 60 && 1000 * (3_600 * large + 60 * small) <= ms < 1000 * (3_600
            * large + 60 * (small + 1)) ==> humanized(ms) == text::decimal(large) + "h "@
            + text::decimal(small) + "m"@,
        0 < large < 60 && small < 60 && 1000 * (60 * large + small) <= ms < 1000 * (60 * large
            + small + 1) ==> humanized(ms) == text::decimal(large) + "m "@ + text::decimal(small)
            + "s"@,
        small < 60 && 1000 * small <= ms < 1000 * (small + 1) ==> humanized(ms) == text::decimal(
            small,
        ) + "s"@,
{
    let secs = ms / 1000;
    if large > 0 && small < 24 && 1000 * (86_400 * large + 3_600 * small) <= ms < 1000 * (86_400
        * large + 3_600 * (small + 1)) {
        let rest = secs - 86_400 * large;
        assert(3_600 * small <= rest < 3_600 * (small + 1));
        vstd::arithmetic::div_mod::lemma_fundamental_div_mod_converse(
            secs as int,
            86_400,
            large as int,
            rest,
        );
        assert(rest / 3_600 == small) by (nonlinear_arith)
            requires
                3_600 * small <= rest < 3_600 * (small + 1),
        ;
    }
    if 0 < large < 24 && small < 60 && 1000 * (3_600 * large + 60 * small) <= ms < 1000 * (3_600
        * large + 60 * (small + 1)) {
        let rest = secs - 3_600 * large;
        assert(60 * small <= rest < 60 * (small + 1));
        vstd::arithmetic::div_mod::lemma_fundamental_div_mod_converse(
            secs as int,
            3_600,
            large as int,
            rest,
        );
        assert(rest / 60 == small) by (nonlinear_arith)
            requires
                60 * small <= rest < 60 * (small + 1),
        ;
    }
    if 0 < large < 60 && small < 60 && 1000 * (60 * large + small) <= ms < 1000 * (60 * large
        + small + 1) {
        assert(secs == 60 * large + small);
        vstd::arithmetic::div_mod::lemma_fundamental_div_mod_converse(
            secs as int,
            60,
            large as int,
            small as int,
        );
    }
}

/// The line of an extension shows its identifier, its state, its process, its events
/// and the time of the last one, each behind its name.
pub proof fn extension_lines_show_their_members(
    ext: json::JsonValue,
    id: Seq<char>,
    state: Seq<char>,
    pid: u64,
    events: u64,
    last: u64,
)
    requires
        json::member(ext, "id"@) == Some(json::JsonValue::Text(id)),
        json::member(ext, "state"@) == Some(json::JsonValue::Text(state)),
        json::member(ext, "pid"@) == Some(json::JsonValue::Unsigned(pid)),
        json::member(ext, "events_emitted"@) == Some(json::JsonValue::Unsigned(events)),
        json::member(ext, "last_event_at_ms"@) == Some(json::JsonValue::Unsigned(last)),
    ensures
        extension_row(ext) == "  "@ + id + "\t"@ + state + "\tpid="@ + text::decimal(pid as nat)
            + "\tevents="@ + text::decimal(events as nat) + "\tlast_event_at_ms="@ + text::decimal(
            last as nat,
        ) + "\n"@,
{
}

/// The line of a subscriber shows its name, its patterns and how many events were
/// delivered and dropped, each behind its name.
pub proof fn subscriber_lines_show_their_members(
    sub: json::JsonValue,
    name: Seq<char>,
    delivered: u64,
    dropped: u64,
)
    requires
        json::member(sub, "name"@) == Some(json::JsonValue::Text(name)),
        json::member(sub, "delivered"@) == Some(json::JsonValue::Unsigned(delivered)),
        json::member(sub, "dropped"@) == Some(json::JsonValue::Unsigned(dropped)),
    ensures
        subscriber_row(sub) == "  "@ + name + "\tpatterns="@ + json::shown(
            json::member_or_null(sub, "patterns"@),
        ) + "\tdelivered="@ + text::decimal(delivered as nat) + "\tdropped="@ + text::decimal(
            dropped as nat,
        ) + "\n"@,
{
}

/// What is missing in a row is shown as a question mark where a text belongs, and as
/// null where a number belongs.
pub proof fn missing_members_are_shown(row: json::JsonValue, name: Seq<char>)
    requires
        json::member(row, name) is None,
    ensures
        text_or_unknown(row, name) == "?"@,
        shown_member(row, name) == "null"@,
{
}

/// A status is printed with its uptime, then a line for each extension and one for
/// each subscriber, in their order: one more row adds its line behind the others.
pub proof fn status_lists_every_row(
    rows: Seq<json::JsonValue>,
    row: json::JsonValue,
    status: json::JsonValue,
    uptime_ms: u64,
)
    ensures
        extension_rows(rows.push(row)) == extension_rows(rows) + extension_row(row),
        subscriber_rows(rows.push(row)) == subscriber_rows(rows) + subscriber_row(row),
        extension_rows(Seq::empty()).len() == 0,
        subscriber_rows(Seq::empty()).len() == 0,
        json::member(status, "uptime_ms"@) == Some(json::JsonValue::Unsigned(uptime_ms))
            && json::member(status, "extensions"@) == Some(json::JsonValue::Array(rows))
            && json::member(status, "subscribers"@) == Some(json::JsonValue::Array(seq![row]))
            ==> status_text(status) == "uptime_ms: "@ + text::decimal(uptime_ms as nat) + " ("@
            + humanized(uptime_ms as nat) + ")\nextensions:\n"@ + extension_rows(rows)
            + "subscribers:\n"@ + subscriber_row(row),
{
    assert(rows.push(row).drop_last() =~= rows);
    assert(seq![row].drop_last() =~= Seq::<json::JsonValue>::empty());
    assert(subscriber_rows(seq![row].drop_last()) == Seq::<char>::empty());
    assert(subscriber_rows(seq![row]) =~= subscriber_row(row));
}

/// The table of tokens has a line for each, in their order: its name, the end of its
/// hash, the time it was made and how many connections use it, with tabs between.
pub proof fn tokens_have_a_line_each(tokens: Seq<TokenSummary>, token: TokenSummary)
    ensures
        token_rows(tokens.push(token)) == token_rows(tokens) + (token.name@ + "\t"@
            + token.fingerprint@ + "\t"@ + token.created@ + "\t"@ + text::decimal(
            token.active_conns as nat,
        ) + "\n"@),
        token_rows(Seq::empty()).len() == 0,
{
    assert(tokens.push(token).drop_last() =~= tokens);
}

/// The time that the router has been up is the number that its status gives, and zero
/// where it gives none.
pub proof fn uptimes_are_taken_from_the_status(status: json::JsonValue, ms: u64)
    ensures
        json::member(status, "uptime_ms"@) == Some(json::JsonValue::Unsigned(ms)) ==> uptime_of(
            status,
        ) == ms,
        json::member(status, "uptime_ms"@) is None ==> uptime_of(status) == 0,
{
}

} // verus!
