//! The status document in the text format of Prometheus.
//!
//! The metrics are rendered from the same document that the control socket
//! serves, so that the two never disagree.

use vstd::prelude::*;
use vstd::string::*;

use crate::json;
use crate::json::Json;
use crate::text;

verus! {

/// One character of a label value, as it is written between quotes.
pub open spec fn escaped_char(c: char) -> Seq<char> {
    if c == '\\' {
        seq!['\\', '\\']
    } else if c == '"' {
        seq!['\\', '"']
    } else if c == '\n' {
        seq!['\\', 'n']
    } else {
        seq![c]
    }
}

/// A label value as it is written between quotes.
pub open spec fn escaped(value: Seq<char>) -> Seq<char>
    decreases value.len(),
{
    if value.len() == 0 {
        Seq::empty()
    } else {
        escaped(value.drop_last()) + escaped_char(value.last())
    }
}

fn escape_label(value: &str) -> (out: String)
    ensures
        out@ == escaped(value@),
{
    let chars: Vec<char> = text::chars_of(value);
    let mut out: String = String::new();
    let mut i: usize = 0;
    while i < chars.len()
        invariant
            i <= chars@.len(),
            chars@ == value@,
            out@ == escaped(value@.take(i as int)),
        decreases chars@.len() - i,
    {
        let c: char = chars[i];
        let ghost before = out@;
        if c == '\\' {
            out.push('\\');
            out.push('\\');
        } else if c == '"' {
            out.push('\\');
            out.push('"');
        } else if c == '\n' {
            out.push('\\');
            out.push('n');
        } else {
            out.push(c);
        }
        assert(out@ =~= before + escaped_char(c));
        i += 1;
        assert(value@.take(i as int).drop_last() =~= value@.take(i - 1));
    }
    assert(value@.take(i as int) =~= value@);
    out
}

/// How the value of a metric is written; nothing for what is no number and no
/// text.
pub open spec fn rendered(value: json::JsonValue) -> Option<Seq<char>> {
    match value {
        json::JsonValue::Unsigned(n) => Some(text::decimal(n as nat)),
        json::JsonValue::Negative(n) => Some(
            if n < 0 {
                seq!['-'] + text::decimal((-n) as nat)
            } else {
                text::decimal(n as nat)
            },
        ),
        json::JsonValue::Real(shown) => Some(shown),
        json::JsonValue::Text(shown) => Some(shown),
        _ => None,
    }
}

/// The label of a metric, in braces.
pub open spec fn label_text(label: Option<(Seq<char>, Seq<char>)>) -> Seq<char> {
    match label {
        None => Seq::empty(),
        Some((key, value)) => seq!['{'] + key + seq!['=', '"'] + escaped(value) + seq!['"', '}'],
    }
}

/// The line of one metric; nothing where it has no value.
pub open spec fn gauge_line(
    name: Seq<char>,
    label: Option<(Seq<char>, Seq<char>)>,
    value: json::JsonValue,
) -> Seq<char> {
    match rendered(value) {
        Some(shown) => name + label_text(label) + seq![' '] + shown + seq!['\n'],
        None => Seq::empty(),
    }
}

fn render_number(value: &Json) -> (shown: Option<String>)
    ensures
        match shown {
            Some(s) => rendered(value@) == Some(s@),
            None => rendered(value@) is None,
        },
{
    match value {
        Json::Unsigned(n) => Some(text::to_decimal(*n)),
        Json::Negative(n) => {
            let mut shown: String = String::new();
            let value: i64 = *n;
            if value < 0 {
                shown.push('-');
                let size: u64 = (-(value as i128)) as u64;
                text::push_decimal(&mut shown, size);
                assert(shown@ =~= seq!['-'] + text::decimal((-value) as nat));
            } else {
                text::push_decimal(&mut shown, value as u64);
                assert(shown@ =~= text::decimal(value as nat));
            }
            Some(shown)
        },
        Json::Real(s) => Some(s.clone()),
        Json::Text(s) => Some(s.clone()),
        _ => None,
    }
}

/// The views of a label.
pub open spec fn label_value(label: Option<(&str, &str)>) -> Option<(Seq<char>, Seq<char>)> {
    match label {
        Some((key, value)) => Some((key@, value@)),
        None => None,
    }
}

/// Writes the line of one metric.
fn gauge(out: &mut String, name: &str, label: Option<(&str, &str)>, value: &Json)
    ensures
        final(out)@ == old(out)@ + gauge_line(name@, label_value(label), value@),
{
    let ghost before = out@;
    match render_number(value) {
        None => {
            assert(before + Seq::<char>::empty() =~= before);
        },
        Some(shown) => {
            out.append(name);
            if let Some((key, label_text)) = label {
                out.push('{');
                out.append(key);
                out.push('=');
                out.push('"');
                let inner: String = escape_label(label_text);
                out.append(inner.as_str());
                out.push('"');
                out.push('}');
            }
            assert(out@ =~= before + (name@ + label_text(label_value(label))));
            out.push(' ');
            out.append(shown.as_str());
            out.push('\n');
            assert(out@ =~= before + gauge_line(name@, label_value(label), value@));
        },
    }
}

/// The lines of the counters of one extension that are not null.
pub open spec fn counter_line(
    ext: json::JsonValue,
    id: Seq<char>,
    metric: Seq<char>,
    field: Seq<char>,
) -> Seq<char> {
    gauge_line(metric, Some(("ext"@, id)), json::member_or_null(ext, field))
}

/// The lines of one extension; nothing for a row without an identifier.
pub open spec fn extension_lines(ext: json::JsonValue) -> Seq<char> {
    match json::as_text(json::member_or_null(ext, "id"@)) {
        None => Seq::empty(),
        Some(id) => {
            let up = if json::as_text(json::member_or_null(ext, "state"@)) == Some("Ready"@) {
                1u64
            } else {
                0u64
            };
            gauge_line("whdr_ext_up"@, Some(("ext"@, id)), json::JsonValue::Unsigned(up))
                + counter_line(ext, id, "whdr_ext_restarts"@, "restarts"@)
                + counter_line(ext, id, "whdr_ext_in_flight"@, "in_flight"@)
                + counter_line(ext, id, "whdr_ext_protocol_errors"@, "protocol_errors"@)
                + counter_line(ext, id, "whdr_ext_namespace_violations"@, "namespace_violations"@)
                + counter_line(ext, id, "whdr_ext_consecutive_timeouts"@, "consecutive_timeouts"@)
                + counter_line(ext, id, "whdr_ext_events_emitted"@, "events_emitted"@)
                + counter_line(ext, id, "whdr_ext_last_event_at_ms"@, "last_event_at_ms"@)
        },
    }
}

/// The lines of all extensions.
pub open spec fn all_extension_lines(rows: Seq<json::JsonValue>) -> Seq<char>
    decreases rows.len(),
{
    if rows.len() == 0 {
        Seq::empty()
    } else {
        all_extension_lines(rows.drop_last()) + extension_lines(rows.last())
    }
}

/// A member of an object, null where there is none.
fn field<'a>(value: &'a Json, name: &str) -> (found: Option<&'a Json>)
    ensures
        json::member_or_null(value@, name@) == match found {
            Some(json) => json@,
            None => json::JsonValue::Null,
        },
{
    value.get(name)
}

fn counter(out: &mut String, ext: &Json, id: &str, metric: &str, name: &str)
    ensures
        final(out)@ == old(out)@ + counter_line(ext@, id@, metric@, name@),
{
    match field(ext, name) {
        Some(value) => gauge(out, metric, Some(("ext", id)), value),
        None => {
            assert(out@ =~= old(out)@ + Seq::<char>::empty());
        },
    }
}

/// The text of a member that is a string.
fn text_field<'a>(value: &'a Json, name: &str) -> (found: Option<&'a str>)
    ensures
        match found {
            Some(s) => json::as_text(json::member_or_null(value@, name@)) == Some(s@),
            None => json::as_text(json::member_or_null(value@, name@)) is None,
        },
{
    match value.get(name) {
        Some(found) => found.as_str(),
        None => None,
    }
}

fn extension(out: &mut String, ext: &Json)
    ensures
        final(out)@ == old(out)@ + extension_lines(ext@),
{
    let ghost before = out@;
    match text_field(ext, "id") {
        None => {
            assert(before + Seq::<char>::empty() =~= before);
        },
        Some(id) => {
            let up: u64 = match text_field(ext, "state") {
                Some(state) => if text::same_text(state, "Ready") {
                    1
                } else {
                    0
                },
                None => 0,
            };
            let mut lines: String = String::new();
            gauge(&mut lines, "whdr_ext_up", Some(("ext", id)), &Json::Unsigned(up));
            assert(lines@ =~= gauge_line(
                "whdr_ext_up"@,
                Some(("ext"@, id@)),
                json::JsonValue::Unsigned(up),
            ));
            counter(&mut lines, ext, id, "whdr_ext_restarts", "restarts");
            counter(&mut lines, ext, id, "whdr_ext_in_flight", "in_flight");
            counter(&mut lines, ext, id, "whdr_ext_protocol_errors", "protocol_errors");
            counter(&mut lines, ext, id, "whdr_ext_namespace_violations", "namespace_violations");
            counter(&mut lines, ext, id, "whdr_ext_consecutive_timeouts", "consecutive_timeouts");
            counter(&mut lines, ext, id, "whdr_ext_events_emitted", "events_emitted");
            counter(&mut lines, ext, id, "whdr_ext_last_event_at_ms", "last_event_at_ms");
            assert(lines@ == extension_lines(ext@));
            out.append(lines.as_str());
        },
    }
}

/// What the connections of one name add up to. The sums wrap around.
#[derive(Debug)]
pub struct NameTotals {
    pub name: String,
    pub delivered: u64,
    pub dropped: u64,
    pub connections: u64,
}

/// The value of [`NameTotals`].
pub struct TotalsValue {
    pub name: Seq<char>,
    pub delivered: u64,
    pub dropped: u64,
    pub connections: u64,
}

impl View for NameTotals {
    type V = TotalsValue;

    open spec fn view(&self) -> TotalsValue {
        TotalsValue {
            name: self.name@,
            delivered: self.delivered,
            dropped: self.dropped,
            connections: self.connections,
        }
    }
}

/// The values of a list of totals.
pub open spec fn totals_values(totals: Seq<NameTotals>) -> Seq<TotalsValue> {
    Seq::new(totals.len(), |i: int| totals[i]@)
}

/// A number of a row, zero where it has none.
pub open spec fn count_of(row: json::JsonValue, field: Seq<char>) -> u64 {
    match json::as_unsigned(json::member_or_null(row, field)) {
        Some(n) => n,
        None => 0,
    }
}

/// Where the totals of a name stand; the number of totals where there are none.
pub open spec fn place_of(totals: Seq<TotalsValue>, name: Seq<char>) -> nat
    decreases totals.len(),
{
    if totals.len() == 0 {
        0
    } else if place_of(totals.drop_last(), name) < totals.len() - 1 {
        place_of(totals.drop_last(), name)
    } else if totals.last().name == name {
        (totals.len() - 1) as nat
    } else {
        totals.len()
    }
}

/// The totals with one more connection, where its row has a name.
pub open spec fn with_connection(totals: Seq<TotalsValue>, row: json::JsonValue) -> Seq<
    TotalsValue,
> {
    match json::as_text(json::member_or_null(row, "name"@)) {
        None => totals,
        Some(name) => {
            let delivered = count_of(row, "delivered"@);
            let dropped = count_of(row, "dropped"@);
            let at = place_of(totals, name);
            if at < totals.len() {
                let found = totals[at as int];
                totals.update(
                    at as int,
                    TotalsValue {
                        name,
                        delivered: found.delivered.wrapping_add(delivered),
                        dropped: found.dropped.wrapping_add(dropped),
                        connections: found.connections.wrapping_add(1),
                    },
                )
            } else {
                totals.push(TotalsValue { name, delivered, dropped, connections: 1 })
            }
        },
    }
}

/// The totals of all names, in the order in which the names first come.
pub open spec fn totals_of(rows: Seq<json::JsonValue>) -> Seq<TotalsValue>
    decreases rows.len(),
{
    if rows.len() == 0 {
        Seq::empty()
    } else {
        with_connection(totals_of(rows.drop_last()), rows.last())
    }
}

/// The lines of one name.
pub open spec fn totals_lines(totals: TotalsValue) -> Seq<char> {
    let label = Some(("name"@, totals.name));
    gauge_line("whdr_subscriber_delivered"@, label, json::JsonValue::Unsigned(totals.delivered))
        + gauge_line("whdr_subscriber_dropped"@, label, json::JsonValue::Unsigned(totals.dropped))
        + gauge_line(
        "whdr_subscriber_connections"@,
        label,
        json::JsonValue::Unsigned(totals.connections),
    )
}

/// The lines of all names.
pub open spec fn all_totals_lines(totals: Seq<TotalsValue>) -> Seq<char>
    decreases totals.len(),
{
    if totals.len() == 0 {
        Seq::empty()
    } else {
        all_totals_lines(totals.drop_last()) + totals_lines(totals.last())
    }
}

fn find_totals(totals: &[NameTotals], name: &str) -> (at: usize)
    ensures
        at == place_of(totals_values(totals@), name@),
        at <= totals@.len(),
{
    let ghost all = totals_values(totals@);
    let mut at: usize = 0;
    let mut i: usize = 0;
    let mut found: bool = false;
    while i < totals.len()
        invariant
            i <= totals@.len(),
            all == totals_values(totals@),
            at == place_of(all.take(i as int), name@),
            at <= i,
            found == (at < i),
        decreases totals@.len() - i,
    {
        assert(all.take(i as int + 1).drop_last() =~= all.take(i as int));
        assert(all[i as int] == totals@[i as int]@);
        if !found {
            if text::same_text(totals[i].name.as_str(), name) {
                found = true;
            } else {
                at = i + 1;
            }
        }
        i += 1;
    }
    assert(all.take(i as int) =~= all);
    at
}

fn count_field(row: &Json, name: &str) -> (n: u64)
    ensures
        n == count_of(row@, name@),
{
    match row.get(name) {
        Some(found) => match found.as_u64() {
            Some(n) => n,
            None => 0,
        },
        None => 0,
    }
}

proof fn lemma_place_of(totals: Seq<TotalsValue>, name: Seq<char>)
    ensures
        place_of(totals, name) <= totals.len(),
        place_of(totals, name) < totals.len() ==> totals[place_of(totals, name) as int].name
            == name,
    decreases totals.len(),
{
    if totals.len() > 0 {
        lemma_place_of(totals.drop_last(), name);
    }
}

fn add_connection(totals: &mut Vec<NameTotals>, row: &Json)
    ensures
        totals_values(final(totals)@) == with_connection(totals_values(old(totals)@), row@),
{
    let ghost before = totals_values(totals@);
    match text_field(row, "name") {
        None => {},
        Some(name) => {
            let delivered: u64 = count_field(row, "delivered");
            let dropped: u64 = count_field(row, "dropped");
            let at: usize = find_totals(totals, name);
            proof {
                lemma_place_of(before, name@);
            }
            if at < totals.len() {
                let found: &NameTotals = &totals[at];
                let sum: NameTotals = NameTotals {
                    name: name.to_owned(),
                    delivered: found.delivered.wrapping_add(delivered),
                    dropped: found.dropped.wrapping_add(dropped),
                    connections: found.connections.wrapping_add(1),
                };
                totals.set(at, sum);
                assert(totals_values(totals@) =~= before.update(at as int, sum@));
            } else {
                let first: NameTotals = NameTotals {
                    name: name.to_owned(),
                    delivered,
                    dropped,
                    connections: 1,
                };
                totals.push(first);
                assert(totals_values(totals@) =~= before.push(first@));
            }
        },
    }
}

/// The items of a member that is an array, none for anything else.
pub open spec fn rows_of(status: json::JsonValue, field: Seq<char>) -> Seq<json::JsonValue> {
    match json::as_items(json::member_or_null(status, field)) {
        Some(items) => items,
        None => Seq::empty(),
    }
}

/// The metrics of a status document.
pub open spec fn prometheus_text(status: json::JsonValue) -> Seq<char> {
    let global = json::member_or_null(status, "global"@);
    gauge_line("whdr_uptime_ms"@, None, json::member_or_null(status, "uptime_ms"@))
        + all_extension_lines(rows_of(status, "extensions"@)) + all_totals_lines(
        totals_of(rows_of(status, "subscribers"@)),
    ) + gauge_line("whdr_routes"@, None, json::member_or_null(global, "routes"@)) + gauge_line(
        "whdr_unavailable_routes"@,
        None,
        json::member_or_null(global, "unavailable_routes"@),
    ) + gauge_line(
        "whdr_channel_prefixes"@,
        None,
        json::member_or_null(global, "channel_prefixes"@),
    ) + gauge_line(
        "whdr_subscriber_count"@,
        None,
        json::member_or_null(global, "subscriber_count"@),
    )
}

fn plain(out: &mut String, metric: &str, holder: &Json, name: &str)
    ensures
        final(out)@ == old(out)@ + gauge_line(
            metric@,
            None,
            json::member_or_null(holder@, name@),
        ),
{
    match field(holder, name) {
        Some(value) => gauge(out, metric, None, value),
        None => {
            assert(out@ =~= old(out)@ + Seq::<char>::empty());
        },
    }
}

fn extensions(out: &mut String, status: &Json)
    ensures
        final(out)@ == old(out)@ + all_extension_lines(rows_of(status@, "extensions"@)),
{
    let ghost before = out@;
    assert(before + Seq::<char>::empty() =~= before);
    if let Some(found) = status.get("extensions") {
        if let Some(rows) = found.as_array() {
            let ghost all = json::values_of(rows@);
            let mut i: usize = 0;
            while i < rows.len()
                invariant
                    i <= rows@.len(),
                    all == json::values_of(rows@),
                    out@ == before + all_extension_lines(all.take(i as int)),
                decreases rows@.len() - i,
            {
                assert(all.take(i as int + 1).drop_last() =~= all.take(i as int));
                assert(all[i as int] == rows@[i as int]@);
                extension(out, &rows[i]);
                i += 1;
                assert(out@ =~= before + all_extension_lines(all.take(i as int)));
            }
            assert(all.take(i as int) =~= all);
        }
    }
}

fn subscribers(out: &mut String, status: &Json)
    ensures
        final(out)@ == old(out)@ + all_totals_lines(totals_of(rows_of(status@, "subscribers"@))),
{
    let ghost before = out@;
    let mut totals: Vec<NameTotals> = Vec::new();
    assert(totals_values(totals@) =~= Seq::<TotalsValue>::empty());
    if let Some(found) = status.get("subscribers") {
        if let Some(rows) = found.as_array() {
            let ghost all = json::values_of(rows@);
            let mut i: usize = 0;
            while i < rows.len()
                invariant
                    i <= rows@.len(),
                    all == json::values_of(rows@),
                    totals_values(totals@) == totals_of(all.take(i as int)),
                decreases rows@.len() - i,
            {
                assert(all.take(i as int + 1).drop_last() =~= all.take(i as int));
                assert(all[i as int] == rows@[i as int]@);
                add_connection(&mut totals, &rows[i]);
                i += 1;
            }
            assert(all.take(i as int) =~= all);
        }
    }
    let ghost sums = totals_values(totals@);
    assert(before + Seq::<char>::empty() =~= before);
    let mut i: usize = 0;
    while i < totals.len()
        invariant
            i <= totals@.len(),
            sums == totals_values(totals@),
            out@ == before + all_totals_lines(sums.take(i as int)),
        decreases totals@.len() - i,
    {
        let row: &NameTotals = &totals[i];
        assert(sums.take(i as int + 1).drop_last() =~= sums.take(i as int));
        assert(sums[i as int] == row@);
        let label: Option<(&str, &str)> = Some(("name", row.name.as_str()));
        gauge(out, "whdr_subscriber_delivered", label, &Json::Unsigned(row.delivered));
        gauge(out, "whdr_subscriber_dropped", label, &Json::Unsigned(row.dropped));
        gauge(out, "whdr_subscriber_connections", label, &Json::Unsigned(row.connections));
        i += 1;
        assert(out@ =~= before + all_totals_lines(sums.take(i as int)));
    }
    assert(sums.take(i as int) =~= sums);
}

/// Renders a status document.
pub fn render_prometheus(status: &Json) -> (out: String)
    ensures
        out@ == prometheus_text(status@),
{
    let mut out: String = String::new();
    plain(&mut out, "whdr_uptime_ms", status, "uptime_ms");
    extensions(&mut out, status);
    subscribers(&mut out, status);
    let missing: Json = Json::Null;
    let global: &Json = match field(status, "global") {
        Some(found) => found,
        None => &missing,
    };
    plain(&mut out, "whdr_routes", global, "routes");
    plain(&mut out, "whdr_unavailable_routes", global, "unavailable_routes");
    plain(&mut out, "whdr_channel_prefixes", global, "channel_prefixes");
    plain(&mut out, "whdr_subscriber_count", global, "subscriber_count");
    assert(out@ =~= prometheus_text(status@));
    out
}

/// Whether a text is made of whole lines.
pub open spec fn whole_lines(s: Seq<char>) -> bool {
    s.len() == 0 || s.last() == '\n'
}

/// Whether a line stands in a text that is made of whole lines.
pub open spec fn has_line(out: Seq<char>, line: Seq<char>) -> bool {
    exists|before: Seq<char>, after: Seq<char>|
        whole_lines(before) && whole_lines(after) && out == #[trigger] (before + line.push('\n')
            + after)
}

proof fn lemma_lines_join(a: Seq<char>, b: Seq<char>)
    requires
        whole_lines(a),
        whole_lines(b),
    ensures
        whole_lines(a + b),
{
    if b.len() > 0 {
        assert((a + b).last() == b.last());
    } else {
        assert(a + b =~= a);
    }
}

proof fn lemma_gauge_is_lines(
    name: Seq<char>,
    label: Option<(Seq<char>, Seq<char>)>,
    value: json::JsonValue,
)
    ensures
        whole_lines(gauge_line(name, label, value)),
{
}

proof fn lemma_line_stays(before: Seq<char>, out: Seq<char>, after: Seq<char>, line: Seq<char>)
    requires
        has_line(out, line),
        whole_lines(before),
        whole_lines(after),
    ensures
        has_line(before + out + after, line),
{
    let (a, b) = choose|a: Seq<char>, b: Seq<char>|
        whole_lines(a) && whole_lines(b) && out == #[trigger] (a + line.push('\n') + b);
    lemma_lines_join(before, a);
    lemma_lines_join(b, after);
    assert(before + out + after =~= (before + a) + line.push('\n') + (b + after));
}

proof fn lemma_own_line(out: Seq<char>, line: Seq<char>)
    requires
        out == line.push('\n'),
    ensures
        has_line(out, line),
{
    let nothing = Seq::<char>::empty();
    assert(out =~= nothing + line.push('\n') + nothing);
}

/// Texts one behind the other.
pub open spec fn glued(blocks: Seq<Seq<char>>) -> Seq<char>
    decreases blocks.len(),
{
    if blocks.len() == 0 {
        Seq::empty()
    } else {
        glued(blocks.drop_last()) + blocks.last()
    }
}

proof fn lemma_glued(blocks: Seq<Seq<char>>, i: int, line: Seq<char>)
    requires
        0 <= i < blocks.len(),
        forall|j: int| 0 <= j < blocks.len() ==> whole_lines(#[trigger] blocks[j]),
        has_line(blocks[i], line),
    ensures
        has_line(glued(blocks), line),
    decreases blocks.len(),
{
    let head = blocks.drop_last();
    let nothing = Seq::<char>::empty();
    assert forall|j: int| 0 <= j < head.len() implies whole_lines(#[trigger] head[j]) by {
        assert(head[j] == blocks[j]);
    }
    lemma_glued_lines(head);
    assert(whole_lines(blocks[blocks.len() - 1]));
    if i < head.len() {
        lemma_glued(head, i, line);
        lemma_line_stays(nothing, glued(head), blocks.last(), line);
        assert(nothing + glued(head) + blocks.last() =~= glued(blocks));
    } else {
        lemma_line_stays(glued(head), blocks.last(), nothing, line);
        assert(glued(head) + blocks.last() + nothing =~= glued(blocks));
    }
}

proof fn lemma_glued_lines(blocks: Seq<Seq<char>>)
    requires
        forall|j: int| 0 <= j < blocks.len() ==> whole_lines(#[trigger] blocks[j]),
    ensures
        whole_lines(glued(blocks)),
    decreases blocks.len(),
{
    if blocks.len() > 0 {
        let head = blocks.drop_last();
        assert forall|j: int| 0 <= j < head.len() implies whole_lines(#[trigger] head[j]) by {
            assert(head[j] == blocks[j]);
        }
        lemma_glued_lines(head);
        assert(whole_lines(blocks[blocks.len() - 1]));
        lemma_lines_join(glued(head), blocks.last());
    }
}

/// The names of the counters of an extension.
pub open spec fn counter_names() -> Seq<Seq<char>> {
    seq![
        "restarts"@,
        "in_flight"@,
        "protocol_errors"@,
        "namespace_violations"@,
        "consecutive_timeouts"@,
        "events_emitted"@,
        "last_event_at_ms"@,
    ]
}

proof fn lemma_extension_blocks(ext: json::JsonValue, id: Seq<char>) -> (blocks: Seq<Seq<char>>)
    requires
        json::member(ext, "id"@) == Some(json::JsonValue::Text(id)),
    ensures
        blocks.len() == 8,
        extension_lines(ext) == glued(blocks),
        forall|j: int| 0 <= j < 8 ==> whole_lines(#[trigger] blocks[j]),
        blocks[0] == gauge_line(
            "whdr_ext_"@ + "up"@,
            Some(("ext"@, id)),
            json::JsonValue::Unsigned(
                if json::as_text(json::member_or_null(ext, "state"@)) == Some("Ready"@) {
                    1
                } else {
                    0
                },
            ),
        ),
        forall|j: int|
            1 <= j < 8 ==> #[trigger] blocks[j] == counter_line(
                ext,
                id,
                "whdr_ext_"@ + counter_names()[j - 1],
                counter_names()[j - 1],
            ),
{
    lemma_metric_names();
    let up = if json::as_text(json::member_or_null(ext, "state"@)) == Some("Ready"@) {
        1u64
    } else {
        0u64
    };
    let names = counter_names();
    let pre = "whdr_ext_"@;
    let l0 = gauge_line(pre + "up"@, Some(("ext"@, id)), json::JsonValue::Unsigned(up));
    let l1 = counter_line(ext, id, pre + names[0], names[0]);
    let l2 = counter_line(ext, id, pre + names[1], names[1]);
    let l3 = counter_line(ext, id, pre + names[2], names[2]);
    let l4 = counter_line(ext, id, pre + names[3], names[3]);
    let l5 = counter_line(ext, id, pre + names[4], names[4]);
    let l6 = counter_line(ext, id, pre + names[5], names[5]);
    let l7 = counter_line(ext, id, pre + names[6], names[6]);
    let blocks = seq![l0, l1, l2, l3, l4, l5, l6, l7];
    assert(extension_lines(ext) == l0 + l1 + l2 + l3 + l4 + l5 + l6 + l7);
    lemma_eight(l0, l1, l2, l3, l4, l5, l6, l7);
    blocks
}

proof fn lemma_eight(
    l0: Seq<char>,
    l1: Seq<char>,
    l2: Seq<char>,
    l3: Seq<char>,
    l4: Seq<char>,
    l5: Seq<char>,
    l6: Seq<char>,
    l7: Seq<char>,
)
    ensures
        glued(seq![l0, l1, l2, l3, l4, l5, l6, l7]) == l0 + l1 + l2 + l3 + l4 + l5 + l6 + l7,
{
    let b1 = seq![l0];
    let b2 = seq![l0, l1];
    let b3 = seq![l0, l1, l2];
    let b4 = seq![l0, l1, l2, l3];
    let b5 = seq![l0, l1, l2, l3, l4];
    let b6 = seq![l0, l1, l2, l3, l4, l5];
    let b7 = seq![l0, l1, l2, l3, l4, l5, l6];
    let b8 = seq![l0, l1, l2, l3, l4, l5, l6, l7];
    assert(b8.drop_last() =~= b7);
    assert(b7.drop_last() =~= b6);
    assert(b6.drop_last() =~= b5);
    assert(b5.drop_last() =~= b4);
    assert(b4.drop_last() =~= b3);
    assert(b3.drop_last() =~= b2);
    assert(b2.drop_last() =~= b1);
    assert(b1.drop_last() =~= Seq::<Seq<char>>::empty());
    assert(glued(b1.drop_last()) == Seq::<char>::empty());
    assert(glued(b1) =~= l0);
    assert(glued(b2) == glued(b1) + l1);
    assert(glued(b3) == glued(b2) + l2);
    assert(glued(b4) == glued(b3) + l3);
    assert(glued(b5) == glued(b4) + l4);
    assert(glued(b6) == glued(b5) + l5);
    assert(glued(b7) == glued(b6) + l6);
    assert(glued(b8) == glued(b7) + l7);
}

/// The line that shows a number under a name and a label.
pub open spec fn labelled_line(
    name: Seq<char>,
    label: Seq<char>,
    value: Seq<char>,
    n: u64,
) -> Seq<char> {
    name + "{"@ + label + "=\""@ + escaped(value) + "\"} "@ + text::decimal(n as nat)
}

proof fn lemma_labelled(name: Seq<char>, label: Seq<char>, value: Seq<char>, n: u64)
    ensures
        has_line(
            gauge_line(name, Some((label, value)), json::JsonValue::Unsigned(n)),
            labelled_line(name, label, value, n),
        ),
{
    reveal_strlit("{");
    reveal_strlit("=\"");
    reveal_strlit("\"} ");
    let out = gauge_line(name, Some((label, value)), json::JsonValue::Unsigned(n));
    let line = labelled_line(name, label, value, n);
    assert(out =~= line.push('\n'));
    lemma_own_line(out, line);
}

/// A counter of an extension is shown in a line of its own: its name behind
/// `whdr_ext_`, the identifier of the extension, and the value of the row's member of
/// that name. This holds of restarts, requests in flight, protocol errors, violations
/// of the namespace, timeouts in a row, events and the time of the last event alike.
pub proof fn counters_show_their_member(
    ext: json::JsonValue,
    id: Seq<char>,
    counter: Seq<char>,
    n: u64,
)
    requires
        json::member(ext, "id"@) == Some(json::JsonValue::Text(id)),
        json::member(ext, counter) == Some(json::JsonValue::Unsigned(n)),
        counter == "restarts"@ || counter == "in_flight"@ || counter == "protocol_errors"@
            || counter == "namespace_violations"@ || counter == "consecutive_timeouts"@ || counter
            == "events_emitted"@ || counter == "last_event_at_ms"@,
    ensures
        has_line(
            extension_lines(ext),
            labelled_line("whdr_ext_"@ + counter, "ext"@, id, n),
        ),
{
    let blocks = lemma_extension_blocks(ext, id);
    lemma_labelled("whdr_ext_"@ + counter, "ext"@, id, n);
    let names = counter_names();
    let i: int = if counter == names[0] {
        0
    } else if counter == names[1] {
        1
    } else if counter == names[2] {
        2
    } else if counter == names[3] {
        3
    } else if counter == names[4] {
        4
    } else if counter == names[5] {
        5
    } else {
        6
    };
    assert(counter == names[i]);
    assert(blocks[i + 1] == counter_line(ext, id, "whdr_ext_"@ + names[i], names[i]));
    lemma_glued(blocks, i + 1, labelled_line("whdr_ext_"@ + counter, "ext"@, id, n));
}

/// Whether an extension is up is shown by one where its state is `Ready`, and by zero
/// otherwise; a counter that is null or missing, and a row without an identifier, are
/// not shown.
pub proof fn only_ready_extensions_are_up(ext: json::JsonValue, id: Seq<char>)
    ensures
        json::member(ext, "id"@) == Some(json::JsonValue::Text(id)) ==> has_line(
            extension_lines(ext),
            labelled_line(
                "whdr_ext_up"@,
                "ext"@,
                id,
                if json::member(ext, "state"@) == Some(json::JsonValue::Text("Ready"@)) {
                    1
                } else {
                    0
                },
            ),
        ),
        !(json::member(ext, "id"@) matches Some(json::JsonValue::Text(_))) ==> extension_lines(
            ext,
        ).len() == 0,
{
    lemma_metric_names();
    if json::member(ext, "id"@) == Some(json::JsonValue::Text(id)) {
        let blocks = lemma_extension_blocks(ext, id);
        let up: u64 = if json::member(ext, "state"@) == Some(json::JsonValue::Text("Ready"@)) {
            1
        } else {
            0
        };
        lemma_labelled("whdr_ext_up"@, "ext"@, id, up);
        lemma_glued(blocks, 0, labelled_line("whdr_ext_up"@, "ext"@, id, up));
    }
}

/// How many lines a text has.
pub open spec fn line_count(s: Seq<char>) -> nat
    decreases s.len(),
{
    if s.len() == 0 {
        0
    } else {
        line_count(s.drop_last()) + if s.last() == '\n' {
            1nat
        } else {
            0nat
        }
    }
}

proof fn lemma_line_count_joins(a: Seq<char>, b: Seq<char>)
    ensures
        line_count(a + b) == line_count(a) + line_count(b),
    decreases b.len(),
{
    if b.len() > 0 {
        lemma_line_count_joins(a, b.drop_last());
        assert((a + b).drop_last() =~= a + b.drop_last());
    } else {
        assert(a + b =~= a);
    }
}

proof fn lemma_no_lines(s: Seq<char>)
    requires
        forall|i: int| 0 <= i < s.len() ==> #[trigger] s[i] != '\n',
    ensures
        line_count(s) == 0,
    decreases s.len(),
{
    if s.len() > 0 {
        assert(s[s.len() - 1] != '\n');
        lemma_no_lines(s.drop_last());
    }
}

proof fn lemma_escaped_has_no_lines(value: Seq<char>)
    ensures
        forall|i: int| 0 <= i < escaped(value).len() ==> #[trigger] escaped(value)[i] != '\n',
    decreases value.len(),
{
    if value.len() > 0 {
        lemma_escaped_has_no_lines(value.drop_last());
        let before = escaped(value.drop_last());
        let last = escaped_char(value.last());
        assert forall|i: int| 0 <= i < escaped(value).len() implies #[trigger] escaped(value)[i]
            != '\n' by {
            if i < before.len() {
                assert(escaped(value)[i] == before[i]);
            } else {
                assert(escaped(value)[i] == last[i - before.len()]);
            }
        }
    }
}

proof fn lemma_one_line(
    name: Seq<char>,
    label: Seq<char>,
    value: Seq<char>,
    n: u64,
)
    requires
        forall|i: int| 0 <= i < name.len() ==> #[trigger] name[i] != '\n',
        forall|i: int| 0 <= i < label.len() ==> #[trigger] label[i] != '\n',
    ensures
        line_count(gauge_line(name, Some((label, value)), json::JsonValue::Unsigned(n))) == 1,
{
    let out = gauge_line(name, Some((label, value)), json::JsonValue::Unsigned(n));
    let shown = text::decimal(n as nat);
    lemma_escaped_has_no_lines(value);
    text::decimal_is_read_back(n as nat);
    let inner = escaped(value);
    let front = out.drop_last();
    let lead = name + seq!['{'] + label + seq!['=', '"'];
    assert(front =~= lead + inner + seq!['"', '}', ' '] + shown);
    assert forall|i: int| 0 <= i < front.len() implies #[trigger] front[i] != '\n' by {
        let n0 = name.len() as int;
        let n1 = n0 + 1 + label.len();
        let n2 = lead.len() as int;
        let n3 = n2 + inner.len();
        if i < n0 {
            assert(front[i] == name[i]);
        } else if n0 < i < n1 {
            assert(front[i] == label[i - n0 - 1]);
        } else if n2 <= i < n3 {
            assert(front[i] == inner[i - n2]);
        } else if i >= n3 + 3 {
            assert(front[i] == shown[i - n3 - 3]);
        }
    }
    lemma_no_lines(front);
}

/// A row with all counters gives eight lines and no more.
pub proof fn extensions_have_eight_lines(
    ext: json::JsonValue,
    id: Seq<char>,
    counters: Seq<u64>,
)
    requires
        json::member(ext, "id"@) == Some(json::JsonValue::Text(id)),
        counters.len() == 7,
        forall|j: int|
            0 <= j < 7 ==> json::member(ext, counter_names()[j]) == Some(
                json::JsonValue::Unsigned(#[trigger] counters[j]),
            ),
    ensures
        line_count(extension_lines(ext)) == 8,
{
    let blocks = lemma_extension_blocks(ext, id);
    let names = counter_names();
    reveal_strlit("whdr_ext_");
    reveal_strlit("ext");
    reveal_strlit("up");
    reveal_strlit("restarts");
    reveal_strlit("in_flight");
    reveal_strlit("protocol_errors");
    reveal_strlit("namespace_violations");
    reveal_strlit("consecutive_timeouts");
    reveal_strlit("events_emitted");
    reveal_strlit("last_event_at_ms");
    let up: u64 = if json::as_text(json::member_or_null(ext, "state"@)) == Some("Ready"@) {
        1
    } else {
        0
    };
    lemma_one_line("whdr_ext_"@ + "up"@, "ext"@, id, up);
    assert forall|j: int| 0 <= j < 8 implies line_count(#[trigger] blocks[j]) == 1 by {
        if j > 0 {
            assert(json::member(ext, names[j - 1]) == Some(
                json::JsonValue::Unsigned(counters[j - 1]),
            ));
            lemma_one_line("whdr_ext_"@ + names[j - 1], "ext"@, id, counters[j - 1]);
        }
    }
    lemma_glued_count(blocks);
}

proof fn lemma_glued_count(blocks: Seq<Seq<char>>)
    requires
        forall|j: int| 0 <= j < blocks.len() ==> line_count(#[trigger] blocks[j]) == 1,
    ensures
        line_count(glued(blocks)) == blocks.len(),
    decreases blocks.len(),
{
    if blocks.len() > 0 {
        let head = blocks.drop_last();
        assert forall|j: int| 0 <= j < head.len() implies line_count(#[trigger] head[j]) == 1 by {
            assert(head[j] == blocks[j]);
        }
        lemma_glued_count(head);
        assert(line_count(blocks[blocks.len() - 1]) == 1);
        lemma_line_count_joins(glued(head), blocks.last());
    }
}

/// The text that a label value between quotes stands for.
pub open spec fn unescaped(s: Seq<char>) -> Seq<char>
    decreases s.len(),
{
    if s.len() == 0 {
        Seq::empty()
    } else if s[0] == '\\' && s.len() > 1 {
        seq![
            if s[1] == 'n' {
                '\n'
            } else {
                s[1]
            },
        ] + unescaped(s.skip(2))
    } else {
        seq![s[0]] + unescaped(s.skip(1))
    }
}

proof fn lemma_unescaped_front(c: char, rest: Seq<char>)
    ensures
        unescaped(escaped_char(c) + rest) == seq![c] + unescaped(rest),
{
    let whole = escaped_char(c) + rest;
    if escaped_char(c).len() == 2 {
        assert(whole.skip(2) =~= rest);
    } else {
        assert(whole.skip(1) =~= rest);
    }
}

proof fn lemma_escaped_joins(a: Seq<char>, b: Seq<char>)
    ensures
        escaped(a + b) == escaped(a) + escaped(b),
    decreases b.len(),
{
    if b.len() > 0 {
        lemma_escaped_joins(a, b.drop_last());
        assert((a + b).drop_last() =~= a + b.drop_last());
        assert(escaped(a + b) =~= escaped(a) + escaped(b));
    } else {
        assert(a + b =~= a);
        assert(escaped(a) + escaped(b) =~= escaped(a));
    }
}

/// A label value is read back from between its quotes as it was, and has no line feed
/// and no quotation mark there that is not escaped.
pub proof fn label_values_are_read_back(value: Seq<char>)
    ensures
        unescaped(escaped(value)) == value,
        forall|i: int| 0 <= i < escaped(value).len() ==> #[trigger] escaped(value)[i] != '\n',
    decreases value.len(),
{
    lemma_escaped_has_no_lines(value);
    if value.len() > 0 {
        let rest = value.drop_first();
        label_values_are_read_back(rest);
        assert(value =~= seq![value[0]] + rest);
        lemma_escaped_joins(seq![value[0]], rest);
        assert(seq![value[0]].drop_last() =~= Seq::<char>::empty());
        assert(escaped(seq![value[0]].drop_last()) == Seq::<char>::empty());
        assert(escaped(seq![value[0]]) =~= escaped_char(value[0]));
        lemma_unescaped_front(value[0], escaped(rest));
    }
}

/// The metrics of each extension are among those of the router.
pub proof fn metrics_show_each_extension(
    status: json::JsonValue,
    rows: Seq<json::JsonValue>,
    i: int,
    line: Seq<char>,
)
    requires
        json::member(status, "extensions"@) == Some(json::JsonValue::Array(rows)),
        0 <= i < rows.len(),
        has_line(extension_lines(rows[i]), line),
    ensures
        has_line(prometheus_text(status), line),
{
    lemma_rows_lines(rows, i, line);
    let blocks = lemma_prometheus_blocks(status);
    lemma_glued(blocks, 1, line);
}

proof fn lemma_extension_is_lines(ext: json::JsonValue)
    ensures
        whole_lines(extension_lines(ext)),
{
    match json::as_text(json::member_or_null(ext, "id"@)) {
        Some(id) => {
            let blocks = lemma_extension_blocks(ext, id);
            lemma_glued_lines(blocks);
        },
        None => {},
    }
}

proof fn lemma_all_extensions_are_lines(rows: Seq<json::JsonValue>)
    ensures
        whole_lines(all_extension_lines(rows)),
    decreases rows.len(),
{
    if rows.len() > 0 {
        lemma_all_extensions_are_lines(rows.drop_last());
        lemma_extension_is_lines(rows.last());
        lemma_lines_join(all_extension_lines(rows.drop_last()), extension_lines(rows.last()));
    }
}

proof fn lemma_rows_lines(rows: Seq<json::JsonValue>, i: int, line: Seq<char>)
    requires
        0 <= i < rows.len(),
        has_line(extension_lines(rows[i]), line),
    ensures
        has_line(all_extension_lines(rows), line),
    decreases rows.len(),
{
    let head = rows.drop_last();
    let nothing = Seq::<char>::empty();
    lemma_all_extensions_are_lines(head);
    lemma_extension_is_lines(rows.last());
    let before = all_extension_lines(head);
    let own = extension_lines(rows.last());
    if i < head.len() {
        assert(head[i] == rows[i]);
        lemma_rows_lines(head, i, line);
        lemma_line_stays(nothing, before, own, line);
        assert(nothing + before + own =~= all_extension_lines(rows));
    } else {
        lemma_line_stays(before, own, nothing, line);
        assert(before + own + nothing =~= all_extension_lines(rows));
    }
}

proof fn lemma_totals_are_lines(totals: Seq<TotalsValue>)
    ensures
        whole_lines(all_totals_lines(totals)),
    decreases totals.len(),
{
    if totals.len() > 0 {
        let t = totals.last();
        lemma_totals_are_lines(totals.drop_last());
        let label = Some(("name"@, t.name));
        let a = gauge_line(
            "whdr_subscriber_delivered"@,
            label,
            json::JsonValue::Unsigned(t.delivered),
        );
        let b = gauge_line(
            "whdr_subscriber_dropped"@,
            label,
            json::JsonValue::Unsigned(t.dropped),
        );
        let c = gauge_line(
            "whdr_subscriber_connections"@,
            label,
            json::JsonValue::Unsigned(t.connections),
        );
        lemma_lines_join(a, b);
        lemma_lines_join(a + b, c);
        lemma_lines_join(all_totals_lines(totals.drop_last()), totals_lines(t));
    }
}

proof fn lemma_prometheus_blocks(status: json::JsonValue) -> (blocks: Seq<Seq<char>>)
    ensures
        blocks.len() == 7,
        glued(blocks) == prometheus_text(status),
        forall|j: int| 0 <= j < 7 ==> whole_lines(#[trigger] blocks[j]),
        blocks[0] == gauge_line(
            "whdr_uptime_ms"@,
            None,
            json::member_or_null(status, "uptime_ms"@),
        ),
        blocks[1] == all_extension_lines(rows_of(status, "extensions"@)),
        blocks[2] == all_totals_lines(totals_of(rows_of(status, "subscribers"@))),
        blocks[3] == gauge_line(
            "whdr_routes"@,
            None,
            json::member_or_null(json::member_or_null(status, "global"@), "routes"@),
        ),
        blocks[4] == gauge_line(
            "whdr_unavailable_routes"@,
            None,
            json::member_or_null(json::member_or_null(status, "global"@), "unavailable_routes"@),
        ),
        blocks[5] == gauge_line(
            "whdr_channel_prefixes"@,
            None,
            json::member_or_null(json::member_or_null(status, "global"@), "channel_prefixes"@),
        ),
        blocks[6] == gauge_line(
            "whdr_subscriber_count"@,
            None,
            json::member_or_null(json::member_or_null(status, "global"@), "subscriber_count"@),
        ),
{
    let global = json::member_or_null(status, "global"@);
    let l0 = gauge_line("whdr_uptime_ms"@, None, json::member_or_null(status, "uptime_ms"@));
    let l1 = all_extension_lines(rows_of(status, "extensions"@));
    let l2 = all_totals_lines(totals_of(rows_of(status, "subscribers"@)));
    let l3 = gauge_line("whdr_routes"@, None, json::member_or_null(global, "routes"@));
    let l4 = gauge_line(
        "whdr_unavailable_routes"@,
        None,
        json::member_or_null(global, "unavailable_routes"@),
    );
    let l5 = gauge_line(
        "whdr_channel_prefixes"@,
        None,
        json::member_or_null(global, "channel_prefixes"@),
    );
    let l6 = gauge_line(
        "whdr_subscriber_count"@,
        None,
        json::member_or_null(global, "subscriber_count"@),
    );
    lemma_all_extensions_are_lines(rows_of(status, "extensions"@));
    lemma_totals_are_lines(totals_of(rows_of(status, "subscribers"@)));
    let blocks = seq![l0, l1, l2, l3, l4, l5, l6];
    let nothing = Seq::<char>::empty();
    lemma_eight(l0, l1, l2, l3, l4, l5, l6, nothing);
    assert(seq![l0, l1, l2, l3, l4, l5, l6, nothing].drop_last() =~= blocks);
    assert(glued(blocks) + nothing =~= glued(blocks));
    assert(prometheus_text(status) + nothing =~= prometheus_text(status));
    blocks
}

proof fn lemma_plain_line(name: Seq<char>, n: u64)
    ensures
        has_line(
            gauge_line(name, None, json::JsonValue::Unsigned(n)),
            name + " "@ + text::decimal(n as nat),
        ),
{
    reveal_strlit(" ");
    let out = gauge_line(name, None, json::JsonValue::Unsigned(n));
    let line = name + " "@ + text::decimal(n as nat);
    assert(out =~= line.push('\n'));
    lemma_own_line(out, line);
}

/// The metrics show the uptime of the status and the counters of the router, each
/// under its name.
pub proof fn metrics_show_the_router(
    status: json::JsonValue,
    global: json::JsonValue,
    uptime_ms: u64,
    routes: u64,
    unavailable: u64,
    prefixes: u64,
    connections: u64,
)
    requires
        json::member(status, "uptime_ms"@) == Some(json::JsonValue::Unsigned(uptime_ms)),
        json::member(status, "global"@) == Some(global),
        json::member(global, "routes"@) == Some(json::JsonValue::Unsigned(routes)),
        json::member(global, "unavailable_routes"@) == Some(
            json::JsonValue::Unsigned(unavailable),
        ),
        json::member(global, "channel_prefixes"@) == Some(json::JsonValue::Unsigned(prefixes)),
        json::member(global, "subscriber_count"@) == Some(
            json::JsonValue::Unsigned(connections),
        ),
    ensures
        ({
            let out = prometheus_text(status);
            &&& has_line(out, "whdr_uptime_ms"@ + " "@ + text::decimal(uptime_ms as nat))
            &&& has_line(out, "whdr_routes"@ + " "@ + text::decimal(routes as nat))
            &&& has_line(out, "whdr_unavailable_routes"@ + " "@ + text::decimal(unavailable as nat))
            &&& has_line(out, "whdr_channel_prefixes"@ + " "@ + text::decimal(prefixes as nat))
            &&& has_line(out, "whdr_subscriber_count"@ + " "@ + text::decimal(connections as nat))
        }),
{
    let blocks = lemma_prometheus_blocks(status);
    lemma_plain_line("whdr_uptime_ms"@, uptime_ms);
    lemma_plain_line("whdr_routes"@, routes);
    lemma_plain_line("whdr_unavailable_routes"@, unavailable);
    lemma_plain_line("whdr_channel_prefixes"@, prefixes);
    lemma_plain_line("whdr_subscriber_count"@, connections);
    lemma_glued(blocks, 0, "whdr_uptime_ms"@ + " "@ + text::decimal(uptime_ms as nat));
    lemma_glued(blocks, 3, "whdr_routes"@ + " "@ + text::decimal(routes as nat));
    lemma_glued(
        blocks,
        4,
        "whdr_unavailable_routes"@ + " "@ + text::decimal(unavailable as nat),
    );
    lemma_glued(blocks, 5, "whdr_channel_prefixes"@ + " "@ + text::decimal(prefixes as nat));
    lemma_glued(blocks, 6, "whdr_subscriber_count"@ + " "@ + text::decimal(connections as nat));
}

/// What a number of the rows with a name adds up to.
pub open spec fn sum_for(rows: Seq<json::JsonValue>, name: Seq<char>, field: Seq<char>) -> nat
    decreases rows.len(),
{
    if rows.len() == 0 {
        0
    } else {
        sum_for(rows.drop_last(), name, field) + match (
            json::member(rows.last(), "name"@),
            json::member(rows.last(), field),
        ) {
            (Some(json::JsonValue::Text(given)), Some(json::JsonValue::Unsigned(n))) => if given
                == name {
                n as nat
            } else {
                0
            },
            _ => 0,
        }
    }
}

/// How many rows have a name.
pub open spec fn rows_named(rows: Seq<json::JsonValue>, name: Seq<char>) -> nat
    decreases rows.len(),
{
    if rows.len() == 0 {
        0
    } else {
        rows_named(rows.drop_last(), name) + if json::member(rows.last(), "name"@) == Some(
            json::JsonValue::Text(name),
        ) {
            1nat
        } else {
            0nat
        }
    }
}

proof fn lemma_totals(rows: Seq<json::JsonValue>, name: Seq<char>)
    requires
        rows.len() <= u64::MAX,
        sum_for(rows, name, "delivered"@) <= u64::MAX,
        sum_for(rows, name, "dropped"@) <= u64::MAX,
    ensures
        ({
            let totals = totals_of(rows);
            let at = place_of(totals, name);
            &&& at < totals.len() <==> rows_named(rows, name) > 0
            &&& at < totals.len() ==> totals[at as int] == (TotalsValue {
                name,
                delivered: sum_for(rows, name, "delivered"@) as u64,
                dropped: sum_for(rows, name, "dropped"@) as u64,
                connections: rows_named(rows, name) as u64,
            })
            &&& rows_named(rows, name) == 0 ==> sum_for(rows, name, "delivered"@) == 0 && sum_for(
                rows,
                name,
                "dropped"@,
            ) == 0
            &&& rows_named(rows, name) <= rows.len()
        }),
    decreases rows.len(),
{
    if rows.len() > 0 {
        let head = rows.drop_last();
        let row = rows.last();
        lemma_totals(head, name);
        let before = totals_of(head);
        let totals = totals_of(rows);
        lemma_place_of(before, name);
        match json::as_text(json::member_or_null(row, "name"@)) {
            None => {},
            Some(given) => {
                lemma_place_of(before, given);
                let at = place_of(before, given);
                let new = totals[at as int];
                lemma_place_after(before, at as int, new, name);
            },
        }
    }
}

proof fn lemma_place_after(totals: Seq<TotalsValue>, at: int, new: TotalsValue, name: Seq<char>)
    requires
        0 <= at <= totals.len(),
        at == place_of(totals, new.name),
    ensures
        ({
            let after = if at < totals.len() {
                totals.update(at, new)
            } else {
                totals.push(new)
            };
            place_of(after, name) == if name == new.name {
                at as nat
            } else if place_of(totals, name) < totals.len() {
                place_of(totals, name)
            } else {
                after.len()
            }
        }),
    decreases totals.len(),
{
    lemma_place_of(totals, new.name);
    lemma_place_of(totals, name);
    if at == totals.len() {
        assert(totals.push(new).drop_last() =~= totals);
    } else {
        let head = totals.drop_last();
        lemma_place_of(head, new.name);
        lemma_place_of(head, name);
        if at < head.len() {
            lemma_place_after(head, at, new, name);
            assert(totals.update(at, new).drop_last() =~= head.update(at, new));
        } else {
            assert(totals.update(at, new).drop_last() =~= head);
        }
    }
}

/// Each subscriber's name has three lines: how many events its connections have
/// delivered and dropped together, and how many connections it has.
pub proof fn metrics_add_up_connections(
    status: json::JsonValue,
    rows: Seq<json::JsonValue>,
    name: Seq<char>,
)
    requires
        json::member(status, "subscribers"@) == Some(json::JsonValue::Array(rows)),
        rows.len() <= u64::MAX,
        rows_named(rows, name) > 0,
        sum_for(rows, name, "delivered"@) <= u64::MAX,
        sum_for(rows, name, "dropped"@) <= u64::MAX,
    ensures
        ({
            let out = prometheus_text(status);
            &&& has_line(
                out,
                labelled_line(
                    "whdr_subscriber_delivered"@,
                    "name"@,
                    name,
                    sum_for(rows, name, "delivered"@) as u64,
                ),
            )
            &&& has_line(
                out,
                labelled_line(
                    "whdr_subscriber_dropped"@,
                    "name"@,
                    name,
                    sum_for(rows, name, "dropped"@) as u64,
                ),
            )
            &&& has_line(
                out,
                labelled_line(
                    "whdr_subscriber_connections"@,
                    "name"@,
                    name,
                    rows_named(rows, name) as u64,
                ),
            )
        }),
{
    lemma_totals(rows, name);
    let totals = totals_of(rows);
    let at = place_of(totals, name) as int;
    let blocks = lemma_prometheus_blocks(status);
    let t = totals[at];
    lemma_labelled("whdr_subscriber_delivered"@, "name"@, name, t.delivered);
    lemma_labelled("whdr_subscriber_dropped"@, "name"@, name, t.dropped);
    lemma_labelled("whdr_subscriber_connections"@, "name"@, name, t.connections);
    let a = labelled_line("whdr_subscriber_delivered"@, "name"@, name, t.delivered);
    let b = labelled_line("whdr_subscriber_dropped"@, "name"@, name, t.dropped);
    let c = labelled_line("whdr_subscriber_connections"@, "name"@, name, t.connections);
    lemma_totals_line(totals, at, 0, a);
    lemma_totals_line(totals, at, 1, b);
    lemma_totals_line(totals, at, 2, c);
    lemma_glued(blocks, 2, a);
    lemma_glued(blocks, 2, b);
    lemma_glued(blocks, 2, c);
}

proof fn lemma_totals_line(totals: Seq<TotalsValue>, at: int, which: int, line: Seq<char>)
    requires
        0 <= at < totals.len(),
        0 <= which < 3,
        has_line(
            gauge_line(
                if which == 0 {
                    "whdr_subscriber_delivered"@
                } else if which == 1 {
                    "whdr_subscriber_dropped"@
                } else {
                    "whdr_subscriber_connections"@
                },
                Some(("name"@, totals[at].name)),
                json::JsonValue::Unsigned(
                    if which == 0 {
                        totals[at].delivered
                    } else if which == 1 {
                        totals[at].dropped
                    } else {
                        totals[at].connections
                    },
                ),
            ),
            line,
        ),
    ensures
        has_line(all_totals_lines(totals), line),
    decreases totals.len(),
{
    let head = totals.drop_last();
    let nothing = Seq::<char>::empty();
    let t = totals.last();
    let label = Some(("name"@, t.name));
    let a = gauge_line("whdr_subscriber_delivered"@, label, json::JsonValue::Unsigned(t.delivered));
    let b = gauge_line("whdr_subscriber_dropped"@, label, json::JsonValue::Unsigned(t.dropped));
    let c = gauge_line(
        "whdr_subscriber_connections"@,
        label,
        json::JsonValue::Unsigned(t.connections),
    );
    lemma_totals_are_lines(head);
    let before = all_totals_lines(head);
    let own = totals_lines(t);
    let blocks = seq![a, b, c];
    assert(blocks.drop_last() =~= seq![a, b]);
    assert(seq![a, b].drop_last() =~= seq![a]);
    assert(seq![a].drop_last() =~= Seq::<Seq<char>>::empty());
    assert(glued(seq![a].drop_last()) == Seq::<char>::empty());
    assert(glued(seq![a]) =~= a);
    assert(glued(seq![a, b]) == glued(seq![a]) + b);
    assert(glued(blocks) == own);
    lemma_glued_lines(blocks);
    if at < head.len() {
        assert(head[at] == totals[at]);
        lemma_totals_line(head, at, which, line);
        lemma_line_stays(nothing, before, own, line);
        assert(nothing + before + own =~= all_totals_lines(totals));
    } else {
        lemma_glued(blocks, which, line);
        lemma_line_stays(before, own, nothing, line);
        assert(before + own + nothing =~= all_totals_lines(totals));
    }
}

proof fn lemma_metric_names()
    ensures
        "whdr_ext_restarts"@ == "whdr_ext_"@ + "restarts"@,
        "whdr_ext_in_flight"@ == "whdr_ext_"@ + "in_flight"@,
        "whdr_ext_protocol_errors"@ == "whdr_ext_"@ + "protocol_errors"@,
        "whdr_ext_namespace_violations"@ == "whdr_ext_"@ + "namespace_violations"@,
        "whdr_ext_consecutive_timeouts"@ == "whdr_ext_"@ + "consecutive_timeouts"@,
        "whdr_ext_events_emitted"@ == "whdr_ext_"@ + "events_emitted"@,
        "whdr_ext_last_event_at_ms"@ == "whdr_ext_"@ + "last_event_at_ms"@,
        "whdr_ext_up"@ == "whdr_ext_"@ + "up"@,
{
    reveal_strlit("whdr_ext_");
    reveal_strlit("restarts");
    reveal_strlit("in_flight");
    reveal_strlit("protocol_errors");
    reveal_strlit("namespace_violations");
    reveal_strlit("consecutive_timeouts");
    reveal_strlit("events_emitted");
    reveal_strlit("last_event_at_ms");
    reveal_strlit("up");
    reveal_strlit("whdr_ext_restarts");
    reveal_strlit("whdr_ext_in_flight");
    reveal_strlit("whdr_ext_protocol_errors");
    reveal_strlit("whdr_ext_namespace_violations");
    reveal_strlit("whdr_ext_consecutive_timeouts");
    reveal_strlit("whdr_ext_events_emitted");
    reveal_strlit("whdr_ext_last_event_at_ms");
    reveal_strlit("whdr_ext_up");
    assert("whdr_ext_restarts"@ =~= "whdr_ext_"@ + "restarts"@);
    assert("whdr_ext_in_flight"@ =~= "whdr_ext_"@ + "in_flight"@);
    assert("whdr_ext_protocol_errors"@ =~= "whdr_ext_"@ + "protocol_errors"@);
    assert("whdr_ext_namespace_violations"@ =~= "whdr_ext_"@ + "namespace_violations"@);
    assert("whdr_ext_consecutive_timeouts"@ =~= "whdr_ext_"@ + "consecutive_timeouts"@);
    assert("whdr_ext_events_emitted"@ =~= "whdr_ext_"@ + "events_emitted"@);
    assert("whdr_ext_last_event_at_ms"@ =~= "whdr_ext_"@ + "last_event_at_ms"@);
    assert("whdr_ext_up"@ =~= "whdr_ext_"@ + "up"@);
}

/// A number is shown in decimal, with a minus sign where it is below zero, a text as it
/// is, and nothing else at all.
pub proof fn values_are_shown(n: u64, m: i64, s: Seq<char>, b: bool)
    ensures
        rendered(json::JsonValue::Unsigned(n)) == Some(text::decimal(n as nat)),
        m < 0 ==> rendered(json::JsonValue::Negative(m)) == Some(
            "-"@ + text::decimal((-m) as nat),
        ),
        rendered(json::JsonValue::Real(s)) == Some(s),
        rendered(json::JsonValue::Text(s)) == Some(s),
        rendered(json::JsonValue::Null) is None,
        rendered(json::JsonValue::Bool(b)) is None,
        rendered(json::JsonValue::Array(Seq::empty())) is None,
{
    reveal_strlit("-");
    assert(seq!['-'] =~= "-"@);
}

} // verus!
