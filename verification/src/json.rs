//! JSON documents as plain values.

use vstd::prelude::*;

use crate::text;

verus! {

/// A JSON document.
///
/// A number is kept as the integer it is, or else as the text that it is
/// written as. The members of an object have different names.
#[derive(Debug)]
pub enum Json {
    Null,
    Bool(bool),
    Unsigned(u64),
    Negative(i64),
    Real(String),
    Text(String),
    Array(Vec<Json>),
    Object(Vec<(String, Json)>),
}

/// The value of a [`Json`] document.
pub enum JsonValue {
    Null,
    Bool(bool),
    Unsigned(u64),
    Negative(i64),
    Real(Seq<char>),
    Text(Seq<char>),
    Array(Seq<JsonValue>),
    Object(Seq<(Seq<char>, JsonValue)>),
}

/// The value of a document.
pub open spec fn value_of(json: Json) -> JsonValue
    decreases json,
{
    match json {
        Json::Null => JsonValue::Null,
        Json::Bool(b) => JsonValue::Bool(b),
        Json::Unsigned(n) => JsonValue::Unsigned(n),
        Json::Negative(n) => JsonValue::Negative(n),
        Json::Real(s) => JsonValue::Real(s@),
        Json::Text(s) => JsonValue::Text(s@),
        Json::Array(items) => JsonValue::Array(
            Seq::new(
                items@.len(),
                |i: int|
                    if 0 <= i < items@.len() {
                        value_of(items@[i])
                    } else {
                        JsonValue::Null
                    },
            ),
        ),
        Json::Object(members) => JsonValue::Object(
            Seq::new(
                members@.len(),
                |i: int|
                    if 0 <= i < members@.len() {
                        (members@[i].0@, value_of(members@[i].1))
                    } else {
                        (Seq::empty(), JsonValue::Null)
                    },
            ),
        ),
    }
}

impl View for Json {
    type V = JsonValue;

    open spec fn view(&self) -> JsonValue {
        value_of(*self)
    }
}

/// The values of a list of documents.
pub open spec fn values_of(items: Seq<Json>) -> Seq<JsonValue> {
    Seq::new(items.len(), |i: int| items[i]@)
}

/// The member `name` of an object; nothing for what is no object.
pub open spec fn member(value: JsonValue, name: Seq<char>) -> Option<JsonValue> {
    match value {
        JsonValue::Object(members) => first_named(members, name),
        _ => None,
    }
}

/// The first member that is called `name`.
pub open spec fn first_named(
    members: Seq<(Seq<char>, JsonValue)>,
    name: Seq<char>,
) -> Option<JsonValue>
    decreases members.len(),
{
    if members.len() == 0 {
        None
    } else if members[0].0 == name {
        Some(members[0].1)
    } else {
        first_named(members.drop_first(), name)
    }
}

/// The member `name` of an object, where what is missing is null.
pub open spec fn member_or_null(value: JsonValue, name: Seq<char>) -> JsonValue {
    match member(value, name) {
        Some(found) => found,
        None => JsonValue::Null,
    }
}

/// The text of a JSON string.
pub open spec fn as_text(value: JsonValue) -> Option<Seq<char>> {
    match value {
        JsonValue::Text(s) => Some(s),
        _ => None,
    }
}

/// The items of a JSON array.
pub open spec fn as_items(value: JsonValue) -> Option<Seq<JsonValue>> {
    match value {
        JsonValue::Array(items) => Some(items),
        _ => None,
    }
}

/// The value of a JSON number that is a natural number below 2^64.
pub open spec fn as_unsigned(value: JsonValue) -> Option<u64> {
    match value {
        JsonValue::Unsigned(n) => Some(n),
        _ => None,
    }
}

impl Json {
    /// The member called `name`, where this is an object that has one.
    pub fn get(&self, name: &str) -> (found: Option<&Json>)
        ensures
            match found {
                Some(json) => member(self@, name@) == Some(json@),
                None => member(self@, name@) is None,
            },
    {
        match self {
            Json::Object(members) => {
                let ghost all = match self@ {
                    JsonValue::Object(m) => m,
                    _ => Seq::empty(),
                };
                let mut i: usize = 0;
                assert(all.skip(0) =~= all);
                while i < members.len()
                    invariant
                        i <= members@.len(),
                        all.len() == members@.len(),
                        forall|j: int|
                            0 <= j < all.len() ==> #[trigger] all[j] == (
                                members@[j].0@,
                                members@[j].1@,
                            ),
                        first_named(all, name@) == first_named(all.skip(i as int), name@),
                        self@ == JsonValue::Object(all),
                    decreases members@.len() - i,
                {
                    assert(all.skip(i as int)[0] == all[i as int]);
                    if text::same_text(members[i].0.as_str(), name) {
                        return Some(&members[i].1);
                    }
                    assert(all.skip(i as int).drop_first() =~= all.skip(i as int + 1));
                    i += 1;
                }
                None
            },
            _ => None,
        }
    }

    /// The text, where this is a string.
    pub fn as_str(&self) -> (found: Option<&str>)
        ensures
            match found {
                Some(s) => as_text(self@) == Some(s@),
                None => as_text(self@) is None,
            },
    {
        match self {
            Json::Text(s) => Some(s.as_str()),
            _ => None,
        }
    }

    /// The items, where this is an array.
    pub fn as_array(&self) -> (found: Option<&Vec<Json>>)
        ensures
            match found {
                Some(items) => as_items(self@) == Some(values_of(items@)),
                None => as_items(self@) is None,
            },
    {
        match self {
            Json::Array(items) => {
                proof {
                    let held = match self@ {
                        JsonValue::Array(held) => held,
                        _ => Seq::empty(),
                    };
                    assert(held =~= values_of(items@));
                }
                Some(items)
            },
            _ => None,
        }
    }

    /// The number, where this is a natural number below 2^64.
    pub fn as_u64(&self) -> (found: Option<u64>)
        ensures
            found == as_unsigned(self@),
    {
        match self {
            Json::Unsigned(n) => Some(*n),
            _ => None,
        }
    }
}

/// The members of an object, by their values.
pub open spec fn member_values(members: Seq<(String, Json)>) -> Seq<(Seq<char>, JsonValue)> {
    Seq::new(members.len(), |i: int| (members[i].0@, members[i].1@))
}

/// Adds a member to the members of an object.
pub fn push_member(members: &mut Vec<(String, Json)>, name: &str, value: Json)
    ensures
        member_values(final(members)@) == member_values(old(members)@).push((name@, value@)),
{
    let ghost before = member_values(members@);
    members.push((name.to_owned(), value));
    assert(member_values(members@) =~= before.push((name@, value@)));
}

/// The object with these members.
pub fn object(members: Vec<(String, Json)>) -> (json: Json)
    ensures
        json@ == JsonValue::Object(member_values(members@)),
{
    let json: Json = Json::Object(members);
    proof {
        let held = match json@ {
            JsonValue::Object(held) => held,
            _ => Seq::empty(),
        };
        assert(held =~= member_values(members@));
    }
    json
}

/// The array with these items.
pub fn array(items: Vec<Json>) -> (json: Json)
    ensures
        json@ == JsonValue::Array(values_of(items@)),
{
    let json: Json = Json::Array(items);
    proof {
        let held = match json@ {
            JsonValue::Array(held) => held,
            _ => Seq::empty(),
        };
        assert(held =~= values_of(items@));
    }
    json
}

/// The JSON string with this text.
pub fn string(s: &str) -> (json: Json)
    ensures
        json@ == JsonValue::Text(s@),
{
    Json::Text(s.to_owned())
}

/// The values of JSON strings.
pub open spec fn text_values(strings: Seq<Seq<char>>) -> Seq<JsonValue> {
    Seq::new(strings.len(), |i: int| JsonValue::Text(strings[i]))
}

/// The array of strings with these texts.
pub fn string_array(strings: &[String]) -> (json: Json)
    ensures
        json@ == JsonValue::Array(text_values(text::texts(strings@))),
{
    let mut items: Vec<Json> = Vec::new();
    let mut i: usize = 0;
    while i < strings.len()
        invariant
            i <= strings@.len(),
            items@.len() == i,
            forall|j: int|
                0 <= j < i ==> (#[trigger] items@[j])@ == JsonValue::Text(strings@[j]@),
        decreases strings@.len() - i,
    {
        items.push(string(strings[i].as_str()));
        i += 1;
    }
    assert(values_of(items@) =~= text_values(text::texts(strings@)));
    array(items)
}

/// A parsed document of `serde_json`.
#[verifier::external_type_specification]
#[verifier::external_body]
pub struct ExValue(serde_json::Value);

/// The error of `serde_json`.
#[verifier::external_type_specification]
#[verifier::external_body]
pub struct ExError(serde_json::Error);

/// What a document of `serde_json` holds.
pub uninterp spec fn content(document: serde_json::Value) -> JsonValue;

/// The document that `serde_json` reads from a text; nothing where the text is
/// no JSON document.
pub uninterp spec fn document(bytes: Seq<u8>) -> Option<JsonValue>;

/// `serde_json::from_slice` at the type `serde_json::Value`: it succeeds where
/// the bytes are a JSON document, and which document that is depends on the
/// bytes alone.
#[verifier::external_body]
fn parse_value(bytes: &[u8]) -> (r: Result<serde_json::Value, serde_json::Error>)
    ensures
        match r {
            Ok(parsed) => document(bytes@) == Some(content(parsed)),
            Err(_) => document(bytes@) is None,
        },
{
    serde_json::from_slice(bytes)
}

/// Moves a `serde_json::Value` into a [`Json`], member by member: what the
/// result holds is what the argument held.
#[verifier::external_body]
fn from_value(value: serde_json::Value) -> (json: Json)
    ensures
        json@ == content(value),
{
    match value {
        serde_json::Value::Null => Json::Null,
        serde_json::Value::Bool(b) => Json::Bool(b),
        serde_json::Value::Number(n) => match (n.as_u64(), n.as_i64()) {
            (Some(u), _) => Json::Unsigned(u),
            (None, Some(i)) => Json::Negative(i),
            (None, None) => Json::Real(n.to_string()),
        },
        serde_json::Value::String(s) => Json::Text(s),
        serde_json::Value::Array(a) => Json::Array(a.into_iter().map(from_value).collect()),
        serde_json::Value::Object(o) => {
            Json::Object(o.into_iter().map(|(k, v)| (k, from_value(v))).collect())
        },
    }
}

/// Reads a JSON document.
pub fn parse(bytes: &[u8]) -> (r: Result<Json, serde_json::Error>)
    ensures
        match r {
            Ok(json) => document(bytes@) == Some(json@),
            Err(_) => document(bytes@) is None,
        },
{
    match parse_value(bytes) {
        Ok(parsed) => Ok(from_value(parsed)),
        Err(e) => Err(e),
    }
}

/// Members in the order of their names once another was put among them: one that has
/// its name gives way.
pub open spec fn with_member(
    members: Seq<(Seq<char>, JsonValue)>,
    name: Seq<char>,
    value: JsonValue,
) -> Seq<(Seq<char>, JsonValue)>
    decreases members.len(),
{
    if members.len() == 0 || text::lex_lt(members.last().0, name) {
        members.push((name, value))
    } else if members.last().0 == name {
        members.drop_last().push((name, value))
    } else {
        with_member(members.drop_last(), name, value).push(members.last())
    }
}

/// Members in the order of their names; of two with one name the later one stays.
pub open spec fn in_order(members: Seq<(Seq<char>, JsonValue)>) -> Seq<(Seq<char>, JsonValue)>
    decreases members.len(),
{
    if members.len() == 0 {
        Seq::empty()
    } else {
        with_member(in_order(members.drop_last()), members.last().0, members.last().1)
    }
}

/// What `serde_json` holds of a document: the members of an object stand in the order
/// of their names, a number is read from its text, and an integer is negative only
/// where it is below zero.
pub open spec fn kept(value: JsonValue) -> JsonValue
    decreases value, 0nat,
{
    match value {
        JsonValue::Negative(n) => if n < 0 {
            value
        } else {
            JsonValue::Unsigned(n as u64)
        },
        JsonValue::Real(s) => match document(vstd::utf8::encode_utf8(s)) {
            Some(read) => read,
            None => JsonValue::Null,
        },
        JsonValue::Array(items) => JsonValue::Array(
            Seq::new(
                items.len(),
                |i: int|
                    if 0 <= i < items.len() {
                        kept(items[i])
                    } else {
                        JsonValue::Null
                    },
            ),
        ),
        JsonValue::Object(members) => JsonValue::Object(kept_members(members, members.len())),
        _ => value,
    }
}

/// What `serde_json` holds of the first `n` members of an object.
pub open spec fn kept_members(members: Seq<(Seq<char>, JsonValue)>, n: nat) -> Seq<
    (Seq<char>, JsonValue),
>
    decreases members, n,
{
    if n == 0 || n > members.len() {
        Seq::empty()
    } else {
        with_member(
            kept_members(members, (n - 1) as nat),
            members[n - 1].0,
            kept(members[n - 1].1),
        )
    }
}

/// What some documents of `serde_json` hold.
pub open spec fn contents(values: Seq<serde_json::Value>) -> Seq<JsonValue> {
    Seq::new(values.len(), |i: int| content(values[i]))
}

/// What some members of `serde_json` hold.
pub open spec fn member_contents(members: Seq<(String, serde_json::Value)>) -> Seq<
    (Seq<char>, JsonValue),
> {
    Seq::new(members.len(), |i: int| (members[i].0@, content(members[i].1)))
}

/// `serde_json::Value::Null`, which is null.
#[verifier::external_body]
fn null_value() -> (value: serde_json::Value)
    ensures
        content(value) == JsonValue::Null,
{
    serde_json::Value::Null
}

/// `serde_json::Value::Bool`, which is a boolean.
#[verifier::external_body]
fn bool_value(b: bool) -> (value: serde_json::Value)
    ensures
        content(value) == JsonValue::Bool(b),
{
    serde_json::Value::Bool(b)
}

/// `serde_json::Value::from` on a `u64`: a natural number.
#[verifier::external_body]
fn unsigned_value(n: u64) -> (value: serde_json::Value)
    ensures
        content(value) == JsonValue::Unsigned(n),
{
    serde_json::Value::from(n)
}

/// `serde_json::Value::from` on an `i64`: an integer, which is a natural number where
/// it is not below zero.
#[verifier::external_body]
fn signed_value(n: i64) -> (value: serde_json::Value)
    ensures
        content(value) == (if n < 0 {
            JsonValue::Negative(n)
        } else {
            JsonValue::Unsigned(n as u64)
        }),
{
    serde_json::Value::from(n)
}

/// `serde_json::Value::String`, which is a text.
#[verifier::external_body]
fn text_value(s: String) -> (value: serde_json::Value)
    ensures
        content(value) == JsonValue::Text(s@),
{
    serde_json::Value::String(s)
}

/// `serde_json::Value::Array`, which is an array.
#[verifier::external_body]
fn array_value(items: Vec<serde_json::Value>) -> (value: serde_json::Value)
    ensures
        content(value) == JsonValue::Array(contents(items@)),
{
    serde_json::Value::Array(items)
}

/// `serde_json::Value::Object` on a `serde_json::Map`, which is a `BTreeMap`, that is
/// collected from members: an object whose members stand in the order of their
/// names, where of two with one name the later one stays.
#[verifier::external_body]
fn object_value(members: Vec<(String, serde_json::Value)>) -> (value: serde_json::Value)
    ensures
        content(value) == JsonValue::Object(in_order(member_contents(members@))),
{
    serde_json::Value::Object(members.into_iter().collect())
}

/// Hands a document to `serde_json`.
fn to_value(json: &Json) -> (value: serde_json::Value)
    ensures
        content(value) == kept(json@),
    decreases json,
{
    match json {
        Json::Null => null_value(),
        Json::Bool(b) => bool_value(*b),
        Json::Unsigned(n) => unsigned_value(*n),
        Json::Negative(n) => signed_value(*n),
        Json::Real(s) => match parse_value(s.as_str().as_bytes()) {
            Ok(read) => read,
            Err(_) => null_value(),
        },
        Json::Text(s) => text_value(s.clone()),
        Json::Array(items) => {
            let mut values: Vec<serde_json::Value> = Vec::new();
            let mut i: usize = 0;
            while i < items.len()
                invariant
                    i <= items@.len(),
                    *json == Json::Array(*items),
                    values@.len() == i,
                    forall|j: int| 0 <= j < i ==> content(#[trigger] values@[j]) == kept(items@[j]@),
                decreases items@.len() - i,
            {
                assert(decreases_to!(*json => json->Array_0));
                assert(decreases_to!(*items => items@[i as int]));
                values.push(to_value(&items[i]));
                i += 1;
            }
            proof {
                assert(contents(values@) =~= kept(json@)->Array_0);
            }
            array_value(values)
        },
        Json::Object(members) => {
            let mut values: Vec<(String, serde_json::Value)> = Vec::new();
            let mut i: usize = 0;
            let ghost given = json@->Object_0;
            assert(in_order(member_contents(values@)) == kept_members(given, 0));
            while i < members.len()
                invariant
                    i <= members@.len() == given.len(),
                    *json == Json::Object(*members),
                    given == json@->Object_0,
                    in_order(member_contents(values@)) == kept_members(given, i as nat),
                decreases members@.len() - i,
            {
                assert(decreases_to!(*json => json->Object_0));
                assert(decreases_to!(*members => members@[i as int]));
                let ghost before = member_contents(values@);
                let value: serde_json::Value = to_value(&members[i].1);
                values.push((members[i].0.clone(), value));
                assert(member_contents(values@).drop_last() =~= before);
                assert(given[i as int] == (members@[i as int].0@, members@[i as int].1@));
                i += 1;
            }
            object_value(values)
        },
    }
}

/// Whether a document has no number but integers and its arrays and objects are
/// nested at most `depth` deep.
pub open spec fn is_flat(value: JsonValue, depth: nat) -> bool
    decreases depth,
{
    match value {
        JsonValue::Real(_) => false,
        JsonValue::Array(items) => depth > 0 && forall|i: int|
            0 <= i < items.len() ==> is_flat(#[trigger] items[i], (depth - 1) as nat),
        JsonValue::Object(members) => depth > 0 && forall|i: int|
            0 <= i < members.len() ==> is_flat((#[trigger] members[i]).1, (depth - 1) as nat),
        _ => true,
    }
}

/// Whether a text fits on a line: it is not empty, has no control characters and no
/// white space at its ends.
pub open spec fn fits_on_a_line(s: Seq<char>) -> bool {
    &&& s.len() > 0
    &&& !text::is_white(s[0])
    &&& !text::is_white(s.last())
    &&& forall|i: int| 0 <= i < s.len() ==> ' ' <= #[trigger] s[i]
}

/// The compact text that `serde_json` writes for a document.
pub uninterp spec fn written(value: JsonValue) -> Seq<char>;

/// `serde_json::Value::to_string`: the compact text of a document, which depends on
/// what the document holds alone. It fits on a line. Null, booleans and natural
/// numbers are written as usual, and a document without reals that is nested at most
/// 127 deep is read back from its text; the text of the others is not stated.
#[verifier::external_body]
fn write_value(value: &serde_json::Value) -> (text: String)
    ensures
        text@ == written(content(*value)),
        fits_on_a_line(text@),
        is_flat(content(*value), 127) ==> document(vstd::utf8::encode_utf8(text@)) == Some(
            content(*value),
        ),
        match content(*value) {
            JsonValue::Null => text@ == "null"@,
            JsonValue::Bool(b) => text@ == if b {
                "true"@
            } else {
                "false"@
            },
            JsonValue::Unsigned(n) => text@ == text::decimal(n as nat),
            _ => true,
        },
{
    value.to_string()
}

/// The compact text of a document.
pub open spec fn shown(value: JsonValue) -> Seq<char> {
    match value {
        JsonValue::Null => "null"@,
        JsonValue::Bool(b) => if b {
            "true"@
        } else {
            "false"@
        },
        JsonValue::Unsigned(n) => text::decimal(n as nat),
        _ => written(kept(value)),
    }
}

/// Writes a document in its compact form, which fits on a line and from which the
/// document is read back.
pub fn show(json: &Json) -> (text: String)
    ensures
        text@ == shown(json@),
        fits_on_a_line(text@),
        is_flat(kept(json@), 127) ==> document(vstd::utf8::encode_utf8(text@)) == Some(
            kept(json@),
        ),
{
    let value: serde_json::Value = to_value(json);
    write_value(&value)
}

/// A member is found by its name where no earlier one has that name.
pub proof fn member_is_found(
    members: Seq<(Seq<char>, JsonValue)>,
    i: int,
    name: Seq<char>,
    value: JsonValue,
)
    requires
        0 <= i < members.len(),
        members[i] == (name, value),
        forall|j: int| 0 <= j < i ==> (#[trigger] members[j]).0 != name,
    ensures
        member(JsonValue::Object(members), name) == Some(value),
    decreases i,
{
    if i > 0 {
        assert(members[0].0 != name);
        let rest = members.drop_first();
        assert forall|j: int| 0 <= j < i - 1 implies (#[trigger] rest[j]).0 != name by {
            assert(rest[j] == members[j + 1]);
        }
        member_is_found(rest, i - 1, name, value);
    }
}

/// Nothing is found under a name that no member has, nor in what is no object.
pub proof fn missing_member_is_not_found(members: Seq<(Seq<char>, JsonValue)>, name: Seq<char>)
    requires
        forall|j: int| 0 <= j < members.len() ==> (#[trigger] members[j]).0 != name,
    ensures
        member(JsonValue::Object(members), name) is None,
        member(JsonValue::Null, name) is None,
        member_or_null(JsonValue::Object(members), name) == JsonValue::Null,
    decreases members.len(),
{
    if members.len() > 0 {
        assert(members[0].0 != name);
        let rest = members.drop_first();
        assert forall|j: int| 0 <= j < rest.len() implies (#[trigger] rest[j]).0 != name by {
            assert(rest[j] == members[j + 1]);
        }
        missing_member_is_not_found(rest, name);
    }
}

/// Whether members stand in the order of their names.
pub open spec fn names_ascend(members: Seq<(Seq<char>, JsonValue)>) -> bool {
    forall|i: int, j: int|
        0 <= i < j < members.len() ==> text::lex_lt(
            (#[trigger] members[i]).0,
            (#[trigger] members[j]).0,
        )
}

proof fn lemma_with_member(
    members: Seq<(Seq<char>, JsonValue)>,
    name: Seq<char>,
    value: JsonValue,
    entry: (Seq<char>, JsonValue),
)
    requires
        names_ascend(members),
    ensures
        names_ascend(with_member(members, name, value)),
        with_member(members, name, value).contains(entry) <==> entry == (name, value) || (
        members.contains(entry) && entry.0 != name),
        forall|i: int|
            0 <= i < with_member(members, name, value).len() ==> (#[trigger] with_member(
                members,
                name,
                value,
            )[i]).0 == name || exists|k: int|
                0 <= k < members.len() && (#[trigger] members[k]).0 == with_member(
                    members,
                    name,
                    value,
                )[i].0,
    decreases members.len(),
{
    let after = with_member(members, name, value);
    if members.len() == 0 || text::lex_lt(members.last().0, name) {
        assert forall|i: int, j: int| 0 <= i < j < after.len() implies text::lex_lt(
            (#[trigger] after[i]).0,
            (#[trigger] after[j]).0,
        ) by {
            assert(after[i] == members[i]);
            if j == members.len() {
                if i < members.len() - 1 {
                    text::lex_lt_transitive(members[i].0, members.last().0, name);
                }
            } else {
                assert(after[j] == members[j]);
            }
        }
        if after.contains(entry) {
            let i = after.index_of(entry);
            if i < members.len() {
                assert(members[i] == entry);
                if i < members.len() - 1 {
                    text::lex_lt_transitive(members[i].0, members.last().0, name);
                }
                text::lex_lt_irreflexive(name);
            }
        }
        if members.contains(entry) {
            assert(after[members.index_of(entry)] == entry);
        }
        assert(after[members.len() as int] == (name, value));
    } else if members.last().0 == name {
        let head = members.drop_last();
        assert forall|i: int, j: int| 0 <= i < j < after.len() implies text::lex_lt(
            (#[trigger] after[i]).0,
            (#[trigger] after[j]).0,
        ) by {
            assert(after[i] == members[i]);
            assert(text::lex_lt(members[i].0, members[j].0));
        }
        if after.contains(entry) {
            let i = after.index_of(entry);
            if i < head.len() {
                assert(members[i] == entry);
                assert(text::lex_lt(members[i].0, members[members.len() - 1].0));
                text::lex_lt_irreflexive(name);
            }
        }
        if members.contains(entry) && entry.0 != name {
            assert(after[members.index_of(entry)] == entry);
        }
        assert(after[head.len() as int] == (name, value));
    } else {
        let head = members.drop_last();
        let last = members.last();
        assert(forall|i: int| 0 <= i < head.len() ==> head[i] == members[i]);
        assert(names_ascend(head));
        lemma_with_member(head, name, value, entry);
        let before = with_member(head, name, value);
        text::lex_lt_total(last.0, name);
        assert(text::lex_lt(name, last.0));
        assert forall|i: int, j: int| 0 <= i < j < after.len() implies text::lex_lt(
            (#[trigger] after[i]).0,
            (#[trigger] after[j]).0,
        ) by {
            assert(after[i] == before[i]);
            if j < before.len() {
                assert(after[j] == before[j]);
            } else if before[i].0 != name {
                let k = choose|k: int| 0 <= k < head.len() && (#[trigger] head[k]).0 == before[i].0;
                assert(text::lex_lt(members[k].0, members[members.len() - 1].0));
            }
        }
        if after.contains(entry) {
            let i = after.index_of(entry);
            if i < before.len() {
                assert(before[i] == entry);
                if head.contains(entry) {
                    assert(members[head.index_of(entry)] == entry);
                }
            } else {
                assert(members[members.len() - 1] == entry);
                text::lex_lt_irreflexive(name);
            }
        }
        if before.contains(entry) {
            assert(after[before.index_of(entry)] == entry);
        }
        if members.contains(entry) && entry.0 != name {
            let i = members.index_of(entry);
            if i < head.len() {
                assert(head[i] == entry);
            } else {
                assert(after[before.len() as int] == entry);
            }
        }
        assert forall|i: int| 0 <= i < after.len() implies (#[trigger] after[i]).0 == name
            || exists|k: int|
            0 <= k < members.len() && (#[trigger] members[k]).0 == after[i].0 by {
            if i < before.len() {
                assert(after[i] == before[i]);
                if before[i].0 != name {
                    let k = choose|k: int|
                        0 <= k < head.len() && (#[trigger] head[k]).0 == before[i].0;
                    assert(members[k].0 == after[i].0);
                }
            } else {
                assert(members[members.len() - 1].0 == after[i].0);
            }
        }
    }
}

/// Putting members in order loses none and adds none: the last one with a name is there,
/// each name is there once, and the names ascend.
pub proof fn ordering_keeps_the_latest_members(
    before: Seq<(Seq<char>, JsonValue)>,
    name: Seq<char>,
    value: JsonValue,
    entry: (Seq<char>, JsonValue),
)
    ensures
        names_ascend(in_order(before.push((name, value)))),
        in_order(before.push((name, value))).contains((name, value)),
        entry.0 != name ==> (in_order(before.push((name, value))).contains(entry) <==> in_order(
            before,
        ).contains(entry)),
        in_order(Seq::empty()).len() == 0,
    decreases before.len(),
{
    assert(before.push((name, value)).drop_last() =~= before);
    if before.len() > 0 {
        ordering_keeps_the_latest_members(
            before.drop_last(),
            before.last().0,
            before.last().1,
            entry,
        );
        assert(before.drop_last().push((before.last().0, before.last().1)) =~= before);
    }
    lemma_with_member(in_order(before), name, value, entry);
    lemma_with_member(in_order(before), name, value, (name, value));
}

/// Lists keep their items in their places, texts and truth values stay as they are, and a
/// number that is not below zero is kept as one without a sign.
pub proof fn what_is_kept(items: Seq<JsonValue>, s: Seq<char>, b: bool, n: u64, m: i64)
    ensures
        match kept(JsonValue::Array(items)) {
            JsonValue::Array(after) => after.len() == items.len() && forall|i: int|
                0 <= i < items.len() ==> #[trigger] after[i] == kept(items[i]),
            _ => false,
        },
        kept(JsonValue::Text(s)) == JsonValue::Text(s),
        kept(JsonValue::Bool(b)) == JsonValue::Bool(b),
        kept(JsonValue::Null) is Null,
        kept(JsonValue::Unsigned(n)) == JsonValue::Unsigned(n),
        m >= 0 ==> kept(JsonValue::Negative(m)) == JsonValue::Unsigned(m as u64),
        m < 0 ==> kept(JsonValue::Negative(m)) == JsonValue::Negative(m),
{
}

/// The shortest documents are written as their names and digits.
pub proof fn plain_values_are_written_out(n: u64)
    ensures
        shown(JsonValue::Null) == "null"@,
        shown(JsonValue::Bool(true)) == "true"@,
        shown(JsonValue::Bool(false)) == "false"@,
        shown(JsonValue::Unsigned(n)) == text::decimal(n as nat),
{
}

} // verus!
