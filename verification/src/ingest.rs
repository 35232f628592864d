//! The ingest plane: webhooks come in over HTTP, and every answer that the router
//! gives itself is decided here.

use axum::http;
use vstd::prelude::*;

use crate::string_map;
use crate::string_map::StringMap;
use crate::text;

verus! {

/// Why a webhook was not answered by an extension.
#[derive(Clone, Copy, Debug, PartialEq, Eq, Structural)]
pub enum DispatchError {
    /// The extension has as many requests as it may have.
    Busy,
    /// The extension is not there yet, or not there for now.
    Starting,
    /// The extension failed, and is not started again by itself.
    Failed,
    /// The extension did not answer in time.
    Timeout,
    /// The extension ended before it answered.
    Dead,
    /// No extension claims the path.
    NotFound,
}

/// An answer of the router itself: a status, and whether the client is asked to
/// try again after a second.
#[derive(Clone, Copy, Debug, PartialEq, Eq, Structural)]
pub struct ServerReply {
    pub status: u16,
    pub retry_after: bool,
}

/// The first text that is not empty.
pub open spec fn first_nonempty(pieces: Seq<Seq<char>>) -> Option<Seq<char>>
    decreases pieces.len(),
{
    if pieces.len() == 0 {
        None
    } else if pieces[0].len() > 0 {
        Some(pieces[0])
    } else {
        first_nonempty(pieces.drop_first())
    }
}

/// The segment of a path that selects the extension: the first that is not empty.
pub open spec fn route_key(path: Seq<char>) -> Option<Seq<char>> {
    first_nonempty(text::split(path, '/'))
}

/// The segment of a path that selects the extension.
pub fn route_key_from_path(path: &str) -> (key: Option<String>)
    ensures
        match key {
            Some(k) => route_key(path@) == Some(k@),
            None => route_key(path@) is None,
        },
{
    let pieces: Vec<String> = text::split_on(path, '/');
    let ghost all = text::split(path@, '/');
    let mut i: usize = 0;
    assert(all.skip(0) =~= all);
    while i < pieces.len()
        invariant
            i <= pieces@.len(),
            all == text::split(path@, '/'),
            text::texts(pieces@) == all,
            first_nonempty(all) == first_nonempty(all.skip(i as int)),
        decreases pieces@.len() - i,
    {
        assert(all.skip(i as int)[0] == pieces@[i as int]@) by {
            assert(all[i as int] == pieces@[i as int]@);
        }
        if !pieces[i].as_str().is_empty() {
            return Some(pieces[i].clone());
        }
        assert(all.skip(i as int).drop_first() =~= all.skip(i as int + 1));
        i += 1;
    }
    None
}

/// Decides on a webhook before anything is dispatched: a body that is too large
/// is refused with 413, a path without a segment with 404; otherwise the segment
/// that selects the extension is returned.
pub fn accept_request(path: &str, body_len: usize, max_body_bytes: usize) -> (r: Result<String, ServerReply>)
    ensures
        match r {
            Ok(key) => body_len <= max_body_bytes && route_key(path@) == Some(key@),
            Err(reply) => !reply.retry_after && if body_len > max_body_bytes {
                reply.status == 413
            } else {
                route_key(path@) is None && reply.status == 404
            },
        },
{
    if body_len > max_body_bytes {
        return Err(ServerReply { status: 413, retry_after: false });
    }
    match route_key_from_path(path) {
        Some(key) => Ok(key),
        None => Err(ServerReply { status: 404, retry_after: false }),
    }
}

/// The answer to a webhook that no extension answered.
pub fn server_reply(error: DispatchError) -> (reply: ServerReply)
    ensures
        reply == (match error {
            DispatchError::Busy => ServerReply { status: 429, retry_after: false },
            DispatchError::Starting => ServerReply { status: 503, retry_after: true },
            DispatchError::Failed => ServerReply { status: 503, retry_after: false },
            DispatchError::Timeout => ServerReply { status: 504, retry_after: false },
            DispatchError::Dead => ServerReply { status: 503, retry_after: false },
            DispatchError::NotFound => ServerReply { status: 404, retry_after: false },
        }),
{
    match error {
        DispatchError::Busy => ServerReply { status: 429, retry_after: false },
        DispatchError::Starting => ServerReply { status: 503, retry_after: true },
        DispatchError::Failed => ServerReply { status: 503, retry_after: false },
        DispatchError::Timeout => ServerReply { status: 504, retry_after: false },
        DispatchError::Dead => ServerReply { status: 503, retry_after: false },
        DispatchError::NotFound => ServerReply { status: 404, retry_after: false },
    }
}

/// The status of an answer of an extension: what is no HTTP status counts as an
/// internal error.
pub fn reply_status(status: u16) -> (sent: u16)
    ensures
        sent == (if 100 <= status < 1000 {
            status
        } else {
            500
        }),
{
    if 100 <= status && status < 1000 {
        status
    } else {
        500
    }
}

/// A header of a request; no value where its bytes are no text.
#[derive(Debug, PartialEq, Eq)]
pub struct Header {
    pub name: String,
    pub value: Option<String>,
}

/// The headers of a request, with their names in lower case. A header whose value
/// is no text is left out; of two with one name the later one stays.
pub open spec fn header_map(headers: Seq<Header>) -> Map<Seq<char>, Seq<char>>
    decreases headers.len(),
{
    if headers.len() == 0 {
        Map::empty()
    } else {
        let before = header_map(headers.drop_last());
        match headers.last().value {
            Some(value) => before.insert(text::lower(headers.last().name@), value@),
            None => before,
        }
    }
}

/// Collects the headers of a request.
pub fn collect_headers(headers: &[Header]) -> (map: StringMap<String>)
    ensures
        string_map::text_map(map@) == header_map(headers@),
{
    let mut map: StringMap<String> = StringMap::new();
    let mut i: usize = 0;
    assert(string_map::text_map(map@) =~= header_map(headers@.take(0)));
    while i < headers.len()
        invariant
            i <= headers@.len(),
            string_map::text_map(map@) == header_map(headers@.take(i as int)),
        decreases headers@.len() - i,
    {
        assert(headers@.take(i as int + 1).drop_last() =~= headers@.take(i as int));
        match &headers[i].value {
            Some(value) => {
                let name: String = text::to_lower(headers[i].name.as_str());
                string_map::put_text(&mut map, name.as_str(), value.as_str());
            },
            None => {},
        }
        i += 1;
    }
    assert(headers@.take(i as int) =~= headers@);
    map
}

/// The characters of the names of headers.
pub open spec fn header_name_char(c: char) -> bool {
    ||| '0' <= c <= '9' || 'a' <= c <= 'z' || 'A' <= c <= 'Z'
    ||| c == '!' || c == '#' || c == '$' || c == '%' || c == '&' || c == '\'' || c == '*'
    ||| c == '+' || c == '-' || c == '.' || c == '^' || c == '_' || c == '`' || c == '|'
    ||| c == '~'
}

/// Whether a text can be the name of a header.
pub open spec fn is_header_name(s: Seq<char>) -> bool {
    &&& 0 < s.len() <= 65_535
    &&& forall|i: int| 0 <= i < s.len() ==> header_name_char(#[trigger] s[i])
}

/// `HeaderName::from_bytes` of `http`: it reads what can be the name of a header, and
/// writes it in lower case.
#[verifier::external_body]
fn read_header_name(name: &str) -> (read: Option<String>)
    ensures
        match read {
            Some(lowered) => is_header_name(name@) && lowered@ == text::lower(name@),
            None => !is_header_name(name@),
        },
{
    http::HeaderName::from_bytes(name.as_bytes()).ok().map(|name| name.as_str().to_owned())
}

/// `HeaderValue::from_str` of `http`: whether it reads a text as the value of a
/// header.
#[verifier::external_body]
fn is_header_value(value: &str) -> (yes: bool)
    ensures
        yes == text::is_header_text(value@),
{
    http::HeaderValue::from_str(value).is_ok()
}

/// The headers of the answer of an extension that go out, of the first `n`: those
/// that HTTP can carry, with their names in lower case; of two with one name the
/// later one stays.
pub open spec fn sent_headers(
    keys: Seq<Seq<char>>,
    headers: Map<Seq<char>, Seq<char>>,
    n: nat,
) -> Map<Seq<char>, Seq<char>>
    decreases n,
{
    if n == 0 {
        Map::empty()
    } else {
        let before = sent_headers(keys, headers, (n - 1) as nat);
        let name = keys[n - 1];
        if is_header_name(name) && text::is_header_text(headers[name]) {
            before.insert(text::lower(name), headers[name])
        } else {
            before
        }
    }
}

/// The headers of the answer of an extension that go out.
pub fn reply_headers(headers: &StringMap<String>) -> (sent: StringMap<String>)
    ensures
        string_map::text_map(sent@) == sent_headers(
            headers.key_seq(),
            string_map::text_map(headers@),
            headers.key_seq().len(),
        ),
{
    let n: usize = headers.len();
    let ghost keys = headers.key_seq();
    let ghost values = string_map::text_map(headers@);
    let mut sent: StringMap<String> = StringMap::new();
    let mut i: usize = 0;
    assert(string_map::text_map(sent@) =~= sent_headers(keys, values, 0));
    while i < n
        invariant
            i <= n == keys.len(),
            keys == headers.key_seq(),
            headers.keys_agree(),
            values == string_map::text_map(headers@),
            string_map::text_map(sent@) == sent_headers(keys, values, i as nat),
        decreases n - i,
    {
        let name: &String = headers.key_at(i);
        let value: &String = headers.value_at(i);
        assert(values[name@] == value@);
        match read_header_name(name.as_str()) {
            Some(lowered) => {
                if is_header_value(value.as_str()) {
                    string_map::put_text(&mut sent, lowered.as_str(), value.as_str());
                }
            },
            None => {},
        }
        i += 1;
    }
    sent
}

/// A webhook is routed by the first piece of its path that is not empty, however many
/// slashes stand before it and whatever follows it; a path of slashes alone leads
/// nowhere.
pub proof fn the_first_piece_routes(slashes: nat, key: Seq<char>, rest: Seq<char>)
    requires
        key.len() > 0,
        !key.contains('/'),
    ensures
        route_key(Seq::new(slashes, |i: int| '/') + key) == Some(key),
        route_key(Seq::new(slashes, |i: int| '/') + key + seq!['/'] + rest) == Some(key),
        route_key(Seq::new(slashes, |i: int| '/')) is None,
    decreases slashes,
{
    let lead = Seq::new(slashes, |i: int| '/');
    let nothing = Seq::<char>::empty();
    text::split_without_separator(nothing, '/');
    if slashes == 0 {
        text::split_without_separator(key, '/');
        text::split_of_joined(key, rest, '/');
        assert(lead + key =~= key);
        assert(lead + key + seq!['/'] + rest =~= key.push('/') + rest);
        assert(lead =~= nothing);
        assert((seq![key] + text::split(rest, '/'))[0] == key);
        assert(seq![nothing].drop_first() =~= Seq::<Seq<char>>::empty());
        reveal_with_fuel(first_nonempty, 2);
    } else {
        let less = Seq::new((slashes - 1) as nat, |i: int| '/');
        the_first_piece_routes((slashes - 1) as nat, key, rest);
        lemma_leading_slash(less + key);
        lemma_leading_slash(less + key + seq!['/'] + rest);
        lemma_leading_slash(less);
        assert(lead =~= seq!['/'] + less);
        assert(lead + key =~= seq!['/'] + (less + key));
        assert(lead + key + seq!['/'] + rest =~= seq!['/'] + (less + key + seq!['/'] + rest));
    }
}

proof fn lemma_leading_slash(path: Seq<char>)
    ensures
        route_key(seq!['/'] + path) == route_key(path),
{
    let nothing = Seq::<char>::empty();
    text::split_without_separator(nothing, '/');
    text::split_of_joined(nothing, path, '/');
    assert(seq!['/'] + path =~= nothing.push('/') + path);
    let pieces = seq![nothing] + text::split(path, '/');
    assert(pieces[0].len() == 0);
    assert(pieces.drop_first() =~= text::split(path, '/'));
}

/// Headers are found under their names in lower case: a header that is text takes the
/// place of an earlier one with its name and leaves the others, and one that is no text
/// changes nothing.
pub proof fn later_headers_stay(before: Seq<Header>, header: Header, name: Seq<char>)
    ensures
        ({
            let after = header_map(before.push(header));
            match header.value {
                Some(value) => {
                    &&& after.contains_key(text::lower(header.name@))
                    &&& after[text::lower(header.name@)] == value@
                    &&& name != text::lower(header.name@) ==> after.contains_key(name)
                        == header_map(before).contains_key(name)
                    &&& name != text::lower(header.name@) && after.contains_key(name)
                        ==> after[name] == header_map(before)[name]
                },
                None => after == header_map(before),
            }
        }),
        header_map(Seq::empty()) == Map::<Seq<char>, Seq<char>>::empty(),
{
    assert(before.push(header).drop_last() =~= before);
}

/// A header of a reply goes out, under its name in lower case, where its name is a token
/// of HTTP and its value has no control characters but tabs; no other goes out.
pub proof fn carried_headers_go_out(
    keys: Seq<Seq<char>>,
    headers: Map<Seq<char>, Seq<char>>,
    n: nat,
    name: Seq<char>,
)
    requires
        n <= keys.len(),
    ensures
        sent_headers(keys, headers, n).contains_key(name) <==> exists|i: int|
            0 <= i < n && text::lower(#[trigger] keys[i]) == name && is_header_name(keys[i])
                && text::is_header_text(headers[keys[i]]),
        sent_headers(keys, headers, n).contains_key(name) ==> exists|i: int|
            0 <= i < n && text::lower(#[trigger] keys[i]) == name && is_header_name(keys[i])
                && text::is_header_text(headers[keys[i]]) && sent_headers(keys, headers, n)[name]
                == headers[keys[i]] && forall|j: int|
                i < j < n ==> !(text::lower(#[trigger] keys[j]) == name && is_header_name(keys[j])
                    && text::is_header_text(headers[keys[j]])),
    decreases n,
{
    if n > 0 {
        carried_headers_go_out(keys, headers, (n - 1) as nat, name);
        let last = keys[n - 1];
        let goes = text::lower(last) == name && is_header_name(last) && text::is_header_text(
            headers[last],
        );
        if goes {
            assert(0 <= n - 1 < n && text::lower(keys[n - 1]) == name);
        } else if sent_headers(keys, headers, n).contains_key(name) {
            let i = choose|i: int|
                0 <= i < n - 1 && text::lower(#[trigger] keys[i]) == name && is_header_name(keys[i])
                    && text::is_header_text(headers[keys[i]]) && sent_headers(
                    keys,
                    headers,
                    (n - 1) as nat,
                )[name] == headers[keys[i]] && forall|j: int|
                    i < j < n - 1 ==> !(text::lower(#[trigger] keys[j]) == name && is_header_name(
                        keys[j],
                    ) && text::is_header_text(headers[keys[j]]));
            assert(text::lower(keys[i]) == name);
            assert forall|j: int| i < j < n implies !(text::lower(#[trigger] keys[j]) == name
                && is_header_name(keys[j]) && text::is_header_text(headers[keys[j]])) by {}
        }
    }
}

/// A name of a header has at least one character and at most 65,535, and a character that
/// no name has spoils it wherever it stands: a control character, a blank, one beyond
/// ASCII, or a separator.
pub proof fn separators_spoil_header_names(before: Seq<char>, c: char, after: Seq<char>)
    ensures
        is_header_name(before.push(c) + after) ==> 33 <= c as int <= 126 && !("\"(),/:;<=>?@[\\]{}"@).contains(
            c,
        ),
        before.len() + 1 + after.len() > 65_535 ==> !is_header_name(before.push(c) + after),
        !is_header_name(Seq::empty()),
        33 <= c as int <= 126 && !("\"(),/:;<=>?@[\\]{}"@).contains(c) && is_header_name(before)
            && before.len() < 65_535 ==> is_header_name(before.push(c)),
        33 <= c as int <= 126 && !("\"(),/:;<=>?@[\\]{}"@).contains(c) ==> is_header_name(seq![c]),
{
    let separators = "\"(),/:;<=>?@[\\]{}"@;
    let whole = before.push(c) + after;
    let n = before.len() as int;
    assert(whole[n] == c);
    lemma_header_name_char(c);
    if is_header_name(whole) {
        assert(header_name_char(whole[n]));
    }
    if is_header_name(before) && header_name_char(c) {
        let longer = before.push(c);
        assert forall|i: int| 0 <= i < longer.len() implies header_name_char(
            #[trigger] longer[i],
        ) by {
            if i < n {
                assert(longer[i] == before[i]);
            }
        }
    }
}

proof fn lemma_header_name_char(c: char)
    ensures
        header_name_char(c) <==> 33 <= c as int <= 126 && !("\"(),/:;<=>?@[\\]{}"@).contains(c),
{
    reveal_strlit("\"(),/:;<=>?@[\\]{}");
    let s = "\"(),/:;<=>?@[\\]{}"@;
    assert(s.len() == 17);
    assert(s[0] == '"' && s[1] == '(' && s[2] == ')' && s[3] == ',' && s[4] == '/' && s[5] == ':'
        && s[6] == ';' && s[7] == '<' && s[8] == '=' && s[9] == '>' && s[10] == '?' && s[11] == '@'
        && s[12] == '[' && s[13] == '\\' && s[14] == ']' && s[15] == '{' && s[16] == '}');
    if s.contains(c) {
        let i = s.index_of(c);
        assert(s[i] == c && 0 <= i < 17);
    }
}

} // verus!
