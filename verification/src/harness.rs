//! What a test of the whole router needs: its files, and what its answers hold.

use vstd::prelude::*;
use vstd::string::*;

use crate::encoding;
use crate::json;
use crate::json::Json;
use crate::text;

verus! {

/// The first of the items whose member `key` is the text `wanted`.
pub open spec fn first_row(
    items: Seq<json::JsonValue>,
    key: Seq<char>,
    wanted: Seq<char>,
) -> Option<json::JsonValue>
    decreases items.len(),
{
    if items.len() == 0 {
        None
    } else if json::as_text(json::member_or_null(items[0], key)) == Some(wanted) {
        Some(items[0])
    } else {
        first_row(items.drop_first(), key, wanted)
    }
}

/// The row of a list in a status whose member `key` is the text `wanted`.
pub open spec fn row_of(
    status: json::JsonValue,
    list: Seq<char>,
    key: Seq<char>,
    wanted: Seq<char>,
) -> Option<json::JsonValue> {
    match json::as_items(json::member_or_null(status, list)) {
        Some(items) => first_row(items, key, wanted),
        None => None,
    }
}

/// The row of a list in a status whose member `key` is the text `wanted`.
fn find_row<'a>(status: &'a Json, list: &str, key: &str, wanted: &str) -> (row: Option<&'a Json>)
    ensures
        match row {
            Some(found) => row_of(status@, list@, key@, wanted@) == Some(found@),
            None => row_of(status@, list@, key@, wanted@) is None,
        },
{
    let items: &Vec<Json> = match status.get(list) {
        Some(found) => match found.as_array() {
            Some(items) => items,
            None => {
                return None;
            },
        },
        None => {
            return None;
        },
    };
    let ghost all = json::values_of(items@);
    let mut i: usize = 0;
    assert(all.skip(0) =~= all);
    while i < items.len()
        invariant
            i <= items@.len(),
            all == json::values_of(items@),
            json::as_items(json::member_or_null(status@, list@)) == Some(all),
            first_row(all.skip(i as int), key@, wanted@) == first_row(all, key@, wanted@),
        decreases items@.len() - i,
    {
        assert(all.skip(i as int)[0] == items@[i as int]@);
        assert(all.skip(i as int).drop_first() =~= all.skip(i as int + 1));
        match items[i].get(key) {
            Some(member) => match member.as_str() {
                Some(held) => {
                    if text::same_text(held, wanted) {
                        return Some(&items[i]);
                    }
                },
                None => {},
            },
            None => {},
        }
        i += 1;
    }
    None
}

/// The row of an extension in a status.
pub fn ext_row<'a>(status: &'a Json, id: &str) -> (row: Option<&'a Json>)
    ensures
        match row {
            Some(found) => row_of(status@, "extensions"@, "id"@, id@) == Some(found@),
            None => row_of(status@, "extensions"@, "id"@, id@) is None,
        },
{
    find_row(status, "extensions", "id", id)
}

/// The row of a subscriber in a status.
pub fn subscriber_row<'a>(status: &'a Json, name: &str) -> (row: Option<&'a Json>)
    ensures
        match row {
            Some(found) => row_of(status@, "subscribers"@, "name"@, name@) == Some(found@),
            None => row_of(status@, "subscribers"@, "name"@, name@) is None,
        },
{
    find_row(status, "subscribers", "name", name)
}

/// Identifiers between quotation marks, with commas.
pub open spec fn quoted_list(ids: Seq<Seq<char>>) -> Seq<char>
    decreases ids.len(),
{
    if ids.len() == 0 {
        Seq::empty()
    } else {
        let before = quoted_list(ids.drop_last());
        let lead = if ids.len() == 1 {
            before
        } else {
            before + ", "@
        };
        lead + "\""@ + ids.last() + "\""@
    }
}

/// Writes identifiers between quotation marks, with commas.
fn write_list(ids: &[String]) -> (shown: String)
    ensures
        shown@ == quoted_list(text::texts(ids@)),
{
    let ghost all = text::texts(ids@);
    let mut shown: String = String::new();
    let mut i: usize = 0;
    assert(shown@ =~= quoted_list(all.take(0)));
    while i < ids.len()
        invariant
            i <= ids@.len(),
            all == text::texts(ids@),
            shown@ == quoted_list(all.take(i as int)),
        decreases ids@.len() - i,
    {
        assert(all.take(i as int + 1).drop_last() =~= all.take(i as int));
        assert(all[i as int] == ids@[i as int]@);
        if i > 0 {
            shown.append(", ");
        }
        shown.append("\"");
        shown.append(ids[i].as_str());
        shown.append("\"");
        i += 1;
        assert(shown@ =~= quoted_list(all.take(i as int)));
    }
    assert(all.take(i as int) =~= all);
    shown
}

/// What a configuration file for a test is made from.
#[derive(Debug)]
pub struct WriteConfig {
    pub ingest_addr: String,
    pub sub_addr: String,
    pub metrics_addr: String,
    pub control_socket: String,
    pub token_store: String,
    pub enabled: Vec<String>,
    pub secrets_path: String,
    pub limits: String,
    pub timeouts: String,
    pub delivery: Option<String>,
}

/// The text of a configuration file.
pub open spec fn config_text(cfg: WriteConfig) -> Seq<char> {
    "[server]\nlisten_addr = \""@ + cfg.ingest_addr@ + "\"\nsub_addr = \""@ + cfg.sub_addr@
        + "\"\nmetrics_addr = \""@ + cfg.metrics_addr@ + "\"\ncontrol_socket = \""@
        + cfg.control_socket@ + "\"\n\n[subscribers]\ntoken_store = \""@ + cfg.token_store@
        + "\"\n\n[extensions]\nenabled = ["@ + quoted_list(text::texts(cfg.enabled@))
        + "]\n\n[limits]\n"@ + cfg.limits@ + "\n\n[timeouts]\n"@ + cfg.timeouts@ + "\n\n"@ + (
    match cfg.delivery {
        Some(section) => section@,
        None => Seq::empty(),
    }) + "[secrets]\nfile = \""@ + cfg.secrets_path@ + "\"\n"@
}

/// Writes a configuration file.
pub fn write_config(cfg: &WriteConfig) -> (out: String)
    ensures
        out@ == config_text(*cfg),
{
    let mut out: String = "[server]\nlisten_addr = \"".to_owned();
    out.append(cfg.ingest_addr.as_str());
    out.append("\"\nsub_addr = \"");
    out.append(cfg.sub_addr.as_str());
    out.append("\"\nmetrics_addr = \"");
    out.append(cfg.metrics_addr.as_str());
    out.append("\"\ncontrol_socket = \"");
    out.append(cfg.control_socket.as_str());
    out.append("\"\n\n[subscribers]\ntoken_store = \"");
    out.append(cfg.token_store.as_str());
    out.append("\"\n\n[extensions]\nenabled = [");
    out.append(write_list(&cfg.enabled).as_str());
    out.append("]\n\n[limits]\n");
    out.append(cfg.limits.as_str());
    out.append("\n\n[timeouts]\n");
    out.append(cfg.timeouts.as_str());
    out.append("\n\n");
    match &cfg.delivery {
        Some(section) => {
            out.append(section.as_str());
        },
        None => {},
    }
    out.append("[secrets]\nfile = \"");
    out.append(cfg.secrets_path.as_str());
    out.append("\"\n");
    assert(out@ =~= config_text(*cfg));
    out
}

/// The section of a configuration file that turns durable delivery on.
pub fn delivery_section(store_path: &str, extra: &str) -> (section: String)
    ensures
        section@ == "[delivery]\nenabled = true\nstore_path = \""@ + store_path@ + "\"\n"@ + extra@
            + "\n"@,
{
    let mut section: String = "[delivery]\nenabled = true\nstore_path = \"".to_owned();
    section.append(store_path);
    section.append("\"\n");
    section.append(extra);
    section.append("\n");
    section
}

/// The secrets of extensions, a line each.
pub open spec fn secret_lines(ids: Seq<Seq<char>>) -> Seq<char>
    decreases ids.len(),
{
    if ids.len() == 0 {
        Seq::empty()
    } else {
        secret_lines(ids.drop_last()) + ids.last() + " = \"secret-"@ + ids.last() + "\"\n"@
    }
}

/// Writes a file of secrets for extensions.
pub fn write_secrets(ids: &[String]) -> (out: String)
    ensures
        out@ == secret_lines(text::texts(ids@)),
{
    let ghost all = text::texts(ids@);
    let mut out: String = String::new();
    let mut i: usize = 0;
    assert(out@ =~= secret_lines(all.take(0)));
    while i < ids.len()
        invariant
            i <= ids@.len(),
            all == text::texts(ids@),
            out@ == secret_lines(all.take(i as int)),
        decreases ids@.len() - i,
    {
        assert(all.take(i as int + 1).drop_last() =~= all.take(i as int));
        assert(all[i as int] == ids@[i as int]@);
        out.append(ids[i].as_str());
        out.append(" = \"secret-");
        out.append(ids[i].as_str());
        out.append("\"\n");
        i += 1;
        assert(out@ =~= secret_lines(all.take(i as int)));
    }
    assert(all.take(i as int) =~= all);
    out
}

/// A line without the carriage return that ends it.
pub open spec fn without_return(line: Seq<char>) -> Seq<char> {
    if line.len() > 0 && line.last() == '\r' {
        line.drop_last()
    } else {
        line
    }
}

/// The line that takes the place of one line of a configuration file.
pub open spec fn line_with_enabled(line: Seq<char>, ids: Seq<Seq<char>>) -> Seq<char> {
    if text::begins(line, "enabled = "@) {
        "enabled = ["@ + quoted_list(ids) + "]\n"@
    } else {
        line + "\n"@
    }
}

/// The first `n` lines of a configuration file, with other extensions enabled.
pub open spec fn lines_with_enabled(
    lines: Seq<Seq<char>>,
    ids: Seq<Seq<char>>,
    n: nat,
) -> Seq<char>
    decreases n,
{
    if n == 0 {
        Seq::empty()
    } else {
        lines_with_enabled(lines, ids, (n - 1) as nat) + line_with_enabled(lines[n - 1], ids)
    }
}

/// The lines of a text: what stands between line feeds, without a carriage return
/// before the line feed, and without an empty last line.
pub open spec fn lines_of(s: Seq<char>) -> Seq<Seq<char>> {
    let pieces = text::split(s, '\n');
    let ended = Seq::new((pieces.len() - 1) as nat, |i: int| without_return(pieces[i]));
    if pieces.last().len() == 0 {
        ended
    } else {
        ended.push(pieces.last())
    }
}

/// A configuration file with other extensions enabled.
pub fn set_enabled(config: &str, ids: &[String]) -> (out: String)
    ensures
        out@ == lines_with_enabled(
            lines_of(config@),
            text::texts(ids@),
            lines_of(config@).len(),
        ),
{
    let pieces: Vec<String> = text::split_on(config, '\n');
    let ghost all = text::split(config@, '\n');
    let ghost lines = lines_of(config@);
    let ghost wanted = text::texts(ids@);
    proof {
        text::split_then_join(config@, '\n');
    }
    let last: usize = pieces.len() - 1;
    let mut out: String = String::new();
    let mut i: usize = 0;
    assert(out@ =~= lines_with_enabled(lines, wanted, 0));
    while i < pieces.len()
        invariant
            i <= pieces@.len(),
            last == pieces@.len() - 1,
            text::texts(pieces@) == all,
            all == text::split(config@, '\n'),
            lines == lines_of(config@),
            wanted == text::texts(ids@),
            out@ == lines_with_enabled(
                lines,
                wanted,
                if i <= lines.len() {
                    i as nat
                } else {
                    lines.len()
                },
            ),
        decreases pieces@.len() - i,
    {
        assert(all[i as int] == pieces@[i as int]@);
        if i == last && pieces[i].as_str().is_empty() {
            assert(lines.len() == last);
        } else {
            let line: String = if i == last {
                pieces[i].clone()
            } else {
                end_line(pieces[i].as_str())
            };
            assert(line@ == lines[i as int]);
            let ghost before = out@;
            match text::strip_prefix(line.as_str(), "enabled = ") {
                Some(_) => {
                    out.append("enabled = [");
                    out.append(write_list(ids).as_str());
                    out.append("]\n");
                },
                None => {
                    out.append(line.as_str());
                    out.append("\n");
                },
            }
            assert(out@ =~= before + line_with_enabled(line@, wanted));
        }
        i += 1;
    }
    out
}

/// A line without the carriage return that ends it.
fn end_line(line: &str) -> (r: String)
    ensures
        r@ == without_return(line@),
{
    let chars: Vec<char> = text::chars_of(line);
    let n: usize = chars.len();
    if n > 0 && chars[n - 1] == '\r' {
        let r: String = text::string_of(&chars, 0, n - 1);
        assert(r@ =~= line@.drop_last());
        r
    } else {
        line.to_owned()
    }
}

/// The head of a request with a body of `len` bytes.
pub fn request_head(method: &str, path: &str, len: usize) -> (head: String)
    ensures
        head@ == method@ + " "@ + path@
            + " HTTP/1.1\r\nHost: whdr-test\r\nContent-Length: "@ + text::decimal(len as nat)
            + "\r\nConnection: close\r\n\r\n"@,
{
    let mut head: String = method.to_owned();
    head.append(" ");
    head.append(path);
    head.append(" HTTP/1.1\r\nHost: whdr-test\r\nContent-Length: ");
    text::push_decimal(&mut head, len as u64);
    head.append("\r\nConnection: close\r\n\r\n");
    head
}

/// The word at the start of a text, up to the first white space.
pub open spec fn leading_word(s: Seq<char>) -> Seq<char>
    decreases s.len(),
{
    if s.len() == 0 || text::is_white(s[0]) {
        Seq::empty()
    } else {
        seq![s[0]] + leading_word(s.drop_first())
    }
}

/// What follows the word at the start of a text.
pub open spec fn behind_word(s: Seq<char>) -> Seq<char> {
    s.skip(leading_word(s).len() as int)
}

/// A text without the white space at its start.
pub open spec fn unindented(s: Seq<char>) -> Seq<char> {
    text::drop_leading(s, |c: char| text::is_white(c))
}

/// The second of the words of a text, which white space parts; empty where there is
/// none.
pub open spec fn second_word(s: Seq<char>) -> Seq<char> {
    leading_word(unindented(behind_word(unindented(s))))
}

/// The status of a response: its second word, where that is a number.
pub open spec fn status_of(response: Seq<char>) -> Option<nat> {
    match text::number_in(second_word(response), 10) {
        Some(n) => if n <= u16::MAX {
            Some(n)
        } else {
            None
        },
        None => None,
    }
}

/// Where the white space at `from` ends.
fn skip_white(chars: &[char], from: usize) -> (to: usize)
    requires
        from <= chars@.len(),
    ensures
        from <= to <= chars@.len(),
        unindented(chars@.skip(from as int)) == chars@.skip(to as int),
{
    let ghost class = |c: char| text::is_white(c);
    let mut to: usize = from;
    while to < chars.len() && text::white(chars[to])
        invariant
            from <= to <= chars@.len(),
            class == |c: char| text::is_white(c),
            text::drop_leading(chars@.skip(from as int), class) == text::drop_leading(
                chars@.skip(to as int),
                class,
            ),
        decreases chars@.len() - to,
    {
        assert(chars@.skip(to as int).drop_first() =~= chars@.skip(to as int + 1));
        to += 1;
    }
    assert(text::drop_leading(chars@.skip(to as int), class) == chars@.skip(to as int));
    to
}

/// Where the word at `from` ends.
fn skip_word(chars: &[char], from: usize) -> (to: usize)
    requires
        from <= chars@.len(),
    ensures
        from <= to <= chars@.len(),
        leading_word(chars@.skip(from as int)) == chars@.subrange(from as int, to as int),
        behind_word(chars@.skip(from as int)) == chars@.skip(to as int),
{
    let ghost all = chars@.skip(from as int);
    let mut to: usize = from;
    assert(chars@.subrange(from as int, from as int) + leading_word(all) =~= leading_word(all));
    while to < chars.len() && !text::white(chars[to])
        invariant
            from <= to <= chars@.len(),
            all == chars@.skip(from as int),
            leading_word(all) == chars@.subrange(from as int, to as int) + leading_word(
                chars@.skip(to as int),
            ),
        decreases chars@.len() - to,
    {
        let ghost rest = chars@.skip(to as int);
        assert(rest.drop_first() =~= chars@.skip(to as int + 1));
        assert(chars@.subrange(from as int, to as int) + leading_word(rest) =~= chars@.subrange(
            from as int,
            to as int + 1,
        ) + leading_word(chars@.skip(to as int + 1)));
        to += 1;
    }
    assert(leading_word(chars@.skip(to as int)) =~= Seq::empty());
    assert(leading_word(all) =~= chars@.subrange(from as int, to as int));
    assert(all.skip(to - from) =~= chars@.skip(to as int));
    to
}

/// The status of a response.
pub fn response_status(response: &str) -> (status: Option<u16>)
    ensures
        match status {
            Some(code) => status_of(response@) == Some(code as nat),
            None => status_of(response@) is None,
        },
{
    let chars: Vec<char> = text::chars_of(response);
    assert(chars@.skip(0) =~= response@);
    let start: usize = skip_white(&chars, 0);
    let end: usize = skip_word(&chars, start);
    let from: usize = skip_white(&chars, end);
    let to: usize = skip_word(&chars, from);
    let word: String = text::string_of(&chars, from, to);
    match text::parse_number(word.as_str(), 10, u16::MAX as u64) {
        Some(code) => Some(code as u16),
        None => None,
    }
}

/// Where `pattern` first stands in a text.
pub open spec fn first_at(s: Seq<char>, pattern: Seq<char>) -> Option<nat>
    decreases s.len(),
{
    if text::begins(s, pattern) {
        Some(0)
    } else if s.len() == 0 {
        None
    } else {
        match first_at(s.drop_first(), pattern) {
            Some(n) => Some(n + 1),
            None => None,
        }
    }
}

/// Whether `pattern` stands at `at`.
fn stands_at(chars: &[char], at: usize, pattern: &[char]) -> (yes: bool)
    requires
        at <= chars@.len(),
    ensures
        yes == text::begins(chars@.skip(at as int), pattern@),
{
    let n: usize = chars.len();
    if n - at < pattern.len() {
        return false;
    }
    let mut i: usize = 0;
    while i < pattern.len()
        invariant
            i <= pattern@.len(),
            at + pattern@.len() <= chars@.len() == n,
            forall|j: int| 0 <= j < i ==> chars@[at + j] == pattern@[j],
        decreases pattern@.len() - i,
    {
        if chars[at + i] != pattern[i] {
            assert(chars@.skip(at as int).take(pattern@.len() as int)[i as int] != pattern@[i as int]);
            return false;
        }
        i += 1;
    }
    assert(chars@.skip(at as int).take(pattern@.len() as int) =~= pattern@);
    true
}

/// Where `pattern` first stands at or behind `from`.
fn find(chars: &[char], from: usize, pattern: &[char]) -> (at: Option<usize>)
    requires
        from <= chars@.len(),
    ensures
        match at {
            Some(k) => from <= k && k + pattern@.len() <= chars@.len() && first_at(
                chars@.skip(from as int),
                pattern@,
            ) == Some((k - from) as nat),
            None => first_at(chars@.skip(from as int), pattern@) is None,
        },
{
    let ghost all = chars@.skip(from as int);
    let mut k: usize = from;
    loop
        invariant
            from <= k <= chars@.len(),
            all == chars@.skip(from as int),
            first_at(all, pattern@) == (match first_at(chars@.skip(k as int), pattern@) {
                Some(n) => Some((n + (k - from)) as nat),
                None => None,
            }),
        decreases chars@.len() - k,
    {
        let ghost rest = chars@.skip(k as int);
        if stands_at(chars, k, pattern) {
            return Some(k);
        }
        if k == chars.len() {
            return None;
        }
        assert(rest.drop_first() =~= chars@.skip(k as int + 1));
        k += 1;
    }
}

/// How many bytes a character takes in UTF-8.
pub open spec fn width(c: char) -> nat {
    if (c as int) < 0x80 {
        1
    } else if (c as int) < 0x800 {
        2
    } else if (c as int) < 0x10000 {
        3
    } else {
        4
    }
}

/// How many bytes a text takes in UTF-8.
pub open spec fn total_width(s: Seq<char>) -> nat
    decreases s.len(),
{
    if s.len() == 0 {
        0
    } else {
        width(s[0]) + total_width(s.drop_first())
    }
}

/// How many characters the first `n` bytes of a text hold; nothing where a
/// character would be cut, or the text is shorter.
pub open spec fn chars_in(s: Seq<char>, n: nat) -> Option<nat>
    decreases s.len(),
{
    if n == 0 {
        Some(0)
    } else if s.len() == 0 || width(s[0]) > n {
        None
    } else {
        match chars_in(s.drop_first(), (n - width(s[0])) as nat) {
            Some(k) => Some(k + 1),
            None => None,
        }
    }
}

/// What stands behind a chunk of `size` bytes and the line break that ends it;
/// nothing where the text ends before, or a character would be cut.
pub open spec fn behind_chunk(tail: Seq<char>, size: nat) -> Seq<char> {
    match chars_in(tail, size + 2) {
        Some(k) => tail.skip(k as int),
        None => Seq::empty(),
    }
}

/// The size in the line ahead of a chunk.
pub open spec fn chunk_size(line: Seq<char>) -> Option<nat> {
    match text::number_in(text::trimmed(line), 16) {
        Some(n) => if n <= usize::MAX {
            Some(n)
        } else {
            None
        },
        None => None,
    }
}

/// The first chunk of a body: its size, and what stands behind the line with its
/// size. A chunk of no bytes ends the body.
pub open spec fn first_chunk(body: Seq<char>) -> Option<(nat, Seq<char>)> {
    match first_at(body, line_break()) {
        Some(k) => match chunk_size(body.take(k as int)) {
            Some(size) => if size > 0 {
                Some((size, body.skip(k as int + 2)))
            } else {
                None
            },
            None => None,
        },
        None => None,
    }
}

/// The characters that end a line.
pub open spec fn line_break() -> Seq<char> {
    seq!['\r', '\n']
}

/// The text of a chunk: `size` bytes, or what is left where that is less.
pub open spec fn chunk_text(tail: Seq<char>, size: nat) -> Seq<char> {
    match chars_in(tail, size) {
        Some(k) => tail.take(k as int),
        None => tail,
    }
}

proof fn lemma_chars_in(s: Seq<char>, n: nat)
    ensures
        match chars_in(s, n) {
            Some(k) => k <= s.len() && (n > 0 ==> k > 0),
            None => true,
        },
    decreases s.len(),
{
    if n > 0 && s.len() > 0 && width(s[0]) <= n {
        lemma_chars_in(s.drop_first(), (n - width(s[0])) as nat);
    }
}

/// What stands behind the first chunk is shorter than the body.
pub proof fn rest_is_shorter(body: Seq<char>)
    ensures
        match first_chunk(body) {
            Some((size, tail)) => tail.len() < body.len() && behind_chunk(tail, size).len()
                < body.len(),
            None => true,
        },
{
    lemma_first_at(body, line_break());
    match first_chunk(body) {
        Some((size, tail)) => {
            lemma_chars_in(tail, size + 2);
        },
        None => {},
    }
}

proof fn lemma_first_at(s: Seq<char>, pattern: Seq<char>)
    ensures
        match first_at(s, pattern) {
            Some(k) => k + pattern.len() <= s.len(),
            None => true,
        },
    decreases s.len(),
{
    if !text::begins(s, pattern) && s.len() > 0 {
        lemma_first_at(s.drop_first(), pattern);
    }
}

/// Whether no chunk of a body ends inside a character, and no size is so large
/// that the end of its chunk cannot be counted.
pub open spec fn well_cut(body: Seq<char>) -> bool
    decreases body.len(),
{
    match first_chunk(body) {
        Some((size, tail)) => {
            proof {
                rest_is_shorter(body);
            }
            &&& size + 2 <= usize::MAX
            &&& size >= total_width(tail) || chars_in(tail, size) is Some
            &&& well_cut(behind_chunk(tail, size))
        },
        None => true,
    }
}

/// The text that a chunked body carries.
pub open spec fn dechunked(body: Seq<char>) -> Seq<char>
    decreases body.len(),
{
    match first_chunk(body) {
        Some((size, tail)) => {
            proof {
                rest_is_shorter(body);
            }
            chunk_text(tail, size) + dechunked(behind_chunk(tail, size))
        },
        None => Seq::empty(),
    }
}

/// Whether a response says that its body is chunked.
pub open spec fn is_chunked(response: Seq<char>) -> bool {
    first_at(text::lower(response), "transfer-encoding: chunked"@) is Some
}

/// How many bytes a character takes in UTF-8.
fn width_of(c: char) -> (n: usize)
    ensures
        n == width(c),
        1 <= n <= 4,
{
    let code: u32 = c as u32;
    if code < 0x80 {
        1
    } else if code < 0x800 {
        2
    } else if code < 0x10000 {
        3
    } else {
        4
    }
}

/// Where the first `n` bytes at `from` end.
fn cut(chars: &[char], from: usize, n: usize) -> (end: Option<usize>)
    requires
        from <= chars@.len(),
    ensures
        match end {
            Some(k) => from <= k <= chars@.len() && chars_in(chars@.skip(from as int), n as nat)
                == Some((k - from) as nat),
            None => chars_in(chars@.skip(from as int), n as nat) is None,
        },
{
    let ghost all = chars@.skip(from as int);
    let mut k: usize = from;
    let mut left: usize = n;
    while left > 0
        invariant
            from <= k <= chars@.len(),
            all == chars@.skip(from as int),
            chars_in(all, n as nat) == (match chars_in(chars@.skip(k as int), left as nat) {
                Some(m) => Some((m + (k - from)) as nat),
                None => None,
            }),
        decreases left,
    {
        let ghost rest = chars@.skip(k as int);
        if k == chars.len() {
            return None;
        }
        let w: usize = width_of(chars[k]);
        assert(rest[0] == chars@[k as int]);
        if w > left {
            return None;
        }
        assert(rest.drop_first() =~= chars@.skip(k as int + 1));
        left -= w;
        k += 1;
    }
    Some(k)
}

/// Joins the chunks of a body.
fn dechunk(chars: &[char]) -> (out: String)
    requires
        well_cut(chars@),
    ensures
        out@ == dechunked(chars@),
{
    let mut end_of_line: Vec<char> = Vec::new();
    end_of_line.push('\r');
    end_of_line.push('\n');
    assert(end_of_line@ =~= line_break());
    let n: usize = chars.len();
    let mut out: String = String::new();
    let mut at: usize = 0;
    assert(chars@.skip(0) =~= chars@);
    assert(out@ + dechunked(chars@) =~= dechunked(chars@));
    loop
        invariant
            at <= chars@.len() == n,
            end_of_line@ == line_break(),
            well_cut(chars@.skip(at as int)),
            out@ + dechunked(chars@.skip(at as int)) == dechunked(chars@),
        decreases chars@.len() - at,
    {
        let ghost body = chars@.skip(at as int);
        let ghost before = out@;
        proof {
            rest_is_shorter(body);
        }
        let found: Option<usize> = find(chars, at, &end_of_line);
        let line_end: usize = match found {
            Some(k) => k,
            None => {
                assert(out@ =~= dechunked(chars@));
                return out;
            },
        };
        let line: String = text::string_of(chars, at, line_end);
        assert(line@ =~= body.take(line_end - at));
        let size_text: String = text::trim(line.as_str());
        let size: usize = match text::parse_number(size_text.as_str(), 16, usize::MAX as u64) {
            Some(size) => size as usize,
            None => {
                assert(out@ =~= dechunked(chars@));
                return out;
            },
        };
        if size == 0 {
            assert(out@ =~= dechunked(chars@));
            return out;
        }
        let start: usize = line_end + 2;
        let ghost tail = chars@.skip(start as int);
        assert(body.skip(line_end - at + 2) =~= tail);
        assert(first_chunk(body) == Some((size as nat, tail)));
        let chunk_end: usize = match cut(chars, start, size) {
            Some(k) => k,
            None => chars.len(),
        };
        let chunk: String = text::string_of(chars, start, chunk_end);
        assert(chunk@ =~= chunk_text(tail, size as nat));
        out.append(chunk.as_str());
        let next: usize = match cut(chars, start, size + 2) {
            Some(k) => k,
            None => chars.len(),
        };
        assert(chars@.skip(next as int) =~= behind_chunk(tail, size as nat)) by {
            match chars_in(tail, (size + 2) as nat) {
                Some(k) => {
                    assert(tail.skip(k as int) =~= chars@.skip(start + k));
                },
                None => {},
            }
        }
        assert(out@ + dechunked(chars@.skip(next as int)) =~= before + dechunked(body));
        at = next;
    }
}

/// The body of a response: what stands behind its head, with its chunks joined
/// where it is chunked.
pub open spec fn body_of(response: Seq<char>) -> Seq<char> {
    let body = raw_body(response);
    if is_chunked(response) {
        dechunked(body)
    } else {
        body
    }
}

/// What stands behind the head of a response.
pub open spec fn raw_body(response: Seq<char>) -> Seq<char> {
    match first_at(response, "\r\n\r\n"@) {
        Some(k) => response.skip(k as int + 4),
        None => Seq::empty(),
    }
}

/// Joins the chunks of a body where the response says that it is chunked.
pub fn decode_chunked_if_needed(full: &str, body: String) -> (out: String)
    requires
        is_chunked(full@) ==> well_cut(body@),
    ensures
        out@ == (if is_chunked(full@) {
            dechunked(body@)
        } else {
            body@
        }),
{
    let lowered: Vec<char> = text::chars_of(text::to_lower(full).as_str());
    let mark: Vec<char> = text::chars_of("transfer-encoding: chunked");
    assert(lowered@.skip(0) =~= lowered@);
    match find(&lowered, 0, &mark) {
        Some(_) => {
            let chars: Vec<char> = text::chars_of(body.as_str());
            dechunk(&chars)
        },
        None => body,
    }
}

/// The body of a response.
pub fn response_body(response: &str) -> (body: String)
    requires
        is_chunked(response@) ==> well_cut(raw_body(response@)),
    ensures
        body@ == body_of(response@),
{
    let chars: Vec<char> = text::chars_of(response);
    let n: usize = chars.len();
    let gap: Vec<char> = text::chars_of("\r\n\r\n");
    proof {
        reveal_strlit("\r\n\r\n");
    }
    assert(chars@.skip(0) =~= chars@);
    let body: String = match find(&chars, 0, &gap) {
        Some(k) => {
            let tail: String = text::string_of(&chars, k + 4, n);
            assert(tail@ =~= response@.skip(k as int + 4));
            tail
        },
        None => {
            let none: String = String::new();
            assert(none@ =~= Seq::empty());
            none
        },
    };
    decode_chunked_if_needed(response, body)
}

/// Bytes in base64.
pub fn b64(bytes: &[u8]) -> (text: String)
    ensures
        text@ == encoding::base64(bytes@),
{
    encoding::encode_base64(bytes)
}

/// The row that is found is the first whose member has the text; there is none where no
/// row has it.
pub proof fn the_first_row_is_found(
    before: Seq<json::JsonValue>,
    row: json::JsonValue,
    after: Seq<json::JsonValue>,
    key: Seq<char>,
    wanted: Seq<char>,
)
    requires
        forall|i: int|
            0 <= i < before.len() ==> json::member(#[trigger] before[i], key) != Some(
                json::JsonValue::Text(wanted),
            ),
        json::member(row, key) == Some(json::JsonValue::Text(wanted)),
    ensures
        first_row(before.push(row) + after, key, wanted) == Some(row),
        first_row(before, key, wanted) is None,
    decreases before.len(),
{
    let rows = before.push(row) + after;
    if before.len() > 0 {
        assert(rows[0] == before[0]);
        assert(json::member(before[0], key) != Some(json::JsonValue::Text(wanted)));
        let rest = before.drop_first();
        assert forall|i: int| 0 <= i < rest.len() implies json::member(#[trigger] rest[i], key)
            != Some(json::JsonValue::Text(wanted)) by {
            assert(rest[i] == before[i + 1]);
        }
        the_first_row_is_found(rest, row, after, key, wanted);
        assert(rows.drop_first() =~= rest.push(row) + after);
    }
}

/// Lists are written with a comma between each two items, and each item between
/// quotation marks; secrets with a line for each extension, which names it twice.
pub proof fn items_are_written_one_by_one(ids: Seq<Seq<char>>, id: Seq<char>)
    ensures
        quoted_list(seq![id]) == "\""@ + id + "\""@,
        ids.len() > 0 ==> quoted_list(ids.push(id)) == quoted_list(ids) + ", "@ + "\""@ + id
            + "\""@,
        secret_lines(ids.push(id)) == secret_lines(ids) + id + " = \"secret-"@ + id + "\"\n"@,
        quoted_list(Seq::empty()).len() == 0,
        secret_lines(Seq::empty()).len() == 0,
{
    assert(ids.push(id).drop_last() =~= ids);
    assert(seq![id].drop_last() =~= Seq::<Seq<char>>::empty());
    assert(quoted_list(seq![id].drop_last()) == Seq::<char>::empty());
    assert(quoted_list(seq![id]) =~= "\""@ + id + "\""@);
}

/// Enabling other extensions changes the line that enables them, and no other line.
pub proof fn only_the_enabled_line_changes(
    lines: Seq<Seq<char>>,
    ids: Seq<Seq<char>>,
    n: nat,
)
    requires
        n < lines.len(),
    ensures
        text::begins(lines[n as int], "enabled = "@) ==> lines_with_enabled(lines, ids, n + 1)
            == lines_with_enabled(lines, ids, n) + "enabled = ["@ + quoted_list(ids) + "]\n"@,
        !text::begins(lines[n as int], "enabled = "@) ==> lines_with_enabled(lines, ids, n + 1)
            == lines_with_enabled(lines, ids, n) + lines[n as int] + "\n"@,
        lines_with_enabled(lines, ids, 0).len() == 0,
{
    let before = lines_with_enabled(lines, ids, n);
    assert(before + ("enabled = ["@ + quoted_list(ids) + "]\n"@) =~= before + "enabled = ["@
        + quoted_list(ids) + "]\n"@);
    assert(before + (lines[n as int] + "\n"@) =~= before + lines[n as int] + "\n"@);
}

/// The lines of a text are what stands between its line ends, with or without a carriage
/// return, whether or not the last one is ended.
pub proof fn lines_are_read_back(lines: Seq<Seq<char>>)
    requires
        lines.len() > 0,
        forall|i: int|
            0 <= i < lines.len() ==> !(#[trigger] lines[i]).contains('\n') && lines[i].len() > 0
                && lines[i].last() != '\r',
    ensures
        lines_of(text::join(lines, '\n')) == lines,
        lines_of(text::join(lines, '\n').push('\n')) == lines,
{
    let nothing = Seq::<char>::empty();
    let whole = text::join(lines, '\n');
    text::split_undoes_join(lines, '\n');
    text::split_without_separator(nothing, '\n');
    text::split_of_joined(whole, nothing, '\n');
    assert(whole.push('\n') + nothing =~= whole.push('\n'));
    assert(text::split(whole.push('\n'), '\n') =~= lines.push(nothing));
    assert forall|i: int| 0 <= i < lines.len() implies without_return(#[trigger] lines[i])
        == lines[i] by {}
    assert(lines_of(whole.push('\n')) =~= lines);
    assert(lines[lines.len() - 1].len() > 0);
    assert(lines_of(whole) =~= lines);
}

/// A text is found where it first stands.
pub proof fn the_first_place_is_found(s: Seq<char>, pattern: Seq<char>, at: int)
    requires
        0 <= at <= s.len(),
        text::begins(s.skip(at), pattern),
        forall|i: int| 0 <= i < at ==> !text::begins(#[trigger] s.skip(i), pattern),
    ensures
        first_at(s, pattern) == Some(at as nat),
    decreases at,
{
    assert(s.skip(0) =~= s);
    if at > 0 {
        assert(!text::begins(s.skip(0), pattern));
        let rest = s.drop_first();
        assert(rest.skip(at - 1) =~= s.skip(at));
        assert forall|i: int| 0 <= i < at - 1 implies !text::begins(
            #[trigger] rest.skip(i),
            pattern,
        ) by {
            assert(rest.skip(i) =~= s.skip(i + 1));
            assert(!text::begins(s.skip(i + 1), pattern));
        }
        the_first_place_is_found(rest, pattern, at - 1);
    }
}

proof fn lemma_leading_word(word: Seq<char>, c: char, rest: Seq<char>)
    requires
        forall|i: int| 0 <= i < word.len() ==> !text::is_white(#[trigger] word[i]),
        text::is_white(c),
    ensures
        leading_word(word.push(c) + rest) == word,
    decreases word.len(),
{
    let whole = word.push(c) + rest;
    if word.len() > 0 {
        assert(whole[0] == word[0]);
        let less = word.drop_first();
        assert forall|i: int| 0 <= i < less.len() implies !text::is_white(#[trigger] less[i]) by {
            assert(less[i] == word[i + 1]);
        }
        lemma_leading_word(less, c, rest);
        assert(whole.drop_first() =~= less.push(c) + rest);
        assert(seq![word[0]] + less =~= word);
    } else {
        assert(whole[0] == c);
        assert(leading_word(whole) =~= word);
    }
}

/// The status of a response is the number between its first two blanks.
pub proof fn the_status_is_the_second_word(version: Seq<char>, status: nat, rest: Seq<char>)
    requires
        version.len() > 0,
        forall|i: int| 0 <= i < version.len() ==> !text::is_white(#[trigger] version[i]),
    ensures
        status_of(version.push(' ') + text::decimal(status).push(' ') + rest) == (if status
            <= u16::MAX {
            Some(status)
        } else {
            None
        }),
{
    let white = |c: char| text::is_white(c);
    let digits = text::decimal(status);
    let tail = digits.push(' ') + rest;
    let whole = version.push(' ') + digits.push(' ') + rest;
    assert(whole =~= version.push(' ') + tail);
    text::decimal_is_read_back(status);
    assert(whole[0] == version[0]);
    assert(text::drop_leading(whole, white) == whole);
    lemma_leading_word(version, ' ', tail);
    let behind = whole.skip(version.len() as int);
    assert(behind =~= seq![' '] + tail);
    assert(behind.drop_first() =~= tail);
    assert(tail[0] == digits[0]);
    assert('0' <= digits[0] <= '9');
    assert(text::drop_leading(tail, white) == tail);
    assert(text::drop_leading(behind, white) == text::drop_leading(behind.drop_first(), white));
    assert forall|i: int| 0 <= i < digits.len() implies !text::is_white(#[trigger] digits[i]) by {
        assert('0' <= digits[i] <= '9');
    }
    lemma_leading_word(digits, ' ', rest);
    text::numbers_are_read(status, Seq::empty(), ' ', Seq::empty());
}

proof fn lemma_narrow(s: Seq<char>, n: nat)
    requires
        n <= s.len(),
        forall|i: int| 0 <= i < n ==> (#[trigger] s[i]) < '\u{80}',
    ensures
        chars_in(s, n) == Some(n),
    decreases n,
{
    if n > 0 {
        let rest = s.drop_first();
        assert(s[0] < '\u{80}');
        assert forall|i: int| 0 <= i < n - 1 implies (#[trigger] rest[i]) < '\u{80}' by {
            assert(rest[i] == s[i + 1]);
        }
        lemma_narrow(rest, (n - 1) as nat);
    }
}

/// A chunk is read by its size: the text of that many bytes, then what the chunks behind
/// it carry. A chunk of size zero ends the body.
pub proof fn chunks_are_joined(size: Seq<char>, data: Seq<char>, rest: Seq<char>)
    requires
        size.len() > 0,
        forall|i: int|
            0 <= i < size.len() ==> '0' <= (#[trigger] size[i]) <= '9' || 'a' <= size[i] <= 'f',
        forall|i: int| 0 <= i < data.len() ==> (#[trigger] data[i]) < '\u{80}',
        text::number_in(size, 16) == Some(data.len()),
        data.len() <= usize::MAX,
    ensures
        data.len() > 0 ==> dechunked(size + seq!['\r', '\n'] + data + seq!['\r', '\n'] + rest) == data
            + dechunked(rest),
        data.len() == 0 ==> dechunked(size + seq!['\r', '\n'] + rest).len() == 0,
{
    let nl = seq!['\r', '\n'];
    let nothing = Seq::<char>::empty();
    let full = size + nl + data + nl + rest;
    let bare = size + nl + rest;
    let n = size.len() as int;
    assert forall|i: int| 0 <= i < n implies !text::is_white(#[trigger] size[i]) by {
        assert('0' <= size[i] <= '9' || 'a' <= size[i] <= 'f');
    }
    assert(!text::is_white(size[0]) && !text::is_white(size[n - 1]));
    text::trimming_takes_white_space_at_the_ends(nothing, size, nothing);
    assert(nothing + size + nothing =~= size);
    lemma_first_break(size, data + nl + rest);
    lemma_first_break(size, rest);
    assert(full =~= size + nl + (data + nl + rest));
    assert(full.take(n) =~= size);
    assert(bare.take(n) =~= size);
    let tail = full.skip(n + 2);
    assert(tail =~= data + nl + rest);
    if data.len() > 0 {
        assert forall|i: int| 0 <= i < data.len() + 2 implies (#[trigger] tail[i]) < '\u{80}' by {
            if i < data.len() {
                assert(tail[i] == data[i]);
            } else {
                assert(tail[i] == nl[i - data.len()]);
            }
        }
        lemma_narrow(tail, data.len());
        lemma_narrow(tail, data.len() + 2);
        assert(tail.take(data.len() as int) =~= data);
        assert(tail.skip(data.len() as int + 2) =~= rest);
    }
}

proof fn lemma_first_break(front: Seq<char>, rest: Seq<char>)
    requires
        forall|i: int|
            0 <= i < front.len() ==> '0' <= (#[trigger] front[i]) <= '9' || 'a' <= front[i] <= 'f',
    ensures
        first_at(front + seq!['\r', '\n'] + rest, line_break()) == Some(front.len()),
{
    let nl = seq!['\r', '\n'];
    let s = front + nl + rest;
    let n = front.len() as int;
    assert(s.skip(n).take(2) =~= nl);
    assert forall|i: int| 0 <= i < n implies !text::begins(#[trigger] s.skip(i), line_break()) by {
        assert(s.skip(i)[0] == front[i]);
        if text::begins(s.skip(i), line_break()) {
            assert(s.skip(i).take(2)[0] == s.skip(i)[0]);
            assert(line_break()[0] == '\r');
        }
    }
    the_first_place_is_found(s, line_break(), n);
}

/// The body of a response stands behind the first empty line; it is joined from its
/// chunks only where the response says so, in whatever case.
pub proof fn the_body_stands_behind_the_head(head: Seq<char>, body: Seq<char>)
    requires
        forall|i: int| 0 <= i < head.len() ==> (#[trigger] head[i]) != '\r',
    ensures
        raw_body(head + "\r\n\r\n"@ + body) == body,
        raw_body(head).len() == 0,
{
    reveal_strlit("\r\n\r\n");
    let mark = "\r\n\r\n"@;
    let s = head + mark + body;
    let n = head.len() as int;
    assert(s.skip(n).take(4) =~= mark);
    assert forall|i: int| 0 <= i < n implies !text::begins(#[trigger] s.skip(i), mark) by {
        assert(s.skip(i)[0] == head[i]);
        if text::begins(s.skip(i), mark) {
            assert(s.skip(i).take(4)[0] == s.skip(i)[0]);
        }
    }
    the_first_place_is_found(s, mark, n);
    assert(s.skip(n + 4) =~= body);
    lemma_nowhere(head, mark);
}

proof fn lemma_nowhere(s: Seq<char>, mark: Seq<char>)
    requires
        mark.len() > 0,
        mark[0] == '\r',
        forall|i: int| 0 <= i < s.len() ==> (#[trigger] s[i]) != '\r',
    ensures
        first_at(s, mark) is None,
    decreases s.len(),
{
    if text::begins(s, mark) {
        assert(s.take(mark.len() as int)[0] == s[0]);
    }
    if s.len() > 0 {
        let rest = s.drop_first();
        assert forall|i: int| 0 <= i < rest.len() implies (#[trigger] rest[i]) != '\r' by {
            assert(rest[i] == s[i + 1]);
        }
        lemma_nowhere(rest, mark);
    }
}

/// Whether a text holds another in one piece.
pub open spec fn holds(s: Seq<char>, piece: Seq<char>) -> bool {
    exists|front: Seq<char>, back: Seq<char>| s == #[trigger] (front + piece + back)
}

/// A configuration says what it was written with: each address, each path and the list
/// of the extensions on a line of its own, and each section under its own heading.
pub proof fn configurations_say_what_they_were_given(cfg: WriteConfig)
    ensures
        holds(config_text(cfg), "[server]\nlisten_addr = \""@ + cfg.ingest_addr@ + "\"\n"@),
        holds(config_text(cfg), "\nsub_addr = \""@ + cfg.sub_addr@ + "\"\n"@),
        holds(config_text(cfg), "\nmetrics_addr = \""@ + cfg.metrics_addr@ + "\"\n"@),
        holds(config_text(cfg), "\ncontrol_socket = \""@ + cfg.control_socket@ + "\"\n"@),
        holds(
            config_text(cfg),
            "[subscribers]\ntoken_store = \""@ + cfg.token_store@ + "\"\n"@,
        ),
        holds(
            config_text(cfg),
            "[extensions]\nenabled = ["@ + quoted_list(text::texts(cfg.enabled@)) + "]\n"@,
        ),
        holds(config_text(cfg), "[limits]\n"@ + cfg.limits@ + "\n"@),
        holds(config_text(cfg), "[timeouts]\n"@ + cfg.timeouts@ + "\n"@),
        holds(config_text(cfg), "[secrets]\nfile = \""@ + cfg.secrets_path@ + "\"\n"@),
        cfg.delivery matches Some(section) ==> holds(config_text(cfg), "\n"@ + section@),
{
    let pieces = lemma_configuration(cfg);
    assert forall|i: int| 0 <= i < pieces.len() implies holds(
        config_text(cfg),
        #[trigger] pieces[i],
    ) by {}
    assert(holds(config_text(cfg), pieces[0]));
    assert(holds(config_text(cfg), pieces[8]));
    if let Some(section) = cfg.delivery {
        assert("\\n"@ + section@ + Seq::empty() =~= "\\n"@ + section@);
    }
}

/// A body is joined from its chunks exactly where the response says that it comes in
/// chunks, in whatever case, and is what stands behind the head where not.
pub proof fn chunks_are_joined_where_announced(response: Seq<char>, at: int)
    ensures
        0 <= at <= response.len() && text::begins(
            text::lower(response).skip(at),
            "transfer-encoding: chunked"@,
        ) ==> body_of(response) == dechunked(raw_body(response)),
        (forall|i: int|
            0 <= i <= response.len() ==> !text::begins(
                #[trigger] text::lower(response).skip(i),
                "transfer-encoding: chunked"@,
            )) ==> body_of(response) == raw_body(response),
{
    lemma_found_somewhere(text::lower(response), "transfer-encoding: chunked"@, at);
}

proof fn lemma_found_somewhere(s: Seq<char>, mark: Seq<char>, at: int)
    ensures
        0 <= at <= s.len() && text::begins(s.skip(at), mark) ==> first_at(s, mark) is Some,
        (forall|i: int| 0 <= i <= s.len() ==> !text::begins(#[trigger] s.skip(i), mark))
            ==> first_at(s, mark) is None,
    decreases s.len(),
{
    assert(s.skip(0) =~= s);
    if s.len() > 0 {
        let rest = s.drop_first();
        lemma_found_somewhere(rest, mark, at - 1);
        assert(forall|i: int| 0 <= i <= rest.len() ==> #[trigger] rest.skip(i) =~= s.skip(i + 1));
        if forall|i: int| 0 <= i <= s.len() ==> !text::begins(#[trigger] s.skip(i), mark) {
            assert(!text::begins(s.skip(0), mark));
            assert forall|i: int| 0 <= i <= rest.len() implies !text::begins(
                #[trigger] rest.skip(i),
                mark,
            ) by {
                assert(rest.skip(i) =~= s.skip(i + 1));
            }
        }
    } else if text::begins(s, mark) {
    }
}

/// The section on the delivery of events in a configuration, if it has one.
spec fn delivery_text(cfg: WriteConfig) -> Seq<char> {
    match cfg.delivery {
        Some(section) => section@,
        None => Seq::empty(),
    }
}

/// Whether a text holds each of some pieces.
spec fn holds_each(s: Seq<char>, pieces: Seq<Seq<char>>) -> bool {
    forall|i: int| 0 <= i < pieces.len() ==> holds(s, #[trigger] pieces[i])
}

proof fn lemma_holds_more(s: Seq<char>, more: Seq<char>, pieces: Seq<Seq<char>>)
    requires
        holds_each(s, pieces),
    ensures
        holds_each(s + more, pieces),
{
    assert forall|i: int| 0 <= i < pieces.len() implies holds(s + more, #[trigger] pieces[i]) by {
        assert(holds(s, pieces[i]));
        let (front, back) = choose|front: Seq<char>, back: Seq<char>|
            s == #[trigger] (front + pieces[i] + back);
        assert(s + more =~= front + pieces[i] + (back + more));
    }
}

/// A value stands between what leads to it and what follows it.
proof fn lemma_value_between(
    before: Seq<char>,
    left: Seq<char>,
    value: Seq<char>,
    right: Seq<char>,
    lead: Seq<char>,
    trail: Seq<char>,
    pieces: Seq<Seq<char>>,
)
    requires
        lead.len() <= left.len(),
        left.skip(left.len() - lead.len()) == lead,
        trail.len() <= right.len(),
        right.take(trail.len() as int) == trail,
        holds_each(before + left, pieces),
    ensures
        holds_each(before + left + value + right, pieces.push(lead + value + trail)),
{
    let whole = before + left + value + right;
    lemma_holds_more(before + left, value, pieces);
    lemma_holds_more(before + left + value, right, pieces);
    let front = before + left.take(left.len() - lead.len());
    let back = right.skip(trail.len() as int);
    assert(left =~= left.take(left.len() - lead.len()) + left.skip(left.len() - lead.len()));
    assert(right =~= right.take(trail.len() as int) + right.skip(trail.len() as int));
    assert(whole =~= front + (lead + value + trail) + back);
    let more = pieces.push(lead + value + trail);
    assert forall|i: int| 0 <= i < more.len() implies holds(whole, #[trigger] more[i]) by {
        if i < pieces.len() {
            assert(more[i] == pieces[i]);
        }
    }
}

proof fn lemma_configuration(cfg: WriteConfig) -> (pieces: Seq<Seq<char>>)
    ensures
        holds_each(config_text(cfg), pieces),
        pieces.len() == 10,
        pieces[0] == "[server]\nlisten_addr = \""@ + cfg.ingest_addr@ + "\"\n"@,
        pieces[1] == "\nsub_addr = \""@ + cfg.sub_addr@ + "\"\n"@,
        pieces[2] == "\nmetrics_addr = \""@ + cfg.metrics_addr@ + "\"\n"@,
        pieces[3] == "\ncontrol_socket = \""@ + cfg.control_socket@ + "\"\n"@,
        pieces[4] == "[subscribers]\ntoken_store = \""@ + cfg.token_store@ + "\"\n"@,
        pieces[5] == "[extensions]\nenabled = ["@ + quoted_list(text::texts(cfg.enabled@)) + "]\n"@,
        pieces[6] == "[limits]\n"@ + cfg.limits@ + "\n"@,
        pieces[7] == "[timeouts]\n"@ + cfg.timeouts@ + "\n"@,
        pieces[8] == "\n"@ + delivery_text(cfg) + Seq::empty(),
        pieces[9] == "[secrets]\nfile = \""@ + cfg.secrets_path@ + "\"\n"@,
{
    let none = Seq::<Seq<char>>::empty();
    let start = Seq::<char>::empty();
    assert(start + "[server]\nlisten_addr = \""@ =~= "[server]\nlisten_addr = \""@);
    let value = cfg.ingest_addr@;
    assert("[server]\nlisten_addr = \""@.skip("[server]\nlisten_addr = \""@.len() - "[server]\nlisten_addr = \""@.len()) =~= "[server]\nlisten_addr = \""@ && "[server]\nlisten_addr = \""@.len() <= "[server]\nlisten_addr = \""@.len()) by {
        reveal_strlit("[server]\nlisten_addr = \"");
    }
    assert("\"\nsub_addr = \""@.take("\"\n"@.len() as int) =~= "\"\n"@ && "\"\n"@.len() <= "\"\nsub_addr = \""@.len()) by {
        reveal_strlit("\"\nsub_addr = \"");
        reveal_strlit("\"\n");
    }
    lemma_value_between(start, "[server]\nlisten_addr = \""@, value, "\"\nsub_addr = \""@, "[server]\nlisten_addr = \""@, "\"\n"@, none);
    let pieces0 = none.push("[server]\nlisten_addr = \""@ + value + "\"\n"@);
    let before0 = start + "[server]\nlisten_addr = \""@ + value;
    let value = cfg.sub_addr@;
    assert("\"\nsub_addr = \""@.skip("\"\nsub_addr = \""@.len() - "\nsub_addr = \""@.len()) =~= "\nsub_addr = \""@ && "\nsub_addr = \""@.len() <= "\"\nsub_addr = \""@.len()) by {
        reveal_strlit("\"\nsub_addr = \"");
        reveal_strlit("\nsub_addr = \"");
    }
    assert("\"\nmetrics_addr = \""@.take("\"\n"@.len() as int) =~= "\"\n"@ && "\"\n"@.len() <= "\"\nmetrics_addr = \""@.len()) by {
        reveal_strlit("\"\nmetrics_addr = \"");
        reveal_strlit("\"\n");
    }
    lemma_value_between(before0, "\"\nsub_addr = \""@, value, "\"\nmetrics_addr = \""@, "\nsub_addr = \""@, "\"\n"@, pieces0);
    let pieces1 = pieces0.push("\nsub_addr = \""@ + value + "\"\n"@);
    let before1 = before0 + "\"\nsub_addr = \""@ + value;
    let value = cfg.metrics_addr@;
    assert("\"\nmetrics_addr = \""@.skip("\"\nmetrics_addr = \""@.len() - "\nmetrics_addr = \""@.len()) =~= "\nmetrics_addr = \""@ && "\nmetrics_addr = \""@.len() <= "\"\nmetrics_addr = \""@.len()) by {
        reveal_strlit("\"\nmetrics_addr = \"");
        reveal_strlit("\nmetrics_addr = \"");
    }
    assert("\"\ncontrol_socket = \""@.take("\"\n"@.len() as int) =~= "\"\n"@ && "\"\n"@.len() <= "\"\ncontrol_socket = \""@.len()) by {
        reveal_strlit("\"\ncontrol_socket = \"");
        reveal_strlit("\"\n");
    }
    lemma_value_between(before1, "\"\nmetrics_addr = \""@, value, "\"\ncontrol_socket = \""@, "\nmetrics_addr = \""@, "\"\n"@, pieces1);
    let pieces2 = pieces1.push("\nmetrics_addr = \""@ + value + "\"\n"@);
    let before2 = before1 + "\"\nmetrics_addr = \""@ + value;
    let value = cfg.control_socket@;
    assert("\"\ncontrol_socket = \""@.skip("\"\ncontrol_socket = \""@.len() - "\ncontrol_socket = \""@.len()) =~= "\ncontrol_socket = \""@ && "\ncontrol_socket = \""@.len() <= "\"\ncontrol_socket = \""@.len()) by {
        reveal_strlit("\"\ncontrol_socket = \"");
        reveal_strlit("\ncontrol_socket = \"");
    }
    assert("\"\n\n[subscribers]\ntoken_store = \""@.take("\"\n"@.len() as int) =~= "\"\n"@ && "\"\n"@.len() <= "\"\n\n[subscribers]\ntoken_store = \""@.len()) by {
        reveal_strlit("\"\n\n[subscribers]\ntoken_store = \"");
        reveal_strlit("\"\n");
    }
    lemma_value_between(before2, "\"\ncontrol_socket = \""@, value, "\"\n\n[subscribers]\ntoken_store = \""@, "\ncontrol_socket = \""@, "\"\n"@, pieces2);
    let pieces3 = pieces2.push("\ncontrol_socket = \""@ + value + "\"\n"@);
    let before3 = before2 + "\"\ncontrol_socket = \""@ + value;
    let value = cfg.token_store@;
    assert("\"\n\n[subscribers]\ntoken_store = \""@.skip("\"\n\n[subscribers]\ntoken_store = \""@.len() - "[subscribers]\ntoken_store = \""@.len()) =~= "[subscribers]\ntoken_store = \""@ && "[subscribers]\ntoken_store = \""@.len() <= "\"\n\n[subscribers]\ntoken_store = \""@.len()) by {
        reveal_strlit("\"\n\n[subscribers]\ntoken_store = \"");
        reveal_strlit("[subscribers]\ntoken_store = \"");
    }
    assert("\"\n\n[extensions]\nenabled = ["@.take("\"\n"@.len() as int) =~= "\"\n"@ && "\"\n"@.len() <= "\"\n\n[extensions]\nenabled = ["@.len()) by {
        reveal_strlit("\"\n\n[extensions]\nenabled = [");
        reveal_strlit("\"\n");
    }
    lemma_value_between(before3, "\"\n\n[subscribers]\ntoken_store = \""@, value, "\"\n\n[extensions]\nenabled = ["@, "[subscribers]\ntoken_store = \""@, "\"\n"@, pieces3);
    let pieces4 = pieces3.push("[subscribers]\ntoken_store = \""@ + value + "\"\n"@);
    let before4 = before3 + "\"\n\n[subscribers]\ntoken_store = \""@ + value;
    let value = quoted_list(text::texts(cfg.enabled@));
    assert("\"\n\n[extensions]\nenabled = ["@.skip("\"\n\n[extensions]\nenabled = ["@.len() - "[extensions]\nenabled = ["@.len()) =~= "[extensions]\nenabled = ["@ && "[extensions]\nenabled = ["@.len() <= "\"\n\n[extensions]\nenabled = ["@.len()) by {
        reveal_strlit("\"\n\n[extensions]\nenabled = [");
        reveal_strlit("[extensions]\nenabled = [");
    }
    assert("]\n\n[limits]\n"@.take("]\n"@.len() as int) =~= "]\n"@ && "]\n"@.len() <= "]\n\n[limits]\n"@.len()) by {
        reveal_strlit("]\n\n[limits]\n");
        reveal_strlit("]\n");
    }
    lemma_value_between(before4, "\"\n\n[extensions]\nenabled = ["@, value, "]\n\n[limits]\n"@, "[extensions]\nenabled = ["@, "]\n"@, pieces4);
    let pieces5 = pieces4.push("[extensions]\nenabled = ["@ + value + "]\n"@);
    let before5 = before4 + "\"\n\n[extensions]\nenabled = ["@ + value;
    let value = cfg.limits@;
    assert("]\n\n[limits]\n"@.skip("]\n\n[limits]\n"@.len() - "[limits]\n"@.len()) =~= "[limits]\n"@ && "[limits]\n"@.len() <= "]\n\n[limits]\n"@.len()) by {
        reveal_strlit("]\n\n[limits]\n");
        reveal_strlit("[limits]\n");
    }
    assert("\n\n[timeouts]\n"@.take("\n"@.len() as int) =~= "\n"@ && "\n"@.len() <= "\n\n[timeouts]\n"@.len()) by {
        reveal_strlit("\n\n[timeouts]\n");
        reveal_strlit("\n");
    }
    lemma_value_between(before5, "]\n\n[limits]\n"@, value, "\n\n[timeouts]\n"@, "[limits]\n"@, "\n"@, pieces5);
    let pieces6 = pieces5.push("[limits]\n"@ + value + "\n"@);
    let before6 = before5 + "]\n\n[limits]\n"@ + value;
    let value = cfg.timeouts@;
    assert("\n\n[timeouts]\n"@.skip("\n\n[timeouts]\n"@.len() - "[timeouts]\n"@.len()) =~= "[timeouts]\n"@ && "[timeouts]\n"@.len() <= "\n\n[timeouts]\n"@.len()) by {
        reveal_strlit("\n\n[timeouts]\n");
        reveal_strlit("[timeouts]\n");
    }
    assert("\n\n"@.take("\n"@.len() as int) =~= "\n"@ && "\n"@.len() <= "\n\n"@.len()) by {
        reveal_strlit("\n\n");
        reveal_strlit("\n");
    }
    lemma_value_between(before6, "\n\n[timeouts]\n"@, value, "\n\n"@, "[timeouts]\n"@, "\n"@, pieces6);
    let pieces7 = pieces6.push("[timeouts]\n"@ + value + "\n"@);
    let before7 = before6 + "\n\n[timeouts]\n"@ + value;
    let value = delivery_text(cfg);
    assert("\n\n"@.skip("\n\n"@.len() - "\n"@.len()) =~= "\n"@ && "\n"@.len() <= "\n\n"@.len()) by {
        reveal_strlit("\n\n");
        reveal_strlit("\n");
    }
    assert("[secrets]\nfile = \""@.take(Seq::<char>::empty().len() as int) =~= Seq::<char>::empty() && Seq::<char>::empty().len() <= "[secrets]\nfile = \""@.len()) by {
        reveal_strlit("[secrets]\nfile = \"");
    }
    lemma_value_between(before7, "\n\n"@, value, "[secrets]\nfile = \""@, "\n"@, Seq::<char>::empty(), pieces7);
    let pieces8 = pieces7.push("\n"@ + value + Seq::<char>::empty());
    let before8 = before7 + "\n\n"@ + value;
    let value = cfg.secrets_path@;
    assert("[secrets]\nfile = \""@.skip("[secrets]\nfile = \""@.len() - "[secrets]\nfile = \""@.len()) =~= "[secrets]\nfile = \""@ && "[secrets]\nfile = \""@.len() <= "[secrets]\nfile = \""@.len()) by {
        reveal_strlit("[secrets]\nfile = \"");
    }
    assert("\"\n"@.take("\"\n"@.len() as int) =~= "\"\n"@ && "\"\n"@.len() <= "\"\n"@.len()) by {
        reveal_strlit("\"\n");
    }
    lemma_value_between(before8, "[secrets]\nfile = \""@, value, "\"\n"@, "[secrets]\nfile = \""@, "\"\n"@, pieces8);
    let pieces9 = pieces8.push("[secrets]\nfile = \""@ + value + "\"\n"@);
    let before9 = before8 + "[secrets]\nfile = \""@ + value;
    assert(before9 + "\"\n"@ =~= config_text(cfg));
    pieces9
}

/// A character takes as many bytes as its UTF-8 encoding.
pub proof fn widths_are_those_of_utf8(c: char)
    ensures
        width(c) == vstd::utf8::encode_utf8(seq![c]).len(),
        width(c) == 1 <==> c as int <= 127,
        width(c) <= 2 <==> c as int <= 2047,
        width(c) <= 3 <==> c as int <= 65535,
        1 <= width(c) <= 4,
{
    let one = seq![c];
    assert(one.drop_first() =~= Seq::<char>::empty());
    assert(vstd::utf8::encode_utf8(one.drop_first()) == Seq::<u8>::empty());
}

} // verus!
