//! Channels and the patterns that select them.
//!
//! A channel is a dotted list of plain tokens, such as `github.push`. A pattern
//! is a dotted list in which `*` stands for any one token and a final `>` for
//! one or more tokens.

use vstd::prelude::*;
use vstd::string::*;

use crate::text;

verus! {

/// What is wrong with a channel or a pattern.
#[derive(Debug, PartialEq, Eq)]
pub enum ChannelError {
    Empty,
    EmptyToken,
    InvalidToken(String),
    WildcardInChannel,
    TailWildcardNotFinal,
}

/// The value of a [`ChannelError`].
pub enum ChannelFault {
    Empty,
    EmptyToken,
    InvalidToken(Seq<char>),
    WildcardInChannel,
    TailWildcardNotFinal,
}

impl View for ChannelError {
    type V = ChannelFault;

    open spec fn view(&self) -> ChannelFault {
        match self {
            ChannelError::Empty => ChannelFault::Empty,
            ChannelError::EmptyToken => ChannelFault::EmptyToken,
            ChannelError::InvalidToken(token) => ChannelFault::InvalidToken(token@),
            ChannelError::WildcardInChannel => ChannelFault::WildcardInChannel,
            ChannelError::TailWildcardNotFinal => ChannelFault::TailWildcardNotFinal,
        }
    }
}

/// The sentence that reports a fault.
pub open spec fn fault_message(fault: ChannelFault) -> Seq<char> {
    match fault {
        ChannelFault::Empty => "empty channel"@,
        ChannelFault::EmptyToken => "empty token"@,
        ChannelFault::InvalidToken(token) => "invalid token: "@ + token,
        ChannelFault::WildcardInChannel => "wildcard is not valid in channels"@,
        ChannelFault::TailWildcardNotFinal => "'>' wildcard must be the final pattern token"@,
    }
}

impl ChannelError {
    /// The sentence that reports this error.
    pub fn message(&self) -> (msg: String)
        ensures
            msg@ == fault_message(self@),
    {
        match self {
            ChannelError::Empty => "empty channel".to_owned(),
            ChannelError::EmptyToken => "empty token".to_owned(),
            ChannelError::InvalidToken(token) => {
                let mut msg: String = "invalid token: ".to_owned();
                msg.append(token.as_str());
                msg
            },
            ChannelError::WildcardInChannel => "wildcard is not valid in channels".to_owned(),
            ChannelError::TailWildcardNotFinal => {
                "'>' wildcard must be the final pattern token".to_owned()
            },
        }
    }
}

impl Clone for ChannelError {
    fn clone(&self) -> (copy: Self)
        ensures
            copy@ == self@,
    {
        match self {
            ChannelError::Empty => ChannelError::Empty,
            ChannelError::EmptyToken => ChannelError::EmptyToken,
            ChannelError::InvalidToken(token) => ChannelError::InvalidToken(token.clone()),
            ChannelError::WildcardInChannel => ChannelError::WildcardInChannel,
            ChannelError::TailWildcardNotFinal => ChannelError::TailWildcardNotFinal,
        }
    }
}

/// The characters of plain tokens.
pub open spec fn plain_char(c: char) -> bool {
    'a' <= c <= 'z' || '0' <= c <= '9' || c == '_' || c == '-'
}

/// A token without wildcards.
pub open spec fn plain_token(token: Seq<char>) -> bool {
    token.len() > 0 && forall|i: int| 0 <= i < token.len() ==> plain_char(#[trigger] token[i])
}

/// The token that stands for any one token.
pub open spec fn any_token() -> Seq<char> {
    seq!['*']
}

/// The final token that stands for one or more tokens.
pub open spec fn tail_token() -> Seq<char> {
    seq!['>']
}

/// The tokens of a channel or a pattern.
pub open spec fn tokens(dotted: Seq<char>) -> Seq<Seq<char>> {
    text::split(dotted, '.')
}

/// What keeps `token` from being a token of a channel.
pub open spec fn channel_token_fault(token: Seq<char>) -> Option<ChannelFault> {
    if token.len() == 0 {
        Some(ChannelFault::EmptyToken)
    } else if token == any_token() || token == tail_token() {
        Some(ChannelFault::WildcardInChannel)
    } else if !plain_token(token) {
        Some(ChannelFault::InvalidToken(token))
    } else {
        None
    }
}

/// What keeps `token` from being a token of a pattern, its last one or not.
pub open spec fn pattern_token_fault(token: Seq<char>, last: bool) -> Option<ChannelFault> {
    if token.len() == 0 {
        Some(ChannelFault::EmptyToken)
    } else if token == tail_token() {
        if last {
            None
        } else {
            Some(ChannelFault::TailWildcardNotFinal)
        }
    } else if token == any_token() || plain_token(token) {
        None
    } else {
        Some(ChannelFault::InvalidToken(token))
    }
}

/// The fault of the first faulty token among the first `n`.
pub open spec fn first_channel_fault(tokens: Seq<Seq<char>>, n: nat) -> Option<ChannelFault>
    decreases n,
{
    if n == 0 {
        None
    } else {
        match first_channel_fault(tokens, (n - 1) as nat) {
            Some(fault) => Some(fault),
            None => channel_token_fault(tokens[n - 1]),
        }
    }
}

/// The fault of the first faulty token of a pattern among the first `n`.
pub open spec fn first_pattern_fault(tokens: Seq<Seq<char>>, n: nat) -> Option<ChannelFault>
    decreases n,
{
    if n == 0 {
        None
    } else {
        match first_pattern_fault(tokens, (n - 1) as nat) {
            Some(fault) => Some(fault),
            None => pattern_token_fault(tokens[n - 1], n == tokens.len()),
        }
    }
}

/// What keeps a text from being a channel.
pub open spec fn channel_fault(channel: Seq<char>) -> Option<ChannelFault> {
    if channel.len() == 0 {
        Some(ChannelFault::Empty)
    } else {
        first_channel_fault(tokens(channel), tokens(channel).len())
    }
}

/// What keeps a text from being a pattern.
pub open spec fn pattern_fault(pattern: Seq<char>) -> Option<ChannelFault> {
    if pattern.len() == 0 {
        Some(ChannelFault::Empty)
    } else {
        first_pattern_fault(tokens(pattern), tokens(pattern).len())
    }
}

/// Whether a text is a channel.
pub open spec fn valid_channel(channel: Seq<char>) -> bool {
    channel_fault(channel) is None
}

/// Whether a text is a pattern.
pub open spec fn valid_pattern(pattern: Seq<char>) -> bool {
    pattern_fault(pattern) is None
}

/// Whether a token of a pattern, other than `>`, stands for a token of a channel.
pub open spec fn token_selects(wanted: Seq<char>, token: Seq<char>) -> bool {
    wanted == any_token() || wanted == token
}

/// Whether the tokens of a pattern select the tokens of a channel: token by
/// token, with a final `>` taking all that is left, which is at least one.
pub open spec fn tokens_select(wanted: Seq<Seq<char>>, channel: Seq<Seq<char>>) -> bool {
    if wanted.len() > 0 && wanted.last() == tail_token() {
        channel.len() >= wanted.len() && forall|i: int|
            0 <= i < wanted.len() - 1 ==> token_selects(#[trigger] wanted[i], channel[i])
    } else {
        channel.len() == wanted.len() && forall|i: int|
            0 <= i < wanted.len() ==> token_selects(#[trigger] wanted[i], channel[i])
    }
}

/// Whether a pattern selects a channel.
pub open spec fn selects(pattern: Seq<char>, channel: Seq<char>) -> bool {
    tokens_select(tokens(pattern), tokens(channel))
}

/// Whether a token is plain.
pub fn valid_plain_token(token: &str) -> (valid: bool)
    ensures
        valid == plain_token(token@),
{
    let chars: Vec<char> = text::chars_of(token);
    let mut i: usize = 0;
    while i < chars.len()
        invariant
            i <= chars@.len(),
            chars@ == token@,
            forall|j: int| 0 <= j < i ==> plain_char(#[trigger] chars@[j]),
        decreases chars@.len() - i,
    {
        let c: char = chars[i];
        if !(('a' <= c && c <= 'z') || ('0' <= c && c <= '9') || c == '_' || c == '-') {
            assert(!plain_char(token@[i as int]));
            return false;
        }
        i += 1;
    }
    chars.len() > 0
}

/// Whether `token` is the one character `c`.
fn is_single(token: &str, c: char) -> (yes: bool)
    ensures
        yes == (token@ == seq![c]),
{
    let chars: Vec<char> = text::chars_of(token);
    let yes: bool = chars.len() == 1 && chars[0] == c;
    assert(yes ==> token@ =~= seq![c]);
    yes
}

proof fn lemma_first_channel_fault_keeps(tokens: Seq<Seq<char>>, n: nat, m: nat)
    requires
        n <= m,
        first_channel_fault(tokens, n) is Some,
    ensures
        first_channel_fault(tokens, m) == first_channel_fault(tokens, n),
    decreases m,
{
    if n < m {
        lemma_first_channel_fault_keeps(tokens, n, (m - 1) as nat);
    }
}

proof fn lemma_first_pattern_fault_keeps(tokens: Seq<Seq<char>>, n: nat, m: nat)
    requires
        n <= m,
        first_pattern_fault(tokens, n) is Some,
    ensures
        first_pattern_fault(tokens, m) == first_pattern_fault(tokens, n),
    decreases m,
{
    if n < m {
        lemma_first_pattern_fault_keeps(tokens, n, (m - 1) as nat);
    }
}

/// Checks that a text is a channel; the first faulty token is reported.
pub fn validate_channel(channel: &str) -> (r: Result<(), ChannelError>)
    ensures
        match r {
            Ok(()) => channel_fault(channel@) is None,
            Err(e) => channel_fault(channel@) == Some(e@),
        },
{
    if channel.is_empty() {
        return Err(ChannelError::Empty);
    }
    let parts: Vec<String> = text::split_on(channel, '.');
    let ghost all = tokens(channel@);
    let mut i: usize = 0;
    while i < parts.len()
        invariant
            i <= parts@.len(),
            channel@.len() > 0,
            all == tokens(channel@),
            text::texts(parts@) == all,
            first_channel_fault(all, i as nat) is None,
        decreases parts@.len() - i,
    {
        let token: &str = parts[i].as_str();
        assert(all[i as int] == token@);
        proof {
            if first_channel_fault(all, i as nat + 1) is Some {
                lemma_first_channel_fault_keeps(all, i as nat + 1, all.len());
            }
        }
        if token.is_empty() {
            return Err(ChannelError::EmptyToken);
        }
        if is_single(token, '*') || is_single(token, '>') {
            return Err(ChannelError::WildcardInChannel);
        }
        if !valid_plain_token(token) {
            return Err(ChannelError::InvalidToken(token.to_owned()));
        }
        i += 1;
    }
    Ok(())
}

/// Checks that a text is a pattern; the first faulty token is reported.
pub fn validate_pattern(pattern: &str) -> (r: Result<(), ChannelError>)
    ensures
        match r {
            Ok(()) => pattern_fault(pattern@) is None,
            Err(e) => pattern_fault(pattern@) == Some(e@),
        },
{
    if pattern.is_empty() {
        return Err(ChannelError::Empty);
    }
    let parts: Vec<String> = text::split_on(pattern, '.');
    let ghost all = tokens(pattern@);
    let mut i: usize = 0;
    while i < parts.len()
        invariant
            i <= parts@.len(),
            pattern@.len() > 0,
            all == tokens(pattern@),
            text::texts(parts@) == all,
            first_pattern_fault(all, i as nat) is None,
        decreases parts@.len() - i,
    {
        let token: &str = parts[i].as_str();
        assert(all[i as int] == token@);
        proof {
            if first_pattern_fault(all, i as nat + 1) is Some {
                lemma_first_pattern_fault_keeps(all, i as nat + 1, all.len());
            }
        }
        if token.is_empty() {
            return Err(ChannelError::EmptyToken);
        }
        if is_single(token, '>') {
            if i + 1 != parts.len() {
                return Err(ChannelError::TailWildcardNotFinal);
            }
        } else if !is_single(token, '*') && !valid_plain_token(token) {
            return Err(ChannelError::InvalidToken(token.to_owned()));
        }
        i += 1;
    }
    Ok(())
}

proof fn lemma_pattern_tokens(all: Seq<Seq<char>>, n: nat)
    requires
        first_pattern_fault(all, n) is None,
    ensures
        forall|i: int| 0 <= i < n ==> pattern_token_fault(#[trigger] all[i], i + 1 == all.len()) is None,
    decreases n,
{
    if n > 0 {
        lemma_pattern_tokens(all, (n - 1) as nat);
    }
}

proof fn lemma_channel_tokens(all: Seq<Seq<char>>, n: nat)
    requires
        first_channel_fault(all, n) is None,
    ensures
        forall|i: int| 0 <= i < n ==> channel_token_fault(#[trigger] all[i]) is None,
    decreases n,
{
    if n > 0 {
        lemma_channel_tokens(all, (n - 1) as nat);
    }
}

/// Walks the tokens of both, once both are known to be valid.
fn select_checked(channel: &str, pattern: &str) -> (matched: bool)
    requires
        valid_pattern(pattern@),
    ensures
        matched == selects(pattern@, channel@),
{
    let channel_tokens: Vec<String> = text::split_on(channel, '.');
    let pattern_tokens: Vec<String> = text::split_on(pattern, '.');
    let ghost have = tokens(channel@);
    let ghost want = tokens(pattern@);
    proof {
        lemma_pattern_tokens(want, want.len());
        text::split_then_join(channel@, '.');
    }
    let mut i: usize = 0;
    while i < pattern_tokens.len()
        invariant
            i <= pattern_tokens@.len(),
            i <= channel_tokens@.len(),
            have == tokens(channel@),
            want == tokens(pattern@),
            have.len() >= 1,
            text::texts(channel_tokens@) == have,
            text::texts(pattern_tokens@) == want,
            forall|j: int|
                0 <= j < want.len() ==> pattern_token_fault(
                    #[trigger] want[j],
                    j + 1 == want.len(),
                ) is None,
            forall|j: int|
                0 <= j < i ==> token_selects(#[trigger] want[j], have[j]) && want[j]
                    != tail_token(),
        decreases pattern_tokens@.len() - i,
    {
        let token: &str = pattern_tokens[i].as_str();
        assert(want[i as int] == token@);
        if is_single(token, '>') {
            return i < channel_tokens.len() || i == 0;
        }
        if i >= channel_tokens.len() {
            return false;
        }
        assert(have[i as int] == channel_tokens@[i as int]@);
        if !is_single(token, '*') && !text::same_text(token, channel_tokens[i].as_str()) {
            assert(!token_selects(want[i as int], have[i as int]));
            return false;
        }
        i += 1;
    }
    i == channel_tokens.len()
}

/// Whether `pattern` selects `channel`; the channel is checked first.
pub fn channel_matches(channel: &str, pattern: &str) -> (r: Result<bool, ChannelError>)
    ensures
        match r {
            Ok(matched) => valid_channel(channel@) && valid_pattern(pattern@) && matched == selects(
                pattern@,
                channel@,
            ),
            Err(e) => if channel_fault(channel@) is Some {
                channel_fault(channel@) == Some(e@)
            } else {
                pattern_fault(pattern@) == Some(e@)
            },
        },
{
    match validate_channel(channel) {
        Ok(()) => {},
        Err(e) => {
            return Err(e);
        },
    }
    match validate_pattern(pattern) {
        Ok(()) => {},
        Err(e) => {
            return Err(e);
        },
    }
    Ok(select_checked(channel, pattern))
}

/// A pattern that is known to be valid.
#[derive(Debug)]
pub struct Pattern(String);

impl View for Pattern {
    type V = Seq<char>;

    closed spec fn view(&self) -> Seq<char> {
        self.0@
    }
}

impl Pattern {
    #[verifier::type_invariant]
    spec fn is_valid(self) -> bool {
        valid_pattern(self.0@)
    }

    /// Keeps `value` as a pattern if it is one.
    pub fn new(value: String) -> (r: Result<Pattern, ChannelError>)
        ensures
            match r {
                Ok(pattern) => valid_pattern(value@) && pattern@ == value@,
                Err(e) => pattern_fault(value@) == Some(e@),
            },
    {
        match validate_pattern(value.as_str()) {
            Ok(()) => Ok(Pattern(value)),
            Err(e) => Err(e),
        }
    }

    /// The pattern as it was given.
    pub fn as_str(&self) -> (s: &str)
        ensures
            s@ == self@,
            valid_pattern(self@),
    {
        proof {
            use_type_invariant(self);
        }
        self.0.as_str()
    }

    /// Whether the pattern selects `channel`, which must be one.
    pub fn matches(&self, channel: &str) -> (r: Result<bool, ChannelError>)
        ensures
            match r {
                Ok(matched) => valid_channel(channel@) && matched == selects(self@, channel@),
                Err(e) => channel_fault(channel@) == Some(e@),
            },
    {
        proof {
            use_type_invariant(self);
        }
        channel_matches(channel, self.0.as_str())
    }
}

impl Clone for Pattern {
    fn clone(&self) -> (copy: Self)
        ensures
            copy@ == self@,
    {
        proof {
            use_type_invariant(self);
        }
        Pattern(self.0.clone())
    }
}

/// The texts of a list of patterns.
pub open spec fn pattern_texts(patterns: Seq<Pattern>) -> Seq<Seq<char>> {
    Seq::new(patterns.len(), |i: int| patterns[i]@)
}

/// Whether a text is a channel that one of the patterns selects.
pub open spec fn selected_by_any(patterns: Seq<Seq<char>>, channel: Seq<char>) -> bool {
    valid_channel(channel) && exists|i: int|
        0 <= i < patterns.len() && selects(#[trigger] patterns[i], channel)
}

/// Whether one of the patterns selects `channel`; what is no channel is selected
/// by none.
pub fn any_pattern_matches(patterns: &[Pattern], channel: &str) -> (matched: bool)
    ensures
        matched == selected_by_any(pattern_texts(patterns@), channel@),
{
    let ghost all = pattern_texts(patterns@);
    let mut i: usize = 0;
    while i < patterns.len()
        invariant
            i <= patterns@.len(),
            all == pattern_texts(patterns@),
            valid_channel(channel@) ==> forall|j: int|
                0 <= j < i ==> !selects(#[trigger] all[j], channel@),
        decreases patterns@.len() - i,
    {
        assert(all[i as int] == patterns@[i as int]@);
        match patterns[i].matches(channel) {
            Ok(matched) => {
                if matched {
                    return true;
                }
            },
            Err(_) => {},
        }
        i += 1;
    }
    false
}

/// The pattern `>` is valid and selects every channel.
pub proof fn tail_selects_every_channel(channel: Seq<char>)
    requires
        valid_channel(channel),
    ensures
        valid_pattern(tail_token()),
        selects(tail_token(), channel),
{
    lemma_single_token(tail_token());
    reveal_with_fuel(first_pattern_fault, 2);
    text::split_then_join(channel, '.');
}

/// The pattern `*` is valid and selects exactly the channels of one token.
pub proof fn any_selects_single_tokens(channel: Seq<char>)
    requires
        valid_channel(channel),
    ensures
        valid_pattern(any_token()),
        selects(any_token(), channel) <==> tokens(channel).len() == 1,
{
    lemma_single_token(any_token());
    reveal_with_fuel(first_pattern_fault, 2);
    assert(any_token()[0] != tail_token()[0]);
}

proof fn lemma_single_token(token: Seq<char>)
    requires
        token.len() == 1,
        token[0] != '.',
    ensures
        tokens(token) == seq![token],
{
    assert(!token.contains('.'));
    text::split_without_separator(token, '.');
}

proof fn lemma_channel_tokens_fit_patterns(all: Seq<Seq<char>>, n: nat)
    requires
        first_channel_fault(all, n) is None,
        n <= all.len(),
    ensures
        first_pattern_fault(all, n) is None,
    decreases n,
{
    if n > 0 {
        lemma_channel_tokens_fit_patterns(all, (n - 1) as nat);
    }
}

/// A channel is a pattern that selects itself and no other channel.
pub proof fn channel_selects_only_itself(channel: Seq<char>, other: Seq<char>)
    requires
        valid_channel(channel),
        valid_channel(other),
    ensures
        valid_pattern(channel),
        selects(channel, other) <==> channel == other,
{
    let want = tokens(channel);
    let have = tokens(other);
    lemma_channel_tokens_fit_patterns(want, want.len());
    lemma_channel_tokens(want, want.len());
    text::split_then_join(channel, '.');
    assert(channel_token_fault(want.last()) is None);
    if selects(channel, other) {
        assert(want =~= have) by {
            assert forall|i: int| 0 <= i < want.len() implies want[i] == have[i] by {
                assert(token_selects(want[i], have[i]));
            }
        }
        text::split_is_injective(channel, other, '.');
    }
}

/// A channel followed by `.>` is a pattern. It selects exactly the channels
/// whose tokens begin with those of the channel and go on: not the channel
/// itself.
pub proof fn tail_selects_what_lies_below(prefix: Seq<char>, channel: Seq<char>)
    requires
        valid_channel(prefix),
        valid_channel(channel),
    ensures
        valid_pattern(prefix.push('.') + tail_token()),
        selects(prefix.push('.') + tail_token(), channel) <==> (tokens(channel).len() > tokens(
            prefix,
        ).len() && tokens(channel).take(tokens(prefix).len() as int) == tokens(prefix)),
        !selects(prefix.push('.') + tail_token(), prefix),
{
    let pattern = prefix.push('.') + tail_token();
    let have = tokens(channel);
    let head = tokens(prefix);
    let want = tokens(pattern);
    text::split_of_joined(prefix, tail_token(), '.');
    lemma_single_token(tail_token());
    assert(want =~= head.push(tail_token()));
    lemma_channel_tokens(head, head.len());
    lemma_tail_pattern(head, want, head.len());
    assert(first_pattern_fault(want, want.len()) is None);
    if selects(pattern, channel) {
        assert forall|i: int| 0 <= i < head.len() implies have[i] == head[i] by {
            assert(token_selects(want[i], have[i]));
            assert(want[i] == head[i]);
        }
        assert(have.take(head.len() as int) =~= head);
    }
    if have.len() > head.len() && have.take(head.len() as int) == head {
        assert forall|i: int| 0 <= i < want.len() - 1 implies token_selects(
            #[trigger] want[i],
            have[i],
        ) by {
            assert(have.take(head.len() as int)[i] == have[i]);
        }
    }
}

proof fn lemma_tail_pattern(head: Seq<Seq<char>>, want: Seq<Seq<char>>, n: nat)
    requires
        want == head.push(tail_token()),
        n <= head.len(),
        forall|i: int| 0 <= i < head.len() ==> channel_token_fault(#[trigger] head[i]) is None,
    ensures
        first_pattern_fault(want, n) is None,
    decreases n,
{
    if n > 0 {
        lemma_tail_pattern(head, want, (n - 1) as nat);
        assert(want[n - 1] == head[n - 1]);
    }
}

proof fn lemma_plain_token(token: Seq<char>)
    requires
        plain_token(token),
    ensures
        tokens(token) == seq![token],
        channel_token_fault(token) is None,
{
    assert forall|i: int| 0 <= i < token.len() implies token[i] != '.' by {
        assert(plain_char(token[i]));
    }
    text::split_without_separator(token, '.');
    assert(plain_char(token[0]));
}

proof fn lemma_faultless_prefix(all: Seq<Seq<char>>, more: Seq<Seq<char>>, n: nat)
    requires
        n <= all.len(),
        first_channel_fault(all, n) is None,
    ensures
        first_channel_fault(all + more, n) is None,
    decreases n,
{
    if n > 0 {
        lemma_faultless_prefix(all, more, (n - 1) as nat);
    }
}

/// A plain token is a channel.
pub proof fn plain_token_is_channel(token: Seq<char>)
    requires
        plain_token(token),
    ensures
        valid_channel(token),
        tokens(token) == seq![token],
{
    lemma_plain_token(token);
    reveal_with_fuel(first_channel_fault, 2);
}

proof fn lemma_faultless_joined(all: Seq<Seq<char>>, more: Seq<Seq<char>>, n: nat)
    requires
        first_channel_fault(all, all.len()) is None,
        n <= more.len(),
        first_channel_fault(more, n) is None,
    ensures
        first_channel_fault(all + more, all.len() + n) is None,
    decreases n,
{
    if n == 0 {
        lemma_faultless_prefix(all, more, all.len());
    } else {
        lemma_faultless_joined(all, more, (n - 1) as nat);
    }
}

/// Two channels with a dot between them are a channel, which has the tokens of
/// both.
pub proof fn joined_channels_are_channel(first: Seq<char>, second: Seq<char>)
    requires
        valid_channel(first),
        valid_channel(second),
    ensures
        valid_channel(first.push('.') + second),
        tokens(first.push('.') + second) == tokens(first) + tokens(second),
{
    text::split_of_joined(first, second, '.');
    lemma_faultless_joined(tokens(first), tokens(second), tokens(second).len());
}

/// A channel with one more plain token is a channel, which has the tokens of the
/// first and then that one.
pub proof fn longer_channel_is_channel(channel: Seq<char>, token: Seq<char>)
    requires
        valid_channel(channel),
        plain_token(token),
    ensures
        valid_channel(channel.push('.') + token),
        tokens(channel.push('.') + token) == tokens(channel).push(token),
{
    plain_token_is_channel(token);
    joined_channels_are_channel(channel, token);
    assert(tokens(channel) + seq![token] =~= tokens(channel).push(token));
}

/// Whether two dots stand side by side in a text.
pub open spec fn has_double_dot(s: Seq<char>) -> bool {
    exists|i: int| 0 <= i < s.len() - 1 && #[trigger] s[i] == '.' && s[i + 1] == '.'
}

proof fn lemma_dotted(s: Seq<char>)
    requires
        s.len() > 0,
        s[0] != '.',
        !has_double_dot(s),
        forall|i: int| 0 <= i < s.len() ==> #[trigger] s[i] == '.' || plain_char(s[i]),
    ensures
        tokens(s).len() > 0,
        forall|i: int| 0 <= i < tokens(s).len() - 1 ==> plain_token(#[trigger] tokens(s)[i]),
        if s.last() == '.' {
            tokens(s).last().len() == 0
        } else {
            plain_token(tokens(s).last())
        },
    decreases s.len(),
{
    let head = s.drop_last();
    let before = tokens(head);
    if s.len() == 1 {
        assert(head =~= Seq::empty());
        assert(tokens(s) =~= seq![s]) by {
            assert(before =~= seq![Seq::<char>::empty()]);
            assert(Seq::<char>::empty().push(s[0]) =~= s);
        }
    } else {
        assert forall|i: int| 0 <= i < head.len() implies #[trigger] head[i] == '.' || plain_char(
            head[i],
        ) by {
            assert(head[i] == s[i]);
        }
        assert(!has_double_dot(head)) by {
            if has_double_dot(head) {
                let i = choose|i: int|
                    0 <= i < head.len() - 1 && #[trigger] head[i] == '.' && head[i + 1] == '.';
                assert(s[i] == '.' && s[i + 1] == '.');
            }
        }
        lemma_dotted(head);
        if s.last() == '.' {
            assert(s[s.len() - 2] != '.');
            assert(head.last() != '.');
            assert forall|i: int| 0 <= i < tokens(s).len() - 1 implies plain_token(
                #[trigger] tokens(s)[i],
            ) by {
                assert(tokens(s)[i] == before[i]);
            }
        } else {
            let piece = before.last().push(s.last());
            assert(tokens(s).last() == piece);
            assert(plain_char(s[s.len() - 1]));
            assert forall|i: int| 0 <= i < piece.len() implies plain_char(#[trigger] piece[i]) by {
                if i < piece.len() - 1 {
                    assert(piece[i] == before.last()[i]);
                }
            }
            assert forall|i: int| 0 <= i < tokens(s).len() - 1 implies plain_token(
                #[trigger] tokens(s)[i],
            ) by {
                assert(tokens(s)[i] == before[i]);
            }
        }
    }
}

proof fn lemma_plain_tokens(all: Seq<Seq<char>>, n: nat)
    requires
        n <= all.len(),
        forall|i: int| 0 <= i < all.len() ==> plain_token(#[trigger] all[i]),
    ensures
        first_channel_fault(all, n) is None,
    decreases n,
{
    if n > 0 {
        lemma_plain_tokens(all, (n - 1) as nat);
        lemma_plain_token(all[n - 1]);
    }
}

/// A text of plain characters and dots is a channel where no dot stands at an end
/// or beside another.
pub proof fn dotted_text_is_channel(s: Seq<char>)
    requires
        s.len() > 0,
        s[0] != '.',
        s.last() != '.',
        !has_double_dot(s),
        forall|i: int| 0 <= i < s.len() ==> #[trigger] s[i] == '.' || plain_char(s[i]),
    ensures
        valid_channel(s),
{
    lemma_dotted(s);
    lemma_plain_tokens(tokens(s), tokens(s).len());
}

/// Whether a text is a plain token: one or more lower-case letters, digits,
/// underscores and hyphens.
pub open spec fn is_word(token: Seq<char>) -> bool {
    token.len() > 0 && forall|i: int|
        0 <= i < token.len() ==> 'a' <= (#[trigger] token[i]) <= 'z' || '0' <= token[i] <= '9'
            || token[i] == '_' || token[i] == '-'
}

proof fn lemma_word(token: Seq<char>)
    ensures
        is_word(token) <==> plain_token(token),
        is_word(token) ==> !token.contains('.'),
        is_word(token) ==> token != seq!['*'] && token != seq!['>'],
{
    if is_word(token) {
        assert forall|i: int| 0 <= i < token.len() implies plain_char(#[trigger] token[i]) by {}
        if token.len() == 1 {
            assert('a' <= token[0] <= 'z' || '0' <= token[0] <= '9' || token[0] == '_' || token[0]
                == '-');
            assert(seq!['*'][0] == '*' && seq!['>'][0] == '>');
        }
    }
    if plain_token(token) {
        assert forall|i: int| 0 <= i < token.len() implies 'a' <= (#[trigger] token[i]) <= 'z'
            || '0' <= token[i] <= '9' || token[i] == '_' || token[i] == '-' by {
            assert(plain_char(token[i]));
        }
    }
}

proof fn lemma_all_faultless(all: Seq<Seq<char>>, n: nat)
    requires
        n <= all.len(),
    ensures
        first_channel_fault(all, n) is None <==> forall|i: int|
            0 <= i < n ==> is_word(#[trigger] all[i]),
        first_pattern_fault(all, n) is None <==> forall|i: int|
            0 <= i < n ==> is_word(#[trigger] all[i]) || all[i] == seq!['*'] || (all[i] == seq!['>']
                && i == all.len() - 1),
    decreases n,
{
    if n > 0 {
        lemma_all_faultless(all, (n - 1) as nat);
        lemma_word(all[n - 1]);
        assert(seq!['*'].len() == 1 && seq!['>'].len() == 1);
    }
}

proof fn lemma_joined_is_not_empty(words: Seq<Seq<char>>)
    requires
        words.len() > 0,
        words.len() > 1 || words[0].len() > 0,
    ensures
        text::join(words, '.').len() > 0,
{
}

/// Channels are words with dots between them, and all of these are channels. Patterns
/// may also have `*` for a word, and `>` for the last.
pub proof fn channels_are_dotted_words(words: Seq<Seq<char>>)
    requires
        words.len() > 0,
        forall|i: int| 0 <= i < words.len() ==> !(#[trigger] words[i]).contains('.'),
    ensures
        valid_channel(text::join(words, '.')) <==> forall|i: int|
            0 <= i < words.len() ==> is_word(#[trigger] words[i]),
        valid_pattern(text::join(words, '.')) <==> forall|i: int|
            0 <= i < words.len() ==> is_word(#[trigger] words[i]) || words[i] == seq!['*'] || (
            words[i] == seq!['>'] && i == words.len() - 1),
{
    text::split_undoes_join(words, '.');
    lemma_all_faultless(words, words.len());
    if words.len() == 1 && words[0].len() == 0 {
        assert(!is_word(words[0]));
        assert(seq!['*'].len() == 1 && seq!['>'].len() == 1);
        assert(words[0] != seq!['*'] && words[0] != seq!['>']);
    } else {
        lemma_joined_is_not_empty(words);
    }
}

/// A pattern without `>` selects the channels with as many words in which each word is
/// that of the pattern, or anything where the pattern has `*`. With `>` at its end it
/// selects those with at least as many words whose first ones are so.
pub proof fn patterns_select_word_by_word(wanted: Seq<Seq<char>>, words: Seq<Seq<char>>)
    requires
        wanted.len() > 0,
        words.len() > 0,
        forall|i: int| 0 <= i < wanted.len() ==> !(#[trigger] wanted[i]).contains('.'),
        forall|i: int| 0 <= i < words.len() ==> !(#[trigger] words[i]).contains('.'),
    ensures
        wanted.last() != seq!['>'] ==> (selects(text::join(wanted, '.'), text::join(words, '.'))
            <==> wanted.len() == words.len() && forall|i: int|
            0 <= i < wanted.len() ==> #[trigger] wanted[i] == seq!['*'] || wanted[i] == words[i]),
        wanted.last() == seq!['>'] ==> (selects(text::join(wanted, '.'), text::join(words, '.'))
            <==> wanted.len() <= words.len() && forall|i: int|
            0 <= i < wanted.len() - 1 ==> #[trigger] wanted[i] == seq!['*'] || wanted[i]
                == words[i]),
{
    text::split_undoes_join(wanted, '.');
    text::split_undoes_join(words, '.');
    assert forall|i: int| 0 <= i < words.len() && i < wanted.len() implies token_selects(
        #[trigger] wanted[i],
        words[i],
    ) == (wanted[i] == seq!['*'] || wanted[i] == words[i]) by {}
}

/// A channel is refused for its first word that is none: because it is empty, because
/// it is a wildcard, or because of a character.
pub proof fn channels_are_refused_for_their_first_fault(words: Seq<Seq<char>>, i: int)
    requires
        0 <= i < words.len(),
        words.len() > 1,
        forall|j: int| 0 <= j < words.len() ==> !(#[trigger] words[j]).contains('.'),
        forall|j: int| 0 <= j < i ==> is_word(#[trigger] words[j]),
        !is_word(words[i]),
    ensures
        channel_fault(text::join(words, '.')) == Some(
            if words[i].len() == 0 {
                ChannelFault::EmptyToken
            } else if words[i] == seq!['*'] || words[i] == seq!['>'] {
                ChannelFault::WildcardInChannel
            } else {
                ChannelFault::InvalidToken(words[i])
            },
        ),
        channel_fault(Seq::empty()) == Some(ChannelFault::Empty),
        pattern_fault(Seq::empty()) == Some(ChannelFault::Empty),
{
    text::split_undoes_join(words, '.');
    lemma_joined_is_not_empty(words);
    lemma_all_faultless(words, i as nat);
    lemma_word(words[i]);
    assert(first_channel_fault(words, (i + 1) as nat) == channel_token_fault(words[i]));
    lemma_first_channel_fault_keeps(words, (i + 1) as nat, words.len());
}

/// A refused channel is reported with the token that is wrong, where one is.
pub proof fn faults_are_reported(token: Seq<char>)
    ensures
        fault_message(ChannelFault::Empty) == "empty channel"@,
        fault_message(ChannelFault::EmptyToken) == "empty token"@,
        fault_message(ChannelFault::InvalidToken(token)) == "invalid token: "@ + token,
        fault_message(ChannelFault::WildcardInChannel) == "wildcard is not valid in channels"@,
        fault_message(ChannelFault::TailWildcardNotFinal)
            == "'>' wildcard must be the final pattern token"@,
{
}

} // verus!
