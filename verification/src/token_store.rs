//! The tokens of subscribers.
//!
//! A token is shown once, when it is minted. The store keeps a hash of it and
//! never the token itself.

use vstd::prelude::*;
use vstd::string::*;

use crate::digest;
use crate::encoding;
use crate::messages::TokenSummary;
use crate::string_map;
use crate::string_map::StringMap;
use crate::text;

verus! {

/// What is kept of a token: its hash, and when it was minted.
#[derive(Debug, PartialEq, Eq)]
pub struct TokenRecord {
    pub hash: String,
    pub created: String,
}

/// The value of a [`TokenRecord`].
pub struct RecordValue {
    pub hash: Seq<char>,
    pub created: Seq<char>,
}

impl View for TokenRecord {
    type V = RecordValue;

    open spec fn view(&self) -> RecordValue {
        RecordValue { hash: self.hash@, created: self.created@ }
    }
}

impl Clone for TokenRecord {
    fn clone(&self) -> (copy: Self)
        ensures
            copy@ == self@,
    {
        TokenRecord { hash: self.hash.clone(), created: self.created.clone() }
    }
}

/// Why an operation on the store is refused.
#[derive(Debug, PartialEq, Eq)]
pub enum TokenError {
    InvalidName { name: String },
    NameExists { name: String },
    UnknownName { name: String },
}

/// The value of a [`TokenError`].
pub enum TokenFault {
    InvalidName { name: Seq<char> },
    NameExists { name: Seq<char> },
    UnknownName { name: Seq<char> },
}

impl View for TokenError {
    type V = TokenFault;

    open spec fn view(&self) -> TokenFault {
        match self {
            TokenError::InvalidName { name } => TokenFault::InvalidName { name: name@ },
            TokenError::NameExists { name } => TokenFault::NameExists { name: name@ },
            TokenError::UnknownName { name } => TokenFault::UnknownName { name: name@ },
        }
    }
}

/// The sentence that reports a refusal.
pub open spec fn fault_message(fault: TokenFault) -> Seq<char> {
    match fault {
        TokenFault::InvalidName { name } => "invalid token name: "@ + name,
        TokenFault::NameExists { name } => "token name already exists: "@ + name,
        TokenFault::UnknownName { name } => "unknown token name: "@ + name,
    }
}

impl TokenError {
    /// The sentence that reports this refusal.
    pub fn message(&self) -> (msg: String)
        ensures
            msg@ == fault_message(self@),
    {
        match self {
            TokenError::InvalidName { name } => "invalid token name: ".to_owned().concat(
                name.as_str(),
            ),
            TokenError::NameExists { name } => "token name already exists: ".to_owned().concat(
                name.as_str(),
            ),
            TokenError::UnknownName { name } => "unknown token name: ".to_owned().concat(
                name.as_str(),
            ),
        }
    }
}

/// The characters of names.
pub open spec fn name_char(c: char) -> bool {
    'a' <= c <= 'z' || 'A' <= c <= 'Z' || '0' <= c <= '9' || c == '-' || c == '_'
}

/// Whether a text is the name of a token.
pub open spec fn valid_name(name: Seq<char>) -> bool {
    name.len() > 0 && forall|i: int| 0 <= i < name.len() ==> name_char(#[trigger] name[i])
}

/// The hash of a token, as it is stored.
pub open spec fn token_hash(token: Seq<char>) -> Seq<char> {
    "sha256:"@ + encoding::hex(digest::sha256(vstd::utf8::encode_utf8(token)))
}

/// The token made of a secret: a fixed prefix and the secret in base64 for URLs.
pub open spec fn token_text(secret: Seq<u8>) -> Seq<char> {
    "tok_"@ + encoding::base64_url(secret)
}

/// A token that was minted: one of 32 bytes.
pub open spec fn is_token(token: Seq<char>) -> bool {
    exists|secret: Seq<u8>| secret.len() == 32 && token == #[trigger] token_text(secret)
}

/// The characters of times.
pub open spec fn time_char(c: char) -> bool {
    '0' <= c <= '9' || c == '-' || c == 'T' || c == ':' || c == '.' || c == '+'
}

/// Whether a text has the form of a time in UTC: at least a date, a time of the day
/// and the offset, and no other characters than those of times.
pub open spec fn is_time(s: Seq<char>) -> bool {
    &&& s.len() >= 25
    &&& s.skip(s.len() - 6) == "+00:00"@
    &&& forall|i: int| 0 <= i < s.len() ==> time_char(#[trigger] s[i])
}

/// Whether one text stands somewhere in another.
pub open spec fn occurs(part: Seq<char>, whole: Seq<char>) -> bool {
    exists|i: int|
        0 <= i <= whole.len() - part.len() && #[trigger] whole.subrange(i, i + part.len()) == part
}

/// Whether a record gives a text away.
pub open spec fn holds(record: RecordValue, secret: Seq<char>) -> bool {
    occurs(secret, record.hash) || occurs(secret, record.created)
}

/// Whether no record gives any token away.
pub open spec fn keeps_no_token(tokens: Map<Seq<char>, RecordValue>) -> bool {
    forall|name: Seq<char>, token: Seq<char>| #[trigger]
        tokens.contains_key(name) && #[trigger] is_token(token) ==> !holds(tokens[name], token)
}

/// The last eight characters of a hash, or all of a shorter one.
pub open spec fn fingerprint_of(hash: Seq<char>) -> Seq<char> {
    if hash.len() <= 8 {
        hash
    } else {
        hash.skip(hash.len() - 8)
    }
}

/// A map of records, by their values.
pub open spec fn record_map(map: Map<Seq<char>, TokenRecord>) -> Map<Seq<char>, RecordValue> {
    map.map_values(|r: TokenRecord| r@)
}

/// Whether `name` is the first name, in the order of names, whose token has this
/// hash.
pub open spec fn first_with_hash(
    tokens: Map<Seq<char>, RecordValue>,
    hash: Seq<char>,
    name: Seq<char>,
) -> bool {
    &&& tokens.contains_key(name)
    &&& tokens[name].hash == hash
    &&& forall|other: Seq<char>| #[trigger]
        tokens.contains_key(other) && tokens[other].hash == hash ==> other == name || text::lex_lt(
            name,
            other,
        )
}

/// The tokens of the subscribers, by their names.
pub struct TokenStore {
    pub path: String,
    pub tokens: StringMap<TokenRecord>,
}

/// The value of a [`TokenStore`].
pub struct StoreValue {
    pub path: Seq<char>,
    pub tokens: Map<Seq<char>, RecordValue>,
}

impl View for TokenStore {
    type V = StoreValue;

    open spec fn view(&self) -> StoreValue {
        StoreValue { path: self.path@, tokens: record_map(self.tokens@) }
    }
}

/// `rand::random` for an array of 32 bytes. Nothing is stated of the bytes.
#[verifier::external_body]
fn random_secret() -> (secret: [u8; 32]) {
    rand::random()
}

/// `chrono::Utc::now` in the form of RFC 3339: digits and separators, with the
/// offset of UTC at the end. Which time it is is not stated.
#[verifier::external_body]
fn current_time() -> (now: String)
    ensures
        is_time(now@),
{
    chrono::Utc::now().to_rfc3339()
}

/// The token made of a secret.
fn token_of(secret: &[u8; 32]) -> (token: String)
    ensures
        token@ == token_text(secret@),
        is_token(token@),
{
    let encoded: String = encoding::encode_base64_url(secret);
    let token: String = "tok_".to_owned().concat(encoded.as_str());
    assert(token@ == token_text(secret@));
    token
}

/// The hash of a token, as it is stored.
pub fn hash_token(token: &str) -> (hash: String)
    ensures
        hash@ == token_hash(token@),
{
    let bytes: &[u8] = token.as_bytes();
    let digest: Vec<u8> = digest::digest_sha256(bytes);
    let encoded: String = encoding::encode_hex(&digest);
    "sha256:".to_owned().concat(encoded.as_str())
}

fn record_for(token: &str, created: &str) -> (record: TokenRecord)
    ensures
        record@ == minted(token@, created@),
{
    TokenRecord { hash: hash_token(token), created: created.to_owned() }
}

fn validate_name(name: &str) -> (r: Result<(), TokenError>)
    ensures
        match r {
            Ok(()) => valid_name(name@),
            Err(e) => !valid_name(name@) && e@ == (TokenFault::InvalidName { name: name@ }),
        },
{
    let chars: Vec<char> = text::chars_of(name);
    let mut i: usize = 0;
    while i < chars.len()
        invariant
            i <= chars@.len(),
            chars@ == name@,
            forall|j: int| 0 <= j < i ==> name_char(#[trigger] chars@[j]),
        decreases chars@.len() - i,
    {
        let c: char = chars[i];
        if !(('a' <= c && c <= 'z') || ('A' <= c && c <= 'Z') || ('0' <= c && c <= '9') || c == '-'
            || c == '_') {
            assert(!name_char(name@[i as int]));
            return Err(TokenError::InvalidName { name: name.to_owned() });
        }
        i += 1;
    }
    if chars.len() == 0 {
        return Err(TokenError::InvalidName { name: name.to_owned() });
    }
    Ok(())
}

fn fingerprint(hash: &str) -> (short: String)
    ensures
        short@ == fingerprint_of(hash@),
{
    let chars: Vec<char> = text::chars_of(hash);
    let from: usize = if chars.len() <= 8 {
        0
    } else {
        chars.len() - 8
    };
    let short: String = text::string_of(&chars, from, chars.len());
    assert(short@ =~= fingerprint_of(hash@));
    short
}

/// Whether a summary shows the token `name` of the store.
pub open spec fn summarises(
    summary: TokenSummary,
    name: Seq<char>,
    record: RecordValue,
    active: Map<Seq<char>, usize>,
) -> bool {
    &&& summary.name@ == name
    &&& summary.fingerprint@ == fingerprint_of(record.hash)
    &&& summary.created@ == record.created
    &&& summary.active_conns == (if active.contains_key(name) {
        active[name]
    } else {
        0
    })
}

/// Whether a token of the old store is gone, or another, in the new one.
pub open spec fn invalidated(
    old_tokens: Map<Seq<char>, RecordValue>,
    new_tokens: Map<Seq<char>, RecordValue>,
    name: Seq<char>,
) -> bool {
    old_tokens.contains_key(name) && !(new_tokens.contains_key(name) && new_tokens[name]
        == old_tokens[name])
}

impl TokenStore {
    /// A store without tokens.
    pub fn empty(path: String) -> (store: TokenStore)
        ensures
            store@ == (StoreValue { path: path@, tokens: Map::empty() }),
            keeps_no_token(store@.tokens),
    {
        let store = TokenStore { path, tokens: StringMap::new() };
        assert(store@.tokens =~= Map::<Seq<char>, RecordValue>::empty());
        store
    }

    /// Mints a token under a new name and returns it.
    pub fn add(&mut self, name: &str) -> (r: Result<String, TokenError>)
        ensures
            match r {
                Ok(token) => valid_name(name@) && !old(self)@.tokens.contains_key(name@)
                    && is_token(token@) && mints_into(
                    old(self)@,
                    final(self)@,
                    name@,
                    token@,
                ),
                Err(e) => final(self)@ == old(self)@ && if !valid_name(name@) {
                    e@ == (TokenFault::InvalidName { name: name@ })
                } else {
                    old(self)@.tokens.contains_key(name@) && e@ == (TokenFault::NameExists {
                        name: name@,
                    })
                },
            },
            r is Ok <==> valid_name(name@) && !old(self)@.tokens.contains_key(name@),
            keeps_no_token(old(self)@.tokens) ==> keeps_no_token(final(self)@.tokens),
    {
        validate_name(name)?;
        if self.tokens.contains_key(name) {
            return Err(TokenError::NameExists { name: name.to_owned() });
        }
        Ok(self.put_new(name))
    }

    /// Stores the hash of the token made of a secret under a name, with the time, and
    /// returns the token.
    pub fn store_minted(&mut self, name: &str, secret: &[u8; 32], created: &str) -> (token: String)
        ensures
            token@ == token_text(secret@),
            is_token(token@),
            final(self)@ == (StoreValue {
                tokens: old(self)@.tokens.insert(name@, minted(token@, created@)),
                ..old(self)@
            }),
    {
        let ghost before = self@;
        let token: String = token_of(secret);
        let record: TokenRecord = record_for(token.as_str(), created);
        let _ = self.tokens.insert(name.to_owned(), record);
        assert(self@.tokens =~= before.tokens.insert(name@, minted(token@, created@)));
        token
    }

    /// Mints a token for a name and stores its hash.
    fn put_new(&mut self, name: &str) -> (token: String)
        ensures
            is_token(token@),
            mints_into(old(self)@, final(self)@, name@, token@),
            keeps_no_token(old(self)@.tokens) ==> keeps_no_token(final(self)@.tokens),
    {
        let ghost before = self@;
        let secret: [u8; 32] = random_secret();
        let created: String = current_time();
        let token: String = self.store_minted(name, &secret, created.as_str());
        proof {
            assert(minted(token@, created@).created == created@);
            if keeps_no_token(before.tokens) {
                minted_tokens_are_not_kept(before.tokens, name@, token@, created@);
            }
        }
        token
    }

    /// Mints a new token for a name that has one; the old token is no longer
    /// known.
    pub fn rotate(&mut self, name: &str) -> (r: Result<String, TokenError>)
        ensures
            match r {
                Ok(token) => valid_name(name@) && old(self)@.tokens.contains_key(name@) && is_token(
                    token@,
                ) && mints_into(
                    old(self)@,
                    final(self)@,
                    name@,
                    token@,
                ),
                Err(e) => final(self)@ == old(self)@ && if !valid_name(name@) {
                    e@ == (TokenFault::InvalidName { name: name@ })
                } else {
                    !old(self)@.tokens.contains_key(name@) && e@ == (TokenFault::UnknownName {
                        name: name@,
                    })
                },
            },
            r is Ok <==> valid_name(name@) && old(self)@.tokens.contains_key(name@),
            keeps_no_token(old(self)@.tokens) ==> keeps_no_token(final(self)@.tokens),
    {
        validate_name(name)?;
        if !self.tokens.contains_key(name) {
            return Err(TokenError::UnknownName { name: name.to_owned() });
        }
        Ok(self.put_new(name))
    }

    /// Forgets a name and its token.
    pub fn revoke(&mut self, name: &str) -> (r: Result<(), TokenError>)
        ensures
            match r {
                Ok(()) => old(self)@.tokens.contains_key(name@) && final(self)@ == (StoreValue {
                    tokens: old(self)@.tokens.remove(name@),
                    ..old(self)@
                }),
                Err(e) => !old(self)@.tokens.contains_key(name@) && final(self)@ == old(self)@ && e@
                    == (TokenFault::UnknownName { name: name@ }),
            },
            keeps_no_token(old(self)@.tokens) ==> keeps_no_token(final(self)@.tokens),
    {
        let ghost before = self@;
        match self.tokens.remove(name) {
            Some(_) => {
                proof {
                    assert(self@.tokens =~= before.tokens.remove(name@));
                    assert(keeps_no_token(before.tokens) ==> keeps_no_token(self@.tokens)) by {
                        assert forall|n: Seq<char>, any: Seq<char>|
                            keeps_no_token(before.tokens) && #[trigger] self@.tokens.contains_key(
                                n,
                            ) && #[trigger] is_token(any) implies !holds(self@.tokens[n], any) by {
                            assert(before.tokens.contains_key(n));
                        }
                    }
                }
                Ok(())
            },
            None => {
                assert(self@.tokens =~= before.tokens);
                Err(TokenError::UnknownName { name: name.to_owned() })
            },
        }
    }

    /// The name whose token was presented: the first, in the order of names,
    /// whose stored hash is that of the presented text.
    pub fn authenticate(&self, presented: &str) -> (name: Option<String>)
        ensures
            match name {
                Some(n) => first_with_hash(self@.tokens, token_hash(presented@), n@),
                None => forall|n: Seq<char>| #[trigger]
                    self@.tokens.contains_key(n) ==> self@.tokens[n].hash != token_hash(presented@),
            },
    {
        let hash: String = hash_token(presented);
        let n: usize = self.tokens.len();
        let ghost keys = self.tokens.key_seq();
        let ghost tokens = self@.tokens;
        let mut i: usize = 0;
        while i < n
            invariant
                i <= n == keys.len(),
                keys == self.tokens.key_seq(),
                tokens == self@.tokens,
                self.tokens.keys_agree(),
                hash@ == token_hash(presented@),
                forall|j: int| 0 <= j < i ==> tokens[#[trigger] keys[j]].hash != hash@,
            decreases n - i,
        {
            let record: &TokenRecord = self.tokens.value_at(i);
            assert(tokens[keys[i as int]] == record@);
            if same_hash(record.hash.as_str(), hash.as_str()) {
                let name: String = self.tokens.key_at(i).clone();
                assert forall|other: Seq<char>| #[trigger]
                    tokens.contains_key(other) && tokens[other].hash == hash@ implies other == name@
                    || text::lex_lt(name@, other) by {
                    assert(self.tokens@.contains_key(other));
                    let k = keys.index_of(other);
                    assert(keys[k] == other);
                    if k < i {
                        assert(tokens[keys[k]].hash != hash@);
                    } else if k > i {
                        assert(text::lex_lt(keys[i as int], keys[k]));
                    }
                }
                return Some(name);
            }
            i += 1;
        }
        assert forall|name: Seq<char>| #[trigger] tokens.contains_key(name) implies tokens[name].hash
            != hash@ by {
            assert(self.tokens@.contains_key(name));
            assert(keys[keys.index_of(name)] == name);
        }
        None
    }

    /// What is shown of the tokens, in the order of their names.
    pub fn list(&self, active_conns: &StringMap<usize>) -> (rows: Vec<TokenSummary>)
        ensures
            rows@.len() == self.tokens.key_seq().len(),
            self.tokens.keys_agree(),
            forall|i: int|
                0 <= i < rows@.len() ==> summarises(
                    #[trigger] rows@[i],
                    self.tokens.key_seq()[i],
                    self@.tokens[self.tokens.key_seq()[i]],
                    active_conns@,
                ),
    {
        let n: usize = self.tokens.len();
        let ghost keys = self.tokens.key_seq();
        let mut rows: Vec<TokenSummary> = Vec::new();
        let mut i: usize = 0;
        while i < n
            invariant
                i <= n == keys.len(),
                keys == self.tokens.key_seq(),
                self.tokens.keys_agree(),
                rows@.len() == i,
                forall|j: int|
                    0 <= j < i ==> summarises(
                        #[trigger] rows@[j],
                        keys[j],
                        self@.tokens[keys[j]],
                        active_conns@,
                    ),
            decreases n - i,
        {
            let record: &TokenRecord = self.tokens.value_at(i);
            let name: String = self.tokens.key_at(i).clone();
            assert(self@.tokens[keys[i as int]] == record@);
            let active: usize = match active_conns.get(name.as_str()) {
                Some(count) => *count,
                None => 0,
            };
            rows.push(
                TokenSummary {
                    name,
                    fingerprint: fingerprint(record.hash.as_str()),
                    created: record.created.clone(),
                    active_conns: active,
                },
            );
            i += 1;
        }
        rows
    }

    /// The names, in their order.
    pub fn names(&self) -> (names: Vec<String>)
        ensures
            string_map::ascending(text::texts(names@)),
            forall|n: Seq<char>| #[trigger]
                text::texts(names@).contains(n) <==> self@.tokens.contains_key(n),
    {
        let n: usize = self.tokens.len();
        let ghost keys = self.tokens.key_seq();
        let mut names: Vec<String> = Vec::new();
        let mut i: usize = 0;
        while i < n
            invariant
                i <= n == keys.len(),
                keys == self.tokens.key_seq(),
                self.tokens.keys_agree(),
                names@.len() == i,
                forall|j: int| 0 <= j < i ==> (#[trigger] names@[j])@ == keys[j],
            decreases n - i,
        {
            names.push(self.tokens.key_at(i).clone());
            i += 1;
        }
        assert(text::texts(names@) =~= keys);
        assert forall|name: Seq<char>| #[trigger]
            text::texts(names@).contains(name) <==> self@.tokens.contains_key(name) by {
            assert(self.tokens@.contains_key(name) <==> keys.contains(name));
        }
        names
    }

    /// The names, in their order, whose tokens are gone or others in a
    /// replacement of the store.
    pub fn invalidated_names(&self, replacement: &TokenStore) -> (names: Vec<String>)
        ensures
            string_map::ascending(text::texts(names@)),
            forall|n: Seq<char>| #[trigger]
                text::texts(names@).contains(n) <==> invalidated(
                    self@.tokens,
                    replacement@.tokens,
                    n,
                ),
    {
        let n: usize = self.tokens.len();
        let ghost keys = self.tokens.key_seq();
        let ghost mine = self@.tokens;
        let ghost theirs = replacement@.tokens;
        let mut names: Vec<String> = Vec::new();
        let mut i: usize = 0;
        while i < n
            invariant
                i <= n == keys.len(),
                keys == self.tokens.key_seq(),
                mine == self@.tokens,
                theirs == replacement@.tokens,
                self.tokens.keys_agree(),
                string_map::ascending(text::texts(names@)),
                forall|k: Seq<char>| #[trigger]
                    text::texts(names@).contains(k) <==> keys.take(i as int).contains(k)
                        && invalidated(mine, theirs, k),
            decreases n - i,
        {
            let record: &TokenRecord = self.tokens.value_at(i);
            let name: String = self.tokens.key_at(i).clone();
            let ghost before = text::texts(names@);
            let ghost key = name@;
            assert(mine[key] == record@);
            let kept: bool = match replacement.tokens.get(name.as_str()) {
                Some(other) => {
                    let same: bool = text::same_text(other.hash.as_str(), record.hash.as_str())
                        && text::same_text(other.created.as_str(), record.created.as_str());
                    assert(theirs[key] == other@);
                    same
                },
                None => false,
            };
            assert(kept == !invalidated(mine, theirs, key));
            proof {
                text::lemma_take_one_more(keys, i as int);
            }
            if !kept {
                names.push(name);
                proof {
                    let after = text::texts(names@);
                    assert(after =~= before.push(key));
                    assert forall|a: int, b: int| 0 <= a < b < after.len() implies text::lex_lt(
                        #[trigger] after[a],
                        #[trigger] after[b],
                    ) by {
                        assert(after[a] == before[a]);
                        if b < before.len() {
                            assert(after[b] == before[b]);
                        } else {
                            assert(before.contains(before[a]));
                            let j = keys.take(i as int).index_of(before[a]);
                            assert(keys[j] == before[a]);
                            assert(text::lex_lt(keys[j], keys[i as int]));
                        }
                    }
                    assert forall|k: Seq<char>| #[trigger] after.contains(k) <==> keys.take(
                        i as int + 1,
                    ).contains(k) && invalidated(mine, theirs, k) by {
                        text::lemma_push_contains(before, key);
                    }
                }
            }
            i += 1;
        }
        assert(keys.take(n as int) =~= keys);
        assert forall|k: Seq<char>| #[trigger]
            text::texts(names@).contains(k) <==> invalidated(mine, theirs, k) by {
            assert(self.tokens@.contains_key(k) <==> keys.contains(k));
        }
        names
    }

    /// A copy of the store, to be changed, stored and then put in its place.
    pub fn copy(&self) -> (store: TokenStore)
        ensures
            store@ == self@,
    {
        let n: usize = self.tokens.len();
        let ghost keys = self.tokens.key_seq();
        let mut tokens: StringMap<TokenRecord> = StringMap::new();
        let mut i: usize = 0;
        while i < n
            invariant
                i <= n == keys.len(),
                keys == self.tokens.key_seq(),
                self.tokens.keys_agree(),
                forall|k: Seq<char>| #[trigger]
                    tokens@.contains_key(k) <==> keys.take(i as int).contains(k),
                forall|k: Seq<char>| #[trigger]
                    tokens@.contains_key(k) ==> tokens@[k]@ == self.tokens@[k]@,
            decreases n - i,
        {
            let key: String = self.tokens.key_at(i).clone();
            let record: TokenRecord = self.tokens.value_at(i).clone();
            let _ = tokens.insert(key, record);
            proof {
                text::lemma_take_one_more(keys, i as int);
            }
            i += 1;
        }
        let store: TokenStore = TokenStore { path: self.path.clone(), tokens };
        proof {
            assert(keys.take(n as int) =~= keys);
            assert(store@.tokens =~= self@.tokens);
        }
        store
    }
}

/// Compares two hashes, in a time that does not depend on where they differ.
fn same_hash(a: &str, b: &str) -> (same: bool)
    ensures
        same == (a@ == b@),
{
    let left: &[u8] = a.as_bytes();
    let right: &[u8] = b.as_bytes();
    proof {
        vstd::utf8::encode_utf8_decode_utf8(a@);
        vstd::utf8::encode_utf8_decode_utf8(b@);
    }
    digest::same_bytes(left, right)
}

/// The record of a token.
pub open spec fn minted(token: Seq<char>, created: Seq<char>) -> RecordValue {
    RecordValue { hash: token_hash(token), created }
}

/// Whether a store came of another by putting the hash of a token, and the time,
/// under a name.
pub open spec fn mints_into(
    before: StoreValue,
    after: StoreValue,
    name: Seq<char>,
    token: Seq<char>,
) -> bool {
    exists|created: Seq<char>|
        is_time(created) && after == (StoreValue {
            tokens: before.tokens.insert(name, #[trigger] minted(token, created)),
            ..before
        })
}

proof fn lemma_no_token_without_t(token: Seq<char>, whole: Seq<char>)
    requires
        is_token(token),
        forall|i: int| 0 <= i < whole.len() ==> #[trigger] whole[i] != 't',
    ensures
        !occurs(token, whole),
{
    reveal_strlit("tok_");
    assert(token[0] == 't');
    if occurs(token, whole) {
        let i = choose|i: int|
            0 <= i <= whole.len() - token.len() && #[trigger] whole.subrange(i, i + token.len())
                == token;
        assert(whole.subrange(i, i + token.len())[0] == whole[i]);
    }
}

/// The record of a token holds neither that token nor any other.
pub proof fn record_holds_no_token(token: Seq<char>, created: Seq<char>, any: Seq<char>)
    requires
        is_time(created),
        is_token(any),
    ensures
        !holds(minted(token, created), any),
{
    reveal_strlit("sha256:");
    let hash = token_hash(token);
    let digits = encoding::hex(digest::sha256(vstd::utf8::encode_utf8(token)));
    assert forall|i: int| 0 <= i < hash.len() implies #[trigger] hash[i] != 't' by {
        if i >= 7 {
            assert(hash[i] == digits[i - 7]);
        }
    }
    lemma_no_token_without_t(any, hash);
    assert forall|i: int| 0 <= i < created.len() implies #[trigger] created[i] != 't' by {
        assert(time_char(created[i]));
    }
    lemma_no_token_without_t(any, created);
}

/// The store keeps no token: where no record gives one away, none does once a token
/// is minted, or a name is revoked.
pub proof fn minted_tokens_are_not_kept(
    tokens: Map<Seq<char>, RecordValue>,
    name: Seq<char>,
    token: Seq<char>,
    created: Seq<char>,
)
    requires
        keeps_no_token(tokens),
        is_time(created),
    ensures
        keeps_no_token(tokens.insert(name, minted(token, created))),
        keeps_no_token(tokens.remove(name)),
{
    let after = tokens.insert(name, minted(token, created));
    assert forall|n: Seq<char>, any: Seq<char>| #[trigger]
        after.contains_key(n) && #[trigger] is_token(any) implies !holds(after[n], any) by {
        if n == name {
            record_holds_no_token(token, created, any);
        } else {
            assert(tokens.contains_key(n));
        }
    }
    let left = tokens.remove(name);
    assert forall|n: Seq<char>, any: Seq<char>| #[trigger]
        left.contains_key(n) && #[trigger] is_token(any) implies !holds(left[n], any) by {
        assert(tokens.contains_key(n));
    }
}

/// A token that was stored under a name authenticates as that name, unless
/// another name has a token with the same hash.
pub proof fn stored_token_authenticates(
    tokens: Map<Seq<char>, RecordValue>,
    name: Seq<char>,
    token: Seq<char>,
    created: Seq<char>,
    found: Seq<char>,
)
    requires
        forall|other: Seq<char>| #[trigger]
            tokens.contains_key(other) && other != name ==> tokens[other].hash != token_hash(token),
    ensures
        first_with_hash(tokens.insert(name, minted(token, created)), token_hash(token), name),
        first_with_hash(tokens.insert(name, minted(token, created)), token_hash(token), found)
            ==> found == name,
{
}

/// Once a name is revoked, no presented token authenticates as that name. The
/// other names authenticate as before.
pub proof fn revoked_name_is_refused(
    tokens: Map<Seq<char>, RecordValue>,
    name: Seq<char>,
    hash: Seq<char>,
    other: Seq<char>,
)
    ensures
        !first_with_hash(tokens.remove(name), hash, name),
        other != name && first_with_hash(tokens, hash, other) ==> first_with_hash(
            tokens.remove(name),
            hash,
            other,
        ),
{
}

/// Once a token is rotated, the old one authenticates as its name no more, unless
/// the new one has the same hash.
pub proof fn rotated_token_is_refused(
    tokens: Map<Seq<char>, RecordValue>,
    name: Seq<char>,
    old_token: Seq<char>,
    new_token: Seq<char>,
    created: Seq<char>,
)
    requires
        token_hash(new_token) != token_hash(old_token),
    ensures
        !first_with_hash(
            tokens.insert(name, minted(new_token, created)),
            token_hash(old_token),
            name,
        ),
{
}

/// Names are letters, digits, hyphens and underscores, at least one, and nothing else.
pub proof fn which_names_are_valid(name: Seq<char>, c: char)
    ensures
        !valid_name(Seq::empty()),
        valid_name(seq![c]) <==> 'a' <= c <= 'z' || 'A' <= c <= 'Z' || '0' <= c <= '9' || c == '-'
            || c == '_',
        name.len() > 0 ==> (valid_name(name.push(c)) <==> valid_name(name) && valid_name(seq![c])),
{
    let one = seq![c];
    assert(one[0] == c);
    if valid_name(one) {
        assert(name_char(one[0]));
    }
    if name.len() > 0 {
        let longer = name.push(c);
        if valid_name(longer) {
            assert forall|i: int| 0 <= i < name.len() implies name_char(#[trigger] name[i]) by {
                assert(name_char(longer[i]));
            }
            assert(name_char(longer[name.len() as int]));
        }
        if valid_name(name) && valid_name(one) {
            assert forall|i: int| 0 <= i < longer.len() implies name_char(#[trigger] longer[i]) by {
                if i < name.len() {
                    assert(name_char(name[i]));
                } else {
                    assert(name_char(one[0]));
                }
            }
        }
    }
}

/// The fingerprint of a token is the end of its hash: eight characters, or the whole of
/// a shorter one.
pub proof fn fingerprints_are_the_end(before: Seq<char>, end: Seq<char>)
    requires
        end.len() == 8,
    ensures
        fingerprint_of(before + end) == end,
        before.len() <= 8 ==> fingerprint_of(before) == before,
{
    assert((before + end).skip(before.len() as int) =~= end);
}

/// A new store keeps the tokens whose records it has unchanged, and invalidates the
/// others: those that are gone, and those with another hash or another time.
pub proof fn changed_tokens_are_invalidated(
    held: Map<Seq<char>, RecordValue>,
    name: Seq<char>,
    other: Seq<char>,
    record: RecordValue,
)
    ensures
        !invalidated(held, held, name),
        held.contains_key(name) ==> invalidated(held, held.remove(name), name),
        held.contains_key(name) ==> (invalidated(held, held.insert(name, record), name)
            <==> record.hash != held[name].hash || record.created != held[name].created),
        other != name ==> !invalidated(held, held.insert(name, record), other) && !invalidated(
            held,
            held.remove(name),
            other,
        ),
        !held.contains_key(name) ==> !invalidated(held, held.insert(name, record), name),
{
}

/// A listed token shows its name, its time and the end of its hash, and how many
/// connections use it: none where none is counted.
pub proof fn summaries_show_their_token(
    summary: TokenSummary,
    name: Seq<char>,
    record: RecordValue,
    active: Map<Seq<char>, usize>,
    n: usize,
)
    ensures
        summarises(summary, name, record, active.insert(name, n)) ==> summary.name@ == name
            && summary.created@ == record.created && summary.active_conns == n
            && summary.fingerprint@.len() <= 8 && summary.fingerprint@ == record.hash.skip(
            record.hash.len() - summary.fingerprint@.len(),
        ),
        summarises(summary, name, record, active.remove(name)) ==> summary.active_conns == 0,
{
    assert(record.hash.skip(0) =~= record.hash);
}

/// The hash of a token is its SHA-256 digest in hexadecimal behind `sha256:`, and a
/// token is 32 bytes in base64 for URLs behind `tok_`: from a token its bytes are read
/// back.
pub proof fn tokens_and_hashes_have_their_form(token: Seq<char>, secret: Seq<u8>)
    ensures
        token_hash(token).take(7) == "sha256:"@,
        encoding::unhex(token_hash(token).skip(7)) == Some(
            digest::sha256(vstd::utf8::encode_utf8(token)),
        ),
        token_text(secret).take(4) == "tok_"@,
        token_text(secret).skip(4) == encoding::base64_url(secret),
        minted(token, token).hash == token_hash(token),
{
    reveal_strlit("sha256:");
    reveal_strlit("tok_");
    let digits = encoding::hex(digest::sha256(vstd::utf8::encode_utf8(token)));
    assert(token_hash(token).take(7) =~= "sha256:"@);
    assert(token_hash(token).skip(7) =~= digits);
    encoding::unhex_undoes_hex(digest::sha256(vstd::utf8::encode_utf8(token)));
    assert(token_text(secret).take(4) =~= "tok_"@);
    assert(token_text(secret).skip(4) =~= encoding::base64_url(secret));
}

/// A presented token authenticates only as a name that has its hash; of several names
/// the first in their order, and there is only one such name.
pub proof fn one_name_is_authenticated(
    tokens: Map<Seq<char>, RecordValue>,
    hash: Seq<char>,
    a: Seq<char>,
    b: Seq<char>,
)
    requires
        first_with_hash(tokens, hash, a),
    ensures
        tokens.contains_key(a),
        tokens[a].hash == hash,
        tokens.contains_key(b) && tokens[b].hash == hash && b != a ==> text::lex_lt(a, b)
            && !first_with_hash(tokens, hash, b),
{
    if tokens.contains_key(b) && tokens[b].hash == hash && b != a && first_with_hash(
        tokens,
        hash,
        b,
    ) {
        text::lex_lt_transitive(a, b, a);
        text::lex_lt_irreflexive(a);
    }
}

/// A refusal ends with the name that it is about.
pub proof fn refusals_end_with_the_name(name: Seq<char>)
    ensures
        fault_message(TokenFault::InvalidName { name }) == "invalid token name: "@ + name,
        fault_message(TokenFault::NameExists { name }) == "token name already exists: "@ + name,
        fault_message(TokenFault::UnknownName { name }) == "unknown token name: "@ + name,
{
}

/// A new token is stored under its name by its hash alone, with the time of it; the
/// other tokens stay as they were.
pub proof fn new_tokens_join_the_others(
    before: StoreValue,
    after: StoreValue,
    name: Seq<char>,
    token: Seq<char>,
    other: Seq<char>,
)
    requires
        mints_into(before, after, name, token),
    ensures
        after.tokens.contains_key(name),
        after.tokens[name].hash == token_hash(token),
        is_time(after.tokens[name].created),
        other != name ==> (after.tokens.contains_key(other) <==> before.tokens.contains_key(other)),
        other != name ==> after.tokens[other] == before.tokens[other],
{
}

} // verus!
