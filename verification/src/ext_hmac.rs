//! The extension for webhooks that carry an HMAC of their body in a header.
//!
//! Which header, digest and encoding a provider uses is configured; the secret
//! comes with each dispatch.

use vstd::prelude::*;
use vstd::string::*;

use crate::channel;
use crate::digest;
use crate::encoding;
use crate::ext_kit;
use crate::ext_kit::ExtError;
use crate::messages;
use crate::messages::{Event, HttpReply, SrvMsg};
use crate::string_map;
use crate::string_map::StringMap;
use crate::text;

verus! {

/// The digest of the HMAC.
#[derive(Clone, Copy, Debug, PartialEq, Eq, Structural)]
pub enum Algorithm {
    Sha1,
    Sha256,
    Sha512,
}

/// How a signature is written.
#[derive(Clone, Copy, Debug, PartialEq, Eq, Structural)]
pub enum Encoding {
    Hex,
    Base64,
}

/// Why a configuration is refused.
#[derive(Debug, PartialEq, Eq)]
pub enum HmacConfigError {
    Algorithm(String),
    Encoding(String),
}

/// The value of an [`HmacConfigError`].
pub enum HmacConfigFault {
    Algorithm(Seq<char>),
    Encoding(Seq<char>),
}

impl View for HmacConfigError {
    type V = HmacConfigFault;

    open spec fn view(&self) -> HmacConfigFault {
        match self {
            HmacConfigError::Algorithm(given) => HmacConfigFault::Algorithm(given@),
            HmacConfigError::Encoding(given) => HmacConfigFault::Encoding(given@),
        }
    }
}

/// The sentence that reports a fault.
pub open spec fn fault_message(fault: HmacConfigFault) -> Seq<char> {
    match fault {
        HmacConfigFault::Algorithm(given) => "unsupported HMAC algorithm "@ + text::shown_quoted(given)
            + " (expected sha1, sha256, or sha512)"@,
        HmacConfigFault::Encoding(given) => "unsupported signature encoding "@ + text::shown_quoted(given)
            + " (expected hex or base64)"@,
    }
}

impl HmacConfigError {
    /// The sentence that reports this error.
    pub fn message(&self) -> (msg: String)
        ensures
            msg@ == fault_message(self@),
    {
        match self {
            HmacConfigError::Algorithm(given) => {
                let mut msg: String = "unsupported HMAC algorithm ".to_owned();
                msg.append(text::quote(given.as_str()).as_str());
                msg.append(" (expected sha1, sha256, or sha512)");
                msg
            },
            HmacConfigError::Encoding(given) => {
                let mut msg: String = "unsupported signature encoding ".to_owned();
                msg.append(text::quote(given.as_str()).as_str());
                msg.append(" (expected hex or base64)");
                msg
            },
        }
    }
}

/// A setting without the white space around it and in lower case.
pub open spec fn normal(setting: Seq<char>) -> Seq<char> {
    text::lower(text::trimmed(setting))
}

/// The algorithm that a setting names.
pub open spec fn algorithm_named(setting: Seq<char>) -> Option<Algorithm> {
    if normal(setting) == "sha1"@ {
        Some(Algorithm::Sha1)
    } else if normal(setting) == "sha256"@ {
        Some(Algorithm::Sha256)
    } else if normal(setting) == "sha512"@ {
        Some(Algorithm::Sha512)
    } else {
        None
    }
}

/// The HMAC of a message under a key.
pub open spec fn mac_of(algorithm: Algorithm, key: Seq<u8>, message: Seq<u8>) -> Seq<u8> {
    match algorithm {
        Algorithm::Sha1 => digest::hmac_sha1(key, message),
        Algorithm::Sha256 => digest::hmac_sha256(key, message),
        Algorithm::Sha512 => digest::hmac_sha512(key, message),
    }
}

impl Algorithm {
    /// Reads the name of an algorithm, whatever its case.
    pub fn parse(input: &str) -> (r: Result<Algorithm, HmacConfigError>)
        ensures
            match r {
                Ok(algorithm) => algorithm_named(input@) == Some(algorithm),
                Err(e) => algorithm_named(input@) is None && e@ == HmacConfigFault::Algorithm(
                    normal(input@),
                ),
            },
    {
        let name: String = text::to_lower(text::trim(input).as_str());
        if text::same_text(name.as_str(), "sha1") {
            Ok(Algorithm::Sha1)
        } else if text::same_text(name.as_str(), "sha256") {
            Ok(Algorithm::Sha256)
        } else if text::same_text(name.as_str(), "sha512") {
            Ok(Algorithm::Sha512)
        } else {
            Err(HmacConfigError::Algorithm(name))
        }
    }

    /// The HMAC of a message under a key.
    pub fn mac(self, secret: &[u8], body: &[u8]) -> (mac: Vec<u8>)
        ensures
            mac@ == mac_of(self, secret@, body@),
            mac@.len() == (match self {
                Algorithm::Sha1 => 20nat,
                Algorithm::Sha256 => 32nat,
                Algorithm::Sha512 => 64nat,
            }),
    {
        match self {
            Algorithm::Sha1 => digest::mac_sha1(secret, body),
            Algorithm::Sha256 => digest::mac_sha256(secret, body),
            Algorithm::Sha512 => digest::mac_sha512(secret, body),
        }
    }
}

/// The encoding that a setting names.
pub open spec fn encoding_named(setting: Seq<char>) -> Option<Encoding> {
    if normal(setting) == "hex"@ {
        Some(Encoding::Hex)
    } else if normal(setting) == "base64"@ || normal(setting) == "b64"@ {
        Some(Encoding::Base64)
    } else {
        None
    }
}

/// Bytes as they are written.
pub open spec fn written(style: Encoding, bytes: Seq<u8>) -> Seq<char> {
    match style {
        Encoding::Hex => encoding::hex(bytes),
        Encoding::Base64 => encoding::base64(bytes),
    }
}

/// The bytes that a text stands for.
pub open spec fn read(style: Encoding, value: Seq<char>) -> Option<Seq<u8>> {
    match style {
        Encoding::Hex => encoding::unhex(value),
        Encoding::Base64 => ext_kit::decoded(value),
    }
}

impl Encoding {
    /// Reads the name of an encoding, whatever its case.
    pub fn parse(input: &str) -> (r: Result<Encoding, HmacConfigError>)
        ensures
            match r {
                Ok(style) => encoding_named(input@) == Some(style),
                Err(e) => encoding_named(input@) is None && e@ == HmacConfigFault::Encoding(
                    normal(input@),
                ),
            },
    {
        let name: String = text::to_lower(text::trim(input).as_str());
        if text::same_text(name.as_str(), "hex") {
            Ok(Encoding::Hex)
        } else if text::same_text(name.as_str(), "base64") || text::same_text(
            name.as_str(),
            "b64",
        ) {
            Ok(Encoding::Base64)
        } else {
            Err(HmacConfigError::Encoding(name))
        }
    }

    /// Writes bytes.
    pub fn encode(self, bytes: &[u8]) -> (value: String)
        ensures
            value@ == written(self, bytes@),
    {
        match self {
            Encoding::Hex => encoding::encode_hex(bytes),
            Encoding::Base64 => encoding::encode_base64(bytes),
        }
    }

    /// Reads bytes; nothing where the text is malformed.
    pub fn decode(self, value: &str) -> (bytes: Option<Vec<u8>>)
        ensures
            match bytes {
                Some(decoded) => read(self, value@) == Some(decoded@),
                None => read(self, value@) is None,
            },
    {
        match self {
            Encoding::Hex => encoding::decode_hex(value),
            Encoding::Base64 => match ext_kit::decode_body_b64(value) {
                Ok(decoded) => Some(decoded),
                Err(_) => None,
            },
        }
    }
}

/// Reading undoes writing.
pub proof fn reading_undoes_writing(style: Encoding, bytes: Seq<u8>)
    ensures
        read(style, written(style, bytes)) == Some(bytes),
{
    encoding::unhex_undoes_hex(bytes);
    ext_kit::decoded_undoes_base64(bytes);
}

/// How a provider signs its webhooks.
#[derive(Debug)]
pub struct HmacConfig {
    /// The header with the signature.
    pub header: String,
    pub algorithm: Algorithm,
    pub encoding: Encoding,
    /// What stands before the signature in the header.
    pub prefix: Option<String>,
    /// The first token of the channels.
    pub channel_prefix: String,
}

/// The value of an [`HmacConfig`].
pub struct HmacValue {
    pub header: Seq<char>,
    pub algorithm: Algorithm,
    pub encoding: Encoding,
    pub prefix: Option<Seq<char>>,
    pub channel_prefix: Seq<char>,
}

impl View for HmacConfig {
    type V = HmacValue;

    open spec fn view(&self) -> HmacValue {
        HmacValue {
            header: self.header@,
            algorithm: self.algorithm,
            encoding: self.encoding,
            prefix: text::optional(self.prefix),
            channel_prefix: self.channel_prefix@,
        }
    }
}

impl Clone for HmacConfig {
    fn clone(&self) -> (copy: Self)
        ensures
            copy@ == self@,
    {
        HmacConfig {
            header: self.header.clone(),
            algorithm: self.algorithm,
            encoding: self.encoding,
            prefix: match &self.prefix {
                Some(prefix) => Some(prefix.clone()),
                None => None,
            },
            channel_prefix: self.channel_prefix.clone(),
        }
    }
}

/// The configuration where nothing is set.
pub open spec fn default_config() -> HmacValue {
    HmacValue {
        header: "X-Signature"@,
        algorithm: Algorithm::Sha256,
        encoding: Encoding::Hex,
        prefix: None,
        channel_prefix: "hmac"@,
    }
}

impl Default for HmacConfig {
    fn default() -> (config: Self)
        ensures
            config@ == default_config(),
    {
        HmacConfig {
            header: "X-Signature".to_owned(),
            algorithm: Algorithm::Sha256,
            encoding: Encoding::Hex,
            prefix: None,
            channel_prefix: "hmac".to_owned(),
        }
    }
}

/// A setting counts where it is more than white space.
pub open spec fn effective(setting: Option<Seq<char>>) -> Option<Seq<char>> {
    match setting {
        Some(value) => if text::trimmed(value).len() > 0 {
            Some(value)
        } else {
            None
        },
        None => None,
    }
}

/// A setting, where it is more than white space.
pub fn non_empty_env(setting: Option<String>) -> (value: Option<String>)
    ensures
        text::optional(value) == effective(text::optional(setting)),
{
    match setting {
        Some(value) => {
            if text::trim(value.as_str()).as_str().is_empty() {
                None
            } else {
                Some(value)
            }
        },
        None => None,
    }
}

/// The configuration that the settings describe. Of a bad algorithm and a bad
/// encoding the algorithm is reported.
pub open spec fn configured(
    header: Option<Seq<char>>,
    algorithm: Option<Seq<char>>,
    style: Option<Seq<char>>,
    prefix: Option<Seq<char>>,
    channel_prefix: Option<Seq<char>>,
) -> Result<HmacValue, HmacConfigFault> {
    let chosen_algorithm = match effective(algorithm) {
        Some(value) => algorithm_named(value),
        None => Some(Algorithm::Sha256),
    };
    let chosen_style = match effective(style) {
        Some(value) => encoding_named(value),
        None => Some(Encoding::Hex),
    };
    match (chosen_algorithm, chosen_style) {
        (None, _) => Err(HmacConfigFault::Algorithm(normal(algorithm->Some_0))),
        (_, None) => Err(HmacConfigFault::Encoding(normal(style->Some_0))),
        (Some(algorithm), Some(style)) => Ok(
            HmacValue {
                header: match effective(header) {
                    Some(value) => value,
                    None => default_config().header,
                },
                algorithm,
                encoding: style,
                prefix: effective(prefix),
                channel_prefix: match effective(channel_prefix) {
                    Some(value) => ext_kit::token_of(value),
                    None => default_config().channel_prefix,
                },
            },
        ),
    }
}

impl HmacConfig {
    /// The configuration that settings from the environment describe: those of
    /// `WHDR_HMAC_HEADER`, `WHDR_HMAC_ALGORITHM`, `WHDR_HMAC_ENCODING`,
    /// `WHDR_HMAC_PREFIX` and `WHDR_HMAC_CHANNEL_PREFIX`, where they are set.
    pub fn from_env(
        header: Option<String>,
        algorithm: Option<String>,
        encoding: Option<String>,
        prefix: Option<String>,
        channel_prefix: Option<String>,
    ) -> (r: Result<HmacConfig, HmacConfigError>)
        ensures
            match r {
                Ok(config) => configured(
                    text::optional(header),
                    text::optional(algorithm),
                    text::optional(encoding),
                    text::optional(prefix),
                    text::optional(channel_prefix),
                ) == Ok::<HmacValue, HmacConfigFault>(config@),
                Err(e) => configured(
                    text::optional(header),
                    text::optional(algorithm),
                    text::optional(encoding),
                    text::optional(prefix),
                    text::optional(channel_prefix),
                ) == Err::<HmacValue, HmacConfigFault>(e@),
            },
    {
        let unset: HmacConfig = HmacConfig::default();
        let header: String = match non_empty_env(header) {
            Some(value) => value,
            None => unset.header,
        };
        let algorithm: Algorithm = match non_empty_env(algorithm) {
            Some(value) => match Algorithm::parse(value.as_str()) {
                Ok(algorithm) => algorithm,
                Err(e) => {
                    return Err(e);
                },
            },
            None => unset.algorithm,
        };
        let encoding: Encoding = match non_empty_env(encoding) {
            Some(value) => match Encoding::parse(value.as_str()) {
                Ok(encoding) => encoding,
                Err(e) => {
                    return Err(e);
                },
            },
            None => unset.encoding,
        };
        let prefix: Option<String> = non_empty_env(prefix);
        let channel_prefix: String = match non_empty_env(channel_prefix) {
            Some(value) => ext_kit::channel_token(value.as_str()),
            None => unset.channel_prefix,
        };
        Ok(HmacConfig { header, algorithm, encoding, prefix, channel_prefix })
    }
}

/// A signature as it stands in the header.
pub open spec fn header_text(config: HmacValue, mac: Seq<u8>) -> Seq<char> {
    match config.prefix {
        Some(prefix) => prefix + written(config.encoding, mac),
        None => written(config.encoding, mac),
    }
}

/// The header value that a provider sends with a body.
pub open spec fn signature_text(config: HmacValue, secret: Seq<char>, body: Seq<u8>) -> Seq<char> {
    header_text(config, mac_of(config.algorithm, vstd::utf8::encode_utf8(secret), body))
}

/// The header value that a provider sends with a body.
pub fn sign(config: &HmacConfig, secret: &str, body: &[u8]) -> (signature: String)
    ensures
        signature@ == signature_text(config@, secret@, body@),
{
    let mac: Vec<u8> = config.algorithm.mac(secret.as_bytes(), body);
    let encoded: String = config.encoding.encode(&mac);
    match &config.prefix {
        Some(prefix) => {
            let mut signature: String = prefix.clone();
            signature.append(encoded.as_str());
            signature
        },
        None => encoded,
    }
}

/// What the header of a webhook says of its signature.
pub enum HeaderValue {
    Missing,
    Malformed,
    Signature(Seq<u8>),
}

/// What the header of a webhook says of its signature.
pub open spec fn header_signature(
    config: HmacValue,
    headers: Map<Seq<char>, Seq<char>>,
) -> HeaderValue {
    match ext_kit::header_of(headers, config.header) {
        None => HeaderValue::Missing,
        Some(value) => {
            let prefix = match config.prefix {
                Some(prefix) => prefix,
                None => Seq::empty(),
            };
            if !text::begins(value, prefix) {
                HeaderValue::Malformed
            } else {
                match read(
                    config.encoding,
                    text::trimmed(value.skip(prefix.len() as int)),
                ) {
                    Some(bytes) => HeaderValue::Signature(bytes),
                    None => HeaderValue::Malformed,
                }
            }
        },
    }
}

/// What the header of a webhook says of its signature.
#[derive(Debug, PartialEq, Eq)]
pub enum HeaderSignature {
    Missing,
    Malformed,
    Signature(Vec<u8>),
}

impl View for HeaderSignature {
    type V = HeaderValue;

    open spec fn view(&self) -> HeaderValue {
        match self {
            HeaderSignature::Missing => HeaderValue::Missing,
            HeaderSignature::Malformed => HeaderValue::Malformed,
            HeaderSignature::Signature(bytes) => HeaderValue::Signature(bytes@),
        }
    }
}

/// Finds the signature of a webhook. Where a prefix is configured, a header
/// without it is malformed.
pub fn provided_signature(config: &HmacConfig, headers: &StringMap<String>) -> (provided:
    HeaderSignature)
    ensures
        provided@ == header_signature(config@, string_map::text_map(headers@)),
{
    let value: &str = match ext_kit::header_value(headers, config.header.as_str()) {
        Some(value) => value,
        None => {
            return HeaderSignature::Missing;
        },
    };
    let signature: String = match &config.prefix {
        Some(prefix) => match text::strip_prefix(value, prefix.as_str()) {
            Some(rest) => rest,
            None => {
                return HeaderSignature::Malformed;
            },
        },
        None => {
            assert(value@.take(0) =~= Seq::<char>::empty());
            assert(value@.skip(0) =~= value@);
            value.to_owned()
        },
    };
    let signature: String = text::trim(signature.as_str());
    match config.encoding.decode(signature.as_str()) {
        Some(bytes) => HeaderSignature::Signature(bytes),
        None => HeaderSignature::Malformed,
    }
}

/// The channel below `prefix` that pieces of a path name; pieces of which no
/// token is left are dropped.
pub open spec fn channel_below(prefix: Seq<char>, pieces: Seq<Seq<char>>) -> Seq<char>
    decreases pieces.len(),
{
    if pieces.len() == 0 {
        prefix
    } else {
        let above = channel_below(prefix, pieces.drop_last());
        let token = ext_kit::token_of(pieces.last());
        if token.len() == 0 {
            above
        } else {
            above.push('.') + token
        }
    }
}

/// The pieces of a path behind its first one, which routes to the extension.
pub open spec fn pieces_behind_mount(path: Seq<char>) -> Seq<Seq<char>> {
    let pieces = text::split(path, '/');
    if pieces.len() > 2 {
        pieces.skip(2)
    } else {
        Seq::empty()
    }
}

/// The channel of a webhook: the configured prefix and what follows the first
/// piece of the path. `/hmac/Stripe/Foo` under `hmac` goes to `hmac.stripe.foo`.
pub fn derive_channel(channel_prefix: &str, path: &str) -> (name: String)
    ensures
        name@ == channel_below(channel_prefix@, pieces_behind_mount(path@)),
{
    let pieces: Vec<String> = text::split_on(path, '/');
    let ghost all = text::split(path@, '/');
    let ghost behind = pieces_behind_mount(path@);
    let mut name: String = channel_prefix.to_owned();
    let mut i: usize = 2;
    assert(behind.take(0) =~= Seq::empty());
    while i < pieces.len()
        invariant
            2 <= i,
            all == text::split(path@, '/'),
            text::texts(pieces@) == all,
            behind == pieces_behind_mount(path@),
            i <= pieces@.len() || behind.len() == 0,
            name@ == channel_below(channel_prefix@, behind.take(i - 2)),
            i > pieces@.len() ==> i == 2,
        decreases pieces@.len() - i,
    {
        let token: String = ext_kit::channel_token(pieces[i].as_str());
        assert(behind[i - 2] == all[i as int]);
        assert(all[i as int] == pieces@[i as int]@);
        assert(behind.take(i - 1).drop_last() =~= behind.take(i - 2));
        if !token.as_str().is_empty() {
            name.push('.');
            name.append(token.as_str());
        }
        i += 1;
    }
    assert(behind.take(i - 2) =~= behind);
    name
}

/// The answer to a webhook that provides a signature, given the one that is
/// expected.
pub open spec fn judged(
    provided: HeaderValue,
    expected: Seq<u8>,
    name: Seq<char>,
    body: Seq<u8>,
) -> Result<(messages::ReplyValue, Seq<messages::EventValue>), ExtError> {
    match provided {
        HeaderValue::Missing => ext_kit::only_text(401, "missing signature header"@),
        HeaderValue::Malformed => ext_kit::only_text(401, "malformed signature"@),
        HeaderValue::Signature(bytes) => if bytes == expected {
            ext_kit::text_and_event(200, "ok"@, name, body)
        } else {
            ext_kit::only_text(401, "invalid signature"@)
        },
    }
}

/// Answers a webhook that provides a signature, given the one that is expected.
/// The two are compared in a time that does not depend on where they differ.
pub fn judge(provided: HeaderSignature, expected: &[u8], name: String, body: &[u8]) -> (r: Result<
    (HttpReply, Vec<Event>),
    ExtError,
>)
    ensures
        ext_kit::answered(r) == judged(provided@, expected@, name@, body@),
{
    match provided {
        HeaderSignature::Missing => ext_kit::just_text(401, "missing signature header"),
        HeaderSignature::Malformed => ext_kit::just_text(401, "malformed signature"),
        HeaderSignature::Signature(bytes) => {
            if digest::same_bytes(&bytes, expected) {
                ext_kit::emit_one(200, "ok".to_owned(), name, body)
            } else {
                ext_kit::just_text(401, "invalid signature")
            }
        },
    }
}

/// The answer to a webhook.
pub open spec fn hmac_answer(
    config: HmacValue,
    path: Seq<char>,
    headers: Map<Seq<char>, Seq<char>>,
    body_b64: Seq<char>,
    secret: Option<Seq<char>>,
) -> Result<(messages::ReplyValue, Seq<messages::EventValue>), ExtError> {
    match ext_kit::decoded(body_b64) {
        None => Err(ExtError::InvalidBase64),
        Some(body) => match secret {
            None => ext_kit::only_text(401, "missing secret"@),
            Some(secret) => judged(
                header_signature(config, headers),
                mac_of(config.algorithm, vstd::utf8::encode_utf8(secret), body),
                channel_below(config.channel_prefix, pieces_behind_mount(path)),
                body,
            ),
        },
    }
}

/// Checks the signature of a webhook and emits its body as an event.
pub fn handle_hmac_dispatch(config: &HmacConfig, msg: SrvMsg) -> (r: Result<
    (HttpReply, Vec<Event>),
    ExtError,
>)
    ensures
        ext_kit::answered(r) == (match msg {
            SrvMsg::Shutdown => ext_kit::shutdown_answer(),
            SrvMsg::Dispatch { path, headers, body_b64, secret, .. } => hmac_answer(
                config@,
                path@,
                string_map::text_map(headers@),
                body_b64@,
                text::optional(secret),
            ),
        }),
{
    match msg {
        SrvMsg::Shutdown => ext_kit::just_text(200, "shutdown ignored"),
        SrvMsg::Dispatch { path, headers, body_b64, secret, .. } => {
            let body: Vec<u8> = match ext_kit::decode_body_b64(body_b64.as_str()) {
                Ok(body) => body,
                Err(e) => {
                    return Err(e);
                },
            };
            let secret: String = match secret {
                Some(secret) => secret,
                None => {
                    return ext_kit::just_text(401, "missing secret");
                },
            };
            let provided: HeaderSignature = provided_signature(config, &headers);
            let expected: Vec<u8> = config.algorithm.mac(secret.as_str().as_bytes(), &body);
            let name: String = derive_channel(config.channel_prefix.as_str(), path.as_str());
            judge(provided, &expected, name, &body)
        },
    }
}

proof fn lemma_base64_has_no_white_space(bytes: Seq<u8>)
    ensures
        forall|i: int|
            0 <= i < encoding::base64(bytes).len() ==> !text::is_white(
                #[trigger] encoding::base64(bytes)[i],
            ),
    decreases bytes.len(),
{
    assert(forall|v: int| 0 <= v < 64 ==> !text::is_white(#[trigger] encoding::symbol(v, '+', '/')));
    if bytes.len() > 2 {
        let rest = encoding::base64(bytes.skip(3));
        lemma_base64_has_no_white_space(bytes.skip(3));
        assert forall|i: int| 4 <= i < encoding::base64(bytes).len() implies !text::is_white(
            #[trigger] encoding::base64(bytes)[i],
        ) by {
            assert(encoding::base64(bytes)[i] == rest[i - 4]);
        }
    }
}

proof fn lemma_written_has_no_white_space(style: Encoding, bytes: Seq<u8>)
    ensures
        text::trimmed(written(style, bytes)) == written(style, bytes),
{
    let s = written(style, bytes);
    let class = |c: char| text::is_white(c);
    lemma_base64_has_no_white_space(bytes);
    assert forall|i: int| 0 <= i < s.len() implies !text::is_white(#[trigger] s[i]) by {
        assert(forall|v: int| 0 <= v < 16 ==> !text::is_white(#[trigger] encoding::hex_digit(v)));
    }
    if s.len() > 0 {
        assert(!class(s[0]) && !class(s.last()));
    }
    assert(text::drop_leading(s, class) == s);
    assert(text::drop_trailing(s, class) == s);
}

/// What [`sign`] gives for a body, put into the configured header, is found there
/// again as the HMAC of that body.
pub proof fn signature_is_found(
    config: HmacValue,
    headers: Map<Seq<char>, Seq<char>>,
    secret: Seq<char>,
    body: Seq<u8>,
)
    requires
        ext_kit::header_of(headers, config.header) == Some(signature_text(config, secret, body)),
    ensures
        header_signature(config, headers) == HeaderValue::Signature(
            mac_of(config.algorithm, vstd::utf8::encode_utf8(secret), body),
        ),
{
    let mac = mac_of(config.algorithm, vstd::utf8::encode_utf8(secret), body);
    let value = signature_text(config, secret, body);
    let prefix = match config.prefix {
        Some(prefix) => prefix,
        None => Seq::empty(),
    };
    assert(value =~= prefix + written(config.encoding, mac));
    assert(value.take(prefix.len() as int) =~= prefix);
    assert(value.skip(prefix.len() as int) =~= written(config.encoding, mac));
    lemma_written_has_no_white_space(config.encoding, mac);
    reading_undoes_writing(config.encoding, mac);
}

/// A webhook that carries what [`sign`] gives for its body is accepted, under
/// every configuration, and its body is emitted byte for byte.
pub proof fn signed_webhook_is_accepted(
    config: HmacValue,
    path: Seq<char>,
    headers: Map<Seq<char>, Seq<char>>,
    body: Seq<u8>,
    secret: Seq<char>,
)
    requires
        ext_kit::header_of(headers, config.header) == Some(signature_text(config, secret, body)),
    ensures
        hmac_answer(config, path, headers, encoding::base64(body), Some(secret))
            == ext_kit::text_and_event(
            200,
            "ok"@,
            channel_below(config.channel_prefix, pieces_behind_mount(path)),
            body,
        ),
{
    ext_kit::decoded_undoes_base64(body);
    signature_is_found(config, headers, secret, body);
}

/// A webhook whose header does not give the HMAC of its body under the secret is
/// refused, and nothing is emitted.
pub proof fn unsigned_webhook_is_refused(
    config: HmacValue,
    path: Seq<char>,
    headers: Map<Seq<char>, Seq<char>>,
    body: Seq<u8>,
    secret: Option<Seq<char>>,
)
    requires
        secret is None || header_signature(config, headers) != HeaderValue::Signature(
            mac_of(config.algorithm, vstd::utf8::encode_utf8(secret->Some_0), body),
        ),
    ensures
        match hmac_answer(config, path, headers, encoding::base64(body), secret) {
            Ok((reply, events)) => reply.status == 401 && events.len() == 0,
            Err(_) => false,
        },
{
    ext_kit::decoded_undoes_base64(body);
}

/// A signature that was made for one body is refused with another body, unless
/// both have the same HMAC.
pub proof fn tampered_webhook_is_refused(
    config: HmacValue,
    path: Seq<char>,
    headers: Map<Seq<char>, Seq<char>>,
    signed: Seq<u8>,
    sent: Seq<u8>,
    secret: Seq<char>,
)
    requires
        ext_kit::header_of(headers, config.header) == Some(signature_text(config, secret, signed)),
        mac_of(config.algorithm, vstd::utf8::encode_utf8(secret), signed) != mac_of(
            config.algorithm,
            vstd::utf8::encode_utf8(secret),
            sent,
        ),
    ensures
        hmac_answer(config, path, headers, encoding::base64(sent), Some(secret))
            == ext_kit::only_text(401, "invalid signature"@),
{
    signature_is_found(config, headers, secret, signed);
    ext_kit::decoded_undoes_base64(sent);
}

/// Below a prefix that is a channel every path gives a channel, whose first
/// tokens are those of the prefix.
pub proof fn derived_channels_are_valid(prefix: Seq<char>, pieces: Seq<Seq<char>>)
    requires
        channel::valid_channel(prefix),
    ensures
        channel::valid_channel(channel_below(prefix, pieces)),
        channel::tokens(channel_below(prefix, pieces)).len() >= channel::tokens(prefix).len(),
        channel::tokens(channel_below(prefix, pieces)).take(
            channel::tokens(prefix).len() as int,
        ) == channel::tokens(prefix),
    decreases pieces.len(),
{
    let head = channel::tokens(prefix);
    if pieces.len() > 0 {
        derived_channels_are_valid(prefix, pieces.drop_last());
        let above = channel_below(prefix, pieces.drop_last());
        let token = ext_kit::token_of(pieces.last());
        ext_kit::token_is_plain_or_empty(pieces.last());
        if token.len() > 0 {
            channel::longer_channel_is_channel(above, token);
            assert(channel::tokens(above).push(token).take(head.len() as int) =~= channel::tokens(
                above,
            ).take(head.len() as int));
        }
    } else {
        assert(head.take(head.len() as int) =~= head);
    }
}

/// A channel is the prefix and the tokens of the pieces, with dots between them;
/// pieces of which no token is left are as if they were not there.
pub proof fn channels_are_joined_tokens(
    prefix: Seq<char>,
    pieces: Seq<Seq<char>>,
    tokens: Seq<Seq<char>>,
)
    requires
        pieces.len() == tokens.len(),
        forall|i: int|
            0 <= i < pieces.len() ==> #[trigger] tokens[i] == ext_kit::token_of(pieces[i])
                && tokens[i].len() > 0,
    ensures
        channel_below(prefix, pieces) == text::join(seq![prefix] + tokens, '.'),
    decreases pieces.len(),
{
    if pieces.len() > 0 {
        let head = tokens.drop_last();
        assert forall|i: int| 0 <= i < head.len() implies #[trigger] head[i] == ext_kit::token_of(
            pieces.drop_last()[i],
        ) && head[i].len() > 0 by {
            assert(head[i] == tokens[i]);
        }
        channels_are_joined_tokens(prefix, pieces.drop_last(), head);
        let all = seq![prefix] + tokens;
        assert(all.drop_last() =~= seq![prefix] + head);
        assert(all.last() == tokens[tokens.len() - 1]);
    } else {
        assert(seq![prefix] + tokens =~= seq![prefix]);
    }
}

/// A piece of which no character fits into a token adds nothing to the channel,
/// wherever it stands.
pub proof fn empty_pieces_do_not_count(
    prefix: Seq<char>,
    before: Seq<Seq<char>>,
    piece: Seq<char>,
    after: Seq<Seq<char>>,
)
    requires
        forall|i: int| 0 <= i < piece.len() ==> !ext_kit::fits(#[trigger] piece[i]),
    ensures
        channel_below(prefix, before.push(piece) + after) == channel_below(prefix, before + after),
    decreases after.len(),
{
    if after.len() == 0 {
        ext_kit::edges_do_not_count(piece, Seq::empty(), Seq::empty());
        assert(piece + Seq::<char>::empty() + Seq::<char>::empty() =~= piece);
        assert(before.push(piece) + after =~= before.push(piece));
        assert(before.push(piece).drop_last() =~= before);
        assert(before + after =~= before);
    } else {
        empty_pieces_do_not_count(prefix, before, piece, after.drop_last());
        assert((before.push(piece) + after).drop_last() =~= before.push(piece)
            + after.drop_last());
        assert((before + after).drop_last() =~= before + after.drop_last());
    }
}

/// The pieces that name the channel are those behind the mount: a path is a slash, the
/// mount, a slash, and the pieces with slashes between them.
pub proof fn pieces_stand_behind_the_mount(mount: Seq<char>, pieces: Seq<Seq<char>>)
    requires
        !mount.contains('/'),
        pieces.len() > 0,
        forall|i: int| 0 <= i < pieces.len() ==> !(#[trigger] pieces[i]).contains('/'),
    ensures
        pieces_behind_mount(seq!['/'] + mount + seq!['/'] + text::join(pieces, '/')) == pieces,
        pieces_behind_mount(seq!['/'] + mount).len() == 0,
{
    let nothing = Seq::<char>::empty();
    let rest = text::join(pieces, '/');
    text::split_undoes_join(pieces, '/');
    text::split_without_separator(mount, '/');
    text::split_without_separator(nothing, '/');
    text::split_of_joined(mount, rest, '/');
    text::split_of_joined(nothing, mount.push('/') + rest, '/');
    text::split_of_joined(nothing, mount, '/');
    let path = seq!['/'] + mount + seq!['/'] + rest;
    assert(path =~= nothing.push('/') + (mount.push('/') + rest));
    assert(seq!['/'] + mount =~= nothing.push('/') + mount);
    assert(text::split(path, '/').skip(2) =~= pieces);
}

/// A webhook that carries the signature of its body, and whose path names plain tokens
/// behind the mount, is answered with 200 and gives one event: on the channel of the
/// configured prefix and those tokens, unchanged, and with the whole body.
pub proof fn signed_webhook_gives_one_event(
    config: HmacValue,
    mount: Seq<char>,
    pieces: Seq<Seq<char>>,
    headers: Map<Seq<char>, Seq<char>>,
    body: Seq<u8>,
    secret: Seq<char>,
)
    requires
        ext_kit::header_of(headers, config.header) == Some(signature_text(config, secret, body)),
        !mount.contains('/'),
        pieces.len() > 0,
        forall|i: int| 0 <= i < pieces.len() ==> ext_kit::is_own_token(#[trigger] pieces[i]),
    ensures
        match hmac_answer(
            config,
            seq!['/'] + mount + seq!['/'] + text::join(pieces, '/'),
            headers,
            encoding::base64(body),
            Some(secret),
        ) {
            Ok((reply, events)) => {
                &&& reply.status == 200
                &&& reply.body == "ok"@
                &&& events.len() == 1
                &&& events[0].channel == text::join(seq![config.channel_prefix] + pieces, '.')
                &&& events[0].payload_b64 == encoding::base64(body)
            },
            Err(_) => false,
        },
{
    assert forall|i: int| 0 <= i < pieces.len() implies !(#[trigger] pieces[i]).contains('/')
        && pieces[i] == ext_kit::token_of(pieces[i]) by {
        ext_kit::plain_token_is_kept(pieces[i]);
    }
    pieces_stand_behind_the_mount(mount, pieces);
    channels_are_joined_tokens(config.channel_prefix, pieces, pieces);
    signed_webhook_is_accepted(
        config,
        seq!['/'] + mount + seq!['/'] + text::join(pieces, '/'),
        headers,
        body,
        secret,
    );
}

/// The signature of a body is the code of the algorithm under the secret, written in
/// the encoding behind the prefix: hexadecimal digits or base64.
pub proof fn signatures_follow_the_configuration(
    config: HmacValue,
    secret: Seq<char>,
    body: Seq<u8>,
)
    ensures
        ({
            let key = vstd::utf8::encode_utf8(secret);
            let prefix = match config.prefix {
                Some(prefix) => prefix,
                None => Seq::empty(),
            };
            let signature = signature_text(config, secret, body);
            &&& config.algorithm == Algorithm::Sha1 && config.encoding == Encoding::Hex ==> signature
                == prefix + encoding::hex(digest::hmac_sha1(key, body))
            &&& config.algorithm == Algorithm::Sha256 && config.encoding == Encoding::Hex
                ==> signature == prefix + encoding::hex(digest::hmac_sha256(key, body))
            &&& config.algorithm == Algorithm::Sha512 && config.encoding == Encoding::Hex
                ==> signature == prefix + encoding::hex(digest::hmac_sha512(key, body))
            &&& config.algorithm == Algorithm::Sha1 && config.encoding == Encoding::Base64
                ==> signature == prefix + encoding::base64(digest::hmac_sha1(key, body))
            &&& config.algorithm == Algorithm::Sha256 && config.encoding == Encoding::Base64
                ==> signature == prefix + encoding::base64(digest::hmac_sha256(key, body))
            &&& config.algorithm == Algorithm::Sha512 && config.encoding == Encoding::Base64
                ==> signature == prefix + encoding::base64(digest::hmac_sha512(key, body))
        }),
{
    if config.prefix is None {
        let signature = signature_text(config, secret, body);
        assert(Seq::<char>::empty() + signature =~= signature);
    }
}

/// A header without the configured prefix, or with something behind it that is not in
/// the encoding, is malformed; a webhook without the header has no signature. Each is
/// refused, and says so.
pub proof fn refusals_say_what_is_wrong(
    config: HmacValue,
    path: Seq<char>,
    headers: Map<Seq<char>, Seq<char>>,
    body: Seq<u8>,
    secret: Seq<char>,
)
    ensures
        ({
            let header = ext_kit::header_of(headers, config.header);
            let answer = hmac_answer(config, path, headers, encoding::base64(body), Some(secret));
            &&& header is None ==> answer == ext_kit::only_text(401, "missing signature header"@)
            &&& header is Some && config.prefix is Some && !text::begins(
                header->Some_0,
                config.prefix->Some_0,
            ) ==> answer == ext_kit::only_text(401, "malformed signature"@)
            &&& header is Some && config.prefix is None && config.encoding == Encoding::Hex
                && encoding::unhex(text::trimmed(header->Some_0)) is None ==> answer
                == ext_kit::only_text(401, "malformed signature"@)
            &&& hmac_answer(config, path, headers, encoding::base64(body), None)
                == ext_kit::only_text(401, "missing secret"@)
        }),
{
    ext_kit::decoded_undoes_base64(body);
    if ext_kit::header_of(headers, config.header) is Some {
        let value = ext_kit::header_of(headers, config.header)->Some_0;
        assert(value.take(0) =~= Seq::<char>::empty());
        assert(value.skip(0) =~= value);
    }
}

/// Settings choose the algorithm and the encoding by their names, whatever their case
/// and the white space around them; a name that is not known is reported, and what is
/// not set, or blank, is as in the configuration where nothing is set.
pub proof fn settings_choose(
    before: Seq<char>,
    name: Seq<char>,
    after: Seq<char>,
)
    requires
        forall|i: int| 0 <= i < before.len() ==> text::is_white(#[trigger] before[i]),
        forall|i: int| 0 <= i < after.len() ==> text::is_white(#[trigger] after[i]),
        name.len() > 0,
        !text::is_white(name[0]),
        !text::is_white(name.last()),
    ensures
        ({
            let setting = Some(before + name + after);
            let algorithm = configured(None, setting, None, None, None);
            let style = configured(None, None, setting, None, None);
            &&& text::lower(name) == "sha1"@ ==> algorithm is Ok && algorithm->Ok_0.algorithm
                == Algorithm::Sha1
            &&& text::lower(name) == "sha256"@ ==> algorithm is Ok && algorithm->Ok_0.algorithm
                == Algorithm::Sha256
            &&& text::lower(name) == "sha512"@ ==> algorithm is Ok && algorithm->Ok_0.algorithm
                == Algorithm::Sha512
            &&& algorithm is Ok ==> text::lower(name) == "sha1"@ || text::lower(name) == "sha256"@
                || text::lower(name) == "sha512"@
            &&& algorithm is Err ==> algorithm->Err_0 == HmacConfigFault::Algorithm(
                text::lower(name),
            )
            &&& text::lower(name) == "hex"@ ==> style is Ok && style->Ok_0.encoding
                == Encoding::Hex
            &&& text::lower(name) == "base64"@ || text::lower(name) == "b64"@ ==> style is Ok
                && style->Ok_0.encoding == Encoding::Base64
            &&& style is Ok ==> text::lower(name) == "hex"@ || text::lower(name) == "base64"@
                || text::lower(name) == "b64"@
            &&& style is Err ==> style->Err_0 == HmacConfigFault::Encoding(text::lower(name))
        }),
        configured(None, None, None, None, None) == Ok::<HmacValue, HmacConfigFault>(
            HmacValue {
                header: "X-Signature"@,
                algorithm: Algorithm::Sha256,
                encoding: Encoding::Hex,
                prefix: None,
                channel_prefix: "hmac"@,
            },
        ),
        configured(Some(before + name), None, None, Some(name + after), Some(name)) == Ok::<
            HmacValue,
            HmacConfigFault,
        >(
            HmacValue {
                header: before + name,
                algorithm: Algorithm::Sha256,
                encoding: Encoding::Hex,
                prefix: Some(name + after),
                channel_prefix: ext_kit::token_of(name),
            },
        ),
        configured(Some(before), Some(before), Some(before), Some(before), Some(before))
            == configured(None, None, None, None, None),
{
    let nothing = Seq::<char>::empty();
    text::trimming_takes_white_space_at_the_ends(before, name, after);
    text::trimming_takes_white_space_at_the_ends(before, name, nothing);
    text::trimming_takes_white_space_at_the_ends(nothing, name, after);
    text::trimming_takes_white_space_at_the_ends(nothing, name, nothing);
    text::trimming_takes_white_space_at_the_ends(before, nothing, nothing);
    assert(before + name + nothing =~= before + name);
    assert(nothing + name + after =~= name + after);
    assert(nothing + name + nothing =~= name);
    assert(before + nothing + nothing =~= before);
    reveal_strlit("sha1");
    reveal_strlit("sha256");
    reveal_strlit("sha512");
    reveal_strlit("hex");
    reveal_strlit("base64");
    reveal_strlit("b64");
    assert("sha1"@.len() == 4 && "sha256"@.len() == 6 && "sha512"@.len() == 6);
    assert("sha256"@[3] == '2' && "sha512"@[3] == '5');
    assert("hex"@.len() == 3 && "base64"@.len() == 6 && "b64"@.len() == 3);
    assert("hex"@[0] == 'h' && "b64"@[0] == 'b');
}

/// A fault of the configuration is reported with what was given and with what could have
/// been.
pub proof fn faults_are_reported(given: Seq<char>)
    ensures
        fault_message(HmacConfigFault::Algorithm(given)) == "unsupported HMAC algorithm "@
            + text::shown_quoted(given) + " (expected sha1, sha256, or sha512)"@,
        fault_message(HmacConfigFault::Encoding(given)) == "unsupported signature encoding "@
            + text::shown_quoted(given) + " (expected hex or base64)"@,
{
}

} // verus!
