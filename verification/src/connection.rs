//! What a subscriber sends to connect and to subscribe.

use tokio_tungstenite::tungstenite::client::IntoClientRequest;
use tokio_tungstenite::tungstenite::http;
use vstd::prelude::*;
use vstd::string::*;

use crate::client_error::ClientError;
use crate::messages::{ReplayRequest, SubClientMsg, SubServerMsg};
use crate::text;

verus! {

/// The value of the `Authorization` header for a token.
pub open spec fn authorization_text(token: Seq<char>) -> Seq<char> {
    "Bearer "@ + token
}

/// The value of the `Authorization` header for a token.
pub fn authorization_value(token: &str) -> (value: String)
    ensures
        value@ == authorization_text(token@),
{
    "Bearer ".to_owned().concat(token)
}

/// The router reads from the header the token that the subscriber put there.
pub proof fn token_survives_header(token: Seq<char>)
    ensures
        text::begins(authorization_text(token), "Bearer "@),
        authorization_text(token).skip("Bearer "@.len() as int) == token,
{
    let value = authorization_text(token);
    assert(value.take("Bearer "@.len() as int) =~= "Bearer "@);
    assert(value.skip("Bearer "@.len() as int) =~= token);
}

/// A request of the `http` crate.
#[verifier::external_type_specification]
#[verifier::external_body]
#[verifier::reject_recursive_types(T)]
pub struct ExRequest<T>(http::Request<T>);

/// What comes of an address that is to be connected to: the address as the request
/// holds it, or else what is wrong with it.
pub uninterp spec fn client_address(url: Seq<char>) -> Result<Seq<char>, Seq<char>>;

/// The address of a request.
pub uninterp spec fn address_of(request: http::Request<()>) -> Seq<char>;

/// The headers of a request, by their names in lower case.
pub uninterp spec fn headers_of(request: http::Request<()>) -> Map<Seq<char>, Seq<char>>;

/// What is wrong with an address that is to be connected to, if anything is.
pub open spec fn address_fault(url: Seq<char>) -> Option<Seq<char>> {
    match client_address(url) {
        Ok(_) => None,
        Err(why) => Some(why),
    }
}

/// The `Authorization` header of a request.
pub open spec fn authorization_of(request: http::Request<()>) -> Option<Seq<char>> {
    if headers_of(request).contains_key("authorization"@) {
        Some(headers_of(request)["authorization"@])
    } else {
        None
    }
}

/// Whether these are the headers that ask for a WebSocket.
pub open spec fn asks_for_websocket(headers: Map<Seq<char>, Seq<char>>) -> bool {
    &&& headers.contains_key("host"@)
    &&& headers.contains_key("sec-websocket-key"@)
    &&& headers.contains_pair("connection"@, "Upgrade"@)
    &&& headers.contains_pair("upgrade"@, "websocket"@)
    &&& headers.contains_pair("sec-websocket-version"@, "13"@)
}

/// `IntoClientRequest::into_client_request` of `tungstenite` on a text: whether it
/// succeeds, the address of the request and what the error says depend on the text
/// alone. The request has the five headers that ask for a WebSocket; the key among
/// them is random, and which host it names is not stated.
#[verifier::external_body]
fn client_request(url: &str) -> (r: Result<http::Request<()>, String>)
    ensures
        match r {
            Ok(request) => {
                &&& client_address(url@) == Ok::<Seq<char>, Seq<char>>(address_of(request))
                &&& asks_for_websocket(headers_of(request))
                &&& headers_of(request).dom().finite()
                &&& headers_of(request).dom().len() == 5
            },
            Err(why) => client_address(url@) == Err::<Seq<char>, Seq<char>>(why@),
        },
{
    url.into_client_request().map_err(|err| err.to_string())
}

/// `HeaderMap::insert` of `http` with the name `Authorization` and a value that
/// `HeaderValue::from_str` reads: the header has this value afterwards, and the rest
/// of the request is as it was. A text with a character that no value may have
/// changes nothing. The map takes far more names than a request for a WebSocket has.
#[verifier::external_body]
fn insert_authorization(request: &mut http::Request<()>, value: &str) -> (set: bool)
    requires
        headers_of(*old(request)).dom().finite(),
        headers_of(*old(request)).dom().len() < 100,
    ensures
        set == text::is_header_text(value@),
        !set ==> *final(request) == *old(request),
        set ==> headers_of(*final(request)) == headers_of(*old(request)).insert(
            "authorization"@,
            value@,
        ),
        address_of(*final(request)) == address_of(*old(request)),
{
    match value.parse::<http::HeaderValue>() {
        Ok(value) => {
            request.headers_mut().insert("Authorization", value);
            true
        },
        Err(_) => false,
    }
}

/// The request that opens the connection to an address, with the token in its
/// `Authorization` header.
pub fn build_request(url: &str, token: &str) -> (r: Result<http::Request<()>, ClientError>)
    ensures
        match r {
            Ok(request) => {
                &&& client_address(url@) == Ok::<Seq<char>, Seq<char>>(address_of(request))
                &&& authorization_of(request) == Some(authorization_text(token@))
                &&& asks_for_websocket(headers_of(request))
            },
            Err(ClientError::Request(why)) => match address_fault(url@) {
                Some(fault) => why@ == fault,
                None => !text::is_header_text(authorization_text(token@)) && why@
                    == "invalid Authorization header value"@,
            },
            Err(_) => false,
        },
        r is Ok <==> address_fault(url@) is None && text::is_header_text(
            authorization_text(token@),
        ),
{
    match client_request(url) {
        Ok(mut request) => {
            let value: String = authorization_value(token);
            if !insert_authorization(&mut request, value.as_str()) {
                return Err(
                    ClientError::Request("invalid Authorization header value".to_owned()),
                );
            }
            proof {
                reveal_strlit("authorization");
                reveal_strlit("host");
                reveal_strlit("sec-websocket-key");
                reveal_strlit("connection");
                reveal_strlit("upgrade");
                reveal_strlit("sec-websocket-version");
                assert("authorization"@.len() == 13 && "host"@.len() == 4
                    && "sec-websocket-key"@.len() == 17 && "connection"@.len() == 10
                    && "upgrade"@.len() == 7 && "sec-websocket-version"@.len() == 21);
            }
            Ok(request)
        },
        Err(why) => Err(ClientError::Request(why)),
    }
}

/// The message that subscribes to patterns, and asks for a replay after a number
/// where one is given.
pub fn subscribe_msg(patterns: &[String], after_seq: Option<u64>) -> (msg: SubClientMsg)
    ensures
        match msg {
            SubClientMsg::Subscribe { patterns: sent, replay } => {
                &&& text::texts(sent@) == text::texts(patterns@)
                &&& replay == (match after_seq {
                    Some(seq) => Some(ReplayRequest { after_seq: seq }),
                    None => None,
                })
            },
            _ => false,
        },
{
    let replay: Option<ReplayRequest> = match after_seq {
        Some(seq) => Some(ReplayRequest { after_seq: seq }),
        None => None,
    };
    SubClientMsg::Subscribe { patterns: text::clone_texts(patterns), replay }
}

/// The name that a welcome gives; every other message before it is passed over.
pub fn welcomed_name(msg: SubServerMsg) -> (name: Option<String>)
    ensures
        match msg {
            SubServerMsg::Welcome { name: given } => name == Some(given),
            _ => name is None,
        },
{
    match msg {
        SubServerMsg::Welcome { name } => Some(name),
        _ => None,
    }
}

} // verus!
