//! Request details of the OpenWhisk load generator: the credentials given on
//! the command line and the URL that invokes an action.

use vstd::prelude::*;
use serde_json::Value;
use crate::json::{json_from_str, json_member_str, json_parses, json_str_member, json_value};
use crate::search::{find_char, index_of, is_first};
use crate::text::{chars_of, string_of, sub_chars, utf8_str};

verus! {

/// The credentials are not in `user:password` form.
#[derive(PartialEq, Eq, Structural, Clone, Copy, Debug)]
pub struct AuthFormatError;

/// Splits `user:password` credentials at the first `:`.
pub fn split_auth(auth: &str) -> (r: Result<(String, String), AuthFormatError>)
    ensures
        ({
            let k = index_of(auth@, ':');
            &&& k < 0 <==> r is Err
            &&& r matches Ok((user, password)) ==> user@ == auth@.subrange(0, k) && password@
                == auth@.subrange(k + 1, auth@.len() as int)
        }),
{
    let v = chars_of(auth);
    match find_char(&v, ':') {
        None => Err(AuthFormatError),
        Some(k) => {
            let user = string_of(&sub_chars(&v, 0, k));
            let password = string_of(&sub_chars(&v, k + 1, v.len()));
            Ok((user, password))
        },
    }
}

/// Credentials with a `:` split into a user without `:` and a password that
/// join back, around that `:`, into the credentials.
pub proof fn lemma_split_auth_rejoins(auth: Seq<char>)
    requires
        index_of(auth, ':') >= 0,
    ensures
        ({
            let k = index_of(auth, ':');
            &&& auth == auth.subrange(0, k) + seq![':'] + auth.subrange(k + 1, auth.len() as int)
            &&& !auth.subrange(0, k).contains(':')
        }),
{
    let k = index_of(auth, ':');
    assert(is_first(auth, ':', k));
    assert(auth =~= auth.subrange(0, k) + seq![':'] + auth.subrange(k + 1, auth.len() as int));
    assert forall|j: int| 0 <= j < k implies auth.subrange(0, k)[j] != ':' by {
        assert(auth.subrange(0, k)[j] == auth[j]);
    }
}

/// The text of a boolean, as `Display` writes it.
pub open spec fn bool_text(b: bool) -> Seq<char> {
    if b {
        "true"@
    } else {
        "false"@
    }
}

/// The URL that invokes action `bench` in `namespace` on `host`, blocking
/// until the action completes or not, without returning the result.
pub open spec fn action_url_spec(host: Seq<char>, namespace: Seq<char>, bench: Seq<char>, blocking: bool) -> Seq<char> {
    host + "/api/v1/namespaces/"@ + namespace + "/actions/"@ + bench + "?blocking="@ + bool_text(blocking)
        + "&result=false"@
}

/// The URL that invokes an action.
pub fn action_url(host: &str, namespace: &str, bench: &str, blocking: bool) -> (u: String)
    ensures
        u@ == action_url_spec(host@, namespace@, bench@, blocking),
{
    let mut u = String::new();
    u.append(host);
    u.append("/api/v1/namespaces/");
    u.append(namespace);
    u.append("/actions/");
    u.append(bench);
    u.append("?blocking=");
    if blocking {
        u.append("true");
    } else {
        u.append("false");
    }
    u.append("&result=false");
    u
}

/// The JSON body of an invocation: the payload text read as JSON, or
/// nothing when it is not JSON (the invocation then sends the empty object).
/// The value read is opaque to the library; what is stated is when there is
/// one.
pub fn parse_payload(payload: &str) -> (r: Option<Value>)
    ensures
        r is Some <==> json_parses(payload@),
        r matches Some(v) ==> v == json_value(payload@),
{
    match json_from_str(payload) {
        Ok(v) => Some(v),
        Err(_) => None,
    }
}

/// The `activationId` string of an OpenWhisk response body, if it has one.
/// A body that is not UTF-8 JSON has none.
pub fn activation_id(body: &[u8]) -> (r: Option<String>)
    ensures
        !vstd::utf8::valid_utf8(body@) ==> r is None,
        vstd::utf8::valid_utf8(body@) ==> match r {
            Some(s) => json_str_member(vstd::utf8::decode_utf8(body@), "activationId"@) == Some(s@),
            None => json_str_member(vstd::utf8::decode_utf8(body@), "activationId"@) is None,
        },
        vstd::utf8::valid_utf8(body@) && !json_parses(vstd::utf8::decode_utf8(body@)) ==> r is None,
{
    let text = match utf8_str(body) {
        Some(t) => t,
        None => {
            return None;
        },
    };
    json_member_str(text, "activationId")
}

} // verus!
