//! Reading the OpenWhisk CLI properties (`.wskprops`) into the API host and
//! the authorization header of the throughput tool.

use vstd::prelude::*;
use base64::Engine;
use crate::search::index_of;
use crate::text::{chars_of, has_prefix, starts_with, string_of, sub_chars, trim, trim_chars};

verus! {

/// The character of the 6-bit value `v` in the standard base64 alphabet
/// (RFC 4648): `A`-`Z`, `a`-`z`, `0`-`9`, `+`, `/`.
pub open spec fn base64_digit(v: int) -> char {
    if v < 26 {
        (65 + v) as char
    } else if v < 52 {
        (97 + v - 26) as char
    } else if v < 62 {
        (48 + v - 52) as char
    } else if v == 62 {
        '+'
    } else {
        '/'
    }
}

/// The standard base64 encoding, with padding, of `bytes` (RFC 4648, as
/// `base64::engine::general_purpose::STANDARD` writes it): each group of
/// three bytes becomes four characters of six bits each, and a last group
/// of one or two bytes is padded with `=`.
pub open spec fn base64_standard(bytes: Seq<u8>) -> Seq<char>
    decreases bytes.len(),
{
    if bytes.len() == 0 {
        Seq::empty()
    } else if bytes.len() == 1 {
        let b0 = bytes[0] as int;
        seq![base64_digit(b0 / 4), base64_digit((b0 % 4) * 16), '=', '=']
    } else if bytes.len() == 2 {
        let b0 = bytes[0] as int;
        let b1 = bytes[1] as int;
        seq![base64_digit(b0 / 4), base64_digit((b0 % 4) * 16 + b1 / 16), base64_digit((b1 % 16) * 4), '=']
    } else {
        let b0 = bytes[0] as int;
        let b1 = bytes[1] as int;
        let b2 = bytes[2] as int;
        seq![
            base64_digit(b0 / 4),
            base64_digit((b0 % 4) * 16 + b1 / 16),
            base64_digit((b1 % 16) * 4 + b2 / 64),
            base64_digit(b2 % 64),
        ] + base64_standard(bytes.subrange(3, bytes.len() as int))
    }
}

/// The length of the padded base64 encoding of `n` bytes.
pub open spec fn base64_len(n: int) -> int {
    (n / 3) * 4 + if n % 3 > 0 {
        4int
    } else {
        0int
    }
}

/// `base64::Engine::encode` with the `STANDARD` engine: the padded
/// standard base64 encoding (`base64_standard`). The engine panics when the
/// length of the encoding overflows `usize`, which the precondition rules
/// out.
#[verifier::external_body]
fn base64_encode(bytes: &[u8]) -> (r: String)
    requires
        base64_len(bytes@.len() as int) <= usize::MAX,
    ensures
        r@ == base64_standard(bytes@),
{
    base64::engine::general_purpose::STANDARD.encode(bytes)
}

/// The OpenWhisk endpoint and credentials.
pub struct WskConfig {
    pub api_host: String,
    pub auth_header: String,
}

/// What is missing from the properties.
#[derive(PartialEq, Eq, Structural, Clone, Copy, Debug)]
pub enum WskError {
    MissingApiHost,
    MissingAuth,
    /// The credentials are too long for their base64 encoding to be sized.
    AuthTooLong,
}

/// The effect of one line of the properties on the host and credentials
/// read so far: a trimmed line `APIHOST=value` or `AUTH=value` sets the
/// trimmed value; other lines change nothing.
pub open spec fn line_effect(line: Seq<char>, host: Option<Seq<char>>, auth: Option<Seq<char>>) -> (
    Option<Seq<char>>,
    Option<Seq<char>>,
) {
    let t = trim(line);
    if starts_with(t, "APIHOST="@) {
        (Some(trim(t.skip("APIHOST="@.len() as int))), auth)
    } else if starts_with(t, "AUTH="@) {
        (host, Some(trim(t.skip("AUTH="@.len() as int))))
    } else {
        (host, auth)
    }
}

/// The host and credentials after reading the lines of `s` in order,
/// starting from `host` and `auth`; the last line that sets a value wins.
pub open spec fn scan_props(s: Seq<char>, host: Option<Seq<char>>, auth: Option<Seq<char>>) -> (
    Option<Seq<char>>,
    Option<Seq<char>>,
)
    decreases s.len(),
{
    let k = index_of(s, '\n');
    if k < 0 {
        line_effect(s, host, auth)
    } else {
        let (h, a) = line_effect(s.subrange(0, k), host, auth);
        if k < s.len() {
            scan_props(s.subrange(k + 1, s.len() as int), h, a)
        } else {
            (h, a)
        }
    }
}

/// `s` without its trailing `/` characters.
pub open spec fn trim_end_slashes(s: Seq<char>) -> Seq<char>
    decreases s.len(),
{
    if s.len() > 0 && s.last() == '/' {
        trim_end_slashes(s.drop_last())
    } else {
        s
    }
}

/// The API host with `https://` put in front when it has no HTTP scheme,
/// and without trailing slashes.
pub open spec fn normalized_host(h: Seq<char>) -> Seq<char> {
    let with_scheme = if starts_with(h, "http://"@) || starts_with(h, "https://"@) {
        h
    } else {
        "https://"@ + h
    };
    trim_end_slashes(with_scheme)
}

proof fn lemma_trim_end_slashes_keeps(s: Seq<char>)
    requires
        s.len() > 0,
        s.last() != '/',
    ensures
        trim_end_slashes(s) == s,
{
}

proof fn lemma_trim_end_slashes_ends(s: Seq<char>)
    ensures
        trim_end_slashes(s).len() == 0 || trim_end_slashes(s).last() != '/',
        trim_end_slashes(s).len() <= s.len(),
        trim_end_slashes(s) == s.subrange(0, trim_end_slashes(s).len() as int),
    decreases s.len(),
{
    if s.len() > 0 && s.last() == '/' {
        lemma_trim_end_slashes_ends(s.drop_last());
        assert(s.drop_last().subrange(0, trim_end_slashes(s).len() as int) =~= s.subrange(
            0,
            trim_end_slashes(s).len() as int,
        ));
    } else {
        assert(s.subrange(0, s.len() as int) =~= s);
    }
}

/// How the API host is normalised: a host that already has an HTTP scheme
/// and no trailing `/` is kept as it is; a non-empty host without a scheme
/// and without a trailing `/` gets `https://` in front and nothing else; and
/// what comes out never ends in `/`.
pub proof fn lemma_normalized_host(h: Seq<char>)
    ensures
        (starts_with(h, "http://"@) || starts_with(h, "https://"@)) && h.last() != '/'
            ==> normalized_host(h) == h,
        !starts_with(h, "http://"@) && !starts_with(h, "https://"@) && h.len() > 0 && h.last() != '/'
            ==> normalized_host(h) == "https://"@ + h,
        normalized_host(h).len() == 0 || normalized_host(h).last() != '/',
{
    reveal_strlit("http://");
    reveal_strlit("https://");
    if starts_with(h, "http://"@) || starts_with(h, "https://"@) {
        lemma_trim_end_slashes_ends(h);
        if h.last() != '/' {
            lemma_trim_end_slashes_keeps(h);
        }
    } else {
        let w = "https://"@ + h;
        lemma_trim_end_slashes_ends(w);
        if h.len() > 0 && h.last() != '/' {
            assert(w.last() == h.last());
            lemma_trim_end_slashes_keeps(w);
        }
    }
}

/// Applies one line of the properties to the host and credentials read so far.
fn apply_line(line: &Vec<char>, host: &mut Option<Vec<char>>, auth: &mut Option<Vec<char>>)
    ensures
        line_effect(
            line@,
            match *old(host) {
                Some(v) => Some(v@),
                None => None,
            },
            match *old(auth) {
                Some(v) => Some(v@),
                None => None,
            },
        ) == (
            match *final(host) {
                Some(v) => Some(v@),
                None => None::<Seq<char>>,
            },
            match *final(auth) {
                Some(v) => Some(v@),
                None => None::<Seq<char>>,
            },
        ),
{
    let t = trim_chars(line);
    let key_host = chars_of("APIHOST=");
    let key_auth = chars_of("AUTH=");
    if has_prefix(&t, &key_host) {
        let rest = sub_chars(&t, key_host.len(), t.len());
        assert(rest@ =~= t@.skip(key_host.len() as int));
        *host = Some(trim_chars(&rest));
    } else if has_prefix(&t, &key_auth) {
        let rest = sub_chars(&t, key_auth.len(), t.len());
        assert(rest@ =~= t@.skip(key_auth.len() as int));
        *auth = Some(trim_chars(&rest));
    }
}

/// The API host and credentials that the properties text sets.
pub fn read_props(content: &str) -> (r: (Option<String>, Option<String>))
    ensures
        scan_props(content@, None, None) == (
            match r.0 {
                Some(s) => Some(s@),
                None => None::<Seq<char>>,
            },
            match r.1 {
                Some(s) => Some(s@),
                None => None::<Seq<char>>,
            },
        ),
{
    let v = chars_of(content);
    let mut host: Option<Vec<char>> = None;
    let mut auth: Option<Vec<char>> = None;
    let mut start: usize = 0;
    assert(v@.skip(0) =~= v@);
    loop
        invariant
            start <= v.len(),
            v@ == content@,
            scan_props(v@, None, None) == scan_props(
                v@.skip(start as int),
                match host {
                    Some(x) => Some(x@),
                    None => None,
                },
                match auth {
                    Some(x) => Some(x@),
                    None => None,
                },
            ),
        ensures
            scan_props(v@, None, None) == (
                match host {
                    Some(x) => Some(x@),
                    None => None::<Seq<char>>,
                },
                match auth {
                    Some(x) => Some(x@),
                    None => None::<Seq<char>>,
                },
            ),
        decreases v.len() - start,
    {
        let rest = sub_chars(&v, start, v.len());
        assert(rest@ =~= v@.skip(start as int));
        match crate::search::find_char(&rest, '\n') {
            None => {
                apply_line(&rest, &mut host, &mut auth);
                break;
            },
            Some(k) => {
                let line = sub_chars(&rest, 0, k);
                apply_line(&line, &mut host, &mut auth);
                assert(rest@.subrange(k + 1, rest@.len() as int) =~= v@.skip(start + k + 1));
                start = start + k + 1;
            },
        }
    }
    let h = match host {
        Some(x) => Some(string_of(&x)),
        None => None,
    };
    let a = match auth {
        Some(x) => Some(string_of(&x)),
        None => None,
    };
    (h, a)
}

/// The OpenWhisk endpoint and `Basic` authorization header from the text of
/// the properties file.
pub fn wsk_config(content: &str) -> (r: Result<WskConfig, WskError>)
    ensures
        ({
            let (h, a) = scan_props(content@, None, None);
            &&& h is None ==> r == Err::<WskConfig, WskError>(WskError::MissingApiHost)
            &&& h is Some && a is None ==> r == Err::<WskConfig, WskError>(WskError::MissingAuth)
            &&& h is Some && a is Some ==> match r {
                Ok(c) => c.api_host@ == normalized_host(h->Some_0) && c.auth_header@ == "Basic "@
                    + base64_standard(vstd::utf8::encode_utf8(a->Some_0)),
                Err(e) => e == WskError::AuthTooLong && base64_len(
                    vstd::utf8::encode_utf8(a->Some_0).len() as int,
                ) > usize::MAX,
            }
        }),
{
    let (host, auth) = read_props(content);
    let host = match host {
        Some(h) => h,
        None => {
            return Err(WskError::MissingApiHost);
        },
    };
    let auth = match auth {
        Some(a) => a,
        None => {
            return Err(WskError::MissingAuth);
        },
    };
    let hv = chars_of(host.as_str());
    let http = chars_of("http://");
    let https = chars_of("https://");
    let mut full: Vec<char> = if has_prefix(&hv, &http) || has_prefix(&hv, &https) {
        hv
    } else {
        let mut f = https;
        let mut rest = hv;
        f.append(&mut rest);
        f
    };
    assert(full@ =~= (if starts_with(host@, "http://"@) || starts_with(host@, "https://"@) {
        host@
    } else {
        "https://"@ + host@
    }));
    let ghost with_scheme = full@;
    while full.len() > 0 && full[full.len() - 1] == '/'
        invariant
            trim_end_slashes(with_scheme) == trim_end_slashes(full@),
        decreases full.len(),
    {
        full.pop();
    }
    let api_host = string_of(&full);
    let bytes = auth.as_str().as_bytes();
    let n = bytes.len();
    let q = n / 3;
    let extra: usize = if n % 3 > 0 {
        4
    } else {
        0
    };
    if q > (usize::MAX - extra) / 4 {
        assert(q * 4 + extra > usize::MAX) by (nonlinear_arith)
            requires
                q > (usize::MAX - extra) / 4,
                extra <= 4,
        ;
        return Err(WskError::AuthTooLong);
    }
    assert(q * 4 + extra <= usize::MAX) by (nonlinear_arith)
        requires
            q <= (usize::MAX - extra) / 4,
            extra <= 4,
    ;
    let encoded = base64_encode(bytes);
    Ok(WskConfig { api_host, auth_header: basic_auth_header(encoded.as_str()) })
}

/// The `Basic` authorization header of base64-encoded credentials.
pub fn basic_auth_header(encoded: &str) -> (h: String)
    ensures
        h@ == "Basic "@ + encoded@,
{
    let mut h = String::new();
    h.append("Basic ");
    h.append(encoded);
    h
}

} // verus!
