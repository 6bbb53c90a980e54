//! URL handling and redirect policy of the image-download benchmark:
//! parsing URLs, normalising hosts, and deciding, response by response,
//! whether to follow a Lorem Picsum redirect.

use vstd::prelude::*;
use crate::html::{decimal, decimal_string};
use crate::search::{find_scheme_sep, last_index_of, rfind_char, scheme_sep};
use crate::text::{chars_of, lower, lower_chars, same_chars, string_of, sub_chars, trim, trim_chars, utf8_str};

verus! {

/// The most requests made for one image, redirects included.
pub const MAX_REDIRECTS: usize = 5;

/// The scheme of a URL.
#[derive(PartialEq, Eq, Structural, Clone, Copy, Debug)]
pub enum UrlScheme {
    Http,
    Https,
}

/// A URL split into scheme, authority, and path with query.
pub struct ParsedUrl {
    pub scheme: UrlScheme,
    pub authority: String,
    pub path: String,
}

/// Why an image could not be fetched.
#[derive(Debug)]
pub enum FetchError {
    MissingScheme,
    UnsupportedScheme(String),
    MissingHost,
    RedirectRejected { from: String, to: String },
    MissingLocation(u16),
    TooManyRedirects,
    EmptyImage { status: u16, bytes_written: u64 },
}

/// What a URL splits into, or why it cannot be split.
pub enum UrlShape {
    Parts { scheme: UrlScheme, authority: Seq<char>, path: Seq<char> },
    NoScheme,
    BadScheme(Seq<char>),
    NoHost,
}

/// `c` ends the authority of a URL: `/`, `?` or `#`.
pub open spec fn ends_authority(c: char) -> bool {
    c == '/' || c == '?' || c == '#'
}

/// `k` is the first position in `s` of a character that ends the authority.
pub open spec fn is_authority_end(s: Seq<char>, k: int) -> bool {
    0 <= k < s.len() && ends_authority(s[k]) && forall|j: int| 0 <= j < k ==> !ends_authority(#[trigger] s[j])
}

/// Where the authority of `s` (the URL after `://`) ends, or -1 when it
/// runs to the end.
pub open spec fn authority_end(s: Seq<char>) -> int {
    if exists|k: int| is_authority_end(s, k) {
        choose|k: int| is_authority_end(s, k)
    } else {
        -1
    }
}

/// The first position in `v` of `/`, `?` or `#`.
fn find_authority_end(v: &Vec<char>) -> (r: Option<usize>)
    ensures
        match r {
            Some(k) => authority_end(v@) == k && is_authority_end(v@, k as int),
            None => authority_end(v@) == -1,
        },
{
    for i in 0..v.len()
        invariant
            forall|j: int| 0 <= j < i ==> !ends_authority(#[trigger] v@[j]),
    {
        let c = v[i];
        if c == '/' || c == '?' || c == '#' {
            proof {
                assert(is_authority_end(v@, i as int));
                let k = choose|k: int| is_authority_end(v@, k);
                if k < i {
                    assert(!ends_authority(v@[k]));
                }
                if k > i {
                    assert(ends_authority(v@[i as int]));
                }
            }
            return Some(i);
        }
    }
    proof {
        if exists|k: int| is_authority_end(v@, k) {
            let k = choose|k: int| is_authority_end(v@, k);
            assert(!ends_authority(v@[k]));
        }
    }
    None
}

/// How `url` splits: the scheme before the first `://` (compared in ASCII
/// lower case, `http` or `https`), the authority up to the next `/`, `?` or
/// `#`, and the rest as path with query, starting with `/` (just `/` when
/// there is no rest).
pub open spec fn url_shape(url: Seq<char>) -> UrlShape {
    let k = scheme_sep(url);
    if k < 0 {
        UrlShape::NoScheme
    } else {
        let sch = lower(url.subrange(0, k));
        let rest = url.subrange(k + 3, url.len() as int);
        if sch != "http"@ && sch != "https"@ {
            UrlShape::BadScheme(sch)
        } else {
            let scheme = if sch == "http"@ {
                UrlScheme::Http
            } else {
                UrlScheme::Https
            };
            let j = authority_end(rest);
            let authority = if j < 0 {
                rest
            } else {
                rest.subrange(0, j)
            };
            let path = if j < 0 {
                "/"@
            } else if rest[j] == '/' {
                rest.subrange(j, rest.len() as int)
            } else {
                "/"@ + rest.subrange(j, rest.len() as int)
            };
            if authority.len() == 0 {
                UrlShape::NoHost
            } else {
                UrlShape::Parts { scheme, authority, path }
            }
        }
    }
}

/// `e` is the error for a URL of shape `shape`.
pub open spec fn shape_error(e: FetchError, shape: UrlShape) -> bool {
    match shape {
        UrlShape::NoScheme => e is MissingScheme,
        UrlShape::BadScheme(s) => e matches FetchError::UnsupportedScheme(x) && x@ == s,
        UrlShape::NoHost => e is MissingHost,
        UrlShape::Parts { .. } => false,
    }
}

/// Splits `url` into scheme, authority, and path with query.
pub fn parse_url(url: &str) -> (r: Result<ParsedUrl, FetchError>)
    ensures
        match r {
            Ok(p) => url_shape(url@) == (UrlShape::Parts {
                scheme: p.scheme,
                authority: p.authority@,
                path: p.path@,
            }),
            Err(e) => shape_error(e, url_shape(url@)),
        },
{
    let v = chars_of(url);
    let k = match find_scheme_sep(&v) {
        None => {
            return Err(FetchError::MissingScheme);
        },
        Some(k) => k,
    };
    let head = sub_chars(&v, 0, k);
    let sch = lower_chars(&head);
    let rest = sub_chars(&v, k + 3, v.len());
    let http = chars_of("http");
    let https = chars_of("https");
    let scheme = if same_chars(&sch, &http) {
        UrlScheme::Http
    } else if same_chars(&sch, &https) {
        UrlScheme::Https
    } else {
        return Err(FetchError::UnsupportedScheme(string_of(&sch)));
    };
    let (auth, path) = match find_authority_end(&rest) {
        Some(j) => {
            let tail = sub_chars(&rest, j, rest.len());
            if rest[j] == '/' {
                (sub_chars(&rest, 0, j), tail)
            } else {
                let mut p = chars_of("/");
                let mut t = tail;
                p.append(&mut t);
                (sub_chars(&rest, 0, j), p)
            }
        },
        None => (sub_chars(&rest, 0, rest.len()), chars_of("/")),
    };
    assert(rest@.subrange(0, rest@.len() as int) =~= rest@);
    if auth.len() == 0 {
        return Err(FetchError::MissingHost);
    }
    Ok(ParsedUrl { scheme, authority: string_of(&auth), path: string_of(&path) })
}

/// Every character of `s` is an ASCII digit.
pub open spec fn all_ascii_digits(s: Seq<char>) -> bool {
    forall|i: int| 0 <= i < s.len() ==> 48 <= #[trigger] (s[i] as u32) <= 57
}

/// The host of an authority, in ASCII lower case: without a trailing
/// `:port` made of digits only, unless it is a bracketed IPv6 literal.
pub open spec fn host_of(authority: Seq<char>) -> Seq<char> {
    let a = lower(authority);
    let k = last_index_of(a, ':');
    if k >= 0 && !(a.len() > 0 && a[0] == '[') && all_ascii_digits(a.subrange(k + 1, a.len() as int)) {
        a.subrange(0, k)
    } else {
        a
    }
}

/// The host of `authority`, in ASCII lower case, without a numeric port.
pub fn host_lc(authority: &str) -> (h: String)
    ensures
        h@ == host_of(authority@),
{
    let raw = chars_of(authority);
    let a = lower_chars(&raw);
    if let Some(k) = rfind_char(&a, ':') {
        if !(a.len() > 0 && a[0] == '[') {
            let mut digits = true;
            let mut i = k + 1;
            while i < a.len()
                invariant
                    k < a.len(),
                    k + 1 <= i <= a.len(),
                    digits == all_ascii_digits(a@.subrange(k + 1, i as int)),
                decreases a.len() - i,
            {
                let u = a[i] as u32;
                if !(48 <= u && u <= 57) {
                    digits = false;
                }
                assert(a@.subrange(k + 1, i + 1).drop_last() =~= a@.subrange(k + 1, i as int));
                proof {
                    let s1 = a@.subrange(k + 1, i + 1);
                    if all_ascii_digits(s1) {
                        assert forall|j: int| 0 <= j < s1.len() - 1 implies 48 <= #[trigger] (a@.subrange(k + 1, i as int)[j] as u32) <= 57 by {
                            assert(a@.subrange(k + 1, i as int)[j] == s1[j]);
                        }
                        assert(s1[s1.len() - 1] == a@[i as int]);
                    }
                    if digits && 48 <= u && u <= 57 {
                        assert forall|j: int| 0 <= j < s1.len() implies 48 <= #[trigger] (s1[j] as u32) <= 57 by {
                            if j < s1.len() - 1 {
                                assert(a@.subrange(k + 1, i as int)[j] == s1[j]);
                            }
                        }
                    }
                }
                i = i + 1;
            }
            if digits {
                return string_of(&sub_chars(&a, 0, k));
            }
        }
    }
    string_of(&a)
}

/// Whether `status` is an HTTP redirect (301, 302, 303, 307 or 308).
pub fn is_redirect_status(status: u16) -> (r: bool)
    ensures
        r == (status == 301 || status == 302 || status == 303 || status == 307 || status == 308),
{
    status == 301 || status == 302 || status == 303 || status == 307 || status == 308
}

/// A redirect from host `from` to host `to` stays on Lorem Picsum: from
/// `picsum.photos` or `fastly.picsum.photos` to `fastly.picsum.photos`.
pub open spec fn picsum_hosts(from: Seq<char>, to: Seq<char>) -> bool {
    (from == "picsum.photos"@ || from == "fastly.picsum.photos"@) && to == "fastly.picsum.photos"@
}

/// A redirect from `from_authority` to the URL `location` may be followed.
pub open spec fn redirect_allowed(from_authority: Seq<char>, location: Seq<char>) -> bool {
    match url_shape(location) {
        UrlShape::Parts { authority, .. } => picsum_hosts(host_of(from_authority), host_of(authority)),
        _ => false,
    }
}

/// `e` is the error for a refused redirect from `from_authority` to `location`.
pub open spec fn redirect_error(from_authority: Seq<char>, location: Seq<char>, e: FetchError) -> bool {
    match url_shape(location) {
        UrlShape::Parts { authority, .. } => e matches FetchError::RedirectRejected { from, to }
            && from@ == host_of(from_authority) && to@ == host_of(authority),
        shape => shape_error(e, shape),
    }
}

/// Checks that a redirect from `from_authority` to `location_url` stays on
/// Lorem Picsum's CDN host.
pub fn picsum_redirect_allowed(from_authority: &str, location_url: &str) -> (r: Result<(), FetchError>)
    ensures
        r is Ok <==> redirect_allowed(from_authority@, location_url@),
        r matches Err(e) ==> redirect_error(from_authority@, location_url@, e),
{
    let loc = match parse_url(location_url) {
        Ok(p) => p,
        Err(e) => {
            return Err(e);
        },
    };
    let from_h = host_lc(from_authority);
    let to_h = host_lc(loc.authority.as_str());
    let from_c = chars_of(from_h.as_str());
    let to_c = chars_of(to_h.as_str());
    let picsum = chars_of("picsum.photos");
    let fastly = chars_of("fastly.picsum.photos");
    if (same_chars(&from_c, &picsum) || same_chars(&from_c, &fastly)) && same_chars(&to_c, &fastly) {
        return Ok(());
    }
    Err(FetchError::RedirectRejected { from: from_h, to: to_h })
}

/// The value of a `Location` header: its bytes as UTF-8, trimmed of white
/// space, or nothing when they are not UTF-8.
pub fn location_value(header: &[u8]) -> (r: Option<String>)
    ensures
        r is Some <==> vstd::utf8::valid_utf8(header@),
        r matches Some(s) ==> s@ == trim(vstd::utf8::decode_utf8(header@)),
{
    match utf8_str(header) {
        Some(s) => {
            let v = chars_of(s);
            let t = trim_chars(&v);
            Some(string_of(&t))
        },
        None => None,
    }
}

/// What to do with a response.
#[derive(PartialEq, Eq, Structural, Clone, Copy, Debug)]
pub enum ResponseAction {
    /// Discard the body and request the new URL.
    FollowRedirect,
    /// Discard the body and report the redirect with nothing saved.
    ReturnRedirect,
    /// Save the body as the image.
    SaveBody,
}

/// The state of one image download: whether Lorem Picsum redirects are
/// followed, the URL to request next, and the requests made so far.
pub struct ImageFetch {
    follow_picsum: bool,
    current_url: String,
    requests: usize,
}

impl View for ImageFetch {
    type V = (bool, Seq<char>, nat);

    closed spec fn view(&self) -> (bool, Seq<char>, nat) {
        (self.follow_picsum, self.current_url@, self.requests as nat)
    }
}

impl ImageFetch {
    /// Starts the download of `url`. Redirects are followed only when its
    /// host is `picsum.photos`.
    pub fn start(url: &str) -> (r: Result<ImageFetch, FetchError>)
        ensures
            match url_shape(url@) {
                UrlShape::Parts { authority, .. } => (r matches Ok(f) && f@ == (
                    host_of(authority) == "picsum.photos"@,
                    url@,
                    0nat,
                )),
                shape => (r matches Err(e) && shape_error(e, shape)),
            },
    {
        let first = match parse_url(url) {
            Ok(p) => p,
            Err(e) => {
                return Err(e);
            },
        };
        let h = host_lc(first.authority.as_str());
        let hc = chars_of(h.as_str());
        let picsum = chars_of("picsum.photos");
        let follow = same_chars(&hc, &picsum);
        let cv = chars_of(url);
        Ok(ImageFetch { follow_picsum: follow, current_url: string_of(&cv), requests: 0 })
    }

    /// The next request to send: the current URL, split. Up to
    /// `MAX_REDIRECTS` redirects are followed, so this fails once
    /// `MAX_REDIRECTS + 1` requests have been made.
    pub fn next_request(&mut self) -> (r: Result<ParsedUrl, FetchError>)
        ensures
            old(self)@.2 > MAX_REDIRECTS ==> (r matches Err(e) && e is TooManyRedirects) && final(self)@ == old(self)@,
            old(self)@.2 <= MAX_REDIRECTS ==> final(self)@ == (old(self)@.0, old(self)@.1, old(self)@.2
                + 1) && match url_shape(old(self)@.1) {
                UrlShape::Parts { scheme, authority, path } => (r matches Ok(u) && u.scheme == scheme
                    && u.authority@ == authority && u.path@ == path),
                shape => (r matches Err(e) && shape_error(e, shape)),
            },
            final(self)@.2 <= MAX_REDIRECTS + 1 || final(self)@ == old(self)@,
    {
        if self.requests > MAX_REDIRECTS {
            return Err(FetchError::TooManyRedirects);
        }
        self.requests = self.requests + 1;
        parse_url(self.current_url.as_str())
    }

    /// Decides what to do with the response to the last request: follow a
    /// Lorem Picsum redirect to its `location`, report any other redirect
    /// with nothing saved, or save the body.
    pub fn on_response(&mut self, status: u16, location: Option<String>) -> (r: Result<
        ResponseAction,
        FetchError,
    >)
        ensures
            ({
                let redirect = status == 301 || status == 302 || status == 303 || status == 307
                    || status == 308;
                &&& !redirect ==> r == Ok::<ResponseAction, FetchError>(ResponseAction::SaveBody)
                    && final(self)@ == old(self)@
                &&& redirect && !old(self)@.0 ==> r == Ok::<ResponseAction, FetchError>(
                    ResponseAction::ReturnRedirect,
                ) && final(self)@ == old(self)@
                &&& redirect && old(self)@.0 && location is None ==> (r matches Err(e)
                    && e == FetchError::MissingLocation(status)) && final(self)@ == old(self)@
                &&& redirect && old(self)@.0 && location is Some ==> match url_shape(old(self)@.1) {
                    UrlShape::Parts { authority, .. } => {
                        let loc = location->Some_0@;
                        &&& redirect_allowed(authority, loc) ==> r == Ok::<ResponseAction, FetchError>(
                            ResponseAction::FollowRedirect,
                        ) && final(self)@ == (old(self)@.0, loc, old(self)@.2)
                        &&& !redirect_allowed(authority, loc) ==> (r matches Err(e) && redirect_error(
                            authority,
                            loc,
                            e,
                        )) && final(self)@ == old(self)@
                    },
                    shape => (r matches Err(e) && shape_error(e, shape)) && final(self)@ == old(self)@,
                }
            }),
            r == Ok::<ResponseAction, FetchError>(ResponseAction::FollowRedirect) ==> old(self)@.0
                && final(self)@.0 && (url_shape(final(self)@.1) matches UrlShape::Parts {
                authority,
                ..
            } && host_of(authority) == "fastly.picsum.photos"@),
    {
        if !is_redirect_status(status) {
            return Ok(ResponseAction::SaveBody);
        }
        if !self.follow_picsum {
            return Ok(ResponseAction::ReturnRedirect);
        }
        let next = match location {
            None => {
                return Err(FetchError::MissingLocation(status));
            },
            Some(l) => l,
        };
        let current = match parse_url(self.current_url.as_str()) {
            Ok(p) => p,
            Err(e) => {
                return Err(e);
            },
        };
        match picsum_redirect_allowed(current.authority.as_str(), next.as_str()) {
            Ok(()) => {},
            Err(e) => {
                return Err(e);
            },
        }
        self.current_url = next;
        Ok(ResponseAction::FollowRedirect)
    }
}

impl FetchError {
    /// The message that reports the error.
    pub fn message(&self) -> (m: String)
        ensures
            m@ == error_message(*self),
    {
        let mut m = String::new();
        match self {
            FetchError::MissingScheme => {
                m.append("url missing scheme");
            },
            FetchError::UnsupportedScheme(s) => {
                m.append("unsupported scheme `");
                m.append(s.as_str());
                m.append("`");
            },
            FetchError::MissingHost => {
                m.append("url missing host");
            },
            FetchError::RedirectRejected { from, to } => {
                m.append("picsum redirect rejected (from host `");
                m.append(from.as_str());
                m.append("` to `");
                m.append(to.as_str());
                m.append("`)");
            },
            FetchError::MissingLocation(status) => {
                m.append("HTTP ");
                let d = decimal_string(*status as u64);
                m.append(d.as_str());
                m.append(" from picsum but no usable Location header");
            },
            FetchError::TooManyRedirects => {
                m.append("more than ");
                let d = decimal_string(MAX_REDIRECTS as u64);
                m.append(d.as_str());
                m.append(" redirects (picsum)");
            },
            FetchError::EmptyImage { status, bytes_written } => {
                m.append("image is empty (HTTP status ");
                let d = decimal_string(*status as u64);
                m.append(d.as_str());
                m.append(", ");
                let b = decimal_string(*bytes_written);
                m.append(b.as_str());
                m.append(EMPTY_IMAGE_ADVICE);
            },
        }
        assert(m@ =~= error_message(*self));
        m
    }
}

/// The end of the message for an empty image.
pub const EMPTY_IMAGE_ADVICE: &'static str = " bytes saved). For non-picsum hosts, redirects are not followed (302 often has no body); use a final URL or pre-seed the file under data_dependency_path.";

/// The message that reports `e`.
pub open spec fn error_message(e: FetchError) -> Seq<char> {
    match e {
        FetchError::MissingScheme => "url missing scheme"@,
        FetchError::UnsupportedScheme(s) => "unsupported scheme `"@ + s@ + "`"@,
        FetchError::MissingHost => "url missing host"@,
        FetchError::RedirectRejected { from, to } => "picsum redirect rejected (from host `"@ + from@
            + "` to `"@ + to@ + "`)"@,
        FetchError::MissingLocation(status) => "HTTP "@ + decimal(status as nat)
            + " from picsum but no usable Location header"@,
        FetchError::TooManyRedirects => "more than "@ + decimal(MAX_REDIRECTS as nat)
            + " redirects (picsum)"@,
        FetchError::EmptyImage { status, bytes_written } => "image is empty (HTTP status "@
            + decimal(status as nat) + ", "@ + decimal(bytes_written as nat) + EMPTY_IMAGE_ADVICE@,
    }
}

/// Where the image is kept: under the data-dependency directory when one is
/// given, else in the working directory.
pub fn image_path(data_dependency_path: &Option<String>, filename: &str) -> (p: String)
    ensures
        p@ == match data_dependency_path {
            Some(d) => d@ + "/"@ + filename@,
            None => "./"@ + filename@,
        },
{
    let mut p = String::new();
    match data_dependency_path {
        Some(d) => {
            p.append(d.as_str());
            p.append("/");
        },
        None => {
            p.append("./");
        },
    }
    p.append(filename);
    p
}

/// The image is downloaded unless a data-dependency directory is given and
/// the image is already there.
pub fn needs_download(has_data_dependency: bool, image_exists: bool) -> (r: bool)
    ensures
        r == !(has_data_dependency && image_exists),
{
    !(has_data_dependency && image_exists)
}

/// An image that came out empty is an error, reported with the status of the
/// last response and the bytes saved.
pub fn check_image(image_len: usize, status: u16, bytes_written: u64) -> (r: Result<(), FetchError>)
    ensures
        image_len > 0 ==> r is Ok,
        image_len == 0 ==> (r matches Err(e) && e == (FetchError::EmptyImage { status, bytes_written })),
{
    if image_len == 0 {
        Err(FetchError::EmptyImage { status, bytes_written })
    } else {
        Ok(())
    }
}

} // verus!
