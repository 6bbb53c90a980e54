use faasrail::fetch::{
    check_image, host_lc, image_path, is_redirect_status, needs_download, parse_url,
    picsum_redirect_allowed, location_value, FetchError, ImageFetch, ResponseAction, UrlScheme,
};
use faasrail::html::{decimal_string, render_table};
use faasrail::numbers::parse_u32;
use faasrail::openwhisk::{action_url, activation_id, parse_payload, split_auth};
use faasrail::wsk::{basic_auth_header, wsk_config, WskError};

#[test]
fn render_table_small() {
    let expected = "<table>\n  <tr>\n    <td>Row 0, Col 0</td>\n    <td>1</td>\n    <td>Row 0, Col 2</td>\n  </tr>\n  <tr>\n    <td>Row 1, Col 0</td>\n    <td>4</td>\n    <td>Row 1, Col 2</td>\n  </tr>\n</table>";
    assert_eq!(render_table(2, 3), expected);
}

#[test]
fn render_table_adding_a_row_inserts_it_before_closing_tag() {
    let a = render_table(2, 3);
    let b = render_table(3, 3);
    assert!(a.ends_with("</table>"));
    assert!(b.starts_with(&a[..a.len() - 8]));
    assert!(b[a.len() - 8..].starts_with("  <tr>\n    <td>Row 2, Col 0</td>\n"));
    assert!(b.ends_with("</table>"));
}

#[test]
fn render_table_empty() {
    assert_eq!(render_table(0, 5), "<table>\n</table>");
    assert_eq!(render_table(2, 0), "<table>\n  <tr>\n  </tr>\n  <tr>\n  </tr>\n</table>");
}

#[test]
fn render_table_length_matches_cells() {
    let html = render_table(12, 11);
    assert!(html.starts_with("<table>\n  <tr>\n"));
    assert!(html.contains("<td>Row 11, Col 10</td>"));
    assert!(html.contains("<td>130</td>"));
    assert_eq!(html.matches("<td>").count(), 132);
}

#[test]
fn decimal_string_writes_numbers() {
    assert_eq!(decimal_string(0), "0");
    assert_eq!(decimal_string(7), "7");
    assert_eq!(decimal_string(1234567890), "1234567890");
    assert_eq!(decimal_string(u64::MAX), u64::MAX.to_string());
}

#[test]
fn parse_u32_like_std() {
    for s in ["42", "+7", "", "+", "-1", "-0", "4294967295", "4294967296", "12a", "007", "99999999999", " 1"] {
        assert_eq!(parse_u32(s), s.parse::<u32>().ok(), "input {s:?}");
    }
}

#[test]
fn host_lc_drops_numeric_port() {
    assert_eq!(host_lc("Example.COM:8080"), "example.com");
    assert_eq!(host_lc("picsum.photos"), "picsum.photos");
    assert_eq!(host_lc("[::1]:80"), "[::1]:80");
    assert_eq!(host_lc("host:abc"), "host:abc");
    assert_eq!(host_lc("host:"), "host");
    assert_eq!(host_lc("a:b:443"), "a:b");
}

#[test]
fn redirect_statuses() {
    for s in [301u16, 302, 303, 307, 308] {
        assert!(is_redirect_status(s));
    }
    for s in [200u16, 300, 304, 305, 306, 309, 404] {
        assert!(!is_redirect_status(s));
    }
}

#[test]
fn parse_url_splits_parts() {
    let p = parse_url("HTTPS://picsum.photos/200/300?x=1").ok().unwrap();
    assert_eq!(p.scheme, UrlScheme::Https);
    assert_eq!(p.authority, "picsum.photos");
    assert_eq!(p.path, "/200/300?x=1");
    let q = parse_url("http://host:8080").ok().unwrap();
    assert_eq!(q.scheme, UrlScheme::Http);
    assert_eq!(q.authority, "host:8080");
    assert_eq!(q.path, "/");
}

#[test]
fn parse_url_query_without_path() {
    let p = parse_url("https://example.com?q=1").ok().unwrap();
    assert_eq!(p.scheme, UrlScheme::Https);
    assert_eq!(p.authority, "example.com");
    assert_eq!(p.path, "/?q=1");
    let f = parse_url("http://h:8080#top").ok().unwrap();
    assert_eq!(f.authority, "h:8080");
    assert_eq!(f.path, "/#top");
    assert!(matches!(parse_url("http://?x"), Err(FetchError::MissingHost)));
}

#[test]
fn parse_url_errors() {
    assert!(matches!(parse_url("nohost"), Err(FetchError::MissingScheme)));
    assert!(matches!(parse_url("FTP://x/y"), Err(FetchError::UnsupportedScheme(s)) if s == "ftp"));
    assert!(matches!(parse_url("http:///path"), Err(FetchError::MissingHost)));
}

#[test]
fn picsum_redirects() {
    assert!(picsum_redirect_allowed("picsum.photos", "https://fastly.picsum.photos/id/1/200/300.jpg").is_ok());
    assert!(picsum_redirect_allowed("fastly.picsum.photos:443", "https://FASTLY.picsum.photos/x").is_ok());
    match picsum_redirect_allowed("picsum.photos", "https://evil.com/x") {
        Err(FetchError::RedirectRejected { from, to }) => {
            assert_eq!(from, "picsum.photos");
            assert_eq!(to, "evil.com");
        }
        other => panic!("unexpected {other:?}"),
    }
    assert!(matches!(
        picsum_redirect_allowed("picsum.photos", "/relative"),
        Err(FetchError::MissingScheme)
    ));
}

#[test]
fn image_fetch_follows_picsum_redirects() {
    let mut f = ImageFetch::start("https://picsum.photos/200").ok().unwrap();
    let req = f.next_request().ok().unwrap();
    assert_eq!(req.authority, "picsum.photos");
    let act = f
        .on_response(302, Some("https://fastly.picsum.photos/id/7/200.jpg".to_string()))
        .ok()
        .unwrap();
    assert_eq!(act, ResponseAction::FollowRedirect);
    let req2 = f.next_request().ok().unwrap();
    assert_eq!(req2.authority, "fastly.picsum.photos");
    assert_eq!(req2.path, "/id/7/200.jpg");
    assert_eq!(f.on_response(200, None).ok().unwrap(), ResponseAction::SaveBody);
}

#[test]
fn image_fetch_stops_after_max_requests() {
    let mut f = ImageFetch::start("https://picsum.photos/200").ok().unwrap();
    for _ in 0..6 {
        assert!(f.next_request().is_ok());
        let act = f
            .on_response(301, Some("https://fastly.picsum.photos/a".to_string()))
            .ok()
            .unwrap();
        assert_eq!(act, ResponseAction::FollowRedirect);
    }
    let err = f.next_request().err().unwrap();
    assert!(matches!(err, FetchError::TooManyRedirects));
    assert_eq!(err.message(), "more than 5 redirects (picsum)");
}

#[test]
fn image_fetch_saves_after_five_redirects() {
    let mut f = ImageFetch::start("https://picsum.photos/200").ok().unwrap();
    for _ in 0..5 {
        assert!(f.next_request().is_ok());
        let act = f
            .on_response(302, Some("https://fastly.picsum.photos/id/1".to_string()))
            .ok()
            .unwrap();
        assert_eq!(act, ResponseAction::FollowRedirect);
    }
    let req = f.next_request().ok().unwrap();
    assert_eq!(req.authority, "fastly.picsum.photos");
    assert_eq!(f.on_response(200, None).ok().unwrap(), ResponseAction::SaveBody);
}

#[test]
fn image_fetch_other_hosts_do_not_follow() {
    let mut f = ImageFetch::start("http://example.com/img").ok().unwrap();
    assert!(f.next_request().is_ok());
    assert_eq!(
        f.on_response(302, Some("http://elsewhere/x".to_string())).ok().unwrap(),
        ResponseAction::ReturnRedirect
    );
}

#[test]
fn image_fetch_redirect_errors() {
    let mut f = ImageFetch::start("https://picsum.photos/200").ok().unwrap();
    assert!(f.next_request().is_ok());
    let e = f.on_response(307, None).err().unwrap();
    assert!(matches!(e, FetchError::MissingLocation(307)));
    assert_eq!(e.message(), "HTTP 307 from picsum but no usable Location header");
    let e2 = f.on_response(302, Some("https://other.org/x".to_string())).err().unwrap();
    assert_eq!(
        e2.message(),
        "picsum redirect rejected (from host `picsum.photos` to `other.org`)"
    );
}

#[test]
fn fetch_error_messages() {
    assert_eq!(FetchError::MissingScheme.message(), "url missing scheme");
    assert_eq!(FetchError::MissingHost.message(), "url missing host");
    assert_eq!(
        FetchError::UnsupportedScheme("ftp".to_string()).message(),
        "unsupported scheme `ftp`"
    );
    assert_eq!(
        FetchError::EmptyImage { status: 302, bytes_written: 0 }.message(),
        "image is empty (HTTP status 302, 0 bytes saved). For non-picsum hosts, redirects are not followed (302 often has no body); use a final URL or pre-seed the file under data_dependency_path."
    );
}

#[test]
fn location_value_trims_utf8() {
    assert_eq!(location_value(b"  https://x/y \r\n").as_deref(), Some("https://x/y"));
    assert_eq!(location_value(&[0xff, 0xfe]), None);
}

#[test]
fn image_paths_and_download_decision() {
    assert_eq!(image_path(&Some("/data".to_string()), "a.jpg"), "/data/a.jpg");
    assert_eq!(image_path(&None, "a.jpg"), "./a.jpg");
    assert!(needs_download(false, true));
    assert!(needs_download(true, false));
    assert!(!needs_download(true, true));
    assert!(check_image(10, 200, 10).is_ok());
    assert!(matches!(
        check_image(0, 302, 0),
        Err(FetchError::EmptyImage { status: 302, bytes_written: 0 })
    ));
}

#[test]
fn split_auth_at_first_colon() {
    assert_eq!(split_auth("a:b:c").ok(), Some(("a".to_string(), "b:c".to_string())));
    assert_eq!(split_auth(":x").ok(), Some(("".to_string(), "x".to_string())));
    assert!(split_auth("nocolon").is_err());
}

#[test]
fn action_url_formats() {
    assert_eq!(
        action_url("https://h:31001", "guest", "bench_x", false),
        "https://h:31001/api/v1/namespaces/guest/actions/bench_x?blocking=false&result=false"
    );
    assert_eq!(
        action_url("http://h", "ns", "a", true),
        "http://h/api/v1/namespaces/ns/actions/a?blocking=true&result=false"
    );
}

#[test]
fn wsk_config_reads_properties() {
    let c = wsk_config("# props\nAPIHOST=example.com//\n  AUTH= user:pass \nAPIHOST=example.org/\n").ok().unwrap();
    assert_eq!(c.api_host, "https://example.org");
    assert_eq!(c.auth_header, "Basic dXNlcjpwYXNz");
    let d = wsk_config("APIHOST=http://h:1/\r\nAUTH=a").ok().unwrap();
    assert_eq!(d.api_host, "http://h:1");
    assert_eq!(d.auth_header, "Basic YQ==");
}

#[test]
fn wsk_config_missing_entries() {
    assert!(matches!(wsk_config("AUTH=x\n"), Err(WskError::MissingApiHost)));
    assert!(matches!(wsk_config("APIHOST=h\n"), Err(WskError::MissingAuth)));
}

#[test]
fn basic_auth_header_prefixes_encoding() {
    assert_eq!(basic_auth_header("dXNlcjpwYXNz"), "Basic dXNlcjpwYXNz");
    assert_eq!(basic_auth_header(""), "Basic ");
}

#[test]
fn parse_payload_reads_json_or_nothing() {
    let v = parse_payload(r#"{"n": 3}"#).unwrap();
    assert_eq!(v["n"], serde_json::Value::from(3u64));
    assert_eq!(parse_payload("[]").unwrap(), serde_json::Value::Array(Vec::new()));
    assert!(parse_payload("{").is_none());
    assert!(parse_payload("").is_none());
}

#[test]
fn activation_id_reads_member() {
    assert_eq!(
        activation_id(br#"{"activationId":"abc123","x":1}"#),
        Some("abc123".to_string())
    );
    assert_eq!(activation_id(br#"{"activationId":5}"#), None);
    assert_eq!(activation_id(br#"{"other":"a"}"#), None);
    assert_eq!(activation_id(b"not json"), None);
    assert_eq!(activation_id(&[0x7b, 0xff, 0x7d]), None);
}
