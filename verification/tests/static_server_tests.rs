use app_m::models::ProxyRule;
use app_m::static_server::{
    confine_to_root, content_range_value, forward_request_header, forward_response_header,
    forwarded_method, guess_mime, is_websocket_upgrade, match_proxy_rule, match_proxy_rule_index,
    parse_byte_range, percent_decode, proxy_target_url, route_request, sanitize_path,
    ws_target_url, HttpMethod, Route,
};

fn rule(path: &str, target: &str, rewrite: bool) -> ProxyRule {
    ProxyRule { path: path.to_string(), target: target.to_string(), rewrite }
}

#[test]
fn percent_decode_cases() {
    assert_eq!(percent_decode("a%20b").as_deref(), Some("a b"));
    assert_eq!(percent_decode("a+b").as_deref(), Some("a b"));
    assert_eq!(percent_decode("%E4%BD%A0").as_deref(), Some("你"));
    assert_eq!(percent_decode("100%").as_deref(), Some("100%"));
    assert_eq!(percent_decode("%zz").as_deref(), Some("%zz"));
    assert_eq!(percent_decode("%41%4").as_deref(), Some("A%4"));
    assert_eq!(percent_decode("%FF"), None);
    assert_eq!(percent_decode("plain/path.html").as_deref(), Some("plain/path.html"));
    assert_eq!(percent_decode("").as_deref(), Some(""));
}

#[test]
fn percent_decode_plain_is_identity() {
    for s in ["index.html", "a/b/c.js", "中文/文件.txt", "x-y_z~.css"] {
        assert_eq!(percent_decode(s).as_deref(), Some(s));
    }
}

#[test]
fn proxy_rule_longest_match() {
    let rules = vec![rule("/api", "http://a", false), rule("/api/v2/", "http://b", false), rule("/", "http://c", false)];
    assert_eq!(match_proxy_rule_index("/api/users", &rules), Some(0));
    assert_eq!(match_proxy_rule_index("/api/v2/items", &rules), Some(1));
    assert_eq!(match_proxy_rule_index("/api/v2", &rules), Some(1));
    assert_eq!(match_proxy_rule_index("/api", &rules), Some(0));
    assert_eq!(match_proxy_rule_index("/apix", &rules), None);
    assert_eq!(match_proxy_rule_index("/other", &rules), None);
    assert_eq!(match_proxy_rule("/api/x", &rules).unwrap().target, "http://a");
    assert!(match_proxy_rule("/", &rules).is_none());
}

#[test]
fn proxy_rule_first_of_equal_length() {
    let rules = vec![rule("/api", "http://first", false), rule("/api/", "http://second", false)];
    assert_eq!(match_proxy_rule_index("/api/x", &rules), Some(0));
}

#[test]
fn mime_types() {
    assert_eq!(guess_mime("/www/index.html"), "text/html; charset=utf-8");
    assert_eq!(guess_mime("/www/APP.JS"), "application/javascript; charset=utf-8");
    assert_eq!(guess_mime("style.css"), "text/css; charset=utf-8");
    assert_eq!(guess_mime("a/b/photo.JPeG"), "image/jpeg");
    assert_eq!(guess_mime("font.woff2"), "font/woff2");
    assert_eq!(guess_mime("bundle.js.map"), "application/json");
    assert_eq!(guess_mime("main.tsx"), "application/javascript; charset=utf-8");
    assert_eq!(guess_mime("/www/.htaccess"), "application/octet-stream");
    assert_eq!(guess_mime("/www/README"), "application/octet-stream");
    assert_eq!(guess_mime("archive.tar.gz"), "application/octet-stream");
    assert_eq!(guess_mime("/www/dir/"), "application/octet-stream");
    assert_eq!(guess_mime("/www/page.html/"), "text/html; charset=utf-8");
}

#[test]
fn sanitize_joins_decoded_path() {
    assert_eq!(sanitize_path("a%20b/c.html", "/www", false).as_deref(), Some("/www/a b/c.html"));
    assert_eq!(sanitize_path("x.js", "/www/", false).as_deref(), Some("/www/x.js"));
    assert_eq!(sanitize_path("%2Fetc%2Fpasswd", "/www", false).as_deref(), Some("/etc/passwd"));
    assert_eq!(sanitize_path("%C0", "/www", false), None);
}

#[test]
fn confine_keeps_paths_below_root() {
    assert_eq!(confine_to_root("/www/a/b.html", "/www", false).as_deref(), Some("/www/a/b.html"));
    assert_eq!(confine_to_root("/www", "/www", false).as_deref(), Some("/www"));
    assert_eq!(confine_to_root("/www2/a", "/www", false), None);
    assert_eq!(confine_to_root("/etc/passwd", "/www", false), None);
    assert_eq!(confine_to_root("/www/./a", "/www/", false), Some("/www/./a".to_string()));
}

#[test]
fn byte_ranges() {
    assert_eq!(parse_byte_range("bytes=0-99", 1000), Some((0, 99)));
    assert_eq!(parse_byte_range("bytes=100-", 1000), Some((100, 999)));
    assert_eq!(parse_byte_range("bytes=900-5000", 1000), Some((900, 999)));
    assert_eq!(parse_byte_range("bytes=5000-", 1000), Some((999, 999)));
    assert_eq!(parse_byte_range("bytes=x-10", 1000), Some((0, 10)));
    assert_eq!(parse_byte_range("bytes=5-y", 1000), Some((5, 999)));
    assert_eq!(parse_byte_range("bytes=50-10", 1000), None);
    assert_eq!(parse_byte_range("bytes=10", 1000), None);
    assert_eq!(parse_byte_range("items=0-1", 1000), None);
    assert_eq!(parse_byte_range("bytes=0-1", 0), None);
    assert_eq!(content_range_value(0, 99, 1000), "bytes 0-99/1000");
}

#[test]
fn proxy_urls() {
    let r = rule("/api/", "http://localhost:3000/", true);
    assert_eq!(proxy_target_url(&r, "/api/users", Some("a=1")), "http://localhost:3000/users?a=1");
    assert_eq!(proxy_target_url(&r, "/api", None), "http://localhost:3000");
    assert_eq!(proxy_target_url(&r, "/api/", None), "http://localhost:3000");
    let keep = rule("/api", "http://localhost:3000", false);
    assert_eq!(proxy_target_url(&keep, "/api/users/", None), "http://localhost:3000/api/users/");
    let secure = rule("/ws", "https://example.com/", true);
    assert_eq!(ws_target_url(&secure, "/ws/socket", Some("t=1")), "wss://example.com/socket?t=1");
    assert_eq!(ws_target_url(&keep, "/api/hmr", None), "ws://localhost:3000/api/hmr");
}

#[test]
fn forwarded_headers_and_methods() {
    assert!(!forward_request_header("host"));
    assert!(!forward_request_header("content-length"));
    assert!(!forward_request_header("accept-encoding"));
    assert!(forward_request_header("authorization"));
    assert!(!forward_response_header("content-encoding"));
    assert!(!forward_response_header("connection"));
    assert!(forward_response_header("content-type"));
    assert_eq!(forwarded_method(HttpMethod::Patch), HttpMethod::Patch);
    assert_eq!(forwarded_method(HttpMethod::Other), HttpMethod::Get);
}

#[test]
fn websocket_detection() {
    assert!(is_websocket_upgrade(Some("websocket")));
    assert!(is_websocket_upgrade(Some("WebSocket")));
    assert!(!is_websocket_upgrade(Some("h2c")));
    assert!(!is_websocket_upgrade(None));
}

#[test]
fn routing() {
    let rules = vec![rule("/api", "http://a", false)];
    assert!(matches!(route_request("/api/x", &rules, false), Route::Proxy(0)));
    assert!(matches!(route_request("/api/x", &rules, true), Route::ProxyWebSocket(0)));
    assert!(matches!(route_request("/", &rules, false), Route::Index));
    assert!(matches!(route_request("///", &rules, false), Route::Index));
    match route_request("//docs/a%20b.html", &rules, false) {
        Route::File(t) => assert_eq!(t, "docs/a%20b.html"),
        _ => panic!("expected a file route"),
    }
}

#[test]
fn windows_paths() {
    assert_eq!(confine_to_root("C:\\www\\a.txt", "C:\\www", true).as_deref(), Some("C:\\www\\a.txt"));
    assert_eq!(
        confine_to_root("\\\\?\\C:\\www\\a\\b.txt", "\\\\?\\C:\\www", true).as_deref(),
        Some("\\\\?\\C:\\www\\a\\b.txt")
    );
    assert_eq!(confine_to_root("\\\\?\\C:\\www2\\a", "\\\\?\\C:\\www", true), None);
    assert_eq!(confine_to_root("C:\\www\\a.txt", "C:\\www", false), None);
    assert_eq!(
        sanitize_path("a%20b/c.html", "\\\\?\\C:\\www", true).as_deref(),
        Some("\\\\?\\C:\\www\\a b/c.html")
    );
    assert_eq!(sanitize_path("x.js", "C:\\www\\", true).as_deref(), Some("C:\\www\\x.js"));
    assert_eq!(sanitize_path("%5Cwin.ini", "C:\\www", true).as_deref(), Some("\\win.ini"));
    assert_eq!(sanitize_path("D:%2Fx", "C:\\www", true).as_deref(), Some("D:/x"));
}

#[test]
fn percent_decode_escapes() {
    assert_eq!(percent_decode("%+5").as_deref(), Some("% 5"));
    assert_eq!(percent_decode("%48%C3%A9").as_deref(), Some("Hé"));
    let s = "路径/a b+c%.txt";
    let enc: String = s.bytes().map(|b| format!("%{:02X}", b)).collect();
    assert_eq!(percent_decode(&enc).as_deref(), Some(s));
}

#[test]
fn percent_decode_of_fully_encoded_text() {
    let original = "路径/a b+c%";
    let encoded: String = original.bytes().map(|b| format!("%{:02X}", b)).collect();
    assert_eq!(percent_decode(&encoded).as_deref(), Some(original));
    let plain = "目录/file-1.txt";
    assert_eq!(percent_decode(plain).as_deref(), Some(plain));
}
