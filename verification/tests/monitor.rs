use cyd_companion::monitor_api::{
    generate_install_id, generate_token, monitor_host, pair_url, qr_modules, query_param, response_head,
    route_request, split_path_query, status_code, token_authorized, url_decode, url_encode,
    web_pair_url, Route, MONITOR_PORT,
};

#[test]
fn pair_url_roundtrip_fields() {
    let u = pair_url("10.0.0.5", MONITOR_PORT, "aabbccdd", "0123456789abcdef0123456789abcdef");
    assert!(u.starts_with("njordrseas://cyd-monitor/v1?"));
    assert!(u.contains("host=10.0.0.5"));
    assert!(u.contains("id=aabbccdd"));
    assert!(u.contains("token=0123456789abcdef0123456789abcdef"));
}

#[test]
fn qr_encodes() {
    let u = pair_url("192.168.0.2", MONITOR_PORT, "11223344", "ffffffffffffffffffffffffffffffff");
    let (w, cells) = qr_modules(&u).expect("qr");
    assert!(w >= 21);
    assert_eq!(cells.len(), w * w);
    assert!(cells.iter().any(|&c| c));
}

#[test]
fn token_gate_headers() {
    let tok = "abc123";
    let req = format!("GET /api/status HTTP/1.1\r\nAuthorization: Bearer {tok}\r\n\r\n");
    assert!(token_authorized(&req, "", tok));
    assert!(!token_authorized(&req, "", "other"));
    assert!(token_authorized("GET /x HTTP/1.1\r\n\r\n", "token=abc123", tok));
}

#[test]
fn pair_url_exact_text() {
    assert_eq!(
        pair_url(" 10.0.0.5 ", 19285, "ab cd", "t&k"),
        "njordrseas://cyd-monitor/v1?host=10.0.0.5&port=19285&id=ab%20cd&token=t%26k"
    );
    assert_eq!(
        web_pair_url("pc.local", 19285, "aabbccdd", "tok"),
        "http://pc.local:19285/?id=aabbccdd&token=tok"
    );
}

#[test]
fn web_pairing_link_authorizes() {
    let tok = "0123456789abcdef0123456789abcdef";
    let url = web_pair_url("10.0.0.5", MONITOR_PORT, "aabbccdd", tok);
    let target = url.strip_prefix("http://10.0.0.5:19285").unwrap();
    let (path, query) = split_path_query(target);
    assert_eq!(path, "/");
    assert!(token_authorized("GET / HTTP/1.1\r\n\r\n", &query, tok));
    let req = format!("GET /api/status{} HTTP/1.1\r\n\r\n", &target[1..]);
    assert_eq!(route_request(&req, tok), Route::Status);
}

#[test]
fn url_codec_roundtrip() {
    for s in ["plain", "a b+c", "100%", "ünï & cøde=?", ""] {
        assert_eq!(url_decode(&url_encode(s)), s);
    }
    assert_eq!(url_encode("a b/c"), "a%20b%2Fc");
    assert_eq!(url_decode("a+b%2fc%zz"), "a b/c%zz");
}

#[test]
fn query_params() {
    assert_eq!(query_param("id=1&token=abc&t=x", "token").as_deref(), Some("abc"));
    assert_eq!(query_param("id=1&token=a%20b", "token").as_deref(), Some("a b"));
    assert_eq!(query_param("flag&x=1", "flag").as_deref(), Some(""));
    assert_eq!(query_param("a=1", "b"), None);
    let (p, q) = split_path_query("/api/status?token=1?2");
    assert_eq!((p.as_str(), q.as_str()), ("/api/status", "token=1?2"));
    let (p, q) = split_path_query("/index.html");
    assert_eq!((p.as_str(), q.as_str()), ("/index.html", ""));
}

#[test]
fn token_gate_variants() {
    assert!(!token_authorized("GET / HTTP/1.1\r\n\r\n", "token=", ""));
    assert!(token_authorized("GET / HTTP/1.1\r\n\r\n", "t=s3cret", "s3cret"));
    assert!(token_authorized("GET / HTTP/1.1\r\nx-cyd-token: s3cret\r\n\r\n", "", "s3cret"));
    assert!(token_authorized("GET / HTTP/1.1\r\nAUTHORIZATION: bearer s3cret\r\n\r\n", "", "s3cret"));
    // Headers after the blank line are body, not headers.
    assert!(!token_authorized("GET / HTTP/1.1\r\n\r\nX-Cyd-Token: s3cret\r\n", "", "s3cret"));
}

#[test]
fn routing_and_heads() {
    assert_eq!(route_request("GET /api/status HTTP/1.1\r\n\r\n", "tok"), Route::Unauthorized);
    assert_eq!(route_request("GET /api/status?token=tok HTTP/1.1\r\n\r\n", "tok"), Route::Status);
    assert_eq!(route_request("GET / HTTP/1.1\r\n\r\n", "tok"), Route::Page);
    assert_eq!(route_request("GET /monitor HTTP/1.1\r\n\r\n", "tok"), Route::Page);
    assert_eq!(route_request("GET /favicon.ico HTTP/1.1\r\n\r\n", "tok"), Route::NotFound);
    assert_eq!(route_request("", "tok"), Route::Page);
    assert_eq!(status_code(Route::Unauthorized), 401);
    assert_eq!(status_code(Route::NotFound), 404);
    assert_eq!(
        response_head(404, "text/plain", 9),
        "HTTP/1.1 404 Not Found\r\nContent-Type: text/plain\r\nContent-Length: 9\r\nAccess-Control-Allow-Origin: *\r\nAccess-Control-Allow-Headers: Authorization, X-Cyd-Token, Content-Type\r\nCache-Control: no-store\r\nConnection: close\r\n\r\n"
    );
}

#[test]
fn secrets_are_hex() {
    let id = generate_install_id();
    let tok = generate_token();
    assert_eq!(id.len(), 8);
    assert_eq!(tok.len(), 32);
    assert!(tok.chars().all(|c| c.is_ascii_hexdigit() && !c.is_ascii_uppercase()));
    assert_ne!(generate_token(), tok);
}

#[test]
fn phone_host_prefers_public_address() {
    assert_eq!(monitor_host("  https://my.example.com:8443/x ", "10.0.0.2"), Some("my.example.com".to_string()));
    assert_eq!(monitor_host("http://http://box", ""), Some("box".to_string()));
    assert_eq!(monitor_host("203.0.113.7", "10.0.0.2"), Some("203.0.113.7".to_string()));
    assert_eq!(monitor_host("", "10.0.0.2"), Some("10.0.0.2".to_string()));
    assert_eq!(monitor_host("   ", ""), None);
}

#[test]
fn pair_url_query_reads_back() {
    let u = pair_url(" my host&x ", 19285, " id=1 ", " tok en+% ");
    let (_, q) = split_path_query(&u);
    assert_eq!(query_param(&q, "host"), Some("my host&x".to_string()));
    assert_eq!(query_param(&q, "port"), Some("19285".to_string()));
    assert_eq!(query_param(&q, "id"), Some("id=1".to_string()));
    assert_eq!(query_param(&q, "token"), Some("tok en+%".to_string()));
}

#[test]
fn qr_top_left_module_is_dark() {
    let (w, cells) = qr_modules("njordrseas://cyd-monitor/v1?host=10.0.0.5&port=19285").expect("qr");
    assert!(w >= 21);
    assert!(cells[0]);
}
