use edge_introspect::headers::HeaderMap;
use edge_introspect::http::{add_cors_headers, handle_debug, handle_get, handle_options, handle_time, route, Method, Request, Response};
use edge_introspect::time::MILLIS_LIMIT;

fn request(method: Method, path: &str, headers: &[(&str, &str)]) -> Request {
    let mut hm = HeaderMap::new();
    for (k, v) in headers {
        hm.set(k, v);
    }
    Request { method, path: path.to_string(), headers: hm }
}

fn cors_values(r: &Response) -> [String; 4] {
    [
        r.headers.get("Access-Control-Allow-Origin").expect("origin header").clone(),
        r.headers.get("Access-Control-Allow-Methods").expect("methods header").clone(),
        r.headers.get("Access-Control-Allow-Headers").expect("headers header").clone(),
        r.headers.get("Access-Control-Max-Age").expect("max-age header").clone(),
    ]
}

fn assert_cors(r: &Response) {
    let [origin, methods, headers, max_age] = cors_values(r);
    assert_eq!(origin, "*");
    assert_eq!(methods, "GET, POST, PUT, DELETE, OPTIONS");
    assert_eq!(headers, "*");
    assert_eq!(max_age, "86400");
}

#[test]
fn ip_without_trusted_header_is_unknown() {
    let req = request(Method::Get, "/ip", &[("User-Agent", "curl/8")]);
    let r = handle_get(&req);
    assert_eq!(r.status, 200);
    assert_eq!(r.body, "unknown");
    let root = route(&request(Method::Get, "/", &[]), 0);
    assert_eq!(root.status, 200);
    assert_eq!(root.body, "unknown");
}

#[test]
fn ip_with_trusted_header_is_returned_unaltered() {
    let req = request(Method::Get, "/ip", &[("CF-Connecting-IP", "203.0.113.7")]);
    let r = route(&req, 0);
    assert_eq!(r.status, 200);
    assert_eq!(r.body, "203.0.113.7");
}

#[test]
fn trusted_header_name_is_case_insensitive() {
    let req = request(Method::Get, "/", &[("cf-CONNECTING-ip", "198.51.100.4")]);
    let r = handle_get(&req);
    assert_eq!(r.body, "198.51.100.4");
}

#[test]
fn debug_renders_headers_as_json() {
    let req = request(Method::Get, "/debug", &[("X-Test", "1")]);
    let r = route(&req, 0);
    assert_eq!(r.status, 200);
    assert_eq!(r.body, "{\"x-test\":\"1\"}");
    assert!(!r.body.contains("cf-connecting-ip"));
}

#[test]
fn debug_round_trips_through_a_json_parser() {
    let req = request(
        Method::Get,
        "/debug",
        &[("X-Test", "1"), ("Accept", "text/plain"), ("X-Quote", "a\"b\\c")],
    );
    let r = handle_debug(&req);
    let decoded: std::collections::HashMap<String, String> =
        serde_json::from_str(&r.body).expect("debug body must parse as a JSON object");
    assert_eq!(decoded.len(), 3);
    assert_eq!(decoded.get("x-test").map(String::as_str), Some("1"));
    assert_eq!(decoded.get("accept").map(String::as_str), Some("text/plain"));
    assert_eq!(decoded.get("x-quote").map(String::as_str), Some("a\"b\\c"));
}

#[test]
fn debug_escapes_control_characters() {
    let req = request(Method::Get, "/debug", &[("X-Ctl", "a\u{1f}b")]);
    let r = handle_debug(&req);
    assert_eq!(r.body, "{\"x-ctl\":\"a\\u001fb\"}");
    let decoded: std::collections::HashMap<String, String> =
        serde_json::from_str(&r.body).expect("escaped body must parse");
    assert_eq!(decoded.get("x-ctl").map(String::as_str), Some("a\u{1f}b"));
}

#[test]
fn debug_of_no_headers_is_empty_object() {
    let req = request(Method::Get, "/debug", &[]);
    let r = handle_debug(&req);
    assert_eq!(r.body, "{}");
}

#[test]
fn later_header_value_overwrites_earlier() {
    let req = request(Method::Get, "/debug", &[("X-Test", "1"), ("x-test", "2")]);
    let r = handle_debug(&req);
    assert_eq!(r.body, "{\"x-test\":\"2\"}");
}

#[test]
fn time_renders_the_epoch() {
    let r = handle_time(0);
    assert_eq!(r.status, 200);
    assert_eq!(r.body, "1970-01-01T00:00:00.000Z");
}

#[test]
fn time_renders_an_ordinary_instant() {
    let r = handle_time(1700000000123);
    assert_eq!(r.body, "2023-11-14T22:13:20.123Z");
}

#[test]
fn time_renders_a_leap_day() {
    let r = handle_time(1709164800000);
    assert_eq!(r.body, "2024-02-29T00:00:00.000Z");
}

#[test]
fn time_renders_the_last_supported_instant() {
    let r = handle_time(MILLIS_LIMIT - 1);
    assert_eq!(r.body, "9999-12-31T23:59:59.999Z");
}

#[test]
fn time_falls_back_past_the_supported_range() {
    let r = handle_time(MILLIS_LIMIT);
    assert_eq!(r.status, 200);
    assert_eq!(r.body, "Error getting time");
    let r2 = handle_time(u64::MAX);
    assert_eq!(r2.body, "Error getting time");
}

#[test]
fn time_is_monotone_across_calls() {
    let earlier = handle_time(1700000000123);
    let later = handle_time(1700000001000);
    assert!(earlier.body <= later.body);
}

#[test]
fn cors_headers_are_stamped_on_every_handler() {
    assert_cors(&handle_get(&request(Method::Get, "/ip", &[])));
    assert_cors(&handle_debug(&request(Method::Get, "/debug", &[])));
    assert_cors(&handle_time(0));
    assert_cors(&handle_options());
}

#[test]
fn cors_overwrites_what_a_handler_had_set() {
    let mut resp = Response::ok("x".to_string());
    resp.headers.set("Access-Control-Allow-Origin", "https://example.test");
    resp.headers.set("X-Extra", "kept");
    let r = add_cors_headers(resp);
    assert_cors(&r);
    assert_eq!(r.headers.get("X-Extra").map(String::as_str), Some("kept"));
    assert_eq!(r.status, 200);
    assert_eq!(r.body, "x");
}

#[test]
fn cors_is_idempotent() {
    let once = add_cors_headers(Response::ok(String::new()));
    let twice = add_cors_headers(add_cors_headers(Response::ok(String::new())));
    assert_eq!(once.headers.len(), 4);
    assert_eq!(twice.headers.len(), 4);
    assert_cors(&once);
    assert_cors(&twice);
}

#[test]
fn options_answers_any_path_with_empty_ok() {
    let r = route(&request(Method::Options, "/nonexistent", &[]), 0);
    assert_eq!(r.status, 200);
    assert_eq!(r.body, "");
    assert_cors(&r);
}

#[test]
fn unregistered_path_is_not_found() {
    let r = route(&request(Method::Get, "/nope", &[]), 0);
    assert_eq!(r.status, 404);
}

#[test]
fn unmatched_method_is_not_found() {
    let r = route(&request(Method::Post, "/ip", &[]), 0);
    assert_eq!(r.status, 404);
}

#[test]
fn router_serves_every_registered_route() {
    let headers = [("CF-Connecting-IP", "192.0.2.1")];
    let ip = route(&request(Method::Get, "/ip", &headers), 5);
    assert_eq!(ip.body, "192.0.2.1");
    let root = route(&request(Method::Get, "/", &headers), 5);
    assert_eq!(root.body, "192.0.2.1");
    let debug = route(&request(Method::Get, "/debug", &headers), 5);
    assert_eq!(debug.body, "{\"cf-connecting-ip\":\"192.0.2.1\"}");
    let time = route(&request(Method::Get, "/time", &headers), 5);
    assert_eq!(time.body, "1970-01-01T00:00:00.005Z");
}

#[test]
fn header_map_lookup_is_case_insensitive() {
    let mut hm = HeaderMap::new();
    hm.set("Content-Type", "text/html");
    assert_eq!(hm.get("content-type").map(String::as_str), Some("text/html"));
    assert_eq!(hm.get("CONTENT-TYPE").map(String::as_str), Some("text/html"));
    assert_eq!(hm.get("content-length"), None);
    assert_eq!(hm.len(), 1);
    assert_eq!(hm.key_at(0).as_str(), "content-type");
    assert_eq!(hm.value_at(0).as_str(), "text/html");
}
