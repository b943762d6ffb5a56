use appoptr::web::{
    closes_after, dispatch, err_json, forbidden_reply, head_from_text, head_line, not_found_reply,
    ok_reply, request_head, resp_send, Head, HeadStep, Route,
};

fn head(text: &str) -> Head {
    head_from_text(text).unwrap()
}

fn route(method: &str, path: &str, more: &str) -> Route {
    dispatch(&head(&format!(
        "{} {} HTTP/1.1\r\nHost: 127.0.0.1:8889\r\n{}",
        method, path, more
    )))
}

#[test]
fn heads_are_gathered() {
    let mut bytes = Vec::new();
    assert_eq!(head_line(&mut bytes, b"GET / HTTP/1.1\r\n"), HeadStep::More);
    assert_eq!(bytes, b"GET / HTTP/1.1\r\n");
    assert_eq!(head_line(&mut bytes, b"\r\n"), HeadStep::Done);
    assert_eq!(head_line(&mut bytes, b"\n"), HeadStep::Done);
    assert_eq!(head_line(&mut bytes, b""), HeadStep::Dropped);
    assert_eq!(bytes.len(), 16);
    assert_eq!(head_line(&mut bytes, &[b'x'; 8176]), HeadStep::More);
    assert_eq!(head_line(&mut bytes, b"y"), HeadStep::Dropped);
}

#[test]
fn heads_are_read() {
    let h = head(
        "POST /api/rule?x=1 HTTP/1.1\r\nHost: LocalHost\r\nOrigin: Null\r\nContent-Length: 12\r\n\
         Content-Type: Application/JSON\r\nSec-Fetch-Site: None\r\nno colon\r\n",
    );
    assert_eq!(h.method, "POST");
    assert_eq!(h.path, "/api/rule");
    assert_eq!(h.host, "localhost");
    assert_eq!(h.origin, "null");
    assert_eq!(h.fetch_site, "none");
    assert_eq!(h.content_type, "application/json");
    assert_eq!(h.body_len, 12);
    assert!(h.keep_alive);
    assert!(!head("GET / HTTP/1.1\r\nConnection: Close\r\n").keep_alive);
    assert!(!head("GET / HTTP/1.0\r\n").keep_alive);
    assert!(head("GET / HTTP/1.0\r\nConnection: Keep-Alive\r\n").keep_alive);
    assert!(head("GET /").keep_alive);
}

#[test]
fn heads_are_refused() {
    assert!(head_from_text("").is_none());
    assert!(head_from_text("GET").is_none());
    assert!(head_from_text("GET / HTTP/1.1\r\nTransfer-Encoding: chunked\r\n").is_none());
    assert!(head_from_text("POST / HTTP/1.1\r\nContent-Length: 16385\r\n").is_none());
    assert!(head_from_text("POST / HTTP/1.1\r\nContent-Length: x\r\n").is_none());
    assert!(head_from_text("POST / HTTP/1.1\r\nContent-Length: 16384\r\n").is_some());
}

#[test]
fn bytes_that_are_no_text_are_replaced() {
    let h = request_head(b"GET /\xff HTTP/1.1\r\n").unwrap();
    assert_eq!(h.path, "/\u{fffd}");
    let h = request_head("GET /\u{4e2d} HTTP/1.1\r\n".as_bytes()).unwrap();
    assert_eq!(h.path, "/\u{4e2d}");
}

#[test]
fn requests_find_their_way() {
    let json = "Content-Type: application/json; charset=utf-8\r\n";
    assert_eq!(route("GET", "/", ""), Route::Index);
    assert_eq!(route("GET", "/index.html", ""), Route::Index);
    assert_eq!(route("GET", "/api/status", ""), Route::Status);
    assert_eq!(route("GET", "/api/rules", ""), Route::Rules);
    assert_eq!(route("GET", "/api/config", ""), Route::Config);
    assert_eq!(route("GET", "/api/tuning", ""), Route::Tuning);
    assert_eq!(route("POST", "/api/rule", json), Route::SetRule);
    assert_eq!(route("POST", "/api/rule/del", json), Route::DeleteRule);
    assert_eq!(route("POST", "/api/rule/rename", json), Route::RenameRule);
    assert_eq!(route("POST", "/api/rule/clone", json), Route::CloneRule);
    assert_eq!(route("POST", "/api/config", json), Route::SetConfig);
    assert_eq!(route("POST", "/api/tuning", json), Route::SetTuning);
    assert_eq!(route("POST", "/api/suggest", json), Route::Suggest);
    assert_eq!(route("GET", "/api/rule", ""), Route::NotFound);
    assert_eq!(route("PUT", "/", ""), Route::NotFound);
}

#[test]
fn other_sites_are_kept_out() {
    assert_eq!(route("POST", "/api/rule", ""), Route::Forbidden);
    assert_eq!(
        route("GET", "/", "Origin: http://x\r\nSec-Fetch-Site: cross-site\r\n"),
        Route::Forbidden
    );
    assert_eq!(
        route("GET", "/", "Origin: http://x\r\nSec-Fetch-Site: same-origin\r\n"),
        Route::Index
    );
    assert_eq!(
        route("GET", "/", "Origin: null\r\nSec-Fetch-Site: cross-site\r\n"),
        Route::Index
    );
    let far = head("GET / HTTP/1.1\r\nHost: example.com:8889\r\n");
    assert_eq!(dispatch(&far), Route::Forbidden);
    assert!(closes_after(&far, Route::Forbidden));
    assert!(!closes_after(&far, Route::Index));
    assert_eq!(dispatch(&head("GET / HTTP/1.1\r\n")), Route::Forbidden);
    assert_eq!(
        dispatch(&head("GET / HTTP/1.1\r\nHost: localhost\r\n")),
        Route::Index
    );
}

#[test]
fn answers_are_written() {
    assert_eq!(
        resp_send(200, "text/html; charset=utf-8", 7, false),
        "HTTP/1.1 200 OK\r\nContent-Type: text/html; charset=utf-8\r\nContent-Length: 7\r\n\
         Cache-Control: no-store\r\nConnection: keep-alive\r\n\r\n"
    );
    assert!(resp_send(400, "x", 0, true).starts_with("HTTP/1.1 400 Bad Request\r\n"));
    assert!(resp_send(403, "x", 0, true).starts_with("HTTP/1.1 403 Forbidden\r\n"));
    assert!(resp_send(404, "x", 0, true).starts_with("HTTP/1.1 404 Not Found\r\n"));
    assert!(resp_send(409, "x", 0, true).starts_with("HTTP/1.1 409 Error\r\n"));
    assert!(resp_send(409, "x", 0, true).ends_with("Connection: close\r\n\r\n"));
    let wrong = err_json(409, "no \"way\"");
    assert_eq!(wrong.code, 409);
    assert_eq!(wrong.body, r#"{"err":"no \"way\"","ok":false}"#);
    assert_eq!(ok_reply().code, 200);
    assert_eq!(ok_reply().body, r#"{"ok":true}"#);
    assert_eq!(forbidden_reply().code, 403);
    assert_eq!(forbidden_reply().body, r#"{"ok":false,"err":"forbidden"}"#);
    assert_eq!(not_found_reply().code, 404);
    assert_eq!(not_found_reply().body, r#"{"err":"not found","ok":false}"#);
}
