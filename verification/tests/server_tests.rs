use rustchatpro::history::{db_room_line, db_rooms_reply, history_line, history_replies};
use rustchatpro::http::{file_for, not_found_response, ok_response, route_request};
use rustchatpro::ids::{find_client_by_prefix, short_client_id};
use rustchatpro::session::Transport;
use rustchatpro::text::{decimal, decimal_u64, signed_decimal, starts_with, trim};

#[test]
fn history_lines_by_kind() {
    assert_eq!(
        history_line("abcdefghij", "hi", "2024-01-01 10:00:00", "chat"),
        "[2024-01-01 10:00:00][abcdefgh]: hi\n"
    );
    assert_eq!(history_line("ab", "hi", "t", "chat"), "[t][ab]: hi\n");
    assert_eq!(history_line("x", "boot", "t", "system"), "[t] *** boot ***\n");
    assert_eq!(history_line("x", "other", "t", "dm"), "[t]: other\n");
}

#[test]
fn stored_room_lines() {
    assert_eq!(db_room_line("lobby", 3), "  lobby (3 messages)\n");
    assert_eq!(db_room_line("r", 0), "  r (0 messages)\n");
    assert_eq!(db_room_line("r", -12), "  r (-12 messages)\n");
    assert_eq!(db_rooms_reply(&Ok(vec![])), None);
    assert_eq!(db_rooms_reply(&Err("database is locked".to_string())), None);
    let lines = vec![db_room_line("a", 2), db_room_line("b", 1)];
    assert_eq!(
        db_rooms_reply(&Ok(lines)),
        Some("--- Rooms with history ---\n  a (2 messages)\n  b (1 messages)\n".to_string())
    );
}

#[test]
fn history_reply_cases() {
    assert_eq!(history_replies(Transport::Tcp, &Ok(vec![])), vec!["No history found.\n".to_string()]);
    assert_eq!(history_replies(Transport::WebSocket, &Ok(vec![])), vec!["No history found.".to_string()]);
    let msgs = vec!["[t]: a\n".to_string(), "[t]: b\n".to_string()];
    assert_eq!(
        history_replies(Transport::Tcp, &Ok(msgs.clone())),
        vec!["[t]: a\n".to_string(), "[t]: b\n".to_string(), "--- End of history ---\n".to_string()]
    );
    assert_eq!(
        history_replies(Transport::WebSocketTraced, &Ok(msgs)),
        vec!["[t]: a\n".to_string(), "[t]: b\n".to_string(), "--- End of history ---".to_string()]
    );
    assert_eq!(
        history_replies(Transport::Tcp, &Err("disk gone".to_string())),
        vec!["History error: disk gone\n".to_string()]
    );
    assert!(history_replies(Transport::WebSocket, &Err("disk gone".to_string())).is_empty());
}

#[test]
fn routes_requests_to_static_files() {
    assert_eq!(route_request("GET / HTTP/1.1\r\nHost: x\r\n\r\n"), Some("static/index.html".to_string()));
    assert_eq!(route_request("GET /chat.html HTTP/1.1\r\n"), Some("static/chat.html".to_string()));
    assert_eq!(route_request("  GET\t/a.js   HTTP/1.1"), Some("static/a.js".to_string()));
    assert_eq!(route_request("GET /../secret HTTP/1.1\n"), Some("static/secret".to_string()));
    assert_eq!(route_request("GET /..\\..\\x HTTP/1.1\n"), Some("static/x".to_string()));
    assert_eq!(route_request(""), None);
    assert_eq!(route_request("GET\r\n/ignored"), None);
    assert_eq!(route_request("\nGET / HTTP/1.1"), None);
}

#[test]
fn file_for_strips_parent_steps() {
    assert_eq!(file_for("/"), "static/index.html");
    assert_eq!(file_for("/x/../y"), "static/x/y");
    // a step that appears once another is taken out is taken out too
    assert_eq!(file_for("/....//z"), "static/z");
    assert_eq!(file_for("/..././x"), "static/x");
    assert_eq!(file_for("/.."), "static/..");
    for p in ["/", "/../..", "..\\x", "/....//", "", "../../etc/passwd"] {
        assert!(file_for(p).starts_with("static"), "{}", p);
    }
}

#[test]
fn no_parent_steps_survive() {
    for p in ["/../../etc/passwd", "/..\\..\\x", "/a/../..\\b", "/../..//", "/.. /x", "/../"] {
        let f = file_for(p);
        assert!(!f.contains("../") && !f.contains("..\\"), "{} -> {}", p, f);
    }
    for p in ["/....//x", "/...//..\\../y", "/.../...//", "/..\\./\\z"] {
        let f = file_for(p);
        assert!(!f.contains("../") && !f.contains("..\\"), "{} -> {}", p, f);
        assert!(f.starts_with("static"));
    }
}

#[test]
fn parent_step_at_the_end_is_refused() {
    assert_eq!(route_request("GET /.. HTTP/1.1\r\n"), None);
    assert_eq!(route_request("GET /x/.. HTTP/1.1\r\n"), None);
    // on Unix a backslash is part of a file name, so this is no step
    assert_eq!(route_request("GET /x\\.. HTTP/1.1\r\n"), Some("static/x\\..".to_string()));
    assert_eq!(route_request("GET /a.. HTTP/1.1\r\n"), Some("static/a..".to_string()));
    assert_eq!(route_request("GET /....//etc/passwd HTTP/1.1\r\n"), Some("static/etc/passwd".to_string()));
}

#[test]
fn http_responses() {
    assert_eq!(
        ok_response("<p>é</p>"),
        "HTTP/1.1 200 OK\r\nContent-Type: text/html; charset=utf-8\r\nContent-Length: 9\r\nCache-Control: no-cache, no-store, must-revalidate\r\nPragma: no-cache\r\nExpires: 0\r\nConnection: close\r\n\r\n<p>é</p>"
    );
    assert_eq!(
        not_found_response(),
        "HTTP/1.1 404 Not Found\r\nContent-Type: text/plain\r\nContent-Length: 9\r\nConnection: close\r\n\r\nNot Found"
    );
}

#[test]
fn client_ids_as_text() {
    let id: u128 = 0x67e55044_10b1_426f_9247_bb680e5fe0c8;
    assert_eq!(short_client_id(id), "67e55044");
    let other: u128 = 0x67e55099_0000_4000_8000_000000000000;
    let ids = vec![other, id];
    assert_eq!(find_client_by_prefix(&ids, "67e55044"), Some(id));
    assert_eq!(find_client_by_prefix(&ids, "67e550"), Some(other));
    assert_eq!(find_client_by_prefix(&ids, "67e55044-10b1-426f"), Some(id));
    assert_eq!(find_client_by_prefix(&ids, "ffff"), None);
    assert_eq!(find_client_by_prefix(&vec![], ""), None);
}

#[test]
fn text_helpers() {
    assert_eq!(decimal(0), "0");
    assert_eq!(decimal(1203), "1203");
    assert_eq!(decimal_u64(u64::MAX), "18446744073709551615");
    assert_eq!(signed_decimal(-9), "-9");
    assert_eq!(signed_decimal(i64::MIN), "-9223372036854775808");
    assert!(starts_with("hello", "he"));
    assert!(starts_with("hello", ""));
    assert!(!starts_with("he", "hello"));
    assert_eq!(trim("  a b \t\n"), "a b");
    assert_eq!(trim("\u{3000}x\u{a0}"), "x");
    assert_eq!(trim("   "), "");
}
