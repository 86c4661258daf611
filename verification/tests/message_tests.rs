use rustchatpro::heartbeat::{ping_text, PING_INTERVAL_SECS, TIMEOUT_SECS};
use rustchatpro::message::{encode_frame, ChatMessage, MessageKind};

#[test]
fn test_chat_message_chat() {
    let msg = ChatMessage::chat("hello", "lobby", "abc123");
    assert_eq!(msg.kind, MessageKind::Chat);
    assert_eq!(msg.content, "hello");
    assert_eq!(msg.room, "lobby");
    assert_eq!(msg.sender_id, "abc123");
    assert!(msg.target_id.is_empty());
}

#[test]
fn test_chat_message_dm() {
    let msg = ChatMessage::dm("secret", "sender123", "target456");
    assert_eq!(msg.kind, MessageKind::DirectMessage);
    assert_eq!(msg.content, "secret");
    assert_eq!(msg.sender_id, "sender123");
    assert_eq!(msg.target_id, "target456");
    assert!(msg.room.is_empty());
}

#[test]
fn test_chat_message_system() {
    let msg = ChatMessage::system("server started");
    assert_eq!(msg.kind, MessageKind::System);
    assert_eq!(msg.sender_id, "server");
    assert_eq!(msg.content, "server started");
}

#[test]
fn test_chat_message_ack() {
    let msg = ChatMessage::ack("received: hello");
    assert_eq!(msg.kind, MessageKind::Ack);
    assert_eq!(msg.content, "received: hello");
}

#[test]
fn test_display_chat_format() {
    let msg = ChatMessage::chat("hello", "lobby", "abc12345-xxxx");
    let display = msg.display();
    assert!(display.contains("[lobby]"), "display should contain room name");
    assert!(display.contains("hello"), "display should contain content");
    assert!(display.contains("abc12345"), "display should contain sender id");
}

#[test]
fn test_display_system_format() {
    let msg = ChatMessage::system("test event");
    let display = msg.display();
    assert!(display.contains("***"), "system messages should have *** markers");
    assert!(display.contains("test event"));
}

fn is_clock(ts: &str) -> bool {
    let b = ts.as_bytes();
    b.len() == 8
        && b[2] == b':'
        && b[5] == b':'
        && [0usize, 1, 3, 4, 6, 7].iter().all(|&i| b[i].is_ascii_digit())
}

#[test]
fn constructors_stamp_a_clock_time() {
    assert!(is_clock(&ChatMessage::chat("a", "b", "c").timestamp));
    assert!(is_clock(&ChatMessage::dm("a", "b", "c").timestamp));
    assert!(is_clock(&ChatMessage::system("a").timestamp));
    assert!(is_clock(&ChatMessage::ack("a").timestamp));
    assert!(ChatMessage::ack("a").target_id.is_empty());
    assert_eq!(ChatMessage::ack("a").sender_id, "server");
}

#[test]
fn display_of_each_kind() {
    let chat = ChatMessage::new_at(MessageKind::Chat, "hi", "lobby", "0123456789ab", "", "10:11:12");
    assert_eq!(chat.display(), "[10:11:12][lobby][01234567]: hi\n");

    let dm = ChatMessage::new_at(MessageKind::DirectMessage, "psst", "", "abcdefghij", "x", "00:00:00");
    assert_eq!(dm.display(), "[00:00:00][DM from abcdefgh]: psst\n");

    let sys = ChatMessage::new_at(MessageKind::System, "up", "", "server", "", "23:59:60");
    assert_eq!(sys.display(), "[23:59:60] *** up ***\n");

    let ack = ChatMessage::new_at(MessageKind::Ack, "ok", "", "server", "", "01:02:03");
    assert_eq!(ack.display(), "[01:02:03] > ok\n");

    let cmd = ChatMessage::new_at(MessageKind::Command, "/x", "r", "s", "", "01:02:03");
    assert_eq!(cmd.display(), "");
}

#[test]
fn display_keeps_short_sender_whole() {
    let chat = ChatMessage::new_at(MessageKind::Chat, "yo", "r", "ab", "", "12:00:00");
    assert_eq!(chat.display(), "[12:00:00][r][ab]: yo\n");
    assert_eq!(chat.sender_short_text(), "ab");
    let long = ChatMessage::new_at(MessageKind::Chat, "yo", "r", "abcdefghXYZ", "", "12:00:00");
    assert_eq!(long.sender_short_text(), "abcdefgh");
}

#[test]
fn frame_has_big_endian_length() {
    assert_eq!(encode_frame(&[1, 2, 3]), vec![0, 0, 0, 3, 1, 2, 3]);
    assert_eq!(encode_frame(&[]), vec![0, 0, 0, 0]);
    let big = vec![9u8; 300];
    let framed = encode_frame(&big);
    assert_eq!(&framed[..4], &[0, 0, 1, 44]);
    assert_eq!(&framed[4..], &big[..]);
}

#[test]
fn heartbeat_constants_and_ping() {
    assert_eq!(ping_text(), "[server] PING\n");
    assert_eq!(PING_INTERVAL_SECS, 30);
    assert_eq!(TIMEOUT_SECS, 90);
}
