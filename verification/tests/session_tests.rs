use rustchatpro::crypto::decrypt;
use rustchatpro::heartbeat::reap_dead_clients;
use rustchatpro::message::{ChatMessage, MessageKind};
use rustchatpro::crypto::RoomKey;
use rustchatpro::rooms::RoomRegistry;
use rustchatpro::session::{
    ClientInfo, classify_line, handle_ws_input_pub, parse_command, Command, Effect, LineAction, Session, Transport,
};

fn id_text(id: u128) -> String {
    uuid::Uuid::from_u128(id).to_string()
}

fn sends(effects: &[Effect]) -> Vec<(u128, String)> {
    effects
        .iter()
        .filter_map(|e| match e {
            Effect::Send(to, t) => Some((*to, t.clone())),
            _ => None,
        })
        .collect()
}

#[test]
fn registry_membership() {
    let mut reg = RoomRegistry::new();
    assert_eq!(reg.member_count("lobby"), 0);
    reg.add_member("lobby", 1);
    reg.add_member("lobby", 2);
    reg.add_member("lobby", 2);
    assert_eq!(reg.member_count("lobby"), 2);
    reg.leave_room(1, "lobby");
    assert_eq!(reg.member_count("lobby"), 1);
    reg.leave_room(1, "nowhere");
    assert_eq!(reg.member_count("nowhere"), 0);
    reg.leave_room(2, "lobby");
    // an emptied room stays listed
    assert_eq!(reg.list_rooms(), "--- Active rooms ---\n  lobby (0 members)\n");
}

#[test]
fn registry_keys_are_stable() {
    let mut reg = RoomRegistry::new();
    let k1 = reg.key_for("lobby");
    let k2 = reg.key_for("lobby");
    assert_eq!(k1.bytes.len(), 32);
    assert_eq!(k1.bytes, k2.bytes);
    let other = reg.key_for("rust");
    assert_ne!(k1.bytes, other.bytes);
}

#[test]
fn list_rooms_counts_members() {
    let mut reg = RoomRegistry::new();
    assert_eq!(reg.list_rooms(), "--- Active rooms ---\n");
    reg.add_member("lobby", 7);
    assert_eq!(reg.list_rooms(), "--- Active rooms ---\n  lobby (1 member)\n");
    reg.add_member("dev", 8);
    reg.add_member("dev", 9);
    let listing = reg.list_rooms();
    assert!(listing.starts_with("--- Active rooms ---\n"));
    assert!(listing.contains("  lobby (1 member)\n"));
    assert!(listing.contains("  dev (2 members)\n"));
    assert_eq!(listing.len(), "--- Active rooms ---\n  lobby (1 member)\n  dev (2 members)\n".len());
}

#[test]
fn broadcast_reaches_members_but_excluded() {
    let mut reg = RoomRegistry::new();
    reg.add_member("r", 1);
    reg.add_member("r", 2);
    reg.add_member("r", 3);
    let msg = ChatMessage::system("hello");
    let shown = msg.display();
    let mut d = reg.broadcast_to_room("r", &msg, Some(2));
    d.sort_by_key(|x| x.to);
    assert_eq!(d.len(), 2);
    assert_eq!(d[0].to, 1);
    assert_eq!(d[1].to, 3);
    assert!(d.iter().all(|x| x.text == shown));
    assert_eq!(reg.broadcast_to_room("r", &msg, None).len(), 3);
    assert!(reg.broadcast_to_room("none", &msg, None).is_empty());
}

#[test]
fn join_room_moves_and_hands_out_the_key() {
    let mut reg = RoomRegistry::new();
    reg.add_member("lobby", 1);
    reg.add_member("lobby", 2);
    let first = reg.join_room(1, "rust", "lobby");
    let hex = first.key.to_hex();
    assert_eq!(first.response, format!("Joined room 'rust' (1 member)\nROOM_KEY:{}\n", hex));
    assert_eq!(reg.member_count("lobby"), 1);
    assert_eq!(reg.member_count("rust"), 1);
    assert!(first.notice_deliveries.is_empty());
    assert_eq!(first.key_deliveries.len(), 1);
    assert_eq!(first.key_deliveries[0].to, 1);
    assert!(first.key_deliveries[0].text.contains(&format!("ROOM_KEY:rust:{}", hex)));
    assert_eq!(first.notice.content, format!("[{}] joined room 'rust'", &id_text(1)[..8]));

    let second = reg.join_room(2, "rust", "lobby");
    assert_eq!(second.key.bytes, first.key.bytes);
    assert_eq!(second.response, format!("Joined room 'rust' (2 members)\nROOM_KEY:{}\n", hex));
    assert_eq!(second.notice_deliveries.len(), 1);
    assert_eq!(second.notice_deliveries[0].to, 1);
    assert_eq!(second.key_deliveries.len(), 2);
    assert_eq!(reg.member_count("lobby"), 0);
}

#[test]
fn remove_everywhere_and_reap() {
    let mut reg = RoomRegistry::new();
    reg.add_member("a", 1);
    reg.add_member("b", 1);
    reg.add_member("b", 2);
    reg.add_member("c", 3);
    reg.remove_everywhere(1);
    assert_eq!(reg.member_count("a"), 0);
    assert_eq!(reg.member_count("b"), 1);
    reap_dead_clients(&mut reg, &vec![2, 3, 99]);
    assert_eq!(reg.member_count("b"), 0);
    assert_eq!(reg.member_count("c"), 0);
    // the rooms themselves stay
    assert!(reg.list_rooms().contains("  c (0 members)\n"));
}

#[test]
fn parse_command_cases() {
    assert!(matches!(parse_command("/join Rust"), Command::Join(r) if r == "rust"));
    assert!(matches!(parse_command("/join ÄB x"), Command::Join(r) if r == "äb"));
    assert!(matches!(parse_command("/join"), Command::JoinUsage));
    assert!(matches!(parse_command("/rooms"), Command::Rooms));
    assert!(matches!(parse_command("/rooms now"), Command::Rooms));
    assert!(matches!(parse_command("/history"), Command::History));
    assert!(matches!(parse_command("/msg abc hello  world"),
        Command::Msg(p, t) if p == "abc" && t == "hello  world"));
    assert!(matches!(parse_command("/msg abc"), Command::MsgUsage));
    assert!(matches!(parse_command("/quit"), Command::Quit));
    assert!(matches!(parse_command("/nope x"), Command::Unknown(w) if w == "/nope"));
    assert!(matches!(parse_command("hello /join"), Command::Say));
    assert!(matches!(parse_command("/join  x"), Command::Join(r) if r.is_empty()));
}

#[test]
fn classify_line_cases() {
    assert!(matches!(classify_line("   \r\n", Transport::Tcp), LineAction::Skip));
    assert!(matches!(classify_line("PONG\n", Transport::Tcp), LineAction::Alive));
    assert!(matches!(classify_line(" /pong ", Transport::Tcp), LineAction::Alive));
    assert!(matches!(classify_line("/pong", Transport::WebSocketTraced), LineAction::Alive));
    assert!(matches!(classify_line("/pong", Transport::WebSocket),
        LineAction::Handle(i, None) if i == "/pong"));
    match classify_line("  hi there \n", Transport::Tcp) {
        LineAction::Handle(input, Some(ack)) => {
            assert_eq!(input, "hi there");
            assert!(ack.starts_with('['));
            assert!(ack.ends_with("] > received: hi there\n"));
        }
        _ => panic!("expected input"),
    }
    assert!(matches!(classify_line("hi", Transport::WebSocket), LineAction::Handle(i, None) if i == "hi"));
}

#[test]
fn open_welcomes_into_the_lobby() {
    let mut reg = RoomRegistry::new();
    let (s, welcome) = Session::open(&mut reg, Transport::Tcp);
    assert_eq!(s.info.current_room, "lobby");
    assert_eq!(s.current_key.bytes.len(), 32);
    assert_eq!(reg.member_count("lobby"), 1);
    let expected = format!(
        "=== Welcome to RustChatPro v0.9 ===\nID      : {}\nRoom    : lobby\nRoomKey : {}\nCmds    : /join <room> \u{b7} /msg <id> <text>\n/rooms \u{b7} /history \u{b7} /quit\n===================================\n",
        id_text(s.info.id),
        s.current_key.to_hex()
    );
    assert_eq!(welcome, expected);
    assert_eq!(uuid::Uuid::from_u128(s.info.id).get_version_num(), 4);

    let (s2, w2) = Session::open(&mut reg, Transport::WebSocket);
    assert_eq!(s2.current_key.bytes, s.current_key.bytes);
    assert!(w2.ends_with("\n==================================="));
    assert_eq!(reg.member_count("lobby"), 2);
}

#[test]
fn simple_commands_answer_the_sender() {
    let mut reg = RoomRegistry::new();
    let (mut s, _) = Session::open(&mut reg, Transport::Tcp);
    let id = s.info.id;
    let ids = vec![id];

    let out = s.handle_input(&mut reg, "/quit", Transport::Tcp, &ids);
    assert!(!out.keep_going);
    assert_eq!(sends(&out.effects), vec![(id, "Goodbye!\n".to_string())]);

    let out = s.handle_input(&mut reg, "/quit", Transport::WebSocket, &ids);
    assert_eq!(sends(&out.effects), vec![(id, "Goodbye!".to_string())]);

    let out = s.handle_input(&mut reg, "/join", Transport::Tcp, &ids);
    assert!(out.keep_going);
    assert_eq!(sends(&out.effects), vec![(id, "Usage: /join <roomname>\n".to_string())]);

    let out = s.handle_input(&mut reg, "/msg x", Transport::WebSocket, &ids);
    assert_eq!(sends(&out.effects), vec![(id, "Usage: /msg <id> <text>".to_string())]);

    let out = s.handle_input(&mut reg, "/frob a b", Transport::Tcp, &ids);
    assert_eq!(sends(&out.effects), vec![(id, "Unknown command: /frob\n".to_string())]);

    let out = s.handle_input(&mut reg, "/msg zzz hi", Transport::Tcp, &ids);
    assert_eq!(sends(&out.effects), vec![(id, "No client found: 'zzz'\n".to_string())]);
    let out = s.handle_input(&mut reg, "/msg zzz hi", Transport::WebSocket, &ids);
    assert_eq!(sends(&out.effects), vec![(id, "No client: zzz".to_string())]);
}

#[test]
fn history_and_rooms_ask_for_the_database() {
    let mut reg = RoomRegistry::new();
    let (mut s, _) = Session::open(&mut reg, Transport::Tcp);
    let id = s.info.id;
    let ids = vec![id];

    let out = s.handle_input(&mut reg, "/history", Transport::Tcp, &ids);
    assert_eq!(out.effects.len(), 2);
    assert!(matches!(&out.effects[0], Effect::Send(to, t) if *to == id && t == "--- Loading history ---\n"));
    assert!(matches!(&out.effects[1], Effect::LoadHistory(r) if r == "lobby"));

    let out = s.handle_input(&mut reg, "/rooms", Transport::Tcp, &ids);
    assert_eq!(out.effects.len(), 2);
    assert!(matches!(&out.effects[0], Effect::Send(to, t) if *to == id
        && t == "--- Active rooms ---\n  lobby (1 member)\n"));
    assert!(matches!(&out.effects[1], Effect::LoadDbRooms));

    let out = s.handle_input(&mut reg, "/rooms", Transport::WebSocket, &ids);
    assert_eq!(out.effects.len(), 1);
}

#[test]
fn direct_message_goes_to_the_first_match() {
    let mut reg = RoomRegistry::new();
    let (mut a, _) = Session::open(&mut reg, Transport::Tcp);
    let (b, _) = Session::open(&mut reg, Transport::Tcp);
    let a_id = a.info.id;
    let b_id = b.info.id;
    let b_text = id_text(b_id);
    let ids = vec![a_id, b_id];
    let prefix = &b_text[..6];
    let out = a.handle_input(&mut reg, &format!("/msg {} see you", prefix), Transport::Tcp, &ids);
    let s = sends(&out.effects);
    assert_eq!(s.len(), 2);
    assert_eq!(s[0].0, b_id);
    assert!(s[0].1.ends_with(&format!("][DM from {}]: see you\n", &id_text(a_id)[..8])));
    assert_eq!(s[1].0, a_id);
    assert!(s[1].1.ends_with(&format!("] > DM delivered to {}\n", &b_text[..8])));

    let out = a.handle_input(&mut reg, &format!("/msg {} yo", prefix), Transport::WebSocket, &ids);
    let s = sends(&out.effects);
    assert_eq!(s[1], (a_id, format!("DM sent to {}", &b_text[..8])));

    // an empty prefix matches the first client in the list
    let out = a.handle_input(&mut reg, "/msg  yo", Transport::Tcp, &ids);
    assert_eq!(sends(&out.effects)[0].0, a_id);
}

#[test]
fn chat_is_sealed_broadcast_saved_and_echoed() {
    let mut reg = RoomRegistry::new();
    let (mut a, _) = Session::open(&mut reg, Transport::Tcp);
    let (b, _) = Session::open(&mut reg, Transport::Tcp);
    let a_id = a.info.id;
    let ids = vec![a_id, b.info.id];
    let out = a.handle_input(&mut reg, "hello room", Transport::Tcp, &ids);
    assert!(out.keep_going);
    let s = sends(&out.effects);
    assert_eq!(s.len(), 3);
    let mut to: Vec<u128> = s[..2].iter().map(|x| x.0).collect();
    to.sort();
    let mut want = vec![a_id, b.info.id];
    want.sort();
    assert_eq!(to, want);
    let saved = out
        .effects
        .iter()
        .find_map(|e| match e {
            Effect::SaveChat(r, who, enc) => Some((r.clone(), who.clone(), enc.clone())),
            _ => None,
        })
        .expect("a chat is stored");
    assert_eq!(saved.0, "lobby");
    assert_eq!(saved.1, id_text(a_id));
    assert_eq!(decrypt(&saved.2, &a.current_key).unwrap(), "hello room");
    assert!(s[0].1.ends_with(&format!("][lobby][{}]: {}\n", &id_text(a_id)[..8], saved.2)));
    assert_eq!(s[2], (a_id, "[you \u{2192} lobby]: hello room\n".to_string()));

    let out = a.handle_input(&mut reg, "again", Transport::WebSocket, &ids);
    let s = sends(&out.effects);
    assert_eq!(s.last().unwrap(), &(a_id, "[you \u{2192} lobby]: again".to_string()));
}

#[test]
fn join_switches_room_and_key() {
    let mut reg = RoomRegistry::new();
    let (mut a, _) = Session::open(&mut reg, Transport::Tcp);
    let ids = vec![a.info.id];
    let lobby_key = a.current_key.bytes.clone();
    let out = a.handle_input(&mut reg, "/join Rust", Transport::Tcp, &ids);
    assert!(out.keep_going);
    assert_eq!(a.info.current_room, "rust");
    assert_ne!(a.current_key.bytes, lobby_key);
    assert_eq!(a.current_key.bytes, reg.key_for("rust").bytes);
    assert_eq!(reg.member_count("lobby"), 0);
    assert_eq!(reg.member_count("rust"), 1);
    let s = sends(&out.effects);
    assert_eq!(s.last().unwrap().1, format!("Joined room 'rust' (1 member)\nROOM_KEY:{}\n", a.current_key.to_hex()));
}

#[test]
fn close_tells_the_room() {
    let mut reg = RoomRegistry::new();
    let (a, _) = Session::open(&mut reg, Transport::Tcp);
    let (b, _) = Session::open(&mut reg, Transport::Tcp);
    let d = a.close(&mut reg, Transport::Tcp);
    assert_eq!(reg.member_count("lobby"), 1);
    assert_eq!(d.len(), 1);
    assert_eq!(d[0].to, b.info.id);
    assert!(d[0].text.ends_with(&format!("] *** [{}] left the room ***\n", &id_text(a.info.id)[..8])));
    let d = b.close(&mut reg, Transport::WebSocket);
    assert!(d.is_empty());
    assert_eq!(reg.member_count("lobby"), 0);
}

#[test]
fn websocket_input_has_no_newlines() {
    let mut reg = RoomRegistry::new();
    let (mut s, _) = Session::open(&mut reg, Transport::WebSocket);
    let id = s.info.id;
    let ids = vec![id];
    let out = handle_ws_input_pub(&mut s, &mut reg, "/join", &ids);
    assert!(out.keep_going);
    assert_eq!(sends(&out.effects), vec![(id, "Usage: /join <room>".to_string())]);
    let out = handle_ws_input_pub(&mut s, &mut reg, "/history", &ids);
    assert!(matches!(&out.effects[0], Effect::Send(_, t) if t == "--- Loading history ---"));
    let out = handle_ws_input_pub(&mut s, &mut reg, "/quit", &ids);
    assert!(!out.keep_going);
    assert_eq!(sends(&out.effects), vec![(id, "Goodbye!".to_string())]);
}

#[test]
fn broadcast_to_absent_room_never_shows_the_message() {
    let reg = RoomRegistry::new();
    // the eighth byte of the sender falls inside a character
    let msg = ChatMessage::new_at(MessageKind::Chat, "hi", "r", "aaaaaaa\u{e9}", "", "00:00:00");
    assert!(reg.broadcast_to_room("nowhere", &msg, None).is_empty());
}

#[test]
fn commands_need_no_full_key() {
    let mut reg = RoomRegistry::new();
    reg.add_member("lobby", 1);
    let mut s = Session {
        info: ClientInfo { id: 1, current_room: "lobby".to_string() },
        current_key: RoomKey { bytes: vec![] },
    };
    let out = s.handle_input(&mut reg, "/rooms", Transport::Tcp, &vec![1]);
    assert_eq!(out.effects.len(), 2);
    let out = s.handle_input(&mut reg, "/join dev", Transport::Tcp, &vec![1]);
    assert!(out.keep_going);
    assert_eq!(s.current_key.bytes.len(), 32);
    assert_eq!(s.info.current_room, "dev");
}
