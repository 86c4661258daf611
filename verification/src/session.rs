//! One client's session: what each line it sends means, and what the server
//! does about it (case by case, as effects that the connection loop carries
//! out: messages to clients, database work).

use vstd::prelude::*;
use crate::crypto::{encrypt, hex_text, sealed_text, RoomKey, KEY_SIZE, MAX_PLAINTEXT};
use crate::ids::{first_with_prefix, find_client_by_prefix, lemma_uuid_text_short, nibble,
    random_client_id, short_client_id, uuid_string, uuid_text};
use crate::message::{ChatMessage, MessageKind, is_clock_time};
use crate::rooms::{is_broadcast, joined_notice, join_response, key_notice, lists_rooms, pairs,
    room_broadcast, room_lines, with_member, without_member, Delivery, RoomRegistry};
use crate::text::{chars_of, find_char_in, lowercase, push_str, segment_is, split3, string_of,
    to_lowercase, trim, trim_spec};
use vstd::utf8::encode_utf8;

verus! {

/// What a line of input asks for.
pub enum ParsedInput {
    Join(Seq<char>),
    JoinUsage,
    Rooms,
    History,
    Msg(Seq<char>, Seq<char>),
    MsgUsage,
    Quit,
    Unknown(Seq<char>),
    Say,
}

/// A line starting with `/` is a command, its word the first space-separated
/// piece; `/join` takes a room name (lowered), `/msg` an id prefix and the
/// rest of the line; anything else is a chat message.
pub open spec fn parse_spec(input: Seq<char>) -> ParsedInput {
    if input.len() > 0 && input[0] == '/' {
        let parts = split3(input);
        let cmd = parts[0];
        if cmd == "/join"@ {
            if parts.len() < 2 {
                ParsedInput::JoinUsage
            } else {
                ParsedInput::Join(lowercase(parts[1]))
            }
        } else if cmd == "/rooms"@ {
            ParsedInput::Rooms
        } else if cmd == "/history"@ {
            ParsedInput::History
        } else if cmd == "/msg"@ {
            if parts.len() < 3 {
                ParsedInput::MsgUsage
            } else {
                ParsedInput::Msg(parts[1], parts[2])
            }
        } else if cmd == "/quit"@ {
            ParsedInput::Quit
        } else {
            ParsedInput::Unknown(cmd)
        }
    } else {
        ParsedInput::Say
    }
}

/// A parsed line of input.
pub enum Command {
    Join(String),
    JoinUsage,
    Rooms,
    History,
    Msg(String, String),
    MsgUsage,
    Quit,
    Unknown(String),
    Say,
}

impl View for Command {
    type V = ParsedInput;

    open spec fn view(&self) -> ParsedInput {
        match self {
            Command::Join(r) => ParsedInput::Join(r@),
            Command::JoinUsage => ParsedInput::JoinUsage,
            Command::Rooms => ParsedInput::Rooms,
            Command::History => ParsedInput::History,
            Command::Msg(t, m) => ParsedInput::Msg(t@, m@),
            Command::MsgUsage => ParsedInput::MsgUsage,
            Command::Quit => ParsedInput::Quit,
            Command::Unknown(w) => ParsedInput::Unknown(w@),
            Command::Say => ParsedInput::Say,
        }
    }
}

/// Reads what a (trimmed, nonempty) line of input asks for.
pub fn parse_command(input: &str) -> (c: Command)
    ensures
        c@ == parse_spec(input@),
{
    let v = chars_of(input);
    let n = v.len();
    if n == 0 || v[0] != '/' {
        return Command::Say;
    }
    let i = find_char_in(&v, 0, n, ' ');
    let ghost s = v@;
    proof {
        assert(s.subrange(0, n as int) =~= s);
    }
    let word_end = i;
    let has_second = i < n;
    let mut second_start: usize = n;
    let mut second_end: usize = n;
    let mut has_third = false;
    if has_second {
        second_start = i + 1;
        let j = find_char_in(&v, i + 1, n, ' ');
        second_end = j;
        has_third = j < n;
        proof {
            assert(s.subrange(i + 1, n as int) =~= s.skip(i + 1));
        }
    }
    proof {
        let parts = split3(s);
        assert(parts[0] =~= s.subrange(0, word_end as int));
        if has_second {
            assert(parts[1] =~= s.subrange(second_start as int, second_end as int));
            if has_third {
                assert(parts[2] =~= s.subrange(second_end + 1, n as int));
                assert(parts.len() == 3);
            } else {
                assert(parts.len() == 2);
            }
        } else {
            assert(parts.len() == 1);
        }
    }
    if segment_is(&v, 0, word_end, "/join") {
        if !has_second {
            Command::JoinUsage
        } else {
            let room = string_of(&v, second_start, second_end);
            Command::Join(to_lowercase(room.as_str()))
        }
    } else if segment_is(&v, 0, word_end, "/rooms") {
        Command::Rooms
    } else if segment_is(&v, 0, word_end, "/history") {
        Command::History
    } else if segment_is(&v, 0, word_end, "/msg") {
        if !has_third {
            Command::MsgUsage
        } else {
            Command::Msg(string_of(&v, second_start, second_end), string_of(&v, second_end + 1, n))
        }
    } else if segment_is(&v, 0, word_end, "/quit") {
        Command::Quit
    } else {
        Command::Unknown(string_of(&v, 0, word_end))
    }
}

/// The kind of connection a session runs over. The two WebSocket handlers
/// differ in how they answer a ping and how they say goodbye.
#[derive(Clone, Copy, PartialEq, Eq, Structural)]
pub enum Transport {
    Tcp,
    WebSocket,
    WebSocketTraced,
}

/// Who a client is and which room it is in.
pub struct ClientInfo {
    pub id: u128,
    pub current_room: String,
}

impl ClientInfo {
    /// A new client with a random id, in the lobby.
    pub fn new() -> (c: ClientInfo)
        ensures
            c.current_room@ == "lobby"@,
            nibble(c.id, 12) == 4,
    {
        ClientInfo { id: random_client_id(), current_room: String::from_str("lobby") }
    }
}

/// A client's session: who it is, its room, and the key of that room.
pub struct Session {
    pub info: ClientInfo,
    pub current_key: RoomKey,
}

/// A session as the contracts see it.
pub struct SessionState {
    pub id: u128,
    pub room: Seq<char>,
    pub key: Seq<u8>,
}

impl Session {
    pub open spec fn state(&self) -> SessionState {
        SessionState { id: self.info.id, room: self.info.current_room@, key: self.current_key@ }
    }

    pub open spec fn wf(&self) -> bool {
        self.current_key@.len() == KEY_SIZE
    }
}

/// Something the connection has to do for the session.
pub enum Effect {
    /// Hand a text to a client, if it is connected.
    Send(u128, String),
    /// Look up which rooms have stored messages, and answer with
    /// [`crate::history::db_rooms_reply`].
    LoadDbRooms,
    /// Look up the stored messages of a room, and answer with
    /// [`crate::history::history_replies`].
    LoadHistory(String),
    /// Store a chat message (room, sender, content) in the background.
    SaveChat(String, String, String),
}

pub enum EffectView {
    Send(u128, Seq<char>),
    LoadDbRooms,
    LoadHistory(Seq<char>),
    SaveChat(Seq<char>, Seq<char>, Seq<char>),
}

impl View for Effect {
    type V = EffectView;

    open spec fn view(&self) -> EffectView {
        match self {
            Effect::Send(to, t) => EffectView::Send(*to, t@),
            Effect::LoadDbRooms => EffectView::LoadDbRooms,
            Effect::LoadHistory(r) => EffectView::LoadHistory(r@),
            Effect::SaveChat(r, s, c) => EffectView::SaveChat(r@, s@, c@),
        }
    }
}

pub open spec fn effects_view(e: Seq<Effect>) -> Seq<EffectView> {
    e.map_values(|x: Effect| x@)
}

pub open spec fn sends(p: Seq<(u128, Seq<char>)>) -> Seq<EffectView> {
    p.map_values(|x: (u128, Seq<char>)| EffectView::Send(x.0, x.1))
}

/// What handling a line produced: the effects, in order, and whether the
/// session goes on.
pub struct InputOutcome {
    pub effects: Vec<Effect>,
    pub keep_going: bool,
}

/// A server notice as shown.
pub open spec fn system_line(ts: Seq<char>, content: Seq<char>) -> Seq<char> {
    "["@ + ts + "] *** "@ + content + " ***\n"@
}

/// An acknowledgement as shown.
pub open spec fn ack_line(ts: Seq<char>, content: Seq<char>) -> Seq<char> {
    "["@ + ts + "] > "@ + content + "\n"@
}

/// A chat message as shown.
pub open spec fn chat_line(ts: Seq<char>, room: Seq<char>, sender: Seq<char>, content: Seq<char>) -> Seq<char> {
    "["@ + ts + "]["@ + room + "]["@ + sender + "]: "@ + content + "\n"@
}

/// A direct message as shown.
pub open spec fn dm_line(ts: Seq<char>, sender: Seq<char>, content: Seq<char>) -> Seq<char> {
    "["@ + ts + "][DM from "@ + sender + "]: "@ + content + "\n"@
}

/// A line for the client itself: TCP lines end in a newline.
pub open spec fn line_for(t: Transport, s: Seq<char>) -> Seq<char> {
    if t == Transport::Tcp {
        s + "\n"@
    } else {
        s
    }
}

pub open spec fn join_usage(t: Transport) -> Seq<char> {
    if t == Transport::Tcp {
        "Usage: /join <roomname>\n"@
    } else {
        "Usage: /join <room>"@
    }
}

pub open spec fn msg_usage(t: Transport) -> Seq<char> {
    if t == Transport::Tcp {
        "Usage: /msg <id> <message>\n"@
    } else {
        "Usage: /msg <id> <text>"@
    }
}

pub open spec fn no_client(t: Transport, prefix: Seq<char>) -> Seq<char> {
    if t == Transport::Tcp {
        "No client found: '"@ + prefix + "'\n"@
    } else {
        "No client: "@ + prefix
    }
}

/// The welcome text of a new session.
pub open spec fn welcome_text(t: Transport, id: Seq<char>, room: Seq<char>, key_hex: Seq<char>) -> Seq<char> {
    if t == Transport::Tcp {
        "=== Welcome to RustChatPro v0.9 ===\nID      : "@ + id + "\nRoom    : "@ + room
            + "\nRoomKey : "@ + key_hex
            + "\nCmds    : /join <room> \u{b7} /msg <id> <text>\n/rooms \u{b7} /history \u{b7} /quit\n===================================\n"@
    } else {
        "=== Welcome to RustChatPro v0.9 ===\nID      : "@ + id + "\nRoom    : "@ + room
            + "\nRoomKey : "@ + key_hex + "\n==================================="@
    }
}

/// Law: over every transport the welcome starts with the same lines: the
/// banner, the client's id, its room, and the room's key, each on a line of
/// its own.
pub proof fn lemma_welcome_names_the_key(t: Transport, id: Seq<char>, room: Seq<char>, key_hex: Seq<char>)
    ensures
        ({
            let head = "=== Welcome to RustChatPro v0.9 ===\nID      : "@ + id + "\nRoom    : "@ + room
                + "\nRoomKey : "@ + key_hex + "\n"@;
            &&& head.len() <= welcome_text(t, id, room, key_hex).len()
            &&& welcome_text(t, id, room, key_hex).take(head.len() as int) == head
        }),
{
    reveal_strlit("=== Welcome to RustChatPro v0.9 ===\nID      : ");
    reveal_strlit("\nRoom    : ");
    reveal_strlit("\nRoomKey : ");
    reveal_strlit("\n");
    reveal_strlit("\n===================================");
    reveal_strlit(
        "\nCmds    : /join <room> \u{b7} /msg <id> <text>\n/rooms \u{b7} /history \u{b7} /quit\n===================================\n",
    );
    let head = "=== Welcome to RustChatPro v0.9 ===\nID      : "@ + id + "\nRoom    : "@ + room
        + "\nRoomKey : "@ + key_hex + "\n"@;
    let w = welcome_text(t, id, room, key_hex);
    assert(w.take(head.len() as int) =~= head);
}

/// The notice that a client left.
pub open spec fn left_notice(t: Transport, id: u128) -> Seq<char> {
    if t == Transport::WebSocket {
        "["@ + uuid_text(id).take(8) + "] left"@
    } else {
        "["@ + uuid_text(id).take(8) + "] left the room"@
    }
}

/// What a line of input from the connection amounts to.
pub enum LineAction {
    /// Blank: nothing to do.
    Skip,
    /// An answer to a ping: the client is alive.
    Alive,
    /// Input to handle, with the acknowledgement to send first (TCP only).
    Handle(String, Option<String>),
}

/// Trims a line and sorts it: blank, a ping answer (`PONG`, or `/pong` except
/// on the WebSocket handler of the server), or input (acknowledged on TCP).
pub fn classify_line(line: &str, t: Transport) -> (a: LineAction)
    ensures
        trim_spec(line@).len() == 0 ==> a is Skip,
        trim_spec(line@).len() > 0 && (trim_spec(line@) == "PONG"@ || (t != Transport::WebSocket
            && trim_spec(line@) == "/pong"@)) ==> a is Alive,
        trim_spec(line@).len() > 0 && trim_spec(line@) != "PONG"@ && !(t != Transport::WebSocket
            && trim_spec(line@) == "/pong"@) ==> (a matches LineAction::Handle(input, ack)
            && input@ == trim_spec(line@) && (t == Transport::Tcp ==> (ack matches Some(k)
            && exists|ts: Seq<char>|
            is_clock_time(ts) && k@ == ack_line(ts, "received: "@ + trim_spec(line@))))
            && (t != Transport::Tcp ==> ack is None)),
{
    let input = trim(line);
    let v = chars_of(input.as_str());
    let n = v.len();
    if n == 0 {
        return LineAction::Skip;
    }
    if segment_is(&v, 0, n, "PONG") {
        proof {
            assert(v@.subrange(0, n as int) =~= v@);
        }
        return LineAction::Alive;
    }
    if t != Transport::WebSocket && segment_is(&v, 0, n, "/pong") {
        proof {
            assert(v@.subrange(0, n as int) =~= v@);
        }
        return LineAction::Alive;
    }
    proof {
        assert(v@.subrange(0, n as int) =~= v@);
    }
    if t == Transport::Tcp {
        let mut text = String::from_str("received: ");
        push_str(&mut text, input.as_str());
        let ack = ChatMessage::ack(text.as_str());
        let shown = ack.display();
        LineAction::Handle(input, Some(shown))
    } else {
        LineAction::Handle(input, None)
    }
}

/// Appends a `Send` effect for each delivery.
fn push_sends(effects: &mut Vec<Effect>, d: &Vec<Delivery>)
    ensures
        effects_view(final(effects)@) == effects_view(old(effects)@) + sends(pairs(d@)),
{
    let ghost start = effects_view(effects@);
    let mut i: usize = 0;
    while i < d.len()
        invariant
            i <= d@.len(),
            effects_view(effects@) == start + sends(pairs(d@.take(i as int))),
        decreases d@.len() - i,
    {
        let ghost before = effects_view(effects@);
        effects.push(Effect::Send(d[i].to, d[i].text.clone()));
        proof {
            assert(pairs(d@.take(i + 1)) =~= pairs(d@.take(i as int)).push(d@[i as int]@));
            assert(effects_view(effects@) =~= before.push(EffectView::Send(d@[i as int].to, d@[i as int].text@)));
            assert(sends(pairs(d@.take(i + 1))) =~= sends(pairs(d@.take(i as int))).push(EffectView::Send(d@[i as int].to, d@[i as int].text@)));
            assert(effects_view(effects@) =~= start + sends(pairs(d@.take(i + 1))));
        }
        i = i + 1;
    }
    proof {
        assert(d@.take(d@.len() as int) =~= d@);
    }
}

/// How a session handled `/join room`: the client moved rooms, its key is the
/// room's (made if the room had none), the others heard of it, every member
/// got the key, and the client got its answer.
pub open spec fn join_handled(
    s0: SessionState,
    s1: SessionState,
    m0: Map<Seq<char>, Set<u128>>,
    k0: Map<Seq<char>, Seq<u8>>,
    m1: Map<Seq<char>, Set<u128>>,
    k1: Map<Seq<char>, Seq<u8>>,
    room: Seq<char>,
    effects: Seq<EffectView>,
) -> bool {
    &&& m1 == with_member(without_member(m0, s0.room, s0.id), room, s0.id)
    &&& s1.id == s0.id && s1.room == room
    &&& k0.contains_key(room) ==> s1.key == k0[room] && k1 == k0
    &&& !k0.contains_key(room) ==> k1 == k0.insert(room, s1.key)
    &&& s1.key.len() == KEY_SIZE
    &&& exists|a: Seq<(u128, Seq<char>)>, b: Seq<(u128, Seq<char>)>, t1: Seq<char>, t2: Seq<char>|
        {
            &&& is_clock_time(t1) && is_clock_time(t2)
            &&& is_broadcast(a, m1[room], Some(s0.id), system_line(t1, joined_notice(s0.id, room)))
            &&& is_broadcast(b, m1[room], None, system_line(t2, key_notice(room, hex_text(s1.key))))
            &&& effects == sends(a) + sends(b) + seq![
                EffectView::Send(s0.id, join_response(room, m1[room].len(), hex_text(s1.key))),
            ]
        }
}

/// How a session handled `/rooms`: the live listing, then (on TCP) the
/// rooms with history.
pub open spec fn rooms_handled(t: Transport, s0: SessionState, m0: Map<Seq<char>, Set<u128>>, effects: Seq<EffectView>) -> bool {
    exists|entries: Seq<(Seq<char>, nat)>|
        {
            &&& lists_rooms(entries, m0)
            &&& effects == seq![EffectView::Send(s0.id, "--- Active rooms ---\n"@ + room_lines(entries))]
                + (if t == Transport::Tcp {
                seq![EffectView::LoadDbRooms]
            } else {
                Seq::empty()
            })
        }
}

/// How a session handled `/msg prefix text`: the message to the first client
/// whose id starts with the prefix, and a confirmation; or a refusal.
pub open spec fn dm_handled(
    t: Transport,
    s0: SessionState,
    ids: Seq<u128>,
    prefix: Seq<char>,
    text: Seq<char>,
    effects: Seq<EffectView>,
) -> bool {
    match first_with_prefix(ids, prefix) {
        Some(target) => exists|t1: Seq<char>, t2: Seq<char>|
            {
                &&& is_clock_time(t1)
                &&& is_clock_time(t2)
                &&& effects == seq![
                    EffectView::Send(target, dm_line(t1, uuid_text(s0.id).take(8), text)),
                    EffectView::Send(
                        s0.id,
                        if t == Transport::Tcp {
                            ack_line(t2, "DM delivered to "@ + uuid_text(target).take(8))
                        } else {
                            "DM sent to "@ + uuid_text(target).take(8)
                        },
                    ),
                ]
            },
        None => effects == seq![EffectView::Send(s0.id, no_client(t, prefix))],
    }
}

/// How a session handled a chat message: sealed under the room key with some
/// nonce, shown to every member of the room, stored, and echoed back; on
/// TCP, a message too long to seal is answered with an error.
pub open spec fn say_handled(
    t: Transport,
    s0: SessionState,
    m0: Map<Seq<char>, Set<u128>>,
    input: Seq<char>,
    effects: Seq<EffectView>,
) -> bool {
    if encode_utf8(input).len() <= MAX_PLAINTEXT {
        exists|nonce: Seq<u8>, ts: Seq<char>, d: Seq<(u128, Seq<char>)>|
            #![trigger sealed_text(s0.key, nonce, input), is_clock_time(ts), sends(d)]
            {
                let enc = sealed_text(s0.key, nonce, input);
                &&& nonce.len() == 12
                &&& is_clock_time(ts)
                &&& room_broadcast(
                    d,
                    m0,
                    s0.room,
                    None,
                    chat_line(ts, s0.room, uuid_text(s0.id).take(8), enc),
                )
                &&& effects == sends(d) + seq![
                    EffectView::SaveChat(s0.room, uuid_text(s0.id), enc),
                    EffectView::Send(s0.id, line_for(t, "[you \u{2192} "@ + s0.room + "]: "@ + input)),
                ]
            }
    } else if t == Transport::Tcp {
        effects == seq![
            EffectView::Send(s0.id, "Encryption error: Encryption failed: aead::Error\n"@),
        ]
    } else {
        effects == Seq::<EffectView>::empty()
    }
}

/// What handling `input` does, case by case.
pub open spec fn input_handled(
    t: Transport,
    s0: SessionState,
    s1: SessionState,
    m0: Map<Seq<char>, Set<u128>>,
    k0: Map<Seq<char>, Seq<u8>>,
    m1: Map<Seq<char>, Set<u128>>,
    k1: Map<Seq<char>, Seq<u8>>,
    input: Seq<char>,
    ids: Seq<u128>,
    effects: Seq<EffectView>,
) -> bool {
    let same = s1 == s0 && m1 == m0 && k1 == k0;
    match parse_spec(input) {
        ParsedInput::Join(room) => join_handled(s0, s1, m0, k0, m1, k1, room, effects),
        ParsedInput::JoinUsage => same && effects == seq![EffectView::Send(s0.id, join_usage(t))],
        ParsedInput::Rooms => same && rooms_handled(t, s0, m0, effects),
        ParsedInput::History => same && effects == seq![
            EffectView::Send(s0.id, line_for(t, "--- Loading history ---"@)),
            EffectView::LoadHistory(s0.room),
        ],
        ParsedInput::Msg(prefix, text) => same && dm_handled(t, s0, ids, prefix, text, effects),
        ParsedInput::MsgUsage => same && effects == seq![EffectView::Send(s0.id, msg_usage(t))],
        ParsedInput::Quit => same && effects == seq![EffectView::Send(s0.id, line_for(t, "Goodbye!"@))],
        ParsedInput::Unknown(w) => same && effects == seq![
            EffectView::Send(s0.id, line_for(t, "Unknown command: "@ + w)),
        ],
        ParsedInput::Say => same && say_handled(t, s0, m0, input, effects),
    }
}

/// The client is in `room` and in no other room.
pub open spec fn only_in(m: Map<Seq<char>, Set<u128>>, id: u128, room: Seq<char>) -> bool {
    &&& m.contains_key(room)
    &&& m[room].contains(id)
    &&& forall|r: Seq<char>| #[trigger] m.contains_key(r) && r != room ==> !m[r].contains(id)
}

/// The session holds the key that its room has.
pub open spec fn holds_room_key(k: Map<Seq<char>, Seq<u8>>, s: SessionState) -> bool {
    k.contains_key(s.room) && k[s.room] == s.key
}

/// Handling a line keeps a client in exactly the room its session names, and
/// the session holding that room's key.
proof fn lemma_handled_keeps_session(
    t: Transport,
    s0: SessionState,
    s1: SessionState,
    m0: Map<Seq<char>, Set<u128>>,
    k0: Map<Seq<char>, Seq<u8>>,
    m1: Map<Seq<char>, Set<u128>>,
    k1: Map<Seq<char>, Seq<u8>>,
    input: Seq<char>,
    ids: Seq<u128>,
    effects: Seq<EffectView>,
)
    requires
        input_handled(t, s0, s1, m0, k0, m1, k1, input, ids, effects),
    ensures
        s1.id == s0.id,
        only_in(m0, s0.id, s0.room) ==> only_in(m1, s1.id, s1.room),
        holds_room_key(k0, s0) ==> holds_room_key(k1, s1),
{
    match parse_spec(input) {
        ParsedInput::Join(room) => {
            if only_in(m0, s0.id, s0.room) {
                assert forall|r: Seq<char>| #[trigger] m1.contains_key(r) && r != s1.room implies !m1[r].contains(
                    s1.id,
                ) by {
                    if r == s0.room {
                        assert(m1[r] == m0[r].remove(s0.id));
                    } else {
                        assert(m1[r] == m0[r]);
                    }
                }
            }
        },
        _ => {},
    }
}

fn single_send(to: u128, text: String) -> (e: Vec<Effect>)
    ensures
        effects_view(e@) == seq![EffectView::Send(to, text@)],
{
    let mut e: Vec<Effect> = Vec::new();
    e.push(Effect::Send(to, text));
    proof {
        assert(effects_view(e@) =~= seq![EffectView::Send(to, text@)]);
    }
    e
}

impl Session {
    fn handle_join(&mut self, registry: &mut RoomRegistry, room: String) -> (e: Vec<Effect>)
        requires
            old(registry).wf(),
        ensures
            final(self).wf(),
            final(registry).wf(),
            join_handled(
                old(self).state(),
                final(self).state(),
                old(registry).members(),
                old(registry).keys(),
                final(registry).members(),
                final(registry).keys(),
                room@,
                effects_view(e@),
            ),
    {
        let id = self.info.id;
        let out = registry.join_room(id, room.as_str(), self.info.current_room.as_str());
        let mut e: Vec<Effect> = Vec::new();
        push_sends(&mut e, &out.notice_deliveries);
        push_sends(&mut e, &out.key_deliveries);
        let ghost before = effects_view(e@);
        e.push(Effect::Send(id, out.response));
        self.current_key = out.key;
        self.info.current_room = room;
        proof {
            assert(effects_view(e@) =~= before.push(EffectView::Send(id, out.response@)));
            let a = pairs(out.notice_deliveries@);
            let b = pairs(out.key_deliveries@);
            let t1 = out.notice.timestamp@;
            let t2 = out.key_notice.timestamp@;
            assert(out.notice.display_spec() == system_line(t1, joined_notice(id, room@)));
            assert(out.key_notice.display_spec() == system_line(t2, key_notice(room@, hex_text(out.key@))));
            assert(effects_view(e@) =~= sends(a) + sends(b) + seq![
                EffectView::Send(id, join_response(room@, registry.members()[room@].len(), hex_text(out.key@))),
            ]);
        }
        e
    }
}

impl Session {
    fn handle_rooms(&self, registry: &RoomRegistry, t: Transport) -> (e: Vec<Effect>)
        requires
            registry.wf(),
        ensures
            rooms_handled(t, self.state(), registry.members(), effects_view(e@)),
    {
        let list = registry.list_rooms();
        let ghost listed = list@;
        let mut e = single_send(self.info.id, list);
        if t == Transport::Tcp {
            let ghost before = effects_view(e@);
            e.push(Effect::LoadDbRooms);
            proof {
                assert(effects_view(e@) =~= before + seq![EffectView::LoadDbRooms]);
            }
        } else {
            proof {
                assert(effects_view(e@) =~= effects_view(e@) + Seq::<EffectView>::empty());
            }
        }
        proof {
            let entries = choose|entries: Seq<(Seq<char>, nat)>|
                lists_rooms(entries, registry.members()) && listed == "--- Active rooms ---\n"@
                    + room_lines(entries);
            assert(lists_rooms(entries, registry.members()));
        }
        e
    }

    fn handle_dm(&self, t: Transport, client_ids: &Vec<u128>, prefix: &str, text: &str) -> (e: Vec<Effect>)
        ensures
            dm_handled(t, self.state(), client_ids@, prefix@, text@, effects_view(e@)),
    {
        let id = self.info.id;
        match find_client_by_prefix(client_ids, prefix) {
            Some(target) => {
                let sender = uuid_string(id);
                let target_text = uuid_string(target);
                let dm = ChatMessage::dm(text, sender.as_str(), target_text.as_str());
                proof {
                    lemma_uuid_text_short(id);
                }
                let shown = dm.display();
                let mut confirm_text = String::new();
                if t == Transport::Tcp {
                    push_str(&mut confirm_text, "DM delivered to ");
                } else {
                    push_str(&mut confirm_text, "DM sent to ");
                }
                let short = short_client_id(target);
                push_str(&mut confirm_text, short.as_str());
                proof {
                    if t == Transport::Tcp {
                        assert(confirm_text@ =~= "DM delivered to "@ + uuid_text(target).take(8));
                    } else {
                        assert(confirm_text@ =~= "DM sent to "@ + uuid_text(target).take(8));
                    }
                    assert(shown@ == dm_line(dm.timestamp@, uuid_text(id).take(8), text@));
                }
                let mut e = single_send(target, shown);
                let ghost before = effects_view(e@);
                if t == Transport::Tcp {
                    let ack = ChatMessage::ack(confirm_text.as_str());
                    let ack_shown = ack.display();
                    e.push(Effect::Send(id, ack_shown));
                    proof {
                        assert(effects_view(e@) =~= before.push(EffectView::Send(id, ack_shown@)));
                        assert(effects_view(e@) =~= seq![
                            EffectView::Send(target, dm_line(dm.timestamp@, uuid_text(id).take(8), text@)),
                            EffectView::Send(id, ack_line(ack.timestamp@, "DM delivered to "@ + uuid_text(target).take(8))),
                        ]);
                    }
                } else {
                    let ghost ct = confirm_text@;
                    e.push(Effect::Send(id, confirm_text));
                    proof {
                        assert(effects_view(e@) =~= before.push(EffectView::Send(id, ct)));
                        assert(effects_view(e@) =~= seq![
                            EffectView::Send(target, dm_line(dm.timestamp@, uuid_text(id).take(8), text@)),
                            EffectView::Send(id, "DM sent to "@ + uuid_text(target).take(8)),
                        ]);
                        assert(is_clock_time(dm.timestamp@));
                    }
                }
                e
            },
            None => {
                let mut msg = String::new();
                if t == Transport::Tcp {
                    push_str(&mut msg, "No client found: '");
                    push_str(&mut msg, prefix);
                    push_str(&mut msg, "'\n");
                } else {
                    push_str(&mut msg, "No client: ");
                    push_str(&mut msg, prefix);
                }
                proof {
                    assert(msg@ =~= no_client(t, prefix@));
                }
                single_send(id, msg)
            },
        }
    }
}

impl Session {
    fn handle_say(&self, registry: &RoomRegistry, t: Transport, input: &str) -> (e: Vec<Effect>)
        requires
            self.wf(),
            registry.wf(),
        ensures
            say_handled(t, self.state(), registry.members(), input@, effects_view(e@)),
    {
        let id = self.info.id;
        match encrypt(input, &self.current_key) {
            Ok(encrypted) => {
                let sender = uuid_string(id);
                let room = self.info.current_room.as_str();
                let msg = ChatMessage::chat(encrypted.as_str(), room, sender.as_str());
                proof {
                    lemma_uuid_text_short(id);
                }
                let deliveries = registry.broadcast_to_room(room, &msg, None);
                let mut e: Vec<Effect> = Vec::new();
                push_sends(&mut e, &deliveries);
                let ghost before = effects_view(e@);
                e.push(Effect::SaveChat(String::from_str(room), sender, encrypted));
                let mut confirm = String::new();
                push_str(&mut confirm, "[you \u{2192} ");
                push_str(&mut confirm, room);
                push_str(&mut confirm, "]: ");
                push_str(&mut confirm, input);
                if t == Transport::Tcp {
                    push_str(&mut confirm, "\n");
                }
                proof {
                    assert(confirm@ =~= line_for(t, "[you \u{2192} "@ + room@ + "]: "@ + input@));
                }
                let ghost cv = confirm@;
                e.push(Effect::Send(id, confirm));
                proof {
                    let nonce = choose|nonce: Seq<u8>|
                        nonce.len() == 12 && encrypted@ == sealed_text(self.current_key@, nonce, input@);
                    let ts = msg.timestamp@;
                    let d = pairs(deliveries@);
                    assert(msg.display_spec() == chat_line(ts, room@, uuid_text(id).take(8), encrypted@));
                    assert(effects_view(e@) =~= sends(d) + seq![
                        EffectView::SaveChat(room@, uuid_text(id), encrypted@),
                        EffectView::Send(id, cv),
                    ]);
                    assert(is_clock_time(ts));
                    assert(sealed_text(self.current_key@, nonce, input@) == encrypted@);
                    assert(room_broadcast(d, registry.members(), self.state().room, None,
                        chat_line(ts, self.state().room, uuid_text(self.state().id).take(8),
                        sealed_text(self.state().key, nonce, input@))));
                    assert(effects_view(e@) == sends(d) + seq![
                        EffectView::SaveChat(self.state().room, uuid_text(self.state().id), sealed_text(self.state().key, nonce, input@)),
                        EffectView::Send(self.state().id, line_for(t, "[you \u{2192} "@ + self.state().room + "]: "@ + input@)),
                    ]);
                }
                e
            },
            Err(err) => {
                if t == Transport::Tcp {
                    let mut msg = String::from_str("Encryption error: ");
                    let m = err.message();
                    push_str(&mut msg, m.as_str());
                    push_str(&mut msg, "\n");
                    proof {
                        reveal_strlit("Encryption error: Encryption failed: aead::Error\n");
                        reveal_strlit("Encryption error: ");
                        reveal_strlit("Encryption failed: aead::Error");
                        reveal_strlit("\n");
                        assert(msg@ =~= "Encryption error: Encryption failed: aead::Error\n"@);
                    }
                    single_send(id, msg)
                } else {
                    let e: Vec<Effect> = Vec::new();
                    proof {
                        assert(effects_view(e@) =~= Seq::<EffectView>::empty());
                    }
                    e
                }
            },
        }
    }

    /// Handles one line of input (trimmed and nonempty): see
    /// [`input_handled`] for what each kind of line does. `client_ids` are the
    /// connected clients, in the order a direct message looks for its target.
    pub fn handle_input(
        &mut self,
        registry: &mut RoomRegistry,
        input: &str,
        t: Transport,
        client_ids: &Vec<u128>,
    ) -> (out: InputOutcome)
        requires
            parse_spec(input@) is Say ==> old(self).wf(),
            old(registry).wf(),
        ensures
            old(self).wf() ==> final(self).wf(),
            final(registry).wf(),
            out.keep_going == !(parse_spec(input@) is Quit),
            final(self).state().id == old(self).state().id,
            only_in(old(registry).members(), old(self).state().id, old(self).state().room) ==> only_in(
                final(registry).members(),
                final(self).state().id,
                final(self).state().room,
            ),
            holds_room_key(old(registry).keys(), old(self).state()) ==> holds_room_key(
                final(registry).keys(),
                final(self).state(),
            ),
            input_handled(
                t,
                old(self).state(),
                final(self).state(),
                old(registry).members(),
                old(registry).keys(),
                final(registry).members(),
                final(registry).keys(),
                input@,
                client_ids@,
                effects_view(out.effects@),
            ),
    {
        let ghost s0 = self.state();
        let ghost m0 = registry.members();
        let ghost k0 = registry.keys();
        let id = self.info.id;
        let cmd = parse_command(input);
        let out = match cmd {
            Command::Join(room) => {
                let effects = self.handle_join(registry, room);
                InputOutcome { effects, keep_going: true }
            },
            Command::JoinUsage => {
                let text = if t == Transport::Tcp {
                    String::from_str("Usage: /join <roomname>\n")
                } else {
                    String::from_str("Usage: /join <room>")
                };
                InputOutcome { effects: single_send(id, text), keep_going: true }
            },
            Command::Rooms => InputOutcome { effects: self.handle_rooms(registry, t), keep_going: true },
            Command::History => {
                let mut text = String::from_str("--- Loading history ---");
                if t == Transport::Tcp {
                    push_str(&mut text, "\n");
                }
                let ghost tv = text@;
                let mut effects = single_send(id, text);
                let ghost before = effects_view(effects@);
                let room = String::from_str(self.info.current_room.as_str());
                effects.push(Effect::LoadHistory(room));
                proof {
                    assert(effects_view(effects@) =~= before.push(EffectView::LoadHistory(self.info.current_room@)));
                    assert(effects_view(effects@) =~= seq![
                        EffectView::Send(id, line_for(t, "--- Loading history ---"@)),
                        EffectView::LoadHistory(self.info.current_room@),
                    ]);
                }
                InputOutcome { effects, keep_going: true }
            },
            Command::Msg(prefix, text) => InputOutcome {
                effects: self.handle_dm(t, client_ids, prefix.as_str(), text.as_str()),
                keep_going: true,
            },
            Command::MsgUsage => {
                let text = if t == Transport::Tcp {
                    String::from_str("Usage: /msg <id> <message>\n")
                } else {
                    String::from_str("Usage: /msg <id> <text>")
                };
                InputOutcome { effects: single_send(id, text), keep_going: true }
            },
            Command::Quit => {
                let mut text = String::from_str("Goodbye!");
                if t == Transport::Tcp {
                    push_str(&mut text, "\n");
                }
                InputOutcome { effects: single_send(id, text), keep_going: false }
            },
            Command::Unknown(word) => {
                let mut text = String::from_str("Unknown command: ");
                push_str(&mut text, word.as_str());
                if t == Transport::Tcp {
                    push_str(&mut text, "\n");
                }
                InputOutcome { effects: single_send(id, text), keep_going: true }
            },
            Command::Say => InputOutcome { effects: self.handle_say(registry, t, input), keep_going: true },
        };
        proof {
            lemma_handled_keeps_session(
                t,
                s0,
                self.state(),
                m0,
                k0,
                registry.members(),
                registry.keys(),
                input@,
                client_ids@,
                effects_view(out.effects@),
            );
        }
        out
    }
}

/// Handles one line of input from a WebSocket client: as
/// [`Session::handle_input`] does over a WebSocket, where the replies to the
/// client itself end without a newline.
pub fn handle_ws_input_pub(
    session: &mut Session,
    registry: &mut RoomRegistry,
    input: &str,
    client_ids: &Vec<u128>,
) -> (out: InputOutcome)
    requires
        parse_spec(input@) is Say ==> old(session).wf(),
        old(registry).wf(),
    ensures
        old(session).wf() ==> final(session).wf(),
        final(registry).wf(),
        out.keep_going == !(parse_spec(input@) is Quit),
        final(session).state().id == old(session).state().id,
        only_in(old(registry).members(), old(session).state().id, old(session).state().room) ==> only_in(
            final(registry).members(),
            final(session).state().id,
            final(session).state().room,
        ),
        holds_room_key(old(registry).keys(), old(session).state()) ==> holds_room_key(
            final(registry).keys(),
            final(session).state(),
        ),
        input_handled(
            Transport::WebSocket,
            old(session).state(),
            final(session).state(),
            old(registry).members(),
            old(registry).keys(),
            final(registry).members(),
            final(registry).keys(),
            input@,
            client_ids@,
            effects_view(out.effects@),
        ),
{
    session.handle_input(registry, input, Transport::WebSocket, client_ids)
}

impl Session {
    /// Starts a session for a new client: a random id, in the lobby (created
    /// if needed), with the lobby's key (made if the lobby had none), and the
    /// welcome text for the client.
    pub fn open(registry: &mut RoomRegistry, t: Transport) -> (res: (Session, String))
        requires
            old(registry).wf(),
        ensures
            final(registry).wf(),
            res.0.wf(),
            res.0.state().room == "lobby"@,
            final(registry).members() == with_member(old(registry).members(), "lobby"@, res.0.state().id),
            old(registry).keys().contains_key("lobby"@) ==> res.0.state().key == old(registry).keys()["lobby"@]
                && final(registry).keys() == old(registry).keys(),
            !old(registry).keys().contains_key("lobby"@)
                ==> final(registry).keys() == old(registry).keys().insert("lobby"@, res.0.state().key),
            res.1@ == welcome_text(t, uuid_text(res.0.state().id), "lobby"@, hex_text(res.0.state().key)),
            holds_room_key(final(registry).keys(), res.0.state()),
            (forall|r: Seq<char>|
                #[trigger] old(registry).members().contains_key(r) ==> !old(registry).members()[r].contains(
                    res.0.state().id,
                )) ==> only_in(final(registry).members(), res.0.state().id, res.0.state().room),
    {
        let info = ClientInfo::new();
        registry.add_member(info.current_room.as_str(), info.id);
        let key = registry.key_for(info.current_room.as_str());
        let mut w = String::from_str("=== Welcome to RustChatPro v0.9 ===\nID      : ");
        let id_text = uuid_string(info.id);
        push_str(&mut w, id_text.as_str());
        push_str(&mut w, "\nRoom    : ");
        push_str(&mut w, info.current_room.as_str());
        push_str(&mut w, "\nRoomKey : ");
        let hex = key.to_hex();
        push_str(&mut w, hex.as_str());
        if t == Transport::Tcp {
            push_str(
                &mut w,
                "\nCmds    : /join <room> \u{b7} /msg <id> <text>\n/rooms \u{b7} /history \u{b7} /quit\n===================================\n",
            );
        } else {
            push_str(&mut w, "\n===================================");
        }
        proof {
            assert(w@ =~= welcome_text(t, uuid_text(info.id), info.current_room@, hex_text(key@)));
        }
        (Session { info, current_key: key }, w)
    }

    /// Ends the session: the client leaves its room, and the others in the
    /// room hear that it left.
    pub fn close(&self, registry: &mut RoomRegistry, t: Transport) -> (d: Vec<Delivery>)
        requires
            old(registry).wf(),
        ensures
            final(registry).wf(),
            final(registry).members() == without_member(old(registry).members(), self.state().room, self.state().id),
            final(registry).keys() == old(registry).keys(),
            exists|ts: Seq<char>|
                is_clock_time(ts) && room_broadcast(
                    pairs(d@),
                    final(registry).members(),
                    self.state().room,
                    Some(self.state().id),
                    system_line(ts, left_notice(t, self.state().id)),
                ),
            only_in(old(registry).members(), self.state().id, self.state().room) ==> forall|r: Seq<char>|
                #[trigger] final(registry).members().contains_key(r) ==> !final(registry).members()[r].contains(
                    self.state().id,
                ),
    {
        let id = self.info.id;
        let room = self.info.current_room.as_str();
        registry.leave_room(id, room);
        let mut text = String::from_str("[");
        let short = short_client_id(id);
        push_str(&mut text, short.as_str());
        if t == Transport::WebSocket {
            push_str(&mut text, "] left");
        } else {
            push_str(&mut text, "] left the room");
        }
        proof {
            assert(text@ =~= left_notice(t, id));
        }
        let bye = ChatMessage::system(text.as_str());
        let d = registry.broadcast_to_room(room, &bye, Some(id));
        proof {
            assert(bye.display_spec() == system_line(bye.timestamp@, left_notice(t, id)));
        }
        d
    }
}

} // verus!
