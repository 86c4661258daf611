//! Chat messages: what they hold, how they are shown to a client, and the
//! length-prefixed frame they travel in.

use vstd::prelude::*;
use vstd::string::StringSliceAdditionalSpecFns;
use vstd::utf8::{decode_utf8, encode_utf8, is_char_boundary};
use crate::text::push_str;

verus! {

/// What a message is for.
#[derive(Debug, Clone, Copy, PartialEq, Eq, Structural)]
pub enum MessageKind {
    Chat,
    DirectMessage,
    Command,
    System,
    Ack,
}

/// A message as the server builds it before showing it to clients.
#[derive(Debug, Clone)]
pub struct ChatMessage {
    pub kind: MessageKind,
    pub content: String,
    pub room: String,
    pub sender_id: String,
    pub timestamp: String,
    pub target_id: String,
}

/// True for the digits `0` to `9`.
pub open spec fn is_digit(c: char) -> bool {
    '0' <= c <= '9'
}

/// Value of a two-digit decimal number.
pub open spec fn two_digits(a: char, b: char) -> int {
    (a as int - 48) * 10 + (b as int - 48)
}

/// A UTC time of day written `HH:MM:SS` (hours 00 to 23, minutes 00 to 59,
/// seconds 00 to 60, the last for a leap second).
pub open spec fn is_clock_time(s: Seq<char>) -> bool {
    &&& s.len() == 8
    &&& s[2] == ':' && s[5] == ':'
    &&& is_digit(s[0]) && is_digit(s[1]) && is_digit(s[3]) && is_digit(s[4])
    &&& is_digit(s[6]) && is_digit(s[7])
    &&& two_digits(s[0], s[1]) <= 23
    &&& two_digits(s[3], s[4]) <= 59
    &&& two_digits(s[6], s[7]) <= 60
}

/// `chrono::Utc::now().format("%H:%M:%S")`: the current UTC time of day.
/// The value depends on the clock; only its form is claimed, which chrono
/// documents for `%H`, `%M` and `%S` (two digits each, `%S` up to 60).
/// `Utc::now` panics when the system clock reads a time before 1970.
#[verifier::external_body]
fn clock_time_of_day() -> (s: String)
    ensures
        is_clock_time(s@),
{
    chrono::Utc::now().format("%H:%M:%S").to_string()
}

/// The sender as shown: the characters of its first eight bytes (all of it
/// when shorter).
pub open spec fn short_id(s: Seq<char>) -> Seq<char> {
    let b = encode_utf8(s);
    decode_utf8(b.take(if b.len() < 8 { b.len() as int } else { 8 }))
}

/// True when the first eight bytes of `s` (or all of it) end on a character
/// boundary, so that they can be sliced out.
pub open spec fn short_id_sliceable(s: Seq<char>) -> bool {
    let b = encode_utf8(s);
    is_char_boundary(b, if b.len() < 8 { b.len() as int } else { 8 })
}

impl ChatMessage {
    /// The text a client sees for this message, ending in a newline (empty for
    /// a command).
    pub open spec fn display_spec(&self) -> Seq<char> {
        match self.kind {
            MessageKind::Chat => "["@ + self.timestamp@ + "]["@ + self.room@ + "]["@ + short_id(
                self.sender_id@,
            ) + "]: "@ + self.content@ + "\n"@,
            MessageKind::DirectMessage => "["@ + self.timestamp@ + "][DM from "@ + short_id(
                self.sender_id@,
            ) + "]: "@ + self.content@ + "\n"@,
            MessageKind::System => "["@ + self.timestamp@ + "] *** "@ + self.content@
                + " ***\n"@,
            MessageKind::Ack => "["@ + self.timestamp@ + "] > "@ + self.content@ + "\n"@,
            MessageKind::Command => Seq::empty(),
        }
    }

    /// True when the message can be shown: chats and direct messages slice
    /// the first eight bytes of the sender id.
    pub open spec fn displayable(&self) -> bool {
        (self.kind == MessageKind::Chat || self.kind == MessageKind::DirectMessage)
            ==> short_id_sliceable(self.sender_id@)
    }

    /// A message with every field given, the timestamp included.
    pub fn new_at(
        kind: MessageKind,
        content: &str,
        room: &str,
        sender_id: &str,
        target_id: &str,
        timestamp: &str,
    ) -> (m: ChatMessage)
        ensures
            m.kind == kind,
            m.content@ == content@,
            m.room@ == room@,
            m.sender_id@ == sender_id@,
            m.target_id@ == target_id@,
            m.timestamp@ == timestamp@,
    {
        ChatMessage {
            kind,
            content: String::from_str(content),
            room: String::from_str(room),
            sender_id: String::from_str(sender_id),
            timestamp: String::from_str(timestamp),
            target_id: String::from_str(target_id),
        }
    }

    /// A chat message from `sender_id` in `room`, stamped with the current time.
    pub fn chat(content: &str, room: &str, sender_id: &str) -> (m: ChatMessage)
        ensures
            m.kind == MessageKind::Chat,
            m.content@ == content@,
            m.room@ == room@,
            m.sender_id@ == sender_id@,
            m.target_id@ == Seq::<char>::empty(),
            is_clock_time(m.timestamp@),
    {
        let ts = clock_time_of_day();
        proof {
            reveal_strlit("");
        }
        ChatMessage::new_at(MessageKind::Chat, content, room, sender_id, "", ts.as_str())
    }

    /// A direct message from `sender_id` to `target_id`, stamped with the
    /// current time.
    pub fn dm(content: &str, sender_id: &str, target_id: &str) -> (m: ChatMessage)
        ensures
            m.kind == MessageKind::DirectMessage,
            m.content@ == content@,
            m.room@ == Seq::<char>::empty(),
            m.sender_id@ == sender_id@,
            m.target_id@ == target_id@,
            is_clock_time(m.timestamp@),
    {
        let ts = clock_time_of_day();
        proof {
            reveal_strlit("");
        }
        ChatMessage::new_at(MessageKind::DirectMessage, content, "", sender_id, target_id, ts.as_str())
    }

    /// A notice from the server, stamped with the current time.
    pub fn system(content: &str) -> (m: ChatMessage)
        ensures
            m.kind == MessageKind::System,
            m.content@ == content@,
            m.room@ == Seq::<char>::empty(),
            m.sender_id@ == "server"@,
            m.target_id@ == Seq::<char>::empty(),
            is_clock_time(m.timestamp@),
    {
        let ts = clock_time_of_day();
        proof {
            reveal_strlit("");
        }
        ChatMessage::new_at(MessageKind::System, content, "", "server", "", ts.as_str())
    }

    /// An acknowledgement from the server, stamped with the current time.
    pub fn ack(content: &str) -> (m: ChatMessage)
        ensures
            m.kind == MessageKind::Ack,
            m.content@ == content@,
            m.room@ == Seq::<char>::empty(),
            m.sender_id@ == "server"@,
            m.target_id@ == Seq::<char>::empty(),
            is_clock_time(m.timestamp@),
    {
        let ts = clock_time_of_day();
        proof {
            reveal_strlit("");
        }
        ChatMessage::new_at(MessageKind::Ack, content, "", "server", "", ts.as_str())
    }

    /// The first eight bytes of the sender id (all of it when shorter).
    fn sender_short(&self) -> (s: &str)
        requires
            short_id_sliceable(self.sender_id@),
        ensures
            s@ == short_id(self.sender_id@),
    {
        let id = self.sender_id.as_str();
        let len = id.as_bytes().len();
        let n = if len < 8 {
            len
        } else {
            8
        };
        assert(id.spec_bytes() == encode_utf8(self.sender_id@));
        assert(n == (if encode_utf8(self.sender_id@).len() < 8 {
            encode_utf8(self.sender_id@).len() as int
        } else {
            8
        }));
        let (prefix, _) = id.split_at(n);
        proof {
            vstd::utf8::encode_utf8_decode_utf8(prefix@);
            assert(prefix.spec_bytes() =~= encode_utf8(self.sender_id@).take(n as int));
        }
        prefix
    }

    /// The first eight bytes of the sender id, as a new string.
    pub fn sender_short_text(&self) -> (s: String)
        requires
            short_id_sliceable(self.sender_id@),
        ensures
            s@ == short_id(self.sender_id@),
    {
        String::from_str(self.sender_short())
    }

    /// The text a client sees for this message.
    pub fn display(&self) -> (s: String)
        requires
            self.displayable(),
        ensures
            s@ == self.display_spec(),
    {
        let mut s = String::new();
        match self.kind {
            MessageKind::Chat => {
                push_str(&mut s, "[");
                push_str(&mut s, self.timestamp.as_str());
                push_str(&mut s, "][");
                push_str(&mut s, self.room.as_str());
                push_str(&mut s, "][");
                push_str(&mut s, self.sender_short());
                push_str(&mut s, "]: ");
                push_str(&mut s, self.content.as_str());
                push_str(&mut s, "\n");
            },
            MessageKind::DirectMessage => {
                push_str(&mut s, "[");
                push_str(&mut s, self.timestamp.as_str());
                push_str(&mut s, "][DM from ");
                push_str(&mut s, self.sender_short());
                push_str(&mut s, "]: ");
                push_str(&mut s, self.content.as_str());
                push_str(&mut s, "\n");
            },
            MessageKind::System => {
                push_str(&mut s, "[");
                push_str(&mut s, self.timestamp.as_str());
                push_str(&mut s, "] *** ");
                push_str(&mut s, self.content.as_str());
                push_str(&mut s, " ***\n");
            },
            MessageKind::Ack => {
                push_str(&mut s, "[");
                push_str(&mut s, self.timestamp.as_str());
                push_str(&mut s, "] > ");
                push_str(&mut s, self.content.as_str());
                push_str(&mut s, "\n");
            },
            MessageKind::Command => {},
        }
        proof {
            assert(s@ =~= self.display_spec());
        }
        s
    }
}

/// The four big-endian bytes of the length (modulo 2^32) that prefixes a frame.
pub open spec fn frame_header(len: nat) -> Seq<u8> {
    let n = len % 0x1_0000_0000;
    seq![
        (n / 0x100_0000) as u8,
        ((n / 0x1_0000) % 0x100) as u8,
        ((n / 0x100) % 0x100) as u8,
        (n % 0x100) as u8,
    ]
}

/// Frames a serialized message: its length as a big-endian `u32` (the
/// length taken modulo 2^32, as a cast does), then the bytes themselves.
pub fn encode_frame(payload: &[u8]) -> (res: Vec<u8>)
    ensures
        res@ == frame_header(payload@.len()) + payload@,
{
    let n: u64 = (payload.len() as u64) % 0x1_0000_0000;
    let mut buf: Vec<u8> = Vec::new();
    buf.push((n / 0x100_0000) as u8);
    buf.push(((n / 0x1_0000) % 0x100) as u8);
    buf.push(((n / 0x100) % 0x100) as u8);
    buf.push((n % 0x100) as u8);
    buf.extend_from_slice(payload);
    proof {
        assert(buf@ =~= frame_header(payload@.len()) + payload@);
    }
    buf
}

} // verus!
