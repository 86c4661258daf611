//! Stored messages as shown to clients: one line per message of a room's
//! history, one line per room that has stored chat messages, and the replies
//! that wrap them.

use vstd::prelude::*;
use crate::message::{short_id, short_id_sliceable};
use crate::session::Transport;
use crate::text::{push_str, signed_decimal, signed_decimal_text};

verus! {

/// A stored message as shown: chat messages with their sender's short id,
/// system messages between `***`, anything else plainly.
pub open spec fn history_line_spec(
    sender_id: Seq<char>,
    content: Seq<char>,
    timestamp: Seq<char>,
    kind: Seq<char>,
) -> Seq<char> {
    if kind == "chat"@ {
        "["@ + timestamp + "]["@ + short_id(sender_id) + "]: "@ + content + "\n"@
    } else if kind == "system"@ {
        "["@ + timestamp + "] *** "@ + content + " ***\n"@
    } else {
        "["@ + timestamp + "]: "@ + content + "\n"@
    }
}

/// Formats one stored message.
pub fn history_line(sender_id: &str, content: &str, timestamp: &str, kind: &str) -> (s: String)
    requires
        kind@ == "chat"@ ==> short_id_sliceable(sender_id@),
    ensures
        s@ == history_line_spec(sender_id@, content@, timestamp@, kind@),
{
    let kind_text = String::from_str(kind);
    let chat = String::from_str("chat");
    let system = String::from_str("system");
    let mut s = String::new();
    push_str(&mut s, "[");
    push_str(&mut s, timestamp);
    if kind_text == chat {
        let m = crate::message::ChatMessage::new_at(
            crate::message::MessageKind::Chat,
            content,
            "",
            sender_id,
            "",
            timestamp,
        );
        let short = m.sender_short_text();
        push_str(&mut s, "][");
        push_str(&mut s, short.as_str());
        push_str(&mut s, "]: ");
        push_str(&mut s, content);
        push_str(&mut s, "\n");
    } else if kind_text == system {
        push_str(&mut s, "] *** ");
        push_str(&mut s, content);
        push_str(&mut s, " ***\n");
    } else {
        push_str(&mut s, "]: ");
        push_str(&mut s, content);
        push_str(&mut s, "\n");
    }
    proof {
        assert(s@ =~= history_line_spec(sender_id@, content@, timestamp@, kind@));
    }
    s
}

/// A room with stored chat messages, as listed.
pub open spec fn db_room_line_spec(room: Seq<char>, count: int) -> Seq<char> {
    "  "@ + room + " ("@ + signed_decimal_text(count) + " messages)\n"@
}

/// Formats one room of the stored-rooms listing.
pub fn db_room_line(room: &str, count: i64) -> (s: String)
    ensures
        s@ == db_room_line_spec(room@, count as int),
{
    let mut s = String::new();
    push_str(&mut s, "  ");
    push_str(&mut s, room);
    push_str(&mut s, " (");
    let n = signed_decimal(count);
    push_str(&mut s, n.as_str());
    push_str(&mut s, " messages)\n");
    proof {
        assert(s@ =~= db_room_line_spec(room@, count as int));
    }
    s
}

/// The strings of `v`, one after the other.
pub open spec fn concat(v: Seq<Seq<char>>) -> Seq<char>
    decreases v.len(),
{
    if v.len() == 0 {
        Seq::empty()
    } else {
        concat(v.drop_last()) + v.last()
    }
}

pub open spec fn views(v: Seq<String>) -> Seq<Seq<char>> {
    v.map_values(|s: String| s@)
}

/// The answer to `/rooms` about stored rooms, once they are looked up:
/// nothing when the lookup failed or found none, else a heading and the
/// lines.
pub fn db_rooms_reply(loaded: &Result<Vec<String>, String>) -> (r: Option<String>)
    ensures
        match loaded {
            Ok(lines) => if lines@.len() == 0 {
                r is None
            } else {
                r matches Some(s) && s@ == "--- Rooms with history ---\n"@ + concat(views(lines@))
            },
            Err(_) => r is None,
        },
{
    let lines = match loaded {
        Ok(lines) => lines,
        Err(_) => {
            return None;
        },
    };
    if lines.len() == 0 {
        return None;
    }
    let mut s = String::from_str("--- Rooms with history ---\n");
    let ghost head = s@;
    let mut i: usize = 0;
    while i < lines.len()
        invariant
            i <= lines@.len(),
            head == "--- Rooms with history ---\n"@,
            s@ == head + concat(views(lines@.take(i as int))),
        decreases lines@.len() - i,
    {
        push_str(&mut s, lines[i].as_str());
        proof {
            assert(views(lines@.take(i + 1)).drop_last() =~= views(lines@.take(i as int)));
        }
        i = i + 1;
    }
    proof {
        assert(lines@.take(lines@.len() as int) =~= lines@);
    }
    Some(s)
}

/// The replies to `/history` once the stored messages are loaded: a note
/// when there are none, else the messages and a closing line; on TCP a
/// failed lookup is reported, on WebSocket it is not.
pub fn history_replies(t: Transport, loaded: &Result<Vec<String>, String>) -> (r: Vec<String>)
    ensures
        match loaded {
            Ok(msgs) => if msgs@.len() == 0 {
                views(r@) == seq![crate::session::line_for(t, "No history found."@)]
            } else {
                views(r@) == views(msgs@) + seq![crate::session::line_for(t, "--- End of history ---"@)]
            },
            Err(e) => views(r@) == (if t == Transport::Tcp {
                seq!["History error: "@ + e@ + "\n"@]
            } else {
                Seq::<Seq<char>>::empty()
            }),
        },
{
    let mut r: Vec<String> = Vec::new();
    match loaded {
        Ok(msgs) => {
            if msgs.len() == 0 {
                let mut s = String::from_str("No history found.");
                if t == Transport::Tcp {
                    push_str(&mut s, "\n");
                }
                r.push(s);
                proof {
                    assert(views(r@) =~= seq![crate::session::line_for(t, "No history found."@)]);
                }
            } else {
                let mut i: usize = 0;
                while i < msgs.len()
                    invariant
                        i <= msgs@.len(),
                        views(r@) == views(msgs@.take(i as int)),
                    decreases msgs@.len() - i,
                {
                    let ghost before = views(r@);
                    let c = msgs[i].clone();
                    assert(c@ == msgs@[i as int]@);
                    r.push(c);
                    proof {
                        assert(views(r@) =~= before.push(msgs@[i as int]@));
                        assert(views(msgs@.take(i + 1)) =~= views(msgs@.take(i as int)).push(msgs@[i as int]@));
                        assert(views(r@) =~= views(msgs@.take(i + 1)));
                    }
                    i = i + 1;
                }
                let mut s = String::from_str("--- End of history ---");
                if t == Transport::Tcp {
                    push_str(&mut s, "\n");
                }
                let ghost before = views(r@);
                r.push(s);
                proof {
                    assert(msgs@.take(msgs@.len() as int) =~= msgs@);
                    assert(views(r@) =~= before + seq![crate::session::line_for(t, "--- End of history ---"@)]);
                }
            }
        },
        Err(e) => {
            if t == Transport::Tcp {
                let mut s = String::from_str("History error: ");
                push_str(&mut s, e.as_str());
                push_str(&mut s, "\n");
                r.push(s);
                proof {
                    assert(views(r@) =~= seq!["History error: "@ + e@ + "\n"@]);
                }
            } else {
                proof {
                    assert(views(r@) =~= Seq::<Seq<char>>::empty());
                }
            }
        },
    }
    r
}

} // verus!
