//! The room registry: which clients are in which room, and each room's key.
//!
//! Both tables are `DashMap`s, as in the server that shares them between
//! tasks; here every change goes through `&mut`, so the registry sees no
//! change it did not make itself.

use vstd::prelude::*;
use std::collections::HashSet;
use dashmap::DashMap;
use crate::crypto::{hex_text, RoomKey, KEY_SIZE};
use crate::ids::{short_client_id, uuid_text};
use crate::message::{ChatMessage, MessageKind, is_clock_time};
use crate::text::{decimal, decimal_text, push_str};

verus! {

#[verifier::external_type_specification]
#[verifier::external_body]
#[verifier::reject_recursive_types(K)]
#[verifier::reject_recursive_types(V)]
#[verifier::reject_recursive_types(S)]
pub struct ExDashMap<K, V, S>(DashMap<K, V, S>);

/// Who is in each room, by room name, as the membership table holds it.
pub uninterp spec fn room_members(m: DashMap<String, HashSet<u128>>) -> Map<Seq<char>, Set<u128>>;

/// The key bytes of each room, by room name, as the key table holds it.
pub uninterp spec fn room_key_table(m: DashMap<String, RoomKey>) -> Map<Seq<char>, Seq<u8>>;

/// No room at all.
pub open spec fn no_rooms() -> Map<Seq<char>, Set<u128>> {
    Map::empty()
}

/// No key at all.
pub open spec fn no_keys() -> Map<Seq<char>, Seq<u8>> {
    Map::empty()
}

/// `DashMap::new` for the membership table: empty.
#[verifier::external_body]
fn members_new() -> (res: DashMap<String, HashSet<u128>>)
    ensures
        room_members(res) == no_rooms(),
{
    DashMap::new()
}

/// `DashMap::new` for the key table: empty.
#[verifier::external_body]
fn keys_new() -> (res: DashMap<String, RoomKey>)
    ensures
        room_key_table(res) == no_keys(),
{
    DashMap::new()
}

/// `entry(room).or_insert_with(Default::default).insert(id)`: the room gets
/// the client, and is created empty first if it did not exist.
#[verifier::external_body]
fn members_insert(m: &mut DashMap<String, HashSet<u128>>, room: &str, id: u128)
    ensures
        room_members(*final(m)) == room_members(*old(m)).insert(
            room@,
            (if room_members(*old(m)).contains_key(room@) {
                room_members(*old(m))[room@]
            } else {
                Set::empty()
            }).insert(id),
        ),
{
    m.entry(room.to_string()).or_insert_with(Default::default).insert(id);
}

/// `get_mut(room)` then `remove(&id)`: the client leaves the room if the room
/// exists; nothing else changes.
#[verifier::external_body]
fn members_remove(m: &mut DashMap<String, HashSet<u128>>, room: &str, id: u128)
    ensures
        room_members(*final(m)) == (if room_members(*old(m)).contains_key(room@) {
            room_members(*old(m)).insert(room@, room_members(*old(m))[room@].remove(id))
        } else {
            room_members(*old(m))
        }),
{
    if let Some(mut members) = m.get_mut(room) {
        members.remove(&id);
    }
}

/// `get(room)` then the room's members, each once, in the set's order.
#[verifier::external_body]
fn members_of(m: &DashMap<String, HashSet<u128>>, room: &str) -> (res: Option<Vec<u128>>)
    ensures
        res is Some <==> room_members(*m).contains_key(room@),
        res matches Some(v) ==> v@.no_duplicates() && v@.to_set() == room_members(*m)[room@],
{
    match m.get(room) {
        Some(members) => Some(members.iter().copied().collect()),
        None => None,
    }
}

/// The names of all rooms, each once, in the map's order.
#[verifier::external_body]
fn member_table_names(m: &DashMap<String, HashSet<u128>>) -> (res: Vec<String>)
    ensures
        forall|i: int, j: int|
            0 <= i < j < res@.len() ==> (#[trigger] res@[i])@ != (#[trigger] res@[j])@,
        forall|i: int| 0 <= i < res@.len() ==> room_members(*m).contains_key((#[trigger] res@[i])@),
        forall|r: Seq<char>|
            room_members(*m).contains_key(r) ==> exists|i: int|
                0 <= i < res@.len() && (#[trigger] res@[i])@ == r,
{
    m.iter().map(|entry| entry.key().clone()).collect()
}

/// `get(room)` on the key table, cloning the key that is there.
#[verifier::external_body]
fn key_get(m: &DashMap<String, RoomKey>, room: &str) -> (res: Option<RoomKey>)
    ensures
        res is Some <==> room_key_table(*m).contains_key(room@),
        res matches Some(k) ==> k@ == room_key_table(*m)[room@],
{
    match m.get(room) {
        Some(key) => Some(key.clone()),
        None => None,
    }
}

/// `insert(room, key)` on the key table.
#[verifier::external_body]
fn key_put(m: &mut DashMap<String, RoomKey>, room: &str, key: RoomKey)
    ensures
        room_key_table(*final(m)) == room_key_table(*old(m)).insert(room@, key@),
{
    m.insert(room.to_string(), key);
}

/// One message to hand to one client, if that client is still connected.
pub struct Delivery {
    pub to: u128,
    pub text: String,
}

impl View for Delivery {
    type V = (u128, Seq<char>);

    open spec fn view(&self) -> (u128, Seq<char>) {
        (self.to, self.text@)
    }
}

/// The recipients and texts of a list of deliveries.
pub open spec fn pairs(d: Seq<Delivery>) -> Seq<(u128, Seq<char>)> {
    d.map_values(|x: Delivery| x@)
}

/// `d` delivers `text` once to every member other than `exclude`, and to
/// nobody else, in some order.
pub open spec fn is_broadcast(
    d: Seq<(u128, Seq<char>)>,
    members: Set<u128>,
    exclude: Option<u128>,
    text: Seq<char>,
) -> bool {
    &&& forall|i: int|
        0 <= i < d.len() ==> (#[trigger] d[i]).1 == text && members.contains(d[i].0) && exclude
            != Some(d[i].0)
    &&& forall|i: int, j: int| 0 <= i < j < d.len() ==> (#[trigger] d[i]).0 != (#[trigger] d[j]).0
    &&& forall|m: u128|
        members.contains(m) && exclude != Some(m) ==> exists|i: int|
            0 <= i < d.len() && (#[trigger] d[i]).0 == m
}

/// A broadcast to `room`: to its members as [`is_broadcast`] says, to nobody
/// when the room does not exist.
pub open spec fn room_broadcast(
    d: Seq<(u128, Seq<char>)>,
    members: Map<Seq<char>, Set<u128>>,
    room: Seq<char>,
    exclude: Option<u128>,
    text: Seq<char>,
) -> bool {
    if members.contains_key(room) {
        is_broadcast(d, members[room], exclude, text)
    } else {
        d.len() == 0
    }
}

/// Membership after `id` leaves `room` (if the room exists).
pub open spec fn without_member(m: Map<Seq<char>, Set<u128>>, room: Seq<char>, id: u128) -> Map<
    Seq<char>,
    Set<u128>,
> {
    if m.contains_key(room) {
        m.insert(room, m[room].remove(id))
    } else {
        m
    }
}

/// Membership after `id` enters `room` (created if missing).
pub open spec fn with_member(m: Map<Seq<char>, Set<u128>>, room: Seq<char>, id: u128) -> Map<
    Seq<char>,
    Set<u128>,
> {
    m.insert(
        room,
        (if m.contains_key(room) {
            m[room]
        } else {
            Set::empty()
        }).insert(id),
    )
}

/// `" member"` or `" members"` for a count.
pub open spec fn members_word(n: nat) -> Seq<char> {
    if n == 1 {
        " member"@
    } else {
        " members"@
    }
}

/// The answer to a client that joined `room`.
pub open spec fn join_response(room: Seq<char>, count: nat, key_hex: Seq<char>) -> Seq<char> {
    "Joined room '"@ + room + "' ("@ + decimal_text(count) + members_word(count) + ")\nROOM_KEY:"@
        + key_hex + "\n"@
}

/// The notice that a client joined a room.
pub open spec fn joined_notice(id: u128, room: Seq<char>) -> Seq<char> {
    "["@ + uuid_text(id).take(8) + "] joined room '"@ + room + "'"@
}

/// The notice that hands a room's key to its members.
pub open spec fn key_notice(room: Seq<char>, key_hex: Seq<char>) -> Seq<char> {
    "ROOM_KEY:"@ + room + ":"@ + key_hex
}

/// One line of the room listing.
pub open spec fn room_line(name: Seq<char>, count: nat) -> Seq<char> {
    "  "@ + name + " ("@ + decimal_text(count) + members_word(count) + ")\n"@
}

/// The lines for a list of rooms and their member counts, in that order.
pub open spec fn room_lines(entries: Seq<(Seq<char>, nat)>) -> Seq<char>
    decreases entries.len(),
{
    if entries.len() == 0 {
        Seq::empty()
    } else {
        room_lines(entries.drop_last()) + room_line(entries.last().0, entries.last().1)
    }
}

/// `entries` lists every room of `m` once, with its member count.
pub open spec fn lists_rooms(entries: Seq<(Seq<char>, nat)>, m: Map<Seq<char>, Set<u128>>) -> bool {
    &&& forall|i: int, j: int|
        0 <= i < j < entries.len() ==> (#[trigger] entries[i]).0 != (#[trigger] entries[j]).0
    &&& forall|i: int|
        0 <= i < entries.len() ==> m.contains_key((#[trigger] entries[i]).0) && entries[i].1
            == m[entries[i].0].len()
    &&& forall|r: Seq<char>|
        m.contains_key(r) ==> exists|i: int| 0 <= i < entries.len() && (#[trigger] entries[i]).0 == r
}

/// What joining a room produced: the answer for the joining client, the room
/// key it now uses, and the two notices with their deliveries.
pub struct JoinOutcome {
    pub response: String,
    pub key: RoomKey,
    pub notice: ChatMessage,
    pub notice_deliveries: Vec<Delivery>,
    pub key_notice: ChatMessage,
    pub key_deliveries: Vec<Delivery>,
}

/// Rooms, their members, and their keys.
pub struct RoomRegistry {
    rooms: DashMap<String, HashSet<u128>>,
    keys: DashMap<String, RoomKey>,
}

impl RoomRegistry {
    /// Members of each room.
    pub closed spec fn members(&self) -> Map<Seq<char>, Set<u128>> {
        room_members(self.rooms)
    }

    /// Key bytes of each room.
    pub closed spec fn keys(&self) -> Map<Seq<char>, Seq<u8>> {
        room_key_table(self.keys)
    }

    /// Every room's member set is finite and every key has [`KEY_SIZE`] bytes.
    pub open spec fn wf(&self) -> bool {
        &&& forall|r: Seq<char>|
            #[trigger] self.members().contains_key(r) ==> self.members()[r].finite()
        &&& forall|r: Seq<char>| #[trigger] self.keys().contains_key(r) ==> self.keys()[r].len() == KEY_SIZE
    }

    /// An empty registry.
    pub fn new() -> (reg: RoomRegistry)
        ensures
            reg.wf(),
            reg.members() == Map::<Seq<char>, Set<u128>>::empty(),
            reg.keys() == Map::<Seq<char>, Seq<u8>>::empty(),
    {
        RoomRegistry { rooms: members_new(), keys: keys_new() }
    }

    /// Puts a client in a room, creating the room if needed.
    pub fn add_member(&mut self, room: &str, id: u128)
        requires
            old(self).wf(),
        ensures
            final(self).wf(),
            final(self).members() == with_member(old(self).members(), room@, id),
            final(self).keys() == old(self).keys(),
    {
        members_insert(&mut self.rooms, room, id);
        proof {
            assert forall|r: Seq<char>| #[trigger] self.members().contains_key(r) implies self.members()[r].finite() by {
                if r != room@ {
                    assert(old(self).members().contains_key(r));
                } else if old(self).members().contains_key(r) {
                    assert(old(self).members()[r].finite());
                    assert(self.members()[r] == old(self).members()[r].insert(id));
                } else {
                    assert(Set::<u128>::empty().finite());
                    assert(self.members()[r] == Set::<u128>::empty().insert(id));
                }
            }
            assert(self.keys() == old(self).keys());
        }
    }

    /// The room's key, generated and stored first if the room has none.
    pub fn key_for(&mut self, room: &str) -> (key: RoomKey)
        requires
            old(self).wf(),
        ensures
            final(self).wf(),
            final(self).members() == old(self).members(),
            old(self).keys().contains_key(room@) ==> key@ == old(self).keys()[room@]
                && final(self).keys() == old(self).keys(),
            !old(self).keys().contains_key(room@)
                ==> final(self).keys() == old(self).keys().insert(room@, key@),
            key@.len() == KEY_SIZE,
    {
        match key_get(&self.keys, room) {
            Some(key) => {
                proof {
                    assert(self.wf());
                }
                key
            },
            None => {
                let key = RoomKey::generate();
                let stored = RoomKey { bytes: key.bytes.clone() };
                proof {
                    assert(stored.bytes@ =~= key.bytes@);
                }
                key_put(&mut self.keys, room, stored);
                proof {
                    assert forall|r: Seq<char>| #[trigger] self.keys().contains_key(r) implies self.keys()[r].len() == KEY_SIZE by {
                        if r != room@ {
                            assert(old(self).keys().contains_key(r));
                        }
                    }
                    assert(self.members() == old(self).members());
                }
                key
            },
        }
    }

    /// Takes a client out of a room (if the room exists).
    pub fn leave_room(&mut self, id: u128, room: &str)
        requires
            old(self).wf(),
        ensures
            final(self).wf(),
            final(self).members() == without_member(old(self).members(), room@, id),
            final(self).keys() == old(self).keys(),
    {
        members_remove(&mut self.rooms, room, id);
        proof {
            assert forall|r: Seq<char>| #[trigger] self.members().contains_key(r) implies self.members()[r].finite() by {
                assert(old(self).members().contains_key(r));
                assert(old(self).members()[r].finite());
            }
            assert(self.keys() == old(self).keys());
        }
    }

    /// Takes a client out of every room; rooms stay even when they empty.
    pub fn remove_everywhere(&mut self, id: u128)
        requires
            old(self).wf(),
        ensures
            final(self).wf(),
            final(self).members().dom() == old(self).members().dom(),
            forall|r: Seq<char>|
                #[trigger] final(self).members().contains_key(r) ==> final(self).members()[r]
                    == old(self).members()[r].remove(id),
            final(self).keys() == old(self).keys(),
    {
        let names = member_table_names(&self.rooms);
        let ghost start = self.members();
        let mut i: usize = 0;
        while i < names.len()
            invariant
                self.wf(),
                self.keys() == old(self).keys(),
                start == old(self).members(),
                i <= names@.len(),
                self.members().dom() == start.dom(),
                forall|a: int, b: int|
                    0 <= a < b < names@.len() ==> (#[trigger] names@[a])@ != (#[trigger] names@[b])@,
                forall|a: int| 0 <= a < names@.len() ==> start.contains_key((#[trigger] names@[a])@),
                forall|r: Seq<char>|
                    start.contains_key(r) ==> exists|a: int|
                        0 <= a < names@.len() && (#[trigger] names@[a])@ == r,
                forall|r: Seq<char>|
                    #[trigger] self.members().contains_key(r) ==> (if exists|a: int|
                        0 <= a < i && (#[trigger] names@[a])@ == r {
                        self.members()[r] == start[r].remove(id)
                    } else {
                        self.members()[r] == start[r]
                    }),
            decreases names@.len() - i,
        {
            let ghost before = self.members();
            members_remove(&mut self.rooms, names[i].as_str(), id);
            proof {
                let n = names@[i as int]@;
                assert(self.members().dom() =~= start.dom());
                assert forall|r: Seq<char>| #[trigger] self.members().contains_key(r) implies (if exists|a: int|
                    0 <= a < i + 1 && (#[trigger] names@[a])@ == r {
                    self.members()[r] == start[r].remove(id)
                } else {
                    self.members()[r] == start[r]
                }) by {
                    if r == n {
                        assert(names@[i as int]@ == r);
                        if exists|a: int| 0 <= a < i && (#[trigger] names@[a])@ == r {
                            let a = choose|a: int| 0 <= a < i && (#[trigger] names@[a])@ == r;
                            assert(false);
                        }
                        assert(before[r].remove(id).remove(id) =~= before[r].remove(id));
                        assert(self.members()[r] =~= start[r].remove(id));
                    } else {
                        if exists|a: int| 0 <= a < i + 1 && (#[trigger] names@[a])@ == r {
                            let a = choose|a: int| 0 <= a < i + 1 && (#[trigger] names@[a])@ == r;
                            assert(a < i);
                        }
                    }
                }
            }
            i = i + 1;
        }
        proof {
            assert forall|r: Seq<char>| #[trigger] self.members().contains_key(r) implies self.members()[r]
                == start[r].remove(id) by {
                assert(start.contains_key(r));
            }
        }
    }

    /// How many clients are in a room (0 for a room that does not exist).
    pub fn member_count(&self, room: &str) -> (n: usize)
        requires
            self.wf(),
        ensures
            self.members().contains_key(room@) ==> n == self.members()[room@].len(),
            !self.members().contains_key(room@) ==> n == 0,
    {
        match members_of(&self.rooms, room) {
            Some(v) => {
                proof {
                    v@.unique_seq_to_set();
                }
                v.len()
            },
            None => 0,
        }
    }

    /// Deliveries of a message's text to every member of a room except
    /// `exclude` (none when the room does not exist).
    pub fn broadcast_to_room(&self, room: &str, msg: &ChatMessage, exclude: Option<u128>) -> (d: Vec<
        Delivery,
    >)
        requires
            self.members().contains_key(room@) ==> msg.displayable(),
        ensures
            room_broadcast(pairs(d@), self.members(), room@, exclude, msg.display_spec()),
    {
        let mut out: Vec<Delivery> = Vec::new();
        let ids = match members_of(&self.rooms, room) {
            Some(v) => v,
            None => {
                return out;
            },
        };
        let text = msg.display();
        let ghost members = self.members()[room@];
        let mut i: usize = 0;
        while i < ids.len()
            invariant
                i <= ids@.len(),
                ids@.no_duplicates(),
                ids@.to_set() == members,
                text@ == msg.display_spec(),
                forall|k: int|
                    0 <= k < out@.len() ==> (#[trigger] out@[k]).text@ == text@ && exists|j: int|
                        0 <= j < i && ids@[j] == out@[k].to,
                forall|k: int| 0 <= k < out@.len() ==> exclude != Some((#[trigger] out@[k]).to),
                forall|k: int, l: int|
                    0 <= k < l < out@.len() ==> (#[trigger] out@[k]).to != (#[trigger] out@[l]).to,
                forall|j: int|
                    0 <= j < i && exclude != Some(#[trigger] ids@[j]) ==> exists|k: int|
                        0 <= k < out@.len() && (#[trigger] out@[k]).to == ids@[j],
            decreases ids@.len() - i,
        {
            let m = ids[i];
            let skip = match exclude {
                Some(x) => x == m,
                None => false,
            };
            let ghost old_out = out@;
            if !skip {
                proof {
                    assert forall|k: int| 0 <= k < out@.len() implies (#[trigger] out@[k]).to != m by {
                        let j = choose|j: int| 0 <= j < i && ids@[j] == out@[k].to;
                        assert(ids@[j] != ids@[i as int]);
                    }
                }
                out.push(Delivery { to: m, text: text.clone() });
                proof {
                    assert(out@[out@.len() - 1].to == ids@[i as int]);
                }
            }
            proof {
                assert forall|j: int|
                    0 <= j < i + 1 && exclude != Some(#[trigger] ids@[j]) implies exists|k: int|
                        0 <= k < out@.len() && (#[trigger] out@[k]).to == ids@[j] by {
                    if j == i {
                        assert(out@[out@.len() - 1].to == ids@[j]);
                    } else {
                        let k = choose|k: int| 0 <= k < old_out.len() && (#[trigger] old_out[k]).to == ids@[j];
                        assert(out@[k] == old_out[k]);
                    }
                }
                assert forall|k: int| 0 <= k < out@.len() implies (#[trigger] out@[k]).text@ == text@ && exists|j: int|
                        0 <= j < i + 1 && ids@[j] == out@[k].to by {
                    if k < old_out.len() {
                        assert(out@[k] == old_out[k]);
                        let j = choose|j: int| 0 <= j < i && ids@[j] == old_out[k].to;
                        assert(ids@[j] == out@[k].to);
                    } else {
                        assert(ids@[i as int] == out@[k].to);
                    }
                }
            }
            i = i + 1;
        }
        proof {
            let p = pairs(out@);
            assert forall|k: int| 0 <= k < p.len() implies (#[trigger] p[k]).1 == msg.display_spec()
                && members.contains(p[k].0) && exclude != Some(p[k].0) by {
                assert(p[k] == (out@[k].to, out@[k].text@));
                let j = choose|j: int| 0 <= j < i && ids@[j] == out@[k].to;
                assert(ids@.to_set().contains(ids@[j]));
            }
            assert forall|a: int, b: int| 0 <= a < b < p.len() implies (#[trigger] p[a]).0 != (
            #[trigger] p[b]).0 by {
                assert(p[a].0 == out@[a].to);
                assert(p[b].0 == out@[b].to);
            }
            assert forall|m: u128| members.contains(m) && exclude != Some(m) implies exists|k: int|
                0 <= k < p.len() && (#[trigger] p[k]).0 == m by {
                assert(ids@.to_set().contains(m));
                let j = choose|j: int| 0 <= j < ids@.len() && ids@[j] == m;
                assert(exclude != Some(ids@[j]));
                let k = choose|k: int| 0 <= k < out@.len() && (#[trigger] out@[k]).to == ids@[j];
                assert(p[k].0 == m);
            }
        }
        out
    }

    /// Moves a client from `old_room` to `room_name` and hands out the room
    /// key: the other members hear that the client joined, every member
    /// (the client too) receives the key, and the client gets its answer.
    pub fn join_room(&mut self, client_id: u128, room_name: &str, old_room: &str) -> (out: JoinOutcome)
        requires
            old(self).wf(),
        ensures
            final(self).wf(),
            final(self).members() == with_member(
                without_member(old(self).members(), old_room@, client_id),
                room_name@,
                client_id,
            ),
            old(self).keys().contains_key(room_name@) ==> out.key@ == old(self).keys()[room_name@]
                && final(self).keys() == old(self).keys(),
            !old(self).keys().contains_key(room_name@)
                ==> final(self).keys() == old(self).keys().insert(room_name@, out.key@),
            out.key@.len() == KEY_SIZE,
            out.response@ == join_response(
                room_name@,
                final(self).members()[room_name@].len(),
                hex_text(out.key@),
            ),
            out.notice.kind == MessageKind::System,
            out.notice.content@ == joined_notice(client_id, room_name@),
            out.notice.sender_id@ == "server"@,
            is_clock_time(out.notice.timestamp@),
            is_broadcast(
                pairs(out.notice_deliveries@),
                final(self).members()[room_name@],
                Some(client_id),
                out.notice.display_spec(),
            ),
            out.key_notice.kind == MessageKind::System,
            out.key_notice.content@ == key_notice(room_name@, hex_text(out.key@)),
            out.key_notice.sender_id@ == "server"@,
            is_clock_time(out.key_notice.timestamp@),
            is_broadcast(
                pairs(out.key_deliveries@),
                final(self).members()[room_name@],
                None,
                out.key_notice.display_spec(),
            ),
    {
        self.leave_room(client_id, old_room);
        self.add_member(room_name, client_id);
        let key = self.key_for(room_name);
        let count = self.member_count(room_name);
        let short = short_client_id(client_id);
        let mut text = String::new();
        push_str(&mut text, "[");
        push_str(&mut text, short.as_str());
        push_str(&mut text, "] joined room '");
        push_str(&mut text, room_name);
        push_str(&mut text, "'");
        proof {
            assert(text@ =~= joined_notice(client_id, room_name@));
        }
        let notice = ChatMessage::system(text.as_str());
        let notice_deliveries = self.broadcast_to_room(room_name, &notice, Some(client_id));
        let hex = key.to_hex();
        let mut key_text = String::new();
        push_str(&mut key_text, "ROOM_KEY:");
        push_str(&mut key_text, room_name);
        push_str(&mut key_text, ":");
        push_str(&mut key_text, hex.as_str());
        proof {
            assert(key_text@ =~= key_notice(room_name@, hex_text(key@)));
        }
        let key_notice = ChatMessage::system(key_text.as_str());
        let key_deliveries = self.broadcast_to_room(room_name, &key_notice, None);
        let mut response = String::new();
        push_str(&mut response, "Joined room '");
        push_str(&mut response, room_name);
        push_str(&mut response, "' (");
        let count_text = decimal(count);
        push_str(&mut response, count_text.as_str());
        if count == 1 {
            push_str(&mut response, " member");
        } else {
            push_str(&mut response, " members");
        }
        push_str(&mut response, ")\nROOM_KEY:");
        push_str(&mut response, hex.as_str());
        push_str(&mut response, "\n");
        proof {
            assert(response@ =~= join_response(
                room_name@,
                self.members()[room_name@].len(),
                hex_text(key@),
            ));
        }
        JoinOutcome { response, key, notice, notice_deliveries, key_notice, key_deliveries }
    }

    /// The listing of live rooms, one line per room with its member count,
    /// in the table's order.
    pub fn list_rooms(&self) -> (s: String)
        requires
            self.wf(),
        ensures
            exists|entries: Seq<(Seq<char>, nat)>|
                lists_rooms(entries, self.members()) && s@ == "--- Active rooms ---\n"@
                    + room_lines(entries),
    {
        let names = member_table_names(&self.rooms);
        let mut s = String::new();
        push_str(&mut s, "--- Active rooms ---\n");
        let ghost header = s@;
        let ghost mut entries: Seq<(Seq<char>, nat)> = Seq::empty();
        let mut i: usize = 0;
        while i < names.len()
            invariant
                self.wf(),
                header == "--- Active rooms ---\n"@,
                i <= names@.len(),
                entries.len() == i,
                forall|k: int|
                    0 <= k < i ==> #[trigger] entries[k] == ((names@[k])@, self.members()[(
                    names@[k])@].len()),
                forall|k: int| 0 <= k < names@.len() ==> self.members().contains_key((#[trigger] names@[k])@),
                s@ == header + room_lines(entries),
            decreases names@.len() - i,
        {
            let name = names[i].as_str();
            let count = self.member_count(name);
            let ghost before = s@;
            push_str(&mut s, "  ");
            push_str(&mut s, name);
            push_str(&mut s, " (");
            let count_text = decimal(count);
            push_str(&mut s, count_text.as_str());
            if count == 1 {
                push_str(&mut s, " member");
            } else {
                push_str(&mut s, " members");
            }
            push_str(&mut s, ")\n");
            proof {
                let e = (name@, count as nat);
                let old_entries = entries;
                entries = entries.push(e);
                assert(entries.drop_last() =~= old_entries);
                assert(s@ =~= header + room_lines(entries));
            }
            i = i + 1;
        }
        proof {
            assert(lists_rooms(entries, self.members())) by {
                assert forall|r: Seq<char>| self.members().contains_key(r) implies exists|k: int|
                    0 <= k < entries.len() && (#[trigger] entries[k]).0 == r by {
                    let k = choose|k: int| 0 <= k < names@.len() && (#[trigger] names@[k])@ == r;
                    assert(entries[k].0 == r);
                }
                assert forall|a: int, b: int|
                    0 <= a < b < entries.len() implies (#[trigger] entries[a]).0 != (#[trigger] entries[b]).0 by {
                    assert(names@[a]@ != names@[b]@);
                }
            }
        }
        s
    }
}

/// Law: after joining, the client is in the room it joined, out of the room
/// it left (when that is another room), and every other room is as before.
pub proof fn lemma_join_moves_client(
    m: Map<Seq<char>, Set<u128>>,
    id: u128,
    room: Seq<char>,
    old_room: Seq<char>,
)
    ensures
        with_member(without_member(m, old_room, id), room, id).contains_key(room),
        with_member(without_member(m, old_room, id), room, id)[room].contains(id),
        old_room != room && m.contains_key(old_room) ==> !with_member(
            without_member(m, old_room, id),
            room,
            id,
        )[old_room].contains(id),
        forall|r: Seq<char>|
            r != room && r != old_room ==> with_member(without_member(m, old_room, id), room, id).contains_key(r)
                == m.contains_key(r) && (m.contains_key(r) ==> #[trigger] with_member(
                without_member(m, old_room, id),
                room,
                id,
            )[r] == m[r]),
{
}

/// Law: a client that leaves a room is no longer in it.
pub proof fn lemma_leave_removes_client(m: Map<Seq<char>, Set<u128>>, room: Seq<char>, id: u128)
    ensures
        m.contains_key(room) ==> !without_member(m, room, id)[room].contains(id),
        without_member(m, room, id).dom() == m.dom(),
{
    assert(without_member(m, room, id).dom() =~= m.dom());
}

} // verus!
