//! Client identifiers: random version-4 UUIDs, held as their 128-bit value.

use vstd::prelude::*;
use vstd::arithmetic::power2::pow2;
use vstd::string::StrSliceExecFns;
use crate::crypto::hex_digit_byte;
use crate::text::starts_with_spec;

verus! {

/// Hexadecimal digit number `k` (0 to 31, most significant first) of `id`.
pub open spec fn nibble(id: u128, k: int) -> int {
    (id as nat / pow2((4 * (31 - k)) as nat)) as int % 16
}

/// Which hexadecimal digit position of a UUID is written at text position `j`.
pub open spec fn digit_at(j: int) -> int {
    if j < 8 {
        j
    } else if j < 13 {
        j - 1
    } else if j < 18 {
        j - 2
    } else if j < 23 {
        j - 3
    } else {
        j - 4
    }
}

/// The hyphenated text of a UUID: its 32 lowercase hexadecimal digits with
/// hyphens after the 8th, 12th, 16th and 20th.
pub open spec fn uuid_text(id: u128) -> Seq<char> {
    Seq::new(
        36,
        |j: int|
            if j == 8 || j == 13 || j == 18 || j == 23 {
                '-'
            } else {
                hex_digit_byte(nibble(id, digit_at(j))) as char
            },
    )
}

/// `Uuid::new_v4`: a random version-4 UUID (its 13th digit is 4). Only that is
/// claimed of the value. The random source panics if the operating system
/// cannot supply randomness.
#[verifier::external_body]
pub(crate) fn random_client_id() -> (id: u128)
    ensures
        nibble(id, 12) == 4,
{
    uuid::Uuid::new_v4().as_u128()
}

/// `Uuid::to_string` (its `Display`): the hyphenated lowercase text.
#[verifier::external_body]
pub(crate) fn uuid_string(id: u128) -> (s: String)
    ensures
        s@ == uuid_text(id),
{
    uuid::Uuid::from_u128(id).to_string()
}

/// The first eight characters of a client's id, as shown in notices.
pub fn short_client_id(id: u128) -> (s: String)
    ensures
        s@ == uuid_text(id).take(8),
{
    let full = uuid_string(id);
    let part = full.as_str().substring_char(0, 8);
    String::from_str(part)
}

/// The first id, in the given order, whose text starts with `prefix`.
pub open spec fn first_with_prefix(ids: Seq<u128>, prefix: Seq<char>) -> Option<u128>
    decreases ids.len(),
{
    if ids.len() == 0 {
        None
    } else if starts_with_spec(uuid_text(ids[0]), prefix) {
        Some(ids[0])
    } else {
        first_with_prefix(ids.drop_first(), prefix)
    }
}

/// The first client, in the given order, whose id text starts with `prefix`.
pub fn find_client_by_prefix(ids: &Vec<u128>, prefix: &str) -> (res: Option<u128>)
    ensures
        res == first_with_prefix(ids@, prefix@),
{
    let mut i: usize = 0;
    proof {
        assert(ids@.skip(0) =~= ids@);
    }
    while i < ids.len()
        invariant
            i <= ids@.len(),
            first_with_prefix(ids@, prefix@) == first_with_prefix(ids@.skip(i as int), prefix@),
        decreases ids@.len() - i,
    {
        let text = uuid_string(ids[i]);
        proof {
            assert(ids@.skip(i as int)[0] == ids@[i as int]);
            assert(ids@.skip(i as int).drop_first() =~= ids@.skip(i + 1));
        }
        if crate::text::starts_with(text.as_str(), prefix) {
            return Some(ids[i]);
        }
        i = i + 1;
    }
    None
}

/// The text of an id is ASCII, so its first eight bytes are its first eight
/// characters and end on a character boundary.
pub proof fn lemma_uuid_text_short(id: u128)
    ensures
        crate::message::short_id_sliceable(uuid_text(id)),
        crate::message::short_id(uuid_text(id)) == uuid_text(id).take(8),
{
    let t = uuid_text(id);
    lemma_uuid_text_ascii(id);
    vstd::utf8::is_ascii_chars_encode_utf8(t);
    let b = vstd::utf8::encode_utf8(t);
    vstd::utf8::encode_utf8_valid_utf8(t);
    vstd::utf8::is_char_boundary_iff_not_is_continuation_byte(b, 8);
    let p = t.take(8);
    assert(vstd::utf8::is_ascii_chars(p));
    vstd::utf8::is_ascii_chars_encode_utf8(p);
    assert(vstd::utf8::encode_utf8(p) =~= b.take(8));
    vstd::utf8::encode_utf8_decode_utf8(p);
}

/// The text of an id is ASCII.
proof fn lemma_uuid_text_ascii(id: u128)
    ensures
        vstd::utf8::is_ascii_chars(uuid_text(id)),
{
    let t = uuid_text(id);
    assert forall|j: int| 0 <= j < t.len() implies '\0' <= #[trigger] t[j] <= '\u{7f}' by {
        if !(j == 8 || j == 13 || j == 18 || j == 23) {
            let v = nibble(id, digit_at(j));
            assert(0 <= v < 16);
        }
    }
}

/// For an ASCII text, starting with `p` byte for byte is starting with `p`
/// character for character.
proof fn lemma_ascii_starts_with(s: Seq<char>, p: Seq<char>)
    requires
        vstd::utf8::is_ascii_chars(s),
    ensures
        starts_with_spec(s, p) <==> (p.len() <= s.len() && s.take(p.len() as int) == p),
{
    let sb = vstd::utf8::encode_utf8(s);
    let pb = vstd::utf8::encode_utf8(p);
    vstd::utf8::is_ascii_chars_encode_utf8(s);
    if p.len() <= s.len() && s.take(p.len() as int) == p {
        let q = s.take(p.len() as int);
        assert(vstd::utf8::is_ascii_chars(q));
        vstd::utf8::is_ascii_chars_encode_utf8(q);
        assert(pb =~= sb.take(pb.len() as int));
    }
    if starts_with_spec(s, p) {
        let k = pb.len() as int;
        let q = s.take(k);
        assert(vstd::utf8::is_ascii_chars(q));
        vstd::utf8::is_ascii_chars_encode_utf8(q);
        assert(vstd::utf8::encode_utf8(q) =~= sb.take(k));
        vstd::utf8::encode_utf8_decode_utf8(q);
        vstd::utf8::encode_utf8_decode_utf8(p);
        assert(p == q);
    }
}

/// Law: a direct message goes to a client whose id text begins with the
/// prefix, character for character, and to the first such client in the
/// given order; when there is none, no id begins with the prefix.
pub proof fn lemma_first_with_prefix_finds(ids: Seq<u128>, p: Seq<char>)
    ensures
        match first_with_prefix(ids, p) {
            Some(x) => exists|j: int|
                {
                    &&& 0 <= j < ids.len()
                    &&& ids[j] == x
                    &&& p.len() <= uuid_text(x).len()
                    &&& uuid_text(x).take(p.len() as int) == p
                    &&& forall|i: int|
                        0 <= i < j ==> !(p.len() <= uuid_text(#[trigger] ids[i]).len() && uuid_text(
                            ids[i],
                        ).take(p.len() as int) == p)
                },
            None => forall|i: int|
                0 <= i < ids.len() ==> !(p.len() <= uuid_text(#[trigger] ids[i]).len() && uuid_text(
                    ids[i],
                ).take(p.len() as int) == p),
        },
    decreases ids.len(),
{
    if ids.len() == 0 {
    } else {
        lemma_uuid_text_ascii(ids[0]);
        lemma_ascii_starts_with(uuid_text(ids[0]), p);
        if starts_with_spec(uuid_text(ids[0]), p) {
            assert(ids[0] == ids[0]);
        } else {
            let rest = ids.drop_first();
            lemma_first_with_prefix_finds(rest, p);
            match first_with_prefix(rest, p) {
                Some(x) => {
                    let j = choose|j: int|
                        {
                            &&& 0 <= j < rest.len()
                            &&& rest[j] == x
                            &&& p.len() <= uuid_text(x).len()
                            &&& uuid_text(x).take(p.len() as int) == p
                            &&& forall|i: int|
                                0 <= i < j ==> !(p.len() <= uuid_text(#[trigger] rest[i]).len()
                                    && uuid_text(rest[i]).take(p.len() as int) == p)
                        };
                    assert(ids[j + 1] == x);
                    assert forall|i: int| 0 <= i < j + 1 implies !(p.len() <= uuid_text(
                        #[trigger] ids[i],
                    ).len() && uuid_text(ids[i]).take(p.len() as int) == p) by {
                        if i > 0 {
                            assert(ids[i] == rest[i - 1]);
                        }
                    }
                },
                None => {
                    assert forall|i: int| 0 <= i < ids.len() implies !(p.len() <= uuid_text(
                        #[trigger] ids[i],
                    ).len() && uuid_text(ids[i]).take(p.len() as int) == p) by {
                        if i > 0 {
                            assert(ids[i] == rest[i - 1]);
                        }
                    }
                },
            }
        }
    }
}

} // verus!
