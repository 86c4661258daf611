//! Standard Base64 (alphabet `A-Z a-z 0-9 + /`, `=` padding).
//!
//! The decoder is deliberately lenient in the way the chat protocol has
//! always been: it drops every trailing `=`, walks the rest in groups of
//! four, and silently skips a third or fourth symbol that is not in the
//! alphabet.

use vstd::prelude::*;
use crate::text::push_char;
use crate::crypto::CryptoError;
use vstd::string::StringSliceAdditionalSpecFns;
use vstd::utf8::{encode_utf8, is_ascii_chars};

verus! {

/// The byte of the Base64 alphabet for a six-bit value.
pub open spec fn b64_alphabet(v: int) -> u8 {
    if v < 26 {
        (v + 65) as u8
    } else if v < 52 {
        (v + 71) as u8
    } else if v < 62 {
        (v - 4) as u8
    } else if v == 62 {
        43
    } else {
        47
    }
}

/// The Base64 symbol for a six-bit value.
pub open spec fn b64_symbol(v: int) -> char {
    b64_alphabet(v) as char
}

/// The four symbols (with padding) that encode one group of one to three bytes.
pub open spec fn b64_group(d: Seq<u8>) -> Seq<char>
    recommends
        1 <= d.len(),
{
    let b0 = d[0] as int;
    let b1: int = if d.len() > 1 { d[1] as int } else { 0 };
    let b2: int = if d.len() > 2 { d[2] as int } else { 0 };
    seq![
        b64_symbol(b0 / 4),
        b64_symbol((b0 % 4) * 16 + b1 / 16),
        if d.len() > 1 { b64_symbol((b1 % 16) * 4 + b2 / 64) } else { '=' },
        if d.len() > 2 { b64_symbol(b2 % 64) } else { '=' },
    ]
}

/// Base64 text of a byte sequence: one padded group of four symbols for
/// every three bytes (or fewer, at the end).
pub open spec fn b64_encode_spec(d: Seq<u8>) -> Seq<char>
    decreases d.len(),
{
    if d.len() == 0 {
        seq![]
    } else if d.len() <= 3 {
        b64_group(d)
    } else {
        b64_group(d.take(3)) + b64_encode_spec(d.skip(3))
    }
}

fn b64_symbol_exec(v: u8) -> (c: char)
    requires
        v < 64,
    ensures
        c == b64_symbol(v as int),
{
    let b: u8 = if v < 26 {
        v + 65
    } else if v < 52 {
        v + 71
    } else if v < 62 {
        v - 4
    } else if v == 62 {
        43
    } else {
        47
    };
    b as char
}

/// Encodes bytes as padded standard Base64.
pub fn base64_encode(data: &[u8]) -> (res: String)
    ensures
        res@ == b64_encode_spec(data@),
{
    let mut result = String::new();
    let len = data.len();
    let mut i: usize = 0;
    proof {
        assert(data@.skip(0) =~= data@);
        assert(result@ + b64_encode_spec(data@) =~= b64_encode_spec(data@));
    }
    while i < len
        invariant
            len == data@.len(),
            i <= len,
            b64_encode_spec(data@) == result@ + b64_encode_spec(data@.skip(i as int)),
        decreases len - i,
    {
        let rest = Ghost(data@.skip(i as int));
        let b0 = data[i];
        let b1: u8 = if len - i > 1 { data[i + 1] } else { 0 };
        let b2: u8 = if len - i > 2 { data[i + 2] } else { 0 };
        let ghost before = result@;
        push_char(&mut result, b64_symbol_exec(b0 / 4));
        push_char(&mut result, b64_symbol_exec((b0 % 4) * 16 + b1 / 16));
        if len - i > 1 {
            push_char(&mut result, b64_symbol_exec((b1 % 16) * 4 + b2 / 64));
        } else {
            push_char(&mut result, '=');
        }
        if len - i > 2 {
            push_char(&mut result, b64_symbol_exec(b2 % 64));
        } else {
            push_char(&mut result, '=');
        }
        proof {
            let r = rest@;
            if r.len() <= 3 {
                assert(result@ =~= before + b64_group(r));
                assert(data@.skip(len as int) =~= Seq::<u8>::empty());
            } else {
                assert(result@ =~= before + b64_group(r.take(3)));
                assert(r.skip(3) =~= data@.skip(i + 3));
            }
        }
        i = if len - i >= 3 { i + 3 } else { len };
    }
    proof {
        assert(data@.skip(len as int) =~= Seq::<u8>::empty());
        assert(result@ + Seq::<char>::empty() =~= result@);
    }
    result
}


/// Drops every trailing `=` byte.
pub open spec fn trim_padding(b: Seq<u8>) -> Seq<u8>
    decreases b.len(),
{
    if b.len() > 0 && b.last() == 61 {
        trim_padding(b.drop_last())
    } else {
        b
    }
}

/// Value of a Base64 symbol in the decoding table, or 255 for a byte below
/// 128 that is not in the alphabet. The table has 128 entries.
pub open spec fn b64_value(c: u8) -> u8 {
    if 65 <= c <= 90 {
        (c - 65) as u8
    } else if 97 <= c <= 122 {
        (c - 71) as u8
    } else if 48 <= c <= 57 {
        (c + 4) as u8
    } else if c == 43 {
        62
    } else if c == 47 {
        63
    } else {
        255
    }
}

/// The bytes after the first group of four.
pub open spec fn after_group(b: Seq<u8>) -> Seq<u8> {
    if b.len() > 4 {
        b.skip(4)
    } else {
        Seq::empty()
    }
}

/// The bytes decoded from the first group of `b` (which has at least two
/// symbols, both in the alphabet): the first byte always, the second when a
/// third symbol is present and in the alphabet, the third when a fourth
/// symbol is present and in the alphabet. A fourth symbol combines with a
/// third one that is not in the alphabet as if that one were 255.
pub open spec fn b64_group_bytes(b: Seq<u8>) -> Seq<u8>
    recommends
        b.len() >= 2,
{
    let v0 = b64_value(b[0]) as int;
    let v1 = b64_value(b[1]) as int;
    let v2: int = if b.len() > 2 { b64_value(b[2]) as int } else { 0 };
    let v3: int = if b.len() > 3 { b64_value(b[3]) as int } else { 0 };
    seq![((v0 % 64) * 4 + v1 / 16) as u8] + (if b.len() > 2 && v2 != 255 {
        seq![((v1 % 16) * 16 + v2 / 4) as u8]
    } else {
        Seq::empty()
    }) + (if b.len() > 3 && v3 != 255 {
        seq![((v2 % 4) * 64 + v3) as u8]
    } else {
        Seq::empty()
    })
}

/// Decoding of padding-free Base64 bytes: `None` when the first or second
/// symbol of some group (read before any later group) is not in the
/// alphabet; a lone last symbol is ignored.
pub open spec fn b64_decode_spec(b: Seq<u8>) -> Option<Seq<u8>>
    decreases b.len(),
{
    if b.len() < 2 {
        Some(Seq::empty())
    } else if b64_value(b[0]) == 255 || b64_value(b[1]) == 255 {
        None
    } else {
        match b64_decode_spec(after_group(b)) {
            Some(rest) => Some(b64_group_bytes(b) + rest),
            None => None,
        }
    }
}

/// True when decoding `b` only looks up bytes below 128, the size of the
/// decoding table: the bytes that the decoder reads before it stops all are.
pub open spec fn b64_lookups_in_table(b: Seq<u8>) -> bool
    decreases b.len(),
{
    if b.len() < 2 {
        true
    } else if b[0] >= 128 || b[1] >= 128 {
        false
    } else if b64_value(b[0]) == 255 || b64_value(b[1]) == 255 {
        true
    } else {
        &&& (b.len() > 2 ==> b[2] < 128)
        &&& (b.len() > 3 ==> b[3] < 128)
        &&& b64_lookups_in_table(after_group(b))
    }
}

fn b64_value_exec(c: u8) -> (v: u8)
    requires
        c < 128,
    ensures
        v == b64_value(c),
{
    if 65 <= c && c <= 90 {
        c - 65
    } else if 97 <= c && c <= 122 {
        c - 71
    } else if 48 <= c && c <= 57 {
        c + 4
    } else if c == 43 {
        62
    } else if c == 47 {
        63
    } else {
        255
    }
}

proof fn lemma_trim_step(b: Seq<u8>, n: int)
    requires
        0 < n <= b.len(),
        b[n - 1] == 61,
    ensures
        trim_padding(b.take(n)) == trim_padding(b.take(n - 1)),
{
    assert(b.take(n).drop_last() =~= b.take(n - 1));
}

/// Decodes Base64 text: trailing `=` are dropped, then each group of four
/// symbols yields up to three bytes (see [`b64_decode_spec`]).
pub fn base64_decode(data: &str) -> (res: Result<Vec<u8>, CryptoError>)
    requires
        b64_lookups_in_table(trim_padding(data.spec_bytes())),
    ensures
        match b64_decode_spec(trim_padding(data.spec_bytes())) {
            Some(v) => res matches Ok(out) && out@ == v,
            None => res == Err::<Vec<u8>, CryptoError>(
                CryptoError::InvalidBase64,
            ),
        },
{
    let bytes = data.as_bytes();
    let ghost all = bytes@;
    let mut n = bytes.len();
    proof {
        assert(all.take(n as int) =~= all);
    }
    while n > 0 && bytes[n - 1] == 61
        invariant
            n <= bytes@.len(),
            bytes@ == all,
            trim_padding(all) == trim_padding(all.take(n as int)),
        decreases n,
    {
        proof {
            lemma_trim_step(all, n as int);
        }
        n = n - 1;
    }
    let ghost b = all.take(n as int);
    proof {
        assert(trim_padding(b) == b);
    }
    let mut result: Vec<u8> = Vec::new();
    let mut i: usize = 0;
    proof {
        assert(b.skip(0) =~= b);
    }
    while n - i > 1
        invariant
            n <= bytes@.len(),
            bytes@ == all,
            b == all.take(n as int),
            all == data.spec_bytes(),
            trim_padding(all) == b,
            i <= n,
            b64_lookups_in_table(b.skip(i as int)),
            b64_decode_spec(b) == (match b64_decode_spec(b.skip(i as int)) {
                Some(r) => Some(result@ + r),
                None => None::<Seq<u8>>,
            }),
        decreases n - i,
    {
        let ghost s = b.skip(i as int);
        let c0 = bytes[i];
        let c1 = bytes[i + 1];
        assert(s[0] == c0 && s[1] == c1);
        let v0 = b64_value_exec(c0);
        let v1 = b64_value_exec(c1);
        if v0 == 255 || v1 == 255 {
            assert(s.len() >= 2);
            assert(b64_decode_spec(s) is None);
            return Err(CryptoError::InvalidBase64);
        }
        let ghost before = result@;
        result.push((v0 % 64) * 4 + v1 / 16);
        let mut v2: u8 = 0;
        if n - i > 2 {
            assert(s[2] == bytes@[i + 2]);
            v2 = b64_value_exec(bytes[i + 2]);
            if v2 != 255 {
                result.push((v1 % 16) * 16 + v2 / 4);
            }
        }
        if n - i > 3 {
            assert(s[3] == bytes@[i + 3]);
            let v3 = b64_value_exec(bytes[i + 3]);
            if v3 != 255 {
                result.push((v2 % 4) * 64 + v3);
            }
        }
        proof {
            assert(result@ =~= before + b64_group_bytes(s));
        }
        let next = if n - i >= 4 { i + 4 } else { n };
        proof {
            assert(after_group(s) =~= b.skip(next as int));
        }
        i = next;
    }
    proof {
        assert(b.skip(i as int).len() < 2);
        assert(result@ + Seq::<u8>::empty() =~= result@);
    }
    Ok(result)
}


/// Bytes of a sequence of characters that are all ASCII.
pub open spec fn ascii_bytes(cs: Seq<char>) -> Seq<u8> {
    cs.map_values(|c: char| c as u8)
}

proof fn lemma_alphabet(v: int)
    requires
        0 <= v < 64,
    ensures
        b64_alphabet(v) < 128,
        b64_alphabet(v) != 61,
        b64_value(b64_alphabet(v)) == v,
        b64_symbol(v) as u8 == b64_alphabet(v),
        '\0' <= b64_symbol(v) <= '\u{7f}',
{
}

proof fn lemma_group_arith(b0: u8, b1: u8, b2: u8)
    ensures
        ((b0 / 4) % 64) * 4 + ((b0 % 4) * 16 + b1 / 16) / 16 == b0,
        (((b0 % 4) * 16 + b1 / 16) % 16) * 16 + ((b1 % 16) * 4 + b2 / 64) / 4 == b1,
        (((b1 % 16) * 4 + b2 / 64) % 4) * 64 + b2 % 64 == b2,
        (b0 % 4) * 16 + b1 / 16 < 64,
        (b1 % 16) * 4 + b2 / 64 < 64,
{
}

proof fn lemma_encode_ascii(d: Seq<u8>)
    ensures
        is_ascii_chars(b64_encode_spec(d)),
        encode_utf8(b64_encode_spec(d)) == ascii_bytes(b64_encode_spec(d)),
    decreases d.len(),
{
    let e = b64_encode_spec(d);
    if d.len() == 0 {
    } else {
        let g = if d.len() <= 3 { d } else { d.take(3) };
        let b0 = g[0] as int;
        let b1: int = if g.len() > 1 { g[1] as int } else { 0 };
        let b2: int = if g.len() > 2 { g[2] as int } else { 0 };
        lemma_group_arith(b0 as u8, b1 as u8, b2 as u8);
        lemma_alphabet(b0 / 4);
        lemma_alphabet((b0 % 4) * 16 + b1 / 16);
        lemma_alphabet((b1 % 16) * 4 + b2 / 64);
        lemma_alphabet(b2 % 64);
        assert(is_ascii_chars(b64_group(g)));
        if d.len() > 3 {
            lemma_encode_ascii(d.skip(3));
            assert(e == b64_group(g) + b64_encode_spec(d.skip(3)));
        }
    }
    vstd::utf8::is_ascii_chars_encode_utf8(e);
    assert(encode_utf8(e) =~= ascii_bytes(e));
}

proof fn lemma_trim_append(a: Seq<u8>, b: Seq<u8>)
    requires
        b.len() > 0,
        b[0] != 61,
    ensures
        trim_padding(a + b) == a + trim_padding(b),
    decreases b.len(),
{
    if (a + b).last() == 61 {
        assert(b.len() >= 2);
        assert((a + b).drop_last() =~= a + b.drop_last());
        lemma_trim_append(a, b.drop_last());
    } else {
        assert(b.last() != 61);
    }
}

proof fn lemma_trim_group(g: Seq<u8>, e: Seq<u8>)
    requires
        1 <= g.len() <= 3,
        e.len() == 4,
        e[0] != 61,
        e[1] != 61,
        g.len() > 1 ==> e[2] != 61,
        g.len() > 2 ==> e[3] != 61,
        g.len() <= 1 ==> e[2] == 61,
        g.len() <= 2 ==> e[3] == 61,
    ensures
        trim_padding(e) == e.take(g.len() + 1 as int),
{
    if g.len() == 3 {
        assert(e.take(4) =~= e);
    } else if g.len() == 2 {
        assert(e.drop_last() =~= e.take(3));
        assert(trim_padding(e) == trim_padding(e.take(3)));
    } else {
        assert(e.drop_last() =~= e.take(3));
        assert(e.take(3).drop_last() =~= e.take(2));
        assert(trim_padding(e) == trim_padding(e.take(3)));
        assert(trim_padding(e.take(3)) == trim_padding(e.take(2)));
    }
}

/// Facts about the four bytes that encode one group `g` of one to three bytes.
proof fn lemma_group_encoding(g: Seq<u8>)
    requires
        1 <= g.len() <= 3,
    ensures
        ascii_bytes(b64_group(g)).len() == 4,
        forall|k: int| 0 <= k < 4 ==> ascii_bytes(b64_group(g))[k] < 128,
        forall|k: int| 0 <= k <= g.len() ==> ascii_bytes(b64_group(g))[k] != 61,
        forall|k: int| g.len() < k < 4 ==> ascii_bytes(b64_group(g))[k] == 61,
        forall|t: Seq<u8>|
            #![trigger b64_group_bytes(t)]
            t.len() >= g.len() + 1 && (g.len() < 3 ==> t.len() == g.len() + 1) && (forall|k: int|
                0 <= k < 4 && k < t.len() ==> t[k] == ascii_bytes(b64_group(g))[k])
                ==> b64_group_bytes(t) == g && b64_value(t[0]) != 255 && b64_value(t[1])
                != 255,
{
    let b0 = g[0];
    let b1: u8 = if g.len() > 1 { g[1] } else { 0 };
    let b2: u8 = if g.len() > 2 { g[2] } else { 0 };
    lemma_group_arith(b0, b1, b2);
    let v0 = b0 / 4;
    let v1 = (b0 % 4) * 16 + b1 / 16;
    let v2 = (b1 % 16) * 4 + b2 / 64;
    let v3 = b2 % 64;
    lemma_alphabet(v0 as int);
    lemma_alphabet(v1 as int);
    lemma_alphabet(v2 as int);
    lemma_alphabet(v3 as int);
    let ge = ascii_bytes(b64_group(g));
    assert(ge[0] == b64_alphabet(v0 as int));
    assert(ge[1] == b64_alphabet(v1 as int));
    assert(g.len() > 1 ==> ge[2] == b64_alphabet(v2 as int));
    assert(g.len() > 2 ==> ge[3] == b64_alphabet(v3 as int));
    assert forall|t: Seq<u8>|
        #![trigger b64_group_bytes(t)]
        t.len() >= g.len() + 1 && (g.len() < 3 ==> t.len() == g.len() + 1) && (forall|k: int|
            0 <= k < 4 && k < t.len() ==> t[k] == ge[k])
            implies b64_group_bytes(t) == g && b64_value(t[0]) != 255 && b64_value(t[1]) != 255 by {
        assert(t[0] == ge[0]);
        assert(t[1] == ge[1]);
        if t.len() > 2 {
            assert(t[2] == ge[2]);
        }
        if t.len() > 3 {
            assert(t[3] == ge[3]);
        }
        assert(b64_group_bytes(t) =~= g);
    }
}

/// The Base64 bytes of a nonempty sequence start with a group of four.
proof fn lemma_encoding_head(d: Seq<u8>)
    requires
        d.len() > 0,
    ensures
        ascii_bytes(b64_encode_spec(d)).len() >= 4,
        ascii_bytes(b64_encode_spec(d))[0] != 61,
        ascii_bytes(b64_encode_spec(d))[1] != 61,
        d.len() <= 3 ==> ascii_bytes(b64_encode_spec(d)) == ascii_bytes(b64_group(d)),
        d.len() > 3 ==> ascii_bytes(b64_encode_spec(d)) == ascii_bytes(b64_group(d.take(3)))
            + ascii_bytes(b64_encode_spec(d.skip(3))),
{
    let e = b64_encode_spec(d);
    if d.len() <= 3 {
        lemma_group_encoding(d);
    } else {
        let g = d.take(3);
        lemma_group_encoding(g);
        assert(e == b64_group(g) + b64_encode_spec(d.skip(3)));
        assert(ascii_bytes(e) =~= ascii_bytes(b64_group(g)) + ascii_bytes(
            b64_encode_spec(d.skip(3)),
        ));
    }
}

proof fn lemma_trim_len(d: Seq<u8>)
    requires
        d.len() > 0,
    ensures
        trim_padding(ascii_bytes(b64_encode_spec(d))).len() >= 2,
    decreases d.len(),
{
    lemma_encoding_head(d);
    if d.len() <= 3 {
        let ge = ascii_bytes(b64_group(d));
        lemma_group_encoding(d);
        lemma_trim_group(d, ge);
    } else {
        let rest = d.skip(3);
        let ge = ascii_bytes(b64_group(d.take(3)));
        let re = ascii_bytes(b64_encode_spec(rest));
        lemma_encoding_head(rest);
        lemma_trim_append(ge, re);
    }
}

/// Law: Base64 decoding gives back any byte sequence from its encoding,
/// reading only table entries on the way.
pub proof fn lemma_base64_roundtrip(d: Seq<u8>)
    ensures
        b64_lookups_in_table(trim_padding(encode_utf8(b64_encode_spec(d)))),
        b64_decode_spec(trim_padding(encode_utf8(b64_encode_spec(d)))) == Some(d),
    decreases d.len(),
{
    lemma_encode_ascii(d);
    lemma_trim_ascii_roundtrip(d);
}

proof fn lemma_trim_ascii_roundtrip(d: Seq<u8>)
    ensures
        b64_lookups_in_table(trim_padding(ascii_bytes(b64_encode_spec(d)))),
        b64_decode_spec(trim_padding(ascii_bytes(b64_encode_spec(d)))) == Some(d),
    decreases d.len(),
{
    let e = ascii_bytes(b64_encode_spec(d));
    if d.len() == 0 {
        assert(e =~= Seq::<u8>::empty());
        assert(Seq::<u8>::empty() =~= d);
    } else if d.len() <= 3 {
        lemma_encoding_head(d);
        lemma_group_encoding(d);
        lemma_trim_group(d, e);
        let t = e.take(d.len() + 1 as int);
        assert(after_group(t) =~= Seq::<u8>::empty());
        assert(t[0] == e[0] && t[1] == e[1]);
        assert(b64_group_bytes(t) == d);
        assert(b64_lookups_in_table(after_group(t)));
        assert(b64_lookups_in_table(t));
        assert(b64_decode_spec(after_group(t)) == Some(Seq::<u8>::empty()));
        assert(b64_group_bytes(t) + Seq::<u8>::empty() =~= d);
        assert(b64_decode_spec(t) == Some(d));
    } else {
        let g = d.take(3);
        let rest = d.skip(3);
        lemma_encoding_head(d);
        lemma_group_encoding(g);
        lemma_encoding_head(rest);
        lemma_trim_ascii_roundtrip(rest);
        lemma_trim_len(rest);
        let ge = ascii_bytes(b64_group(g));
        let re = ascii_bytes(b64_encode_spec(rest));
        lemma_trim_append(ge, re);
        let t = ge + trim_padding(re);
        assert(after_group(t) =~= trim_padding(re));
        assert(t[0] == ge[0] && t[1] == ge[1] && t[2] == ge[2] && t[3] == ge[3]);
        assert(b64_group_bytes(t) == g);
        assert(b64_lookups_in_table(t));
        assert(g + rest =~= d);
        assert(b64_decode_spec(t) == Some(d));
    }
}

/// The standard Base64 alphabet (RFC 4648), in order of value.
pub open spec fn standard_alphabet() -> Seq<char> {
    "ABCDEFGHIJKLMNOPQRSTUVWXYZabcdefghijklmnopqrstuvwxyz0123456789+/"@
}

/// The symbol for each value is the standard one, and decoding reads it back.
proof fn lemma_symbol_is_standard(v: int)
    requires
        0 <= v < 64,
    ensures
        standard_alphabet().len() == 64,
        b64_symbol(v) == standard_alphabet()[v],
        b64_alphabet(v) == standard_alphabet()[v] as u8,
        b64_value(standard_alphabet()[v] as u8) == v,
{
    reveal_strlit("ABCDEFGHIJKLMNOPQRSTUVWXYZabcdefghijklmnopqrstuvwxyz0123456789+/");
    if v == 0 {
    } else if v == 1 {
    } else if v == 2 {
    } else if v == 3 {
    } else if v == 4 {
    } else if v == 5 {
    } else if v == 6 {
    } else if v == 7 {
    } else if v == 8 {
    } else if v == 9 {
    } else if v == 10 {
    } else if v == 11 {
    } else if v == 12 {
    } else if v == 13 {
    } else if v == 14 {
    } else if v == 15 {
    } else if v == 16 {
    } else if v == 17 {
    } else if v == 18 {
    } else if v == 19 {
    } else if v == 20 {
    } else if v == 21 {
    } else if v == 22 {
    } else if v == 23 {
    } else if v == 24 {
    } else if v == 25 {
    } else if v == 26 {
    } else if v == 27 {
    } else if v == 28 {
    } else if v == 29 {
    } else if v == 30 {
    } else if v == 31 {
    } else if v == 32 {
    } else if v == 33 {
    } else if v == 34 {
    } else if v == 35 {
    } else if v == 36 {
    } else if v == 37 {
    } else if v == 38 {
    } else if v == 39 {
    } else if v == 40 {
    } else if v == 41 {
    } else if v == 42 {
    } else if v == 43 {
    } else if v == 44 {
    } else if v == 45 {
    } else if v == 46 {
    } else if v == 47 {
    } else if v == 48 {
    } else if v == 49 {
    } else if v == 50 {
    } else if v == 51 {
    } else if v == 52 {
    } else if v == 53 {
    } else if v == 54 {
    } else if v == 55 {
    } else if v == 56 {
    } else if v == 57 {
    } else if v == 58 {
    } else if v == 59 {
    } else if v == 60 {
    } else if v == 61 {
    } else if v == 62 {
    } else if v == 63 {
    } else {
    }
}

/// A byte that decoding accepts is the standard symbol of its value.
proof fn lemma_accepted_is_standard(x: u8)
    requires
        b64_value(x) != 255,
    ensures
        b64_value(x) < 64,
        standard_alphabet()[b64_value(x) as int] as u8 == x,
{
    lemma_symbol_is_standard(b64_value(x) as int);
}

/// Law: Base64 text uses the standard alphabet: the four symbols of a group
/// of three bytes are the standard symbols of its four six-bit values, and a
/// group of two or one bytes is padded with `=`.
pub proof fn lemma_base64_standard_encoding(a: u8, b: u8, c: u8)
    ensures
        b64_encode_spec(seq![a, b, c]) == seq![
            standard_alphabet()[a as int / 4],
            standard_alphabet()[(a as int % 4) * 16 + b as int / 16],
            standard_alphabet()[(b as int % 16) * 4 + c as int / 64],
            standard_alphabet()[c as int % 64],
        ],
        b64_encode_spec(seq![a, b]) == seq![
            standard_alphabet()[a as int / 4],
            standard_alphabet()[(a as int % 4) * 16 + b as int / 16],
            standard_alphabet()[(b as int % 16) * 4],
            '=',
        ],
        b64_encode_spec(seq![a]) == seq![
            standard_alphabet()[a as int / 4],
            standard_alphabet()[(a as int % 4) * 16],
            '=',
            '=',
        ],
{
    lemma_symbol_is_standard(a as int / 4);
    lemma_symbol_is_standard((a as int % 4) * 16 + b as int / 16);
    lemma_symbol_is_standard((b as int % 16) * 4 + c as int / 64);
    lemma_symbol_is_standard(c as int % 64);
    lemma_symbol_is_standard((b as int % 16) * 4);
    lemma_symbol_is_standard((a as int % 4) * 16);
    assert(b64_encode_spec(seq![a, b, c]) =~= b64_group(seq![a, b, c]));
    assert(b64_encode_spec(seq![a, b]) =~= b64_group(seq![a, b]));
    assert(b64_encode_spec(seq![a]) =~= b64_group(seq![a]));
}

/// Law: decoding reads the standard alphabet: four standard symbols give
/// back the three bytes made of their six-bit values, and a group whose
/// first or second byte is not a standard symbol is refused.
pub proof fn lemma_base64_standard_decoding(v0: int, v1: int, v2: int, v3: int, x: u8, y: u8)
    requires
        0 <= v0 < 64,
        0 <= v1 < 64,
        0 <= v2 < 64,
        0 <= v3 < 64,
    ensures
        b64_decode_spec(
            seq![
                standard_alphabet()[v0] as u8,
                standard_alphabet()[v1] as u8,
                standard_alphabet()[v2] as u8,
                standard_alphabet()[v3] as u8,
            ],
        ) == Some(seq![(v0 * 4 + v1 / 16) as u8, ((v1 % 16) * 16 + v2 / 4) as u8, ((v2 % 4) * 64 + v3) as u8]),
        (forall|v: int| 0 <= v < 64 ==> standard_alphabet()[v] as u8 != x) ==> b64_decode_spec(
            seq![x, y],
        ) is None && b64_decode_spec(seq![y, x]) is None,
{
    lemma_symbol_is_standard(v0);
    lemma_symbol_is_standard(v1);
    lemma_symbol_is_standard(v2);
    lemma_symbol_is_standard(v3);
    let g = seq![
        standard_alphabet()[v0] as u8,
        standard_alphabet()[v1] as u8,
        standard_alphabet()[v2] as u8,
        standard_alphabet()[v3] as u8,
    ];
    assert(after_group(g) =~= Seq::<u8>::empty());
    assert(b64_decode_spec(after_group(g)) == Some(Seq::<u8>::empty()));
    assert(b64_group_bytes(g) + Seq::<u8>::empty() =~= seq![
        (v0 * 4 + v1 / 16) as u8,
        ((v1 % 16) * 16 + v2 / 4) as u8,
        ((v2 % 4) * 64 + v3) as u8,
    ]);
    if forall|v: int| 0 <= v < 64 ==> standard_alphabet()[v] as u8 != x {
        if b64_value(x) != 255 {
            lemma_accepted_is_standard(x);
            let w = b64_value(x) as int;
            assert(standard_alphabet()[w] as u8 == x);
        }
    }
}

} // verus!
