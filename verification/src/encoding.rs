//! How a text's characters sit among its UTF-8 bytes: where each character
//! starts, and that a pattern of ASCII characters occurs among the bytes
//! exactly where it occurs among the characters.

use vstd::prelude::*;

use crate::text::occurs_at;
use vstd::utf8::{
    char_is_scalar, char_u32_cast, encode_scalar, encode_utf8, has_width_1_encoding, has_width_2_encoding,
    has_width_3_encoding, has_width_4_encoding, is_ascii_chars, is_scalar,
};

verus! {

/// Where character `k` of `s` starts among the UTF-8 bytes of `s`.
pub open spec fn byte_offset(s: Seq<char>, k: int) -> int {
    encode_utf8(s.take(k)).len() as int
}

/// The bytes of two texts one after the other are the bytes of the two.
pub proof fn lemma_encode_concat(a: Seq<char>, b: Seq<char>)
    ensures
        encode_utf8(a + b) == encode_utf8(a) + encode_utf8(b),
    decreases a.len(),
{
    if a.len() > 0 {
        assert((a + b).drop_first() =~= a.drop_first() + b);
        assert((a + b)[0] == a[0]);
        lemma_encode_concat(a.drop_first(), b);
        assert(encode_utf8(a + b) =~= encode_utf8(a) + encode_utf8(b));
    } else {
        assert(a + b =~= b);
        assert(encode_utf8(a) + encode_utf8(b) =~= encode_utf8(b));
    }
}

/// A character is one to four bytes: itself when it is ASCII, else bytes
/// that are all 128 or more.
pub proof fn lemma_scalar_bytes(c: char)
    ensures
        1 <= encode_scalar(c as u32).len() <= 4,
        (c as u32) < 128 ==> encode_scalar(c as u32) == seq![(c as u32) as u8],
        (c as u32) >= 128 ==> forall|j: int|
            0 <= j < encode_scalar(c as u32).len() ==> #[trigger] encode_scalar(c as u32)[j] >= 128,
{
    let v = c as u32;
    char_is_scalar(c);
    assert(is_scalar(v));
    if has_width_1_encoding(v) {
        assert((v & 0x7F) as u8 == v as u8) by (bit_vector)
            requires
                v <= 0x7F,
        ;
    } else if has_width_2_encoding(v) {
        assert(0xC0 | ((v >> 6) & 0x1F) as u8 >= 128) by (bit_vector);
        assert(0x80 | (v & 0x3F) as u8 >= 128) by (bit_vector);
    } else if has_width_3_encoding(v) {
        assert(0xE0 | ((v >> 12) & 0x0F) as u8 >= 128) by (bit_vector);
        assert(0x80 | ((v >> 6) & 0x3F) as u8 >= 128) by (bit_vector);
        assert(0x80 | (v & 0x3F) as u8 >= 128) by (bit_vector);
    } else {
        assert(has_width_4_encoding(v));
        assert(0xF0 | ((v >> 18) & 0x7) as u8 >= 128) by (bit_vector);
        assert(0x80 | ((v >> 12) & 0x3F) as u8 >= 128) by (bit_vector);
        assert(0x80 | ((v >> 6) & 0x3F) as u8 >= 128) by (bit_vector);
        assert(0x80 | (v & 0x3F) as u8 >= 128) by (bit_vector);
    }
}

/// Character `k` is the bytes from its offset to the next character's.
pub proof fn lemma_char_bytes(s: Seq<char>, k: int)
    requires
        0 <= k < s.len(),
    ensures
        byte_offset(s, k + 1) == byte_offset(s, k) + encode_scalar(s[k] as u32).len(),
        byte_offset(s, k + 1) <= encode_utf8(s).len(),
        forall|j: int|
            0 <= j < encode_scalar(s[k] as u32).len() ==> #[trigger] encode_utf8(s)[byte_offset(s, k)
                + j] == encode_scalar(s[k] as u32)[j],
{
    let head = s.take(k);
    let one = seq![s[k]];
    let rest = s.skip(k + 1);
    assert(s.take(k + 1) =~= head + one);
    assert(s =~= head + one + rest);
    lemma_encode_concat(head, one);
    lemma_encode_concat(head + one, rest);
    assert(one.drop_first() =~= Seq::<char>::empty());
    assert(encode_utf8(one.drop_first()).len() == 0);
    assert(one[0] == s[k]);
    assert(encode_utf8(one) =~= encode_scalar(s[k] as u32));
    let e = encode_utf8(s);
    assert(e == encode_utf8(head) + encode_scalar(s[k] as u32) + encode_utf8(rest));
}

/// The offset of the end of the text is its byte length.
pub proof fn lemma_offset_end(s: Seq<char>)
    ensures
        byte_offset(s, s.len() as int) == encode_utf8(s).len(),
        byte_offset(s, 0) == 0,
{
    assert(s.take(s.len() as int) =~= s);
    assert(s.take(0) =~= Seq::<char>::empty());
}

/// Later characters start later.
pub proof fn lemma_offset_mono(s: Seq<char>, k1: int, k2: int)
    requires
        0 <= k1 < k2 <= s.len(),
    ensures
        byte_offset(s, k1) < byte_offset(s, k2),
    decreases k2 - k1,
{
    lemma_char_bytes(s, k1);
    lemma_scalar_bytes(s[k1]);
    if k1 + 1 < k2 {
        lemma_offset_mono(s, k1 + 1, k2);
    }
}

/// Every byte belongs to a character.
pub proof fn lemma_locate(s: Seq<char>, p: int, k: int) -> (c: int)
    requires
        0 <= k <= s.len(),
        byte_offset(s, k) <= p < encode_utf8(s).len(),
    ensures
        k <= c < s.len(),
        byte_offset(s, c) <= p < byte_offset(s, c + 1),
    decreases s.len() - k,
{
    lemma_offset_end(s);
    if k == s.len() {
        assert(false);
        k
    } else {
        lemma_char_bytes(s, k);
        if p < byte_offset(s, k + 1) {
            k
        } else {
            lemma_locate(s, p, k + 1)
        }
    }
}

/// An ASCII byte among a text's bytes is an ASCII character of the text,
/// starting there.
pub proof fn lemma_ascii_byte(s: Seq<char>, p: int) -> (c: int)
    requires
        0 <= p < encode_utf8(s).len(),
        encode_utf8(s)[p] < 128,
    ensures
        0 <= c < s.len(),
        byte_offset(s, c) == p,
        byte_offset(s, c + 1) == p + 1,
        (s[c] as u32) < 128,
        encode_utf8(s)[p] == (s[c] as u32) as u8,
{
    lemma_offset_end(s);
    let c = lemma_locate(s, p, 0);
    lemma_char_bytes(s, c);
    lemma_scalar_bytes(s[c]);
    let j = p - byte_offset(s, c);
    assert(encode_utf8(s)[byte_offset(s, c) + j] == encode_scalar(s[c] as u32)[j]);
    c
}

/// The bytes of an ASCII pattern.
pub open spec fn ascii_bytes(pat: Seq<char>) -> Seq<u8> {
    pat.map_values(|c: char| c as u8)
}

/// An ASCII pattern occurs among a text's bytes, from the offset of
/// character `k`, exactly where it occurs among the characters from `k`.
pub proof fn lemma_ascii_occurs_at(s: Seq<char>, k: int, pat: Seq<char>)
    requires
        0 <= k <= s.len(),
        is_ascii_chars(pat),
    ensures
        occurs_at(encode_utf8(s), byte_offset(s, k), ascii_bytes(pat)) == occurs_at(s, k, pat),
    decreases pat.len(),
{
    let e = encode_utf8(s);
    let pb = ascii_bytes(pat);
    let o = byte_offset(s, k);
    lemma_offset_end(s);
    if pat.len() == 0 {
        if k < s.len() {
            lemma_offset_mono(s, k, s.len() as int);
        }
        assert(0 <= o <= e.len());
        assert(pb.len() == 0);
        assert(e.subrange(o, o) =~= pb);
        assert(s.subrange(k, k) =~= pat);
    } else {
        let rest = pat.drop_first();
        assert(is_ascii_chars(rest));
        assert((pat[0] as nat) < 128);
        if occurs_at(e, o, pb) {
            assert(e[o] == pb[0]) by {
                assert(e.subrange(o, o + pb.len())[0] == e[o]);
            }
            let c = lemma_ascii_byte(s, o);
            if c < k {
                lemma_offset_mono(s, c, k);
            } else if c > k {
                lemma_offset_mono(s, k, c);
            }
            assert(c == k);
            assert(pb[0] == pat[0] as u8);
            assert(pat[0] <= '\u{7f}');
            assert((pat[0] as u32) < 128);
            assert(pat[0] as u8 == (pat[0] as u32) as u8);
            assert((s[k] as u32) == (pat[0] as u32));
            char_u32_cast(s[k], s[k] as u32);
            char_u32_cast(pat[0], pat[0] as u32);
            assert(s[k] == pat[0]);
            lemma_ascii_occurs_at(s, k + 1, rest);
            assert(ascii_bytes(rest) =~= pb.drop_first());
            assert(e.subrange(o + 1, o + 1 + pb.len() - 1) =~= e.subrange(o, o + pb.len()).drop_first());
            assert(occurs_at(s, k + 1, rest));
            assert(s.subrange(k, k + pat.len()) =~= seq![s[k]] + s.subrange(k + 1, k + 1 + rest.len()));
            assert(pat =~= seq![pat[0]] + rest);
        }
        if occurs_at(s, k, pat) {
            assert(s[k] == pat[0]) by {
                assert(s.subrange(k, k + pat.len())[0] == s[k]);
            }
            assert(s.subrange(k + 1, k + 1 + rest.len()) =~= s.subrange(k, k + pat.len()).drop_first());
            lemma_ascii_occurs_at(s, k + 1, rest);
            lemma_char_bytes(s, k);
            lemma_scalar_bytes(s[k]);
            assert(pat[0] <= '\u{7f}');
            assert((s[k] as u32) < 128);
            assert(e[byte_offset(s, k) + 0] == encode_scalar(s[k] as u32)[0]);
            assert(pat[0] as u8 == (pat[0] as u32) as u8);
            assert(pb[0] == pat[0] as u8);
            assert(e[o] == pb[0]);
            assert(ascii_bytes(rest) =~= pb.drop_first());
            assert(e.subrange(o, o + pb.len()) =~= seq![e[o]] + e.subrange(o + 1, o + 1 + pb.len() - 1));
            assert(pb =~= seq![pb[0]] + pb.drop_first());
        }
    }
}

} // verus!
