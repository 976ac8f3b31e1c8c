//! Unpadded base32 (RFC 4648 alphabet) for payloads whose length is a
//! multiple of five bytes.
//!
//! Five input bytes form one 40-bit group, rendered as eight symbols of five
//! bits each; such payloads encode without padding or unused trailing bits,
//! so the encoding is a bijection between byte strings and symbol strings.

use vstd::arithmetic::div_mod::{lemma_fundamental_div_mod, lemma_fundamental_div_mod_converse};
use vstd::prelude::*;
use vstd::string::StrSliceExecFns;

verus! {

/// Symbol for the five-bit value `d`: `'A'..='Z'` for 0..26, `'2'..='7'` for
/// 26..32, as an ASCII byte.
pub open spec fn b32_sym(d: u64) -> u8 {
    if d < 26 {
        (65 + d) as u8
    } else {
        (24 + d) as u8
    }
}

/// The 40-bit group assembled big-endian from the five bytes of `b` starting
/// at `5 * g`.
pub open spec fn group_val(b: Seq<u8>, g: int) -> u64 {
    ((b[5 * g] as u64) << 32) | ((b[5 * g + 1] as u64) << 24) | ((b[5 * g + 2] as u64) << 16)
        | ((b[5 * g + 3] as u64) << 8) | (b[5 * g + 4] as u64)
}

/// Five-bit symbol value `k` (0..8) of a 40-bit group, counting from the
/// most significant bits.
pub open spec fn b32_digit(v: u64, k: int) -> u64 {
    (v >> ((35 - 5 * k) as u64)) & 31
}

/// The unpadded base32 encoding of `b` as ASCII bytes, for `b.len()`
/// divisible by five.
pub open spec fn base32_bytes(b: Seq<u8>) -> Seq<u8> {
    Seq::new(b.len() / 5 * 8, |i: int| b32_sym(b32_digit(group_val(b, i / 8), i % 8)))
}

/// ASCII bytes reinterpreted as characters.
pub open spec fn chars_of_ascii(s: Seq<u8>) -> Seq<char> {
    Seq::new(s.len(), |i: int| s[i] as char)
}

/// The unpadded base32 encoding of `b` as characters.
pub open spec fn base32_of(b: Seq<u8>) -> Seq<char> {
    chars_of_ascii(base32_bytes(b))
}

/// Five-bit value of an encoding character, or -1 for a character outside
/// the alphabet.
pub open spec fn char_val(c: char) -> int {
    if 'A' <= c && c <= 'Z' {
        c as int - 65
    } else if '2' <= c && c <= '7' {
        c as int - 24
    } else {
        -1
    }
}

/// Every five-bit value's symbol reads back as that value.
pub proof fn lemma_char_val_sym(d: u64)
    requires
        d < 32,
    ensures
        char_val(b32_sym(d) as char) == d,
{
    if d < 26 {
        assert(65 + d <= 90);
        assert((65 + d) as u8 as char as int == 65 + d);
    } else {
        assert(24 + d <= 55);
        assert((24 + d) as u8 as char as int == 24 + d);
    }
}

/// Symbol values are always below 32.
pub proof fn lemma_digit_bound(v: u64, k: int)
    ensures
        0 <= b32_digit(v, k) < 32,
{
    let sh = (35 - 5 * k) as u64;
    assert((v >> sh) & 31 < 32) by (bit_vector);
}

/// A 40-bit value is recovered from its eight five-bit symbol values.
proof fn lemma_recompose_digits(v: u64)
    requires
        v < 0x100_0000_0000,
    ensures
        v == ((((((((v >> 35) & 31) * 32 + ((v >> 30) & 31)) * 32 + ((v >> 25) & 31)) * 32 + ((v
            >> 20) & 31)) * 32 + ((v >> 15) & 31)) * 32 + ((v >> 10) & 31)) * 32 + ((v >> 5) & 31))
            * 32 + (v & 31),
{
    assert(v == ((((((((v >> 35) & 31) * 32 + ((v >> 30) & 31)) * 32 + ((v >> 25) & 31)) * 32 + ((v
        >> 20) & 31)) * 32 + ((v >> 15) & 31)) * 32 + ((v >> 10) & 31)) * 32 + ((v >> 5) & 31)) * 32
        + (v & 31)) by (bit_vector)
        requires
            v < 0x100_0000_0000,
    ;
}

/// A 40-bit value built from five-bit digits extracts back to those digits,
/// and stays below 2^40.
proof fn lemma_horner(d0: u64, d1: u64, d2: u64, d3: u64, d4: u64, d5: u64, d6: u64, d7: u64, v: u64)
    requires
        d0 < 32,
        d1 < 32,
        d2 < 32,
        d3 < 32,
        d4 < 32,
        d5 < 32,
        d6 < 32,
        d7 < 32,
        v == ((((((d0 * 32 + d1) * 32 + d2) * 32 + d3) * 32 + d4) * 32 + d5) * 32 + d6) * 32 + d7,
    ensures
        v < 0x100_0000_0000,
        (v >> 35) & 31 == d0,
        (v >> 30) & 31 == d1,
        (v >> 25) & 31 == d2,
        (v >> 20) & 31 == d3,
        (v >> 15) & 31 == d4,
        (v >> 10) & 31 == d5,
        (v >> 5) & 31 == d6,
        v & 31 == d7,
{
    assert(v < 0x100_0000_0000 && (v >> 35) & 31 == d0 && (v >> 30) & 31 == d1 && (v >> 25) & 31
        == d2 && (v >> 20) & 31 == d3 && (v >> 15) & 31 == d4 && (v >> 10) & 31 == d5 && (v >> 5)
        & 31 == d6 && v & 31 == d7) by (bit_vector)
        requires
            d0 < 32,
            d1 < 32,
            d2 < 32,
            d3 < 32,
            d4 < 32,
            d5 < 32,
            d6 < 32,
            d7 < 32,
            v == ((((((d0 * 32 + d1) * 32 + d2) * 32 + d3) * 32 + d4) * 32 + d5) * 32 + d6) * 32
                + d7,
    ;
}

/// A group value assembled from five bytes is below 2^40, and each byte is
/// recovered by extraction.
proof fn lemma_group_val_bytes(b0: u8, b1: u8, b2: u8, b3: u8, b4: u8, v: u64)
    requires
        v == ((b0 as u64) << 32) | ((b1 as u64) << 24) | ((b2 as u64) << 16) | ((b3 as u64) << 8)
            | (b4 as u64),
    ensures
        v < 0x100_0000_0000,
        (v >> 32) & 255 == b0,
        (v >> 24) & 255 == b1,
        (v >> 16) & 255 == b2,
        (v >> 8) & 255 == b3,
        v & 255 == b4,
{
    assert(v < 0x100_0000_0000 && (v >> 32) & 255 == b0 && (v >> 24) & 255 == b1 && (v >> 16) & 255
        == b2 && (v >> 8) & 255 == b3 && v & 255 == b4) by (bit_vector)
        requires
            v == ((b0 as u64) << 32) | ((b1 as u64) << 24) | ((b2 as u64) << 16) | ((b3 as u64)
                << 8) | (b4 as u64),
    ;
}

/// A character with a five-bit value is that value's symbol.
pub proof fn lemma_sym_char_val(c: char)
    requires
        0 <= char_val(c) < 32,
    ensures
        b32_sym(char_val(c) as u64) as char == c,
{
    if 'A' <= c && c <= 'Z' {
        assert(65 <= c as int <= 90);
        assert((c as int) as u8 as char == c);
    } else {
        assert(50 <= c as int <= 55);
        assert((c as int) as u8 as char == c);
    }
}

/// One group of eight characters agrees with the encoding of the bytes of
/// `b` at group `g`.
pub open spec fn group_matches(s: Seq<char>, b: Seq<u8>, g: int) -> bool {
    forall|k: int| 0 <= k < 8 ==> s[8 * g + k] == b32_sym(b32_digit(group_val(b, g), k)) as char
}

/// Index arithmetic: position `8 * g + k` of an encoding belongs to group
/// `g`, symbol `k`.
proof fn lemma_sym_index(g: int, k: int)
    requires
        0 <= g,
        0 <= k < 8,
    ensures
        (8 * g + k) / 8 == g,
        (8 * g + k) % 8 == k,
{
    lemma_fundamental_div_mod_converse(8 * g + k, 8, g, k);
}

/// An encoding agreeing with every group of `b` is the encoding of `b`.
proof fn lemma_groups_to_encoding(s: Seq<char>, b: Seq<u8>)
    requires
        b.len() % 5 == 0,
        s.len() == b.len() / 5 * 8,
        forall|g: int| 0 <= g < b.len() / 5 ==> group_matches(s, b, g),
    ensures
        base32_of(b) == s,
{
    assert forall|i: int| 0 <= i < s.len() implies base32_of(b)[i] == s[i] by {
        let g = i / 8;
        let k = i % 8;
        lemma_fundamental_div_mod(i, 8);
        assert(i == 8 * g + k);
        assert(g < b.len() / 5);
        assert(group_matches(s, b, g));
        assert(s[8 * g + k] == b32_sym(b32_digit(group_val(b, g), k)) as char);
    }
    assert(base32_of(b) =~= s);
}

/// The encoding is injective: equal encodings come from equal payloads.
pub proof fn lemma_base32_injective(a: Seq<u8>, b: Seq<u8>)
    requires
        a.len() % 5 == 0,
        b.len() % 5 == 0,
        base32_of(a) == base32_of(b),
    ensures
        a == b,
{
    lemma_fundamental_div_mod(a.len() as int, 5);
    lemma_fundamental_div_mod(b.len() as int, 5);
    assert(base32_of(a).len() == a.len() / 5 * 8);
    assert(base32_of(b).len() == b.len() / 5 * 8);
    assert(a.len() / 5 * 8 == b.len() / 5 * 8);
    assert(a.len() == b.len());
    assert forall|j: int| 0 <= j < a.len() implies a[j] == b[j] by {
        let g = j / 5;
        lemma_fundamental_div_mod(j, 5);
        lemma_group_vals_equal(a, b, g);
        let v = group_val(a, g);
        lemma_group_val_bytes(a[5 * g], a[5 * g + 1], a[5 * g + 2], a[5 * g + 3], a[5 * g + 4], v);
        lemma_group_val_bytes(b[5 * g], b[5 * g + 1], b[5 * g + 2], b[5 * g + 3], b[5 * g + 4], v);
    }
    assert(a =~= b);
}

/// Equal encodings give equal group values.
proof fn lemma_group_vals_equal(a: Seq<u8>, b: Seq<u8>, g: int)
    requires
        a.len() % 5 == 0,
        b.len() % 5 == 0,
        a.len() == b.len(),
        base32_of(a) == base32_of(b),
        0 <= g < a.len() / 5,
    ensures
        group_val(a, g) == group_val(b, g),
{
    let va = group_val(a, g);
    let vb = group_val(b, g);
    lemma_group_val_bytes(a[5 * g], a[5 * g + 1], a[5 * g + 2], a[5 * g + 3], a[5 * g + 4], va);
    lemma_group_val_bytes(b[5 * g], b[5 * g + 1], b[5 * g + 2], b[5 * g + 3], b[5 * g + 4], vb);
    assert forall|k: int| 0 <= k < 8 implies b32_digit(va, k) == b32_digit(vb, k) by {
        let i = 8 * g + k;
        lemma_sym_index(g, k);
        assert(0 <= i < a.len() / 5 * 8);
        assert(base32_of(a)[i] == b32_sym(b32_digit(va, k)) as char);
        assert(base32_of(b)[i] == b32_sym(b32_digit(vb, k)) as char);
        lemma_digit_bound(va, k);
        lemma_digit_bound(vb, k);
        lemma_char_val_sym(b32_digit(va, k));
        lemma_char_val_sym(b32_digit(vb, k));
    }
    lemma_recompose_digits(va);
    lemma_recompose_digits(vb);
    assert(va >> 0 == va) by (bit_vector);
    assert(vb >> 0 == vb) by (bit_vector);
    assert(b32_digit(va, 0) == (va >> 35) & 31);
    assert(b32_digit(va, 1) == (va >> 30) & 31);
    assert(b32_digit(va, 2) == (va >> 25) & 31);
    assert(b32_digit(va, 3) == (va >> 20) & 31);
    assert(b32_digit(va, 4) == (va >> 15) & 31);
    assert(b32_digit(va, 5) == (va >> 10) & 31);
    assert(b32_digit(va, 6) == (va >> 5) & 31);
    assert(b32_digit(va, 7) == va & 31);
    assert(b32_digit(vb, 0) == (vb >> 35) & 31);
    assert(b32_digit(vb, 1) == (vb >> 30) & 31);
    assert(b32_digit(vb, 2) == (vb >> 25) & 31);
    assert(b32_digit(vb, 3) == (vb >> 20) & 31);
    assert(b32_digit(vb, 4) == (vb >> 15) & 31);
    assert(b32_digit(vb, 5) == (vb >> 10) & 31);
    assert(b32_digit(vb, 6) == (vb >> 5) & 31);
    assert(b32_digit(vb, 7) == vb & 31);
}

/// A 40-bit value is recovered from its five extracted bytes.
proof fn lemma_recompose_bytes(v: u64)
    requires
        v < 0x100_0000_0000,
    ensures
        v == ((((v >> 32) & 255) as u8 as u64) << 32) | ((((v >> 24) & 255) as u8 as u64) << 24)
            | ((((v >> 16) & 255) as u8 as u64) << 16) | ((((v >> 8) & 255) as u8 as u64) << 8) | ((
        v & 255) as u8 as u64),
{
    assert(v == ((((v >> 32) & 255) as u8 as u64) << 32) | ((((v >> 24) & 255) as u8 as u64) << 24)
        | ((((v >> 16) & 255) as u8 as u64) << 16) | ((((v >> 8) & 255) as u8 as u64) << 8) | ((v
        & 255) as u8 as u64)) by (bit_vector)
        requires
            v < 0x100_0000_0000,
    ;
}

/// Symbol byte for a five-bit value.
fn sym_byte(d: u64) -> (r: u8)
    requires
        d < 32,
    ensures
        r == b32_sym(d),
{
    if d < 26 {
        (d + 65) as u8
    } else {
        (d + 24) as u8
    }
}

/// Encodes `bytes`, whose length must be a multiple of five, as unpadded
/// base32 in ASCII bytes.
pub fn base32_encode(bytes: &[u8]) -> (r: Vec<u8>)
    requires
        bytes@.len() % 5 == 0,
        bytes@.len() <= usize::MAX / 8,
    ensures
        r@ == base32_bytes(bytes@),
{
    let n = bytes.len();
    let groups = n / 5;
    let mut out: Vec<u8> = Vec::new();
    proof {
        lemma_fundamental_div_mod(n as int, 5);
    }
    let mut g: usize = 0;
    while g < groups
        invariant
            groups == n / 5,
            n == bytes@.len(),
            n == 5 * groups,
            n <= usize::MAX / 8,
            g <= groups,
            out@.len() == 8 * g,
            forall|i: int| 0 <= i < 8 * g ==> out@[i] == base32_bytes(bytes@)[i],
        decreases groups - g,
    {
        let v: u64 = ((bytes[5 * g] as u64) << 32) | ((bytes[5 * g + 1] as u64) << 24) | ((bytes[5
            * g + 2] as u64) << 16) | ((bytes[5 * g + 3] as u64) << 8) | (bytes[5 * g + 4] as u64);
        assert(v == group_val(bytes@, g as int));
        let ghost prev = out@;
        let mut k: usize = 0;
        while k < 8
            invariant
                k <= 8,
                v == group_val(bytes@, g as int),
                g < groups,
                groups == n / 5,
                n == bytes@.len(),
                n == 5 * groups,
                prev.len() == 8 * g,
                out@ == prev + Seq::new(
                    k as nat,
                    |kk: int| b32_sym(b32_digit(group_val(bytes@, g as int), kk)),
                ),
            decreases 8 - k,
        {
            let sh: u64 = 35 - 5 * (k as u64);
            let d: u64 = (v >> sh) & 31;
            proof {
                lemma_digit_bound(v, k as int);
                assert(d == b32_digit(v, k as int));
            }
            out.push(sym_byte(d));
            proof {
                assert(out@ =~= prev + Seq::new(
                    (k + 1) as nat,
                    |kk: int| b32_sym(b32_digit(group_val(bytes@, g as int), kk)),
                ));
            }
            k = k + 1;
        }
        proof {
            assert forall|i: int| 0 <= i < 8 * (g + 1) implies out@[i] == base32_bytes(bytes@)[i]
            by {
                if i >= 8 * g {
                    let kk = i - 8 * g;
                    lemma_sym_index(g as int, kk);
                    assert(out@[i] == b32_sym(b32_digit(group_val(bytes@, g as int), kk)));
                }
            }
        }
        g = g + 1;
    }
    proof {
        assert(out@ =~= base32_bytes(bytes@));
    }
    out
}

/// Reads the symbol at character position `i`; `None` means `s` is not an
/// encoding of anything.
fn read_sym(s: &str, i: usize) -> (r: Option<u64>)
    requires
        i < s@.len(),
    ensures
        r matches Some(d) ==> 0 <= char_val(s@[i as int]) < 32 && d == char_val(s@[i as int]),
        r is None ==> forall|b: Seq<u8>| b.len() % 5 == 0 ==> base32_of(b) != s@,
{
    let c = s.get_char(i);
    if 'A' <= c && c <= 'Z' {
        Some(c as u64 - 65)
    } else if '2' <= c && c <= '7' {
        Some(c as u64 - 24)
    } else {
        proof {
            lemma_no_valid(s@, i as int);
        }
        None
    }
}

/// A string with a character outside the alphabet encodes no payload.
proof fn lemma_no_valid(s: Seq<char>, i: int)
    requires
        0 <= i < s.len(),
        char_val(s[i]) == -1,
    ensures
        forall|b: Seq<u8>| b.len() % 5 == 0 ==> base32_of(b) != s,
{
    assert forall|b: Seq<u8>| b.len() % 5 == 0 implies base32_of(b) != s by {
        if base32_of(b) == s {
            let g = i / 8;
            let k = i % 8;
            lemma_fundamental_div_mod(i, 8);
            assert(s[i] == b32_sym(b32_digit(group_val(b, g), k)) as char);
            lemma_digit_bound(group_val(b, g), k);
            lemma_char_val_sym(b32_digit(group_val(b, g), k));
        }
    }
}

/// A string whose length is not a multiple of eight encodes no payload.
proof fn lemma_no_valid_len(s: Seq<char>)
    requires
        s.len() % 8 != 0,
    ensures
        forall|b: Seq<u8>| b.len() % 5 == 0 ==> base32_of(b) != s,
{
    assert forall|b: Seq<u8>| b.len() % 5 == 0 implies base32_of(b) != s by {
        if base32_of(b) == s {
            let q: int = b.len() as int / 5;
            assert(s.len() == q * 8);
            lemma_fundamental_div_mod_converse(q * 8, 8, q, 0);
        }
    }
}

/// Decodes the eight characters of group `g` of `s` into five bytes pushed
/// onto `out`; `false` means a character outside the alphabet, so `s` is no
/// encoding at all.
fn decode_group(s: &str, g: usize, out: &mut Vec<u8>) -> (ok: bool)
    requires
        8 * g + 8 <= s@.len(),
        s@.len() <= usize::MAX,
        old(out)@.len() == 5 * g,
    ensures
        !ok ==> forall|b: Seq<u8>| b.len() % 5 == 0 ==> base32_of(b) != s@,
        ok ==> final(out)@.len() == 5 * (g + 1) && final(out)@.take(5 * g as int) == old(out)@
            && group_matches(s@, final(out)@, g as int),
{
    let base = 8 * g;
    let d0 = match read_sym(s, base) {
        Some(d) => d,
        None => {
            return false;
        },
    };
    let d1 = match read_sym(s, base + 1) {
        Some(d) => d,
        None => {
            return false;
        },
    };
    let d2 = match read_sym(s, base + 2) {
        Some(d) => d,
        None => {
            return false;
        },
    };
    let d3 = match read_sym(s, base + 3) {
        Some(d) => d,
        None => {
            return false;
        },
    };
    let d4 = match read_sym(s, base + 4) {
        Some(d) => d,
        None => {
            return false;
        },
    };
    let d5 = match read_sym(s, base + 5) {
        Some(d) => d,
        None => {
            return false;
        },
    };
    let d6 = match read_sym(s, base + 6) {
        Some(d) => d,
        None => {
            return false;
        },
    };
    let d7 = match read_sym(s, base + 7) {
        Some(d) => d,
        None => {
            return false;
        },
    };
    let v: u64 = ((((((d0 * 32 + d1) * 32 + d2) * 32 + d3) * 32 + d4) * 32 + d5) * 32 + d6) * 32
        + d7;
    proof {
        lemma_horner(d0, d1, d2, d3, d4, d5, d6, d7, v);
        lemma_recompose_bytes(v);
    }
    let ghost prev = out@;
    out.push(((v >> 32) & 255) as u8);
    out.push(((v >> 24) & 255) as u8);
    out.push(((v >> 16) & 255) as u8);
    out.push(((v >> 8) & 255) as u8);
    out.push((v & 255) as u8);
    proof {
        assert(out@ =~= prev + seq![
            ((v >> 32) & 255) as u8,
            ((v >> 24) & 255) as u8,
            ((v >> 16) & 255) as u8,
            ((v >> 8) & 255) as u8,
            (v & 255) as u8,
        ]);
        let gi = g as int;
        assert(out@.take(5 * gi) =~= prev);
        assert(out@[5 * gi] == ((v >> 32) & 255) as u8);
        assert(out@[5 * gi + 1] == ((v >> 24) & 255) as u8);
        assert(out@[5 * gi + 2] == ((v >> 16) & 255) as u8);
        assert(out@[5 * gi + 3] == ((v >> 8) & 255) as u8);
        assert(out@[5 * gi + 4] == (v & 255) as u8);
        assert(group_val(out@, gi) == v);
        assert(v >> 0 == v) by (bit_vector);
        assert(b32_digit(v, 0) == d0);
        assert(b32_digit(v, 1) == d1);
        assert(b32_digit(v, 2) == d2);
        assert(b32_digit(v, 3) == d3);
        assert(b32_digit(v, 4) == d4);
        assert(b32_digit(v, 5) == d5);
        assert(b32_digit(v, 6) == d6);
        assert(b32_digit(v, 7) == d7);
        assert forall|k: int| 0 <= k < 8 implies s@[8 * gi + k] == b32_sym(
            b32_digit(group_val(out@, gi), k),
        ) as char by {
            let c = s@[8 * gi + k];
            assert(0 <= char_val(c) < 32);
            assert(b32_digit(v, k) == char_val(c));
            lemma_sym_char_val(c);
        }
    }
    true
}

/// Decodes an unpadded base32 string into the unique payload that encodes
/// to it, or `None` when there is no such payload.
pub fn base32_decode(s: &str) -> (r: Option<Vec<u8>>)
    ensures
        r matches Some(v) ==> v@.len() % 5 == 0 && base32_of(v@) == s@,
        forall|b: Seq<u8>|
            b.len() % 5 == 0 && base32_of(b) == s@ ==> (r matches Some(v) && v@ == b),
{
    let n = s.unicode_len();
    if n % 8 != 0 {
        proof {
            lemma_no_valid_len(s@);
        }
        return None;
    }
    let groups = n / 8;
    proof {
        lemma_fundamental_div_mod(n as int, 8);
    }
    let mut out: Vec<u8> = Vec::new();
    let mut g: usize = 0;
    while g < groups
        invariant
            groups == n / 8,
            n == s@.len(),
            n == 8 * groups,
            g <= groups,
            out@.len() == 5 * g,
            out@.len() % 5 == 0,
            forall|gg: int| 0 <= gg < g ==> group_matches(s@, out@, gg),
        decreases groups - g,
    {
        let ghost prev = out@;
        if !decode_group(s, g, &mut out) {
            return None;
        }
        proof {
            assert forall|gg: int| 0 <= gg < g + 1 implies group_matches(s@, out@, gg) by {
                if gg < g {
                    assert(group_matches(s@, prev, gg));
                    assert(out@.take(5 * g as int) == prev);
                    assert(group_val(out@, gg) == group_val(prev, gg));
                }
            }
        }
        g = g + 1;
    }
    proof {
        lemma_groups_to_encoding(s@, out@);
    }
    assert forall|b: Seq<u8>| b.len() % 5 == 0 && base32_of(b) == s@ implies out@ == b by {
        lemma_base32_injective(out@, b);
    }
    Some(out)
}

/// Every encoded symbol is an ASCII byte.
pub proof fn lemma_base32_ascii(b: Seq<u8>)
    ensures
        forall|i: int| 0 <= i < base32_bytes(b).len() ==> base32_bytes(b)[i] < 128,
{
    assert forall|i: int| 0 <= i < base32_bytes(b).len() implies base32_bytes(b)[i] < 128 by {
        let g = i / 8;
        let k = i % 8;
        lemma_digit_bound(group_val(b, g), k);
        assert(base32_bytes(b)[i] == b32_sym(b32_digit(group_val(b, g), k)));
    }
}

} // verus!
