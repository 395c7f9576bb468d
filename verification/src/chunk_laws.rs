//! What holds of the chunk codec: decoding undoes encoding, groups have the
//! shape of the boundary table, no other shape of a full group decodes, and
//! one symbol reaches into two neighbouring bytes at most.

use crate::alphabet::{
    is_symbol, lemma_pad_is_no_symbol, lemma_symbol_of_value, lemma_value_of_symbol, value_of,
    ALPHA, PAD_CHAR,
};
use crate::chunk::{
    decode_group, encode_group, lemma_raw_encode_len, lemma_significant_len,
    lemma_symbols_value_zero_extended, lemma_value_symbols_len, pow32, significant_len,
    significant_symbols, spec_raw_decode, spec_raw_encode, spec_strip_padding, symbols_value,
    value_symbols, ChunkError,
};
use crate::radix::{
    differ_within, le_value, lemma_le_value_bound, lemma_low_bytes_index, lemma_low_bytes_len,
    lemma_low_bytes_of_le_value, low_bytes, pow256,
};
use vstd::prelude::*;

verus! {

/// Every character of `s` is a symbol.
pub open spec fn all_symbols(s: Seq<u8>) -> bool {
    forall|i: int| 0 <= i < s.len() ==> is_symbol(#[trigger] s[i])
}

/// The digits of a number are symbols.
pub proof fn lemma_value_symbols_are_symbols(v: nat, n: nat)
    ensures
        all_symbols(value_symbols(v, n)),
    decreases n,
{
    if n > 0 {
        let rest = value_symbols(v / 32, (n - 1) as nat);
        lemma_value_symbols_are_symbols(v / 32, (n - 1) as nat);
        lemma_value_of_symbol((v % 32) as u8);
        let s = value_symbols(v, n);
        assert forall|i: int| 0 <= i < s.len() implies is_symbol(#[trigger] s[i]) by {
            if i > 0 {
                assert(s[i] == rest[i - 1]);
            }
        }
    }
}

/// A run of characters spells a number exactly when all of them are symbols.
pub proof fn lemma_symbols_value_ok(s: Seq<u8>)
    ensures
        symbols_value(s) is Ok <==> all_symbols(s),
    decreases s.len(),
{
    if s.len() > 0 {
        let rest = s.drop_first();
        lemma_symbols_value_ok(rest);
        if all_symbols(s) {
            assert forall|i: int| 0 <= i < rest.len() implies is_symbol(#[trigger] rest[i]) by {
                assert(rest[i] == s[i + 1]);
            }
            assert(is_symbol(s[0]));
        }
        if symbols_value(s) is Ok {
            assert forall|i: int| 0 <= i < s.len() implies is_symbol(#[trigger] s[i]) by {
                if i > 0 {
                    assert(s[i] == rest[i - 1]);
                }
            }
        }
    }
}

/// The `n` digits of a number spell the number again, as far as it fits in
/// `n` digits.
pub proof fn lemma_symbols_value_of_value_symbols(v: nat, n: nat)
    ensures
        symbols_value(value_symbols(v, n)) == Ok::<nat, u8>(v % pow32(n)),
    decreases n,
{
    if n > 0 {
        let rest = value_symbols(v / 32, (n - 1) as nat);
        lemma_symbols_value_of_value_symbols(v / 32, (n - 1) as nat);
        assert(value_symbols(v, n).drop_first() =~= rest);
        lemma_value_of_symbol((v % 32) as u8);
        lemma_pow32_positive((n - 1) as nat);
        vstd::arithmetic::div_mod::lemma_breakdown(v as int, 32, pow32((n - 1) as nat) as int);
    }
}

pub proof fn lemma_pow32_positive(n: nat)
    ensures
        pow32(n) > 0,
    decreases n,
{
    if n > 0 {
        lemma_pow32_positive((n - 1) as nat);
    }
}

/// The significant symbols of a group have room for all the bits of its
/// bytes.
pub proof fn lemma_symbols_hold_bytes(raw_len: nat)
    requires
        1 <= raw_len <= 5,
    ensures
        pow256(raw_len) <= pow32(significant_symbols(raw_len)),
        significant_symbols(raw_len) * 5 / 8 == raw_len,
{
    reveal_with_fuel(pow256, 6);
    reveal_with_fuel(pow32, 9);
}

/// The first digits of a number are the digits of the number.
pub proof fn lemma_value_symbols_take(v: nat, n: nat, m: nat)
    requires
        m <= n,
    ensures
        value_symbols(v, n).take(m as int) == value_symbols(v, m),
    decreases m,
{
    lemma_value_symbols_len(v, n);
    if m > 0 {
        lemma_value_symbols_take(v / 32, (n - 1) as nat, (m - 1) as nat);
        lemma_value_symbols_len(v / 32, (n - 1) as nat);
        assert(value_symbols(v, n).take(m as int) =~= seq![ALPHA@[(v % 32) as int]] + value_symbols(
            v / 32,
            (n - 1) as nat,
        ).take(m - 1));
    } else {
        assert(value_symbols(v, n).take(0) =~= value_symbols(v, 0));
    }
}

/// The boundary table: a group of 1, 2, 3, 4 or 5 bytes becomes eight
/// characters, of which the first 2, 4, 5, 7 or 8 are symbols and all the
/// others are pad characters.
pub proof fn lemma_group_shape(chunk: Seq<u8>)
    requires
        1 <= chunk.len() <= 5,
    ensures
        spec_raw_encode(chunk) == encode_group(chunk),
        encode_group(chunk).len() == 8,
        significant_len(encode_group(chunk)) == significant_symbols(chunk.len()),
        forall|i: int|
            0 <= i < significant_symbols(chunk.len()) ==> is_symbol(
                #[trigger] encode_group(chunk)[i],
            ),
        forall|i: int|
            significant_symbols(chunk.len()) <= i < 8 ==> #[trigger] encode_group(chunk)[i]
                == PAD_CHAR,
        encode_group(chunk).take(significant_symbols(chunk.len()) as int) == value_symbols(
            le_value(chunk),
            significant_symbols(chunk.len()),
        ),
{
    let n = significant_symbols(chunk.len());
    let symbols = value_symbols(le_value(chunk), n);
    let g = encode_group(chunk);
    lemma_value_symbols_len(le_value(chunk), n);
    lemma_value_symbols_are_symbols(le_value(chunk), n);
    assert forall|i: int| 0 <= i < n implies is_symbol(#[trigger] g[i]) by {
        assert(g[i] == symbols[i]);
    }
    assert(g.take(n as int) =~= symbols);
    lemma_significant_len_of_padded(g, n);
}

/// Where symbols are followed by nothing but pad characters, the
/// significant length is the number of the symbols.
pub proof fn lemma_significant_len_of_padded(g: Seq<u8>, n: nat)
    requires
        n <= g.len(),
        n > 0 ==> is_symbol(g[n - 1]),
        forall|i: int| n <= i < g.len() ==> g[i] == PAD_CHAR,
    ensures
        significant_len(g) == n,
    decreases g.len(),
{
    if g.len() > n {
        let front = g.drop_last();
        assert forall|i: int| n <= i < front.len() implies front[i] == PAD_CHAR by {
            assert(front[i] == g[i]);
        }
        if n > 0 {
            assert(front[n - 1] == g[n - 1]);
        }
        lemma_significant_len_of_padded(front, n);
    } else if n > 0 {
        lemma_symbol_of_value(g[n - 1]);
    }
}

/// Decoding undoes the encoding of a group.
pub proof fn lemma_decode_encode_group(chunk: Seq<u8>)
    requires
        1 <= chunk.len() <= 5,
    ensures
        decode_group(encode_group(chunk)) == Ok::<Seq<u8>, ChunkError>(chunk),
{
    let n = significant_symbols(chunk.len());
    let v = le_value(chunk);
    lemma_group_shape(chunk);
    lemma_symbols_hold_bytes(chunk.len());
    lemma_symbols_value_of_value_symbols(v, n);
    lemma_le_value_bound(chunk);
    vstd::arithmetic::div_mod::lemma_small_mod(v, pow32(n));
    lemma_low_bytes_of_le_value(chunk);
}

/// Decoding undoes encoding: the encoding of any byte string decodes, and
/// to that byte string.
pub proof fn lemma_raw_decode_encode(s: Seq<u8>)
    ensures
        spec_raw_decode(spec_raw_encode(s)) == Ok::<Seq<u8>, ChunkError>(s),
    decreases s.len(),
{
    if s.len() == 0 {
        assert(s =~= Seq::<u8>::empty());
    } else if s.len() <= 5 {
        lemma_group_shape(s);
        lemma_decode_encode_group(s);
    } else {
        let first = s.take(5);
        let rest = s.skip(5);
        lemma_group_shape(first);
        lemma_decode_encode_group(first);
        lemma_raw_decode_encode(rest);
        lemma_raw_encode_len(rest);
        let encoded = spec_raw_encode(s);
        assert(encoded.len() > 8);
        assert(encoded.take(8) =~= encode_group(first));
        assert(encoded.skip(8) =~= spec_raw_encode(rest));
        assert(first + rest =~= s);
    }
}

/// A full group of the shape that the encoder gives its groups: `n` symbols,
/// then pad characters.
pub open spec fn has_shape(group: Seq<u8>, n: int) -> bool {
    &&& group.len() == 8
    &&& forall|i: int| 0 <= i < n ==> is_symbol(#[trigger] group[i])
    &&& forall|i: int| n <= i < 8 ==> #[trigger] group[i] == PAD_CHAR
}

/// A full group of one of the five shapes of the boundary table.
pub open spec fn is_valid_group(group: Seq<u8>) -> bool {
    has_shape(group, 8) || has_shape(group, 7) || has_shape(group, 5) || has_shape(group, 4)
        || has_shape(group, 2)
}

/// Padding rejection: a group of eight characters decodes if and only if it
/// has one of the five valid shapes. With any other number of pad characters
/// at its end it is refused for its padding, and with a pad character or a
/// stranger among its symbols for that character.
pub proof fn lemma_padding_rejected(group: Seq<u8>)
    requires
        group.len() == 8,
    ensures
        spec_raw_decode(group) is Ok <==> is_valid_group(group),
        !(significant_len(group) == 8 || significant_len(group) == 7 || significant_len(group) == 5
            || significant_len(group) == 4 || significant_len(group) == 2) ==> spec_raw_decode(
            group,
        ) == Err::<Seq<u8>, ChunkError>(ChunkError::InvalidPadding),
{
    let n = significant_len(group);
    lemma_significant_len(group);
    lemma_pad_is_no_symbol();
    let symbols = group.take(n as int);
    lemma_symbols_value_ok(symbols);
    if is_valid_group(group) {
        let m: int = if has_shape(group, 8) {
            8
        } else if has_shape(group, 7) {
            7
        } else if has_shape(group, 5) {
            5
        } else if has_shape(group, 4) {
            4
        } else {
            2
        };
        assert(has_shape(group, m));
        assert(is_symbol(group[m - 1]));
        lemma_significant_len_of_padded(group, m as nat);
        assert forall|i: int| 0 <= i < symbols.len() implies is_symbol(#[trigger] symbols[i]) by {
            assert(symbols[i] == group[i]);
        }
    }
    if spec_raw_decode(group) is Ok {
        assert forall|i: int| 0 <= i < n implies is_symbol(#[trigger] group[i]) by {
            assert(symbols[i] == group[i]);
        }
        assert(has_shape(group, n as int));
    }
}

/// One 5-bit digit of a 40-bit number reaches into one byte of the number
/// or into two neighbouring bytes: where the digit `i` of `v` is replaced,
/// which gives `w`, every byte that lies wholly below or above the digit is
/// unchanged.
proof fn lemma_digit_reach(
    d0: u64,
    d1: u64,
    d2: u64,
    d3: u64,
    d4: u64,
    d5: u64,
    d6: u64,
    d7: u64,
    e: u64,
    i: u64,
    v: u64,
    w: u64,
)
    by (bit_vector)
    requires
        d0 < 32,
        d1 < 32,
        d2 < 32,
        d3 < 32,
        d4 < 32,
        d5 < 32,
        d6 < 32,
        d7 < 32,
        e < 32,
        i < 8,
        v == d0 + 0x20 * d1 + 0x400 * d2 + 0x8000 * d3 + 0x10_0000 * d4 + 0x200_0000 * d5
            + 0x4000_0000 * d6 + 0x8_0000_0000 * d7,
        w == (if i == 0 { e } else { d0 }) + 0x20 * (if i == 1 { e } else { d1 }) + 0x400 * (if i
            == 2 { e } else { d2 }) + 0x8000 * (if i == 3 { e } else { d3 }) + 0x10_0000 * (if i
            == 4 { e } else { d4 }) + 0x200_0000 * (if i == 5 { e } else { d5 }) + 0x4000_0000 * (
        if i == 6 { e } else { d6 }) + 0x8_0000_0000 * (if i == 7 { e } else { d7 }),
    ensures
        i >= 2 ==> v % 256 == w % 256,
        i == 0 || i >= 4 ==> (v / 256) % 256 == (w / 256) % 256,
        i <= 2 || i >= 5 ==> (v / 256 / 256) % 256 == (w / 256 / 256) % 256,
        i <= 3 || i >= 7 ==> (v / 256 / 256 / 256) % 256 == (w / 256 / 256 / 256) % 256,
        i <= 5 ==> (v / 256 / 256 / 256 / 256) % 256 == (w / 256 / 256 / 256 / 256) % 256,
{
}

/// The number that eight symbols spell, digit by digit.
pub proof fn lemma_eight_digits(s: Seq<u8>, v: nat)
    requires
        s.len() == 8,
        symbols_value(s) == Ok::<nat, u8>(v),
    ensures
        all_symbols(s),
        v == value_of(s[0]) + 0x20 * value_of(s[1]) + 0x400 * value_of(s[2]) + 0x8000 * value_of(
            s[3],
        ) + 0x10_0000 * value_of(s[4]) + 0x200_0000 * value_of(s[5]) + 0x4000_0000 * value_of(s[6])
            + 0x8_0000_0000 * value_of(s[7]),
{
    lemma_symbols_value_ok(s);
    let t1 = s.drop_first();
    let t2 = t1.drop_first();
    let t3 = t2.drop_first();
    let t4 = t3.drop_first();
    let t5 = t4.drop_first();
    let t6 = t5.drop_first();
    let t7 = t6.drop_first();
    let t8 = t7.drop_first();
    assert(t1[0] == s[1] && t2[0] == s[2] && t3[0] == s[3] && t4[0] == s[4] && t5[0] == s[5]
        && t6[0] == s[6] && t7[0] == s[7]);
    assert(symbols_value(t8) == Ok::<nat, u8>(0));
    assert(symbols_value(t7) is Ok);
    assert(symbols_value(t6) is Ok);
    assert(symbols_value(t5) is Ok);
    assert(symbols_value(t4) is Ok);
    assert(symbols_value(t3) is Ok);
    assert(symbols_value(t2) is Ok);
    assert(symbols_value(t1) is Ok);
}

/// The byte of `v` at the index `q`, for the five bytes of a group.
pub open spec fn byte_at(v: nat, q: int) -> nat {
    if q == 0 {
        v % 256
    } else if q == 1 {
        (v / 256) % 256
    } else if q == 2 {
        (v / 256 / 256) % 256
    } else if q == 3 {
        (v / 256 / 256 / 256) % 256
    } else {
        (v / 256 / 256 / 256 / 256) % 256
    }
}

/// Where one of eight symbols is replaced by another, the bytes of the two
/// numbers are equal but at the indices `5 * i / 8` and the next.
proof fn lemma_eight_symbols_window(s: Seq<u8>, i: int, c: u8, v: nat, w: nat)
    requires
        s.len() == 8,
        0 <= i < 8,
        symbols_value(s) == Ok::<nat, u8>(v),
        symbols_value(s.update(i, c)) == Ok::<nat, u8>(w),
    ensures
        forall|q: int|
            0 <= q < 5 && q != 5 * i / 8 && q != 5 * i / 8 + 1 ==> byte_at(v, q) == byte_at(w, q),
{
    let t = s.update(i, c);
    lemma_eight_digits(s, v);
    lemma_eight_digits(t, w);
    lemma_symbol_of_value(s[0]);
    lemma_symbol_of_value(s[1]);
    lemma_symbol_of_value(s[2]);
    lemma_symbol_of_value(s[3]);
    lemma_symbol_of_value(s[4]);
    lemma_symbol_of_value(s[5]);
    lemma_symbol_of_value(s[6]);
    lemma_symbol_of_value(s[7]);
    assert(is_symbol(t[i]));
    lemma_symbol_of_value(c);
    let d0 = value_of(s[0]) as u64;
    let d1 = value_of(s[1]) as u64;
    let d2 = value_of(s[2]) as u64;
    let d3 = value_of(s[3]) as u64;
    let d4 = value_of(s[4]) as u64;
    let d5 = value_of(s[5]) as u64;
    let d6 = value_of(s[6]) as u64;
    let d7 = value_of(s[7]) as u64;
    let e = value_of(c) as u64;
    let vv = v as u64;
    let ww = w as u64;
    assert(vv == v && ww == w);
    assert(t[0] == (if i == 0 { c } else { s[0] }));
    assert(t[1] == (if i == 1 { c } else { s[1] }));
    assert(t[2] == (if i == 2 { c } else { s[2] }));
    assert(t[3] == (if i == 3 { c } else { s[3] }));
    assert(t[4] == (if i == 4 { c } else { s[4] }));
    assert(t[5] == (if i == 5 { c } else { s[5] }));
    assert(t[6] == (if i == 6 { c } else { s[6] }));
    assert(t[7] == (if i == 7 { c } else { s[7] }));
    lemma_digit_reach(d0, d1, d2, d3, d4, d5, d6, d7, e, i as u64, vv, ww);
}

/// One symbol reaches into one byte or into two neighbouring bytes: where
/// one of at most eight symbols is replaced by another, the bytes of the
/// two numbers are equal but at the indices `5 * i / 8` and the next.
pub proof fn lemma_symbols_window(sym: Seq<u8>, i: int, c: u8, raw: nat, v: nat, w: nat)
    requires
        sym.len() <= 8,
        0 <= i < sym.len(),
        raw <= 5,
        symbols_value(sym) == Ok::<nat, u8>(v),
        symbols_value(sym.update(i, c)) == Ok::<nat, u8>(w),
    ensures
        differ_within(low_bytes(v, raw), low_bytes(w, raw), 5 * i / 8),
{
    let zeros = Seq::new((8 - sym.len()) as nat, |j: int| ALPHA@[0]);
    let s = sym + zeros;
    let t = sym.update(i, c) + zeros;
    lemma_symbols_value_zero_extended(sym, zeros);
    lemma_symbols_value_zero_extended(sym.update(i, c), zeros);
    assert(t =~= s.update(i, c));
    lemma_eight_symbols_window(s, i, c, v, w);
    lemma_low_bytes_index(v, raw);
    lemma_low_bytes_index(w, raw);
    let a = low_bytes(v, raw);
    let b = low_bytes(w, raw);
    assert forall|q: int| 0 <= q < a.len() && q != 5 * i / 8 && q != 5 * i / 8 + 1 implies a[q]
        == b[q] by {
        assert(a[q] == byte_at(v, q));
        assert(b[q] == byte_at(w, q));
    }
}

/// Different runs of symbols of one length spell different numbers.
pub proof fn lemma_symbols_value_injective(a: Seq<u8>, b: Seq<u8>)
    requires
        a.len() == b.len(),
        symbols_value(a) is Ok,
        symbols_value(a) == symbols_value(b),
    ensures
        a == b,
    decreases a.len(),
{
    if a.len() > 0 {
        lemma_symbols_value_injective(a.drop_first(), b.drop_first());
        lemma_symbol_of_value(a[0]);
        lemma_symbol_of_value(b[0]);
        assert(a =~= seq![a[0]] + a.drop_first());
        assert(b =~= seq![b[0]] + b.drop_first());
    } else {
        assert(a =~= b);
    }
}

/// Where one character of a group is replaced and the group still decodes,
/// and to as many bytes as before, the bytes are the same but in one place
/// or in two neighbouring places.
pub proof fn lemma_group_window(group: Seq<u8>, i: int, c: u8) -> (p: int)
    requires
        1 <= group.len() <= 8,
        0 <= i < group.len(),
        c != group[i],
        decode_group(group) is Ok,
        decode_group(group.update(i, c)) is Ok,
        decode_group(group)->Ok_0.len() == decode_group(group.update(i, c))->Ok_0.len(),
    ensures
        0 <= p,
        differ_within(decode_group(group)->Ok_0, decode_group(group.update(i, c))->Ok_0, p),
{
    let other = group.update(i, c);
    let (sym, raw) = spec_strip_padding(group)->Ok_0;
    let (sym2, raw2) = spec_strip_padding(other)->Ok_0;
    let v = symbols_value(sym)->Ok_0;
    let w = symbols_value(sym2)->Ok_0;
    lemma_low_bytes_len(v, raw);
    lemma_low_bytes_len(w, raw2);
    if group.len() == 8 {
        let n = significant_len(group);
        lemma_significant_len(group);
        lemma_significant_len(other);
        let n2 = significant_len(other);
        assert(raw == raw2);
        assert(n2 == n);
        if i >= n {
            assert(group[i] == PAD_CHAR);
            assert(other[i] == c);
            assert(other[i] == PAD_CHAR);
        }
        assert(i < n);
        assert(sym2 =~= sym.update(i, c));
    }
    lemma_symbols_window(sym, i, c, raw, v, w);
    5 * i / 8
}

/// Where one character of an encoding is replaced and the whole still
/// decodes, and to as many bytes as before, the bytes are the same but in
/// one place or in two neighbouring places.
pub proof fn lemma_decode_window(s: Seq<u8>, i: int, c: u8) -> (p: int)
    requires
        0 <= i < s.len(),
        c != s[i],
        spec_raw_decode(s) is Ok,
        spec_raw_decode(s.update(i, c)) is Ok,
        spec_raw_decode(s)->Ok_0.len() == spec_raw_decode(s.update(i, c))->Ok_0.len(),
    ensures
        0 <= p,
        differ_within(spec_raw_decode(s)->Ok_0, spec_raw_decode(s.update(i, c))->Ok_0, p),
    decreases s.len(),
{
    let t = s.update(i, c);
    if s.len() <= 8 {
        lemma_group_window(s, i, c)
    } else {
        let first = s.take(8);
        let rest = s.skip(8);
        let f = decode_group(first)->Ok_0;
        let r = spec_raw_decode(rest)->Ok_0;
        let f2 = decode_group(t.take(8))->Ok_0;
        let r2 = spec_raw_decode(t.skip(8))->Ok_0;
        let m = spec_raw_decode(s)->Ok_0;
        let m2 = spec_raw_decode(t)->Ok_0;
        assert(m == f + r);
        assert(m2 == f2 + r2);
        if i < 8 {
            assert(t.skip(8) =~= rest);
            assert(t.take(8) =~= first.update(i, c));
            let p = lemma_group_window(first, i, c);
            assert forall|q: int| 0 <= q < m.len() && q != p && q != p + 1 implies m[q]
                == m2[q] by {
                if q < f.len() {
                    assert(m[q] == f[q] && m2[q] == f2[q]);
                } else {
                    assert(m[q] == r[q - f.len()] && m2[q] == r2[q - f.len()]);
                }
            }
            p
        } else {
            assert(t.take(8) =~= first);
            assert(t.skip(8) =~= rest.update(i - 8, c));
            let p = lemma_decode_window(rest, i - 8, c);
            assert forall|q: int|
                0 <= q < m.len() && q != f.len() + p && q != f.len() + p + 1 implies m[q]
                == m2[q] by {
                if q < f.len() {
                    assert(m[q] == f[q] && m2[q] == f2[q]);
                } else {
                    assert(m[q] == r[q - f.len()] && m2[q] == r2[q - f.len()]);
                }
            }
            f.len() + p
        }
    }
}

} // verus!
