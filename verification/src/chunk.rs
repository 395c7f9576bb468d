//! The chunk codec: groups of up to five bytes against groups of up to eight
//! symbols.

use crate::alphabet::{
    decode_symbol, encode_symbol, is_symbol, lemma_symbol_of_value, lemma_value_of_symbol,
    value_of, ALPHA, PAD_CHAR,
};
use crate::radix::{le_value, lemma_le_value_zero_extended, low_bytes, pow256};
use vstd::prelude::*;

verus! {

/// Bytes in a full group: 40 bits, the least common multiple of 5 and 8.
pub const RAW_BYTES_PER_CHUNK: usize = 5;

/// Symbols in a full group.
pub const ENCODED_BYTES_PER_CHUNK: usize = 8;

/// `s`, filled up on the right with `fill` to the length `size`; `s` itself
/// where it is that long already.
pub open spec fn spec_ljust(s: Seq<u8>, size: nat, fill: u8) -> Seq<u8> {
    if s.len() >= size {
        s
    } else {
        s + Seq::new((size - s.len()) as nat, |i: int| fill)
    }
}

/// Left-justifies `s` in a field of `size` bytes.
pub fn ljust(s: &[u8], size: usize, fill: u8) -> (out: Vec<u8>)
    ensures
        out@ == spec_ljust(s@, size as nat, fill),
{
    let mut out: Vec<u8> = Vec::new();
    out.extend_from_slice(s);
    while out.len() < size
        invariant
            s@.len() <= out@.len(),
            out@.len() <= size || out@.len() == s@.len(),
            out@ == s@ + Seq::new((out@.len() - s@.len()) as nat, |i: int| fill),
        decreases size - out.len(),
    {
        out.push(fill);
    }
    proof {
        if s@.len() >= size {
            assert(out@ =~= s@);
        }
    }
    out
}

/// How many symbols carry the bits of a group of `raw_len` bytes.
pub open spec fn significant_symbols(raw_len: nat) -> nat {
    if raw_len == 1 {
        2
    } else if raw_len == 2 {
        4
    } else if raw_len == 3 {
        5
    } else if raw_len == 4 {
        7
    } else if raw_len == 5 {
        8
    } else {
        0
    }
}

/// The `n` low 5-bit digits of `v` as symbols, least significant first.
pub open spec fn value_symbols(v: nat, n: nat) -> Seq<u8>
    decreases n,
{
    if n == 0 {
        Seq::empty()
    } else {
        seq![ALPHA@[(v % 32) as int]] + value_symbols(v / 32, (n - 1) as nat)
    }
}

/// The eight characters that stand for a group of one to five bytes: the
/// significant symbols of the group's little-endian value, then pad
/// characters.
pub open spec fn encode_group(chunk: Seq<u8>) -> Seq<u8>
    recommends
        1 <= chunk.len() <= 5,
{
    let n = significant_symbols(chunk.len());
    value_symbols(le_value(chunk), n) + Seq::new((8 - n) as nat, |i: int| PAD_CHAR)
}

/// The encoding of a byte string: its groups of five bytes, the last one
/// possibly shorter, each encoded by itself.
pub open spec fn spec_raw_encode(s: Seq<u8>) -> Seq<u8>
    decreases s.len(),
{
    if s.len() == 0 {
        Seq::empty()
    } else if s.len() <= 5 {
        encode_group(s)
    } else {
        encode_group(s.take(5)) + spec_raw_encode(s.skip(5))
    }
}

/// A number has as many digits as are asked for.
pub proof fn lemma_value_symbols_len(v: nat, n: nat)
    ensures
        value_symbols(v, n).len() == n,
    decreases n,
{
    if n > 0 {
        lemma_value_symbols_len(v / 32, (n - 1) as nat);
    }
}

/// The little-endian value of at most five bytes.
fn pack_bytes(bytes: &[u8]) -> (val: u64)
    requires
        bytes@.len() <= 5,
    ensures
        val == le_value(bytes@),
{
    let mut val: u64 = 0;
    let mut i: usize = bytes.len();
    while i > 0
        invariant
            i <= bytes@.len() <= 5,
            val == le_value(bytes@.skip(i as int)),
            val < pow256((bytes@.len() - i) as nat),
        decreases i,
    {
        i -= 1;
        let c = bytes[i];
        proof {
            assert(bytes@.skip(i as int).drop_first() =~= bytes@.skip(i + 1));
            reveal_with_fuel(pow256, 6);
            let v = val;
            assert((v << 8) | (c as u64) == v * 256 + c) by (bit_vector)
                requires
                    v < 0x1_0000_0000u64,
            ;
        }
        val = (val << 8) | (c as u64);
    }
    proof {
        assert(bytes@.skip(0) =~= bytes@);
    }
    val
}

/// Appends the `n` low 5-bit digits of `val` to `out`, as symbols.
fn push_symbols(out: &mut Vec<u8>, val: u64, n: usize)
    ensures
        final(out)@ == old(out)@ + value_symbols(val as nat, n as nat),
{
    let mut val = val;
    let ghost start = val;
    let mut k: usize = 0;
    while k < n
        invariant
            k <= n,
            out@ + value_symbols(val as nat, (n - k) as nat) == old(out)@ + value_symbols(
                start as nat,
                n as nat,
            ),
        decreases n - k,
    {
        let digit = (val & 0x1f) as u8;
        proof {
            let v = val;
            assert(v & 0x1f == v % 32) by (bit_vector);
            assert(v >> 5 == v / 32) by (bit_vector);
            assert(out@.push(ALPHA@[digit as int]) + value_symbols(
                (val / 32) as nat,
                (n - k - 1) as nat,
            ) =~= out@ + value_symbols(val as nat, (n - k) as nat));
        }
        out.push(encode_symbol(digit));
        val = val >> 5;
        k += 1;
    }
    proof {
        assert(out@ + value_symbols(val as nat, 0) =~= out@);
    }
}

/// Encodes a byte string group by group.
pub fn raw_encode(s: &[u8]) -> (out: Vec<u8>)
    ensures
        out@ == spec_raw_encode(s@),
{
    let mut out: Vec<u8> = Vec::new();
    let mut start: usize = 0;
    proof {
        assert(s@.skip(0) =~= s@);
        assert(out@ + spec_raw_encode(s@) =~= spec_raw_encode(s@));
    }
    while start < s.len()
        invariant
            start <= s@.len(),
            spec_raw_encode(s@) == out@ + spec_raw_encode(s@.skip(start as int)),
        decreases s.len() - start,
    {
        let end = if s.len() - start > RAW_BYTES_PER_CHUNK {
            start + RAW_BYTES_PER_CHUNK
        } else {
            s.len()
        };
        let ins = &s[start..end];
        let padded = ljust(ins, RAW_BYTES_PER_CHUNK, 0);
        let val = pack_bytes(padded.as_slice());
        let pad_start: usize = match ins.len() {
            1 => 2,
            2 => 4,
            3 => 5,
            4 => 7,
            _ => 8,
        };
        let ghost before = out@;
        push_symbols(&mut out, val, pad_start);
        let mut k: usize = pad_start;
        while k < ENCODED_BYTES_PER_CHUNK
            invariant
                pad_start <= k <= 8,
                out@ == before + value_symbols(val as nat, pad_start as nat) + Seq::new(
                    (k - pad_start) as nat,
                    |i: int| PAD_CHAR,
                ),
            decreases 8 - k,
        {
            out.push(PAD_CHAR);
            k += 1;
        }
        proof {
            let rest = s@.skip(start as int);
            let chunk = s@.subrange(start as int, end as int);
            assert(ins@ == chunk);
            lemma_le_value_zero_extended(chunk, Seq::new((5 - chunk.len()) as nat, |i: int| 0u8));
            assert(val == le_value(chunk));
            assert(out@ == before + encode_group(chunk));
            if rest.len() <= 5 {
                assert(chunk =~= rest);
                assert(s@.skip(end as int) =~= Seq::<u8>::empty());
            } else {
                assert(chunk =~= rest.take(5));
                assert(s@.skip(end as int) =~= rest.skip(5));
            }
        }
        start = end;
    }
    proof {
        assert(spec_raw_encode(s@.skip(start as int)) =~= Seq::<u8>::empty());
    }
    out
}

/// A result that holds bytes, with the bytes as a sequence.
pub open spec fn view_ok<E>(r: Result<Vec<u8>, E>) -> Result<Seq<u8>, E> {
    match r {
        Ok(bytes) => Ok(bytes@),
        Err(e) => Err(e),
    }
}

/// Why a run of characters is not the encoding of any bytes.
#[derive(Debug, Clone, Copy, PartialEq, Eq)]
pub enum ChunkError {
    /// A group of no characters at all.
    InvalidChunkLength,
    /// A full group whose pad characters leave a number of symbols that no
    /// group of bytes produces.
    InvalidPadding,
    /// A character that is not in the alphabet, where a symbol must stand.
    InvalidCharacter(u8),
}

/// The length of `s` without the pad characters at its end.
pub open spec fn significant_len(s: Seq<u8>) -> nat
    decreases s.len(),
{
    if s.len() == 0 {
        0
    } else if s.last() != PAD_CHAR {
        s.len()
    } else {
        significant_len(s.drop_last())
    }
}

/// A group without its padding, and the number of bytes it stands for.
///
/// A full group of eight must end in 0, 1, 3, 4 or 6 pad characters and
/// stands for 5, 4, 3, 2 or 1 bytes. A shorter group carries no padding and
/// stands for as many bytes as its symbols have begun.
pub open spec fn spec_strip_padding(s: Seq<u8>) -> Result<(Seq<u8>, nat), ChunkError>
    recommends
        s.len() <= 8,
{
    if s.len() == 0 {
        Err(ChunkError::InvalidChunkLength)
    } else if s.len() < 8 {
        Ok((s, ((s.len() * 5 + 7) / 8) as nat))
    } else {
        let n = significant_len(s);
        if n == 8 || n == 7 || n == 5 || n == 4 || n == 2 {
            Ok((s.take(n as int), (n * 5 / 8) as nat))
        } else {
            Err(ChunkError::InvalidPadding)
        }
    }
}

/// The significant length ends behind a character that is no pad character,
/// and only pad characters follow it.
pub proof fn lemma_significant_len(s: Seq<u8>)
    ensures
        significant_len(s) <= s.len(),
        significant_len(s) > 0 ==> s[significant_len(s) - 1] != PAD_CHAR,
        forall|i: int| significant_len(s) <= i < s.len() ==> s[i] == PAD_CHAR,
    decreases s.len(),
{
    if s.len() > 0 && s.last() == PAD_CHAR {
        let front = s.drop_last();
        lemma_significant_len(front);
        assert forall|i: int| significant_len(s) <= i < s.len() implies s[i] == PAD_CHAR by {
            if i < front.len() {
                assert(s[i] == front[i]);
            }
        }
        if significant_len(s) > 0 {
            assert(s[significant_len(s) - 1] == front[significant_len(front) - 1]);
        }
    }
}

/// Takes the padding off a group of at most eight characters.
pub fn strip_padding(s: &[u8]) -> (r: Result<(Vec<u8>, usize), ChunkError>)
    requires
        s@.len() <= 8,
    ensures
        match r {
            Ok((symbols, raw_count)) => spec_strip_padding(s@) == Ok::<
                (Seq<u8>, nat),
                ChunkError,
            >((symbols@, raw_count as nat)),
            Err(e) => spec_strip_padding(s@) == Err::<(Seq<u8>, nat), ChunkError>(e),
        },
{
    if s.len() < ENCODED_BYTES_PER_CHUNK {
        let raw_count: usize = match s.len() {
            7 => 5,
            6 => 4,
            5 => 4,
            4 => 3,
            3 => 2,
            2 => 2,
            1 => 1,
            _ => { return Err(ChunkError::InvalidChunkLength); },
        };
        let mut out: Vec<u8> = Vec::new();
        out.extend_from_slice(s);
        proof {
            assert(out@ =~= s@);
        }
        return Ok((out, raw_count));
    }
    let mut n: usize = s.len();
    proof {
        assert(s@.take(n as int) =~= s@);
    }
    while n > 0 && s[n - 1] == PAD_CHAR
        invariant
            n <= s@.len(),
            significant_len(s@) == significant_len(s@.take(n as int)),
        decreases n,
    {
        proof {
            assert(s@.take(n as int).drop_last() =~= s@.take(n - 1));
        }
        n -= 1;
    }
    proof {
        if n == s@.len() {
            assert(s@.take(n as int) =~= s@);
        }
    }
    let raw_count: usize = match n {
        8 => 5,
        7 => 4,
        5 => 3,
        4 => 2,
        2 => 1,
        _ => { return Err(ChunkError::InvalidPadding); },
    };
    let mut out: Vec<u8> = Vec::new();
    out.extend_from_slice(&s[0..n]);
    proof {
        assert(out@ =~= s@.take(n as int));
    }
    Ok((out, raw_count))
}

/// The number that a run of symbols spells in base 32, the first symbol
/// being the least significant; or, where some character is no symbol, the
/// last such character.
pub open spec fn symbols_value(symbols: Seq<u8>) -> Result<nat, u8>
    decreases symbols.len(),
{
    if symbols.len() == 0 {
        Ok(0)
    } else {
        match symbols_value(symbols.drop_first()) {
            Err(c) => Err(c),
            Ok(rest) => if is_symbol(symbols[0]) {
                Ok(value_of(symbols[0]) as nat + 32 * rest)
            } else {
                Err(symbols[0])
            },
        }
    }
}

/// The bytes that a group of one to eight characters stands for: the low
/// bytes of the number that its symbols spell.
pub open spec fn decode_group(group: Seq<u8>) -> Result<Seq<u8>, ChunkError>
    recommends
        1 <= group.len() <= 8,
{
    match spec_strip_padding(group) {
        Err(e) => Err(e),
        Ok((symbols, raw_count)) => match symbols_value(symbols) {
            Err(c) => Err(ChunkError::InvalidCharacter(c)),
            Ok(v) => Ok(low_bytes(v, raw_count)),
        },
    }
}

/// The bytes that a run of characters stands for: its groups of eight, the
/// last one possibly shorter, each decoded by itself; or what is wrong with
/// the first group that is not valid.
pub open spec fn spec_raw_decode(s: Seq<u8>) -> Result<Seq<u8>, ChunkError>
    decreases s.len(),
{
    if s.len() == 0 {
        Ok(Seq::empty())
    } else if s.len() <= 8 {
        decode_group(s)
    } else {
        match decode_group(s.take(8)) {
            Err(e) => Err(e),
            Ok(first) => match spec_raw_decode(s.skip(8)) {
                Err(e) => Err(e),
                Ok(rest) => Ok(first + rest),
            },
        }
    }
}

/// 32 to the power `n`.
pub open spec fn pow32(n: nat) -> nat
    decreases n,
{
    if n == 0 {
        1
    } else {
        32 * pow32((n - 1) as nat)
    }
}

/// A run of `n` symbols spells a number below 32 to the `n`.
pub proof fn lemma_symbols_value_bound(symbols: Seq<u8>)
    ensures
        symbols_value(symbols) matches Ok(v) ==> v < pow32(symbols.len()),
    decreases symbols.len(),
{
    if symbols.len() > 0 {
        lemma_symbols_value_bound(symbols.drop_first());
        if is_symbol(symbols[0]) {
            lemma_symbol_of_value(symbols[0]);
        }
    }
}

/// Symbols of value zero after the last symbol change neither the number
/// nor the character found at fault.
pub proof fn lemma_symbols_value_zero_extended(symbols: Seq<u8>, zeros: Seq<u8>)
    requires
        forall|i: int| 0 <= i < zeros.len() ==> zeros[i] == ALPHA@[0],
    ensures
        symbols_value(symbols + zeros) == symbols_value(symbols),
    decreases symbols.len() + zeros.len(),
{
    if symbols.len() > 0 {
        assert((symbols + zeros).drop_first() =~= symbols.drop_first() + zeros);
        lemma_symbols_value_zero_extended(symbols.drop_first(), zeros);
    } else if zeros.len() > 0 {
        assert(symbols + zeros =~= zeros);
        assert(zeros.drop_first() =~= Seq::<u8>::empty() + zeros.drop_first());
        lemma_symbols_value_zero_extended(Seq::empty(), zeros.drop_first());
        lemma_value_of_symbol(0);
    } else {
        assert(symbols + zeros =~= symbols);
    }
}

/// The number that at most eight symbols spell, or the last character among
/// them that is no symbol.
fn unpack_symbols(symbols: &[u8]) -> (r: Result<u64, u8>)
    requires
        symbols@.len() <= 8,
    ensures
        match r {
            Ok(val) => symbols_value(symbols@) == Ok::<nat, u8>(val as nat),
            Err(c) => symbols_value(symbols@) == Err::<nat, u8>(c),
        },
{
    let mut val: u64 = 0;
    let mut i: usize = symbols.len();
    while i > 0
        invariant
            i <= symbols@.len() <= 8,
            symbols_value(symbols@.skip(i as int)) == Ok::<nat, u8>(val as nat),
            val < pow32((symbols@.len() - i) as nat),
        decreases i,
    {
        i -= 1;
        let c = symbols[i];
        proof {
            assert(symbols@.skip(i as int).drop_first() =~= symbols@.skip(i + 1));
        }
        match decode_symbol(c) {
            Some(d) => {
                proof {
                    lemma_symbol_of_value(c);
                    reveal_with_fuel(pow32, 9);
                    let v = val;
                    assert((v << 5) | (d as u64) == v * 32 + d) by (bit_vector)
                        requires
                            v < 0x8_0000_0000u64,
                            d < 32,
                    ;
                }
                val = (val << 5) | (d as u64);
            },
            None => {
                proof {
                    lemma_skip_error(symbols@, i as int);
                }
                return Err(c);
            },
        }
    }
    proof {
        assert(symbols@.skip(0) =~= symbols@);
    }
    Ok(val)
}

/// A fault found in a tail of a run of symbols is the fault of the whole
/// run.
proof fn lemma_skip_error(symbols: Seq<u8>, i: int)
    requires
        0 <= i <= symbols.len(),
        symbols_value(symbols.skip(i)) is Err,
    ensures
        symbols_value(symbols) == symbols_value(symbols.skip(i)),
    decreases i,
{
    if i > 0 {
        assert(symbols.skip(i - 1).drop_first() =~= symbols.skip(i));
        lemma_skip_error(symbols, i - 1);
    } else {
        assert(symbols.skip(0) =~= symbols);
    }
}

/// Appends the `n` low bytes of `val` to `out`.
fn push_bytes(out: &mut Vec<u8>, val: u64, n: usize)
    ensures
        final(out)@ == old(out)@ + low_bytes(val as nat, n as nat),
{
    let mut val = val;
    let ghost start = val;
    let mut k: usize = 0;
    while k < n
        invariant
            k <= n,
            out@ + low_bytes(val as nat, (n - k) as nat) == old(out)@ + low_bytes(
                start as nat,
                n as nat,
            ),
        decreases n - k,
    {
        let byte = (val & 0xff) as u8;
        proof {
            let v = val;
            assert(v & 0xff == v % 256) by (bit_vector);
            assert(v >> 8 == v / 256) by (bit_vector);
            assert(out@.push(byte) + low_bytes((val / 256) as nat, (n - k - 1) as nat) =~= out@
                + low_bytes(val as nat, (n - k) as nat));
        }
        out.push(byte);
        val = val >> 8;
        k += 1;
    }
    proof {
        assert(out@ + low_bytes(val as nat, 0) =~= out@);
    }
}

/// Decodes a run of characters group by group.
pub fn raw_decode(s: &[u8]) -> (r: Result<Vec<u8>, ChunkError>)
    ensures
        view_ok(r) == spec_raw_decode(s@),
{
    let mut out: Vec<u8> = Vec::new();
    let mut start: usize = 0;
    proof {
        assert(s@.skip(0) =~= s@);
        if let Ok(all) = spec_raw_decode(s@) {
            assert(out@ + all =~= all);
        }
    }
    while start < s.len()
        invariant
            start <= s@.len(),
            spec_raw_decode(s@) == match spec_raw_decode(s@.skip(start as int)) {
                Ok(rest) => Ok(out@ + rest),
                Err(e) => Err(e),
            },
        decreases s.len() - start,
    {
        let end = if s.len() - start > ENCODED_BYTES_PER_CHUNK {
            start + ENCODED_BYTES_PER_CHUNK
        } else {
            s.len()
        };
        let ins = &s[start..end];
        proof {
            let rest = s@.skip(start as int);
            if rest.len() <= 8 {
                assert(ins@ =~= rest);
                assert(s@.skip(end as int) =~= Seq::<u8>::empty());
            } else {
                assert(ins@ =~= rest.take(8));
                assert(s@.skip(end as int) =~= rest.skip(8));
            }
        }
        let (stripped, raw_count) = match strip_padding(ins) {
            Ok(pair) => pair,
            Err(e) => { return Err(e); },
        };
        let padded = ljust(stripped.as_slice(), ENCODED_BYTES_PER_CHUNK, ALPHA[0]);
        proof {
            lemma_significant_len(ins@);
            lemma_symbols_value_zero_extended(
                stripped@,
                Seq::new((8 - stripped@.len()) as nat, |i: int| ALPHA@[0]),
            );
        }
        let val = match unpack_symbols(padded.as_slice()) {
            Ok(val) => val,
            Err(c) => { return Err(ChunkError::InvalidCharacter(c)); },
        };
        let ghost before = out@;
        push_bytes(&mut out, val, raw_count);
        proof {
            let first = low_bytes(val as nat, raw_count as nat);
            assert(decode_group(ins@) == Ok::<Seq<u8>, ChunkError>(first));
            match spec_raw_decode(s@.skip(end as int)) {
                Ok(rest) => {
                    assert(before + (first + rest) =~= out@ + rest);
                    assert(first + Seq::<u8>::empty() =~= first);
                },
                Err(e) => {},
            }
        }
        start = end;
    }
    proof {
        assert(s@.skip(start as int) =~= Seq::<u8>::empty());
        assert(out@ + Seq::<u8>::empty() =~= out@);
    }
    Ok(out)
}

/// The number of groups that `raw_len` bytes fill or begin.
pub open spec fn group_count(raw_len: nat) -> nat {
    (raw_len + 4) / 5
}

/// An encoding is made of whole groups of eight characters, one for every
/// five bytes or part of five.
pub proof fn lemma_raw_encode_len(s: Seq<u8>)
    ensures
        spec_raw_encode(s).len() == 8 * group_count(s.len()),
    decreases s.len(),
{
    if s.len() == 0 {
    } else if s.len() <= 5 {
        lemma_value_symbols_len(le_value(s), significant_symbols(s.len()));
    } else {
        lemma_value_symbols_len(le_value(s.take(5)), 8);
        lemma_raw_encode_len(s.skip(5));
    }
}

} // verus!
