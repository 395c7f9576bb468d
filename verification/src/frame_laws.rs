//! What holds of the line framers: decoding undoes encoding, whatever the
//! stream and the width of the lines; a changed character of a line is
//! brought to light; and the lines have the layout of the format.

use crate::chunk::{
    group_count, lemma_raw_encode_len, lemma_symbols_value_bound, lemma_value_symbols_len, pow32,
    spec_raw_decode, spec_raw_encode, symbols_value, value_symbols, ChunkError,
};
use crate::chunk_laws::{
    lemma_decode_window, lemma_group_shape, lemma_raw_decode_encode,
    lemma_symbols_value_injective, lemma_symbols_value_of_value_symbols, lemma_value_symbols_take,
};
use crate::crc::{crc_bytes, lemma_crc_update_concat, lemma_crc_update_masked, spec_crc_update};
use crate::crc_laws::lemma_crc_detects_burst;
use crate::frame::{
    crc_suffix, spec_decode, spec_decode_from, spec_decode_line, spec_encode,
    spec_encode_from, spec_encode_line, spec_raw_width, DecodeError,
};
use crate::radix::{
    le_value, lemma_le_value_of_low_bytes, lemma_low_bytes_len, low_bytes, pow256,
};
use vstd::prelude::*;

verus! {

/// The four symbols of a checksum are its four 5-bit digits, and they decode
/// to the three bytes that carry the checksum.
pub proof fn lemma_crc_suffix_decodes(crc: u32)
    requires
        crc <= 0xfffff,
    ensures
        crc_suffix(crc) == value_symbols(crc as nat, 4),
        crc_suffix(crc).len() == 4,
        spec_raw_decode(crc_suffix(crc)) == Ok::<Seq<u8>, ChunkError>(low_bytes(crc as nat, 3)),
        le_value(crc_bytes(low_bytes(crc as nat, 3))) == crc,
{
    let bytes = low_bytes(crc as nat, 3);
    lemma_low_bytes_len(crc as nat, 3);
    lemma_le_value_of_low_bytes(crc as nat, 3);
    reveal_with_fuel(pow256, 4);
    reveal_with_fuel(pow32, 5);
    assert(pow256(3) == 0x100_0000);
    assert(pow32(4) == 0x10_0000);
    vstd::arithmetic::div_mod::lemma_small_mod(crc as nat, pow256(3));
    vstd::arithmetic::div_mod::lemma_small_mod(crc as nat, pow32(4));
    assert(le_value(bytes) == crc);
    lemma_group_shape(bytes);
    lemma_value_symbols_take(crc as nat, 5, 4);
    let suffix = crc_suffix(crc);
    assert(suffix =~= value_symbols(crc as nat, 5).take(4));
    lemma_symbols_value_of_value_symbols(crc as nat, 4);
    lemma_value_symbols_len(crc as nat, 4);
}

/// A line of the encoder decodes to its segment, and its checksum is found
/// right.
pub proof fn lemma_line_decodes(segment: Seq<u8>, number: usize, crc: u32)
    requires
        segment.len() > 0,
    ensures
        spec_decode_line(spec_encode_line(segment, spec_crc_update(segment, crc)), number, crc) == Ok::<
            (Seq<u8>, u32),
            DecodeError,
        >((segment, spec_crc_update(segment, crc))),
{
    let after = spec_crc_update(segment, crc);
    let payload = spec_raw_encode(segment);
    let line = spec_encode_line(segment, after);
    lemma_crc_update_masked(segment, crc);
    lemma_crc_suffix_decodes(after);
    lemma_raw_encode_len(segment);
    lemma_raw_decode_encode(segment);
    assert(line.take(line.len() - 4) =~= payload);
    assert(line.skip(line.len() - 4) =~= crc_suffix(after));
}

/// Decoding undoes encoding from any point of a stream on: after any lines
/// `before`, the lines for `data` decode to `data`.
pub proof fn lemma_decode_encode_from(
    before: Seq<Seq<u8>>,
    data: Seq<u8>,
    raw_width: nat,
    crc: u32,
)
    requires
        raw_width >= 5,
    ensures
        spec_decode_from(before + spec_encode_from(data, raw_width, crc), before.len(), crc) == Ok::<
            Seq<u8>,
            DecodeError,
        >(data),
    decreases data.len(),
{
    let lines = before + spec_encode_from(data, raw_width, crc);
    if data.len() == 0 {
        assert(lines =~= before);
        assert(data =~= Seq::<u8>::empty());
    } else {
        let segment = if data.len() <= raw_width {
            data
        } else {
            data.take(raw_width as int)
        };
        let after = spec_crc_update(segment, crc);
        let line = spec_encode_line(segment, after);
        let rest = data.skip(segment.len() as int);
        let following = spec_encode_from(rest, raw_width, after);
        assert(lines =~= (before + seq![line]) + following);
        assert(lines[before.len() as int] == line);
        lemma_line_decodes(segment, (before.len() + 1) as usize, crc);
        lemma_decode_encode_from(before + seq![line], rest, raw_width, after);
        assert(segment + rest =~= data);
        if segment.len() < 5 {
            assert(rest =~= Seq::<u8>::empty());
        }
    }
}

/// Round trip: for every stream, of any length and content, and every line
/// width that is a positive multiple of 8, the lines of the encoder decode
/// to the stream. The empty stream has no lines, and no lines decode to the
/// empty stream.
pub proof fn lemma_decode_encode(data: Seq<u8>, width: nat)
    requires
        width > 0,
        width % 8 == 0,
    ensures
        spec_decode(spec_encode(data, width)) == Ok::<Seq<u8>, DecodeError>(data),
{
    let lines = spec_encode(data, width);
    assert(Seq::<Seq<u8>>::empty() + lines =~= lines);
    lemma_decode_encode_from(Seq::empty(), data, spec_raw_width(width), 0);
}

/// The one way in which a changed character can go unseen: `c` at the index
/// `i` of the line makes its groups stand for more or for fewer bytes than
/// before, and the longer and the shorter stream happen to have one
/// checksum. `crc` is the checksum of the stream before the line.
pub open spec fn length_collision(line: Seq<u8>, crc: u32, i: int, c: u8) -> bool {
    let groups = line.take(line.len() - 4);
    &&& 0 <= i < groups.len()
    &&& spec_raw_decode(groups) matches Ok(bytes)
    &&& spec_raw_decode(groups.update(i, c)) matches Ok(other)
    &&& other.len() != bytes.len()
    &&& spec_crc_update(other, crc) == spec_crc_update(bytes, crc)
}

/// Corruption detection, for one line: where one character of a valid line
/// is replaced by another, the line is refused, unless its groups still
/// stand for the same bytes (the change then lies in bits that no byte
/// takes up). A changed checksum symbol is always refused. The one
/// exception is a `length_collision`.
pub proof fn lemma_line_corruption_detected(
    line: Seq<u8>,
    number: usize,
    crc: u32,
    i: int,
    c: u8,
)
    requires
        spec_decode_line(line, number, crc) is Ok,
        0 <= i < line.len(),
        c != line[i],
        !length_collision(line, crc, i, c),
    ensures
        spec_decode_line(line.update(i, c), number, crc) is Err || spec_decode_line(
            line.update(i, c),
            number,
            crc,
        ) == spec_decode_line(line, number, crc),
        spec_decode_line(line.update(i, c), number, crc) is Ok <==> i < line.len() - 4
            && spec_raw_decode(line.update(i, c).take(line.len() - 4)) == spec_raw_decode(
            line.take(line.len() - 4),
        ),
{
    let split = line.len() - 4;
    let groups = line.take(split);
    let suffix = line.skip(split);
    let changed = line.update(i, c);
    let bytes = spec_raw_decode(groups)->Ok_0;
    let v = symbols_value(suffix)->Ok_0;
    lemma_symbols_value_bound(suffix);
    lemma_carried_crc(v);
    if i >= split {
        assert(changed.take(split) =~= groups);
        let suffix2 = suffix.update(i - split, c);
        assert(changed.skip(split) =~= suffix2);
        if symbols_value(suffix2) is Ok {
            let w = symbols_value(suffix2)->Ok_0;
            lemma_symbols_value_bound(suffix2);
            lemma_carried_crc(w);
            if v == w {
                lemma_symbols_value_injective(suffix, suffix2);
                assert(suffix2[i - split] == c);
            }
        }
    } else {
        assert(changed.skip(split) =~= suffix);
        let groups2 = groups.update(i, c);
        assert(changed.take(split) =~= groups2);
        if spec_raw_decode(groups2) is Ok {
            let other = spec_raw_decode(groups2)->Ok_0;
            if other.len() == bytes.len() && other != bytes {
                let p = lemma_decode_window(groups, i, c);
                lemma_crc_detects_burst(bytes, other, p, crc);
            }
        }
    }
}

/// The three bytes of a number of at most 20 bits carry that number.
proof fn lemma_carried_crc(v: nat)
    requires
        v < pow32(4),
    ensures
        le_value(crc_bytes(low_bytes(v, 3))) == v,
{
    reveal_with_fuel(pow256, 4);
    reveal_with_fuel(pow32, 5);
    lemma_low_bytes_len(v, 3);
    lemma_le_value_of_low_bytes(v, 3);
    assert(pow256(3) == 0x100_0000);
    assert(pow32(4) == 0x10_0000);
    vstd::arithmetic::div_mod::lemma_small_mod(v, pow256(3));
}

/// The checksum of the stream before the line of index `k`, as the decoder
/// has it when it comes to that line.
pub open spec fn crc_before(lines: Seq<Seq<u8>>, k: nat) -> u32
    decreases k,
{
    if k == 0 {
        0
    } else {
        match spec_decode_line(lines[k - 1], k as usize, crc_before(lines, (k - 1) as nat)) {
            Ok((_, crc)) => crc,
            Err(_) => 0,
        }
    }
}

/// Lines that are equal from the index `start` on decode alike from there.
proof fn lemma_decode_from_same_tail(a: Seq<Seq<u8>>, b: Seq<Seq<u8>>, start: nat, crc: u32)
    requires
        a.len() == b.len(),
        forall|j: int| start <= j < a.len() ==> a[j] == b[j],
    ensures
        spec_decode_from(a, start, crc) == spec_decode_from(b, start, crc),
    decreases a.len() - start,
{
    if start < a.len() {
        match spec_decode_line(a[start as int], (start + 1) as usize, crc) {
            Ok((bytes, after)) => {
                lemma_decode_from_same_tail(a, b, start + 1, after);
            },
            Err(_) => {},
        }
    }
}

/// Corruption detection from a point of the stream on.
proof fn lemma_corruption_detected_from(
    lines: Seq<Seq<u8>>,
    k: int,
    i: int,
    c: u8,
    start: nat,
    crc: u32,
)
    requires
        start <= k < lines.len(),
        0 <= i < lines[k].len(),
        c != lines[k][i],
        crc == crc_before(lines, start),
        spec_decode_from(lines, start, crc) is Ok,
        !length_collision(lines[k], crc_before(lines, k as nat), i, c),
    ensures
        spec_decode_from(lines.update(k, lines[k].update(i, c)), start, crc) is Err
            || spec_decode_from(lines.update(k, lines[k].update(i, c)), start, crc)
            == spec_decode_from(lines, start, crc),
    decreases k - start,
{
    let changed = lines.update(k, lines[k].update(i, c));
    let number = (start + 1) as usize;
    if start == k {
        lemma_line_corruption_detected(lines[k], number, crc, i, c);
        match spec_decode_line(changed[k], number, crc) {
            Ok((bytes, after)) => {
                lemma_decode_from_same_tail(lines, changed, start + 1, after);
            },
            Err(_) => {},
        }
    } else {
        assert(changed[start as int] == lines[start as int]);
        match spec_decode_line(lines[start as int], number, crc) {
            Ok((bytes, after)) => {
                if bytes.len() >= 5 {
                    assert(after == crc_before(lines, start + 1));
                    lemma_corruption_detected_from(lines, k, i, c, start + 1, after);
                }
            },
            Err(_) => {},
        }
    }
}

/// Corruption detection: where one character of one line of a valid
/// sequence of lines is replaced by another, the decoder reports an error
/// or gives the same stream as before: it never gives other bytes without
/// a word. (It gives the same stream where the change lies in bits that no
/// byte takes up, or in a line after the end of the stream.) The one
/// exception is a `length_collision` in the changed line.
pub proof fn lemma_corruption_detected(lines: Seq<Seq<u8>>, k: int, i: int, c: u8)
    requires
        spec_decode(lines) is Ok,
        0 <= k < lines.len(),
        0 <= i < lines[k].len(),
        c != lines[k][i],
        !length_collision(lines[k], crc_before(lines, k as nat), i, c),
    ensures
        spec_decode(lines.update(k, lines[k].update(i, c))) is Err || spec_decode(
            lines.update(k, lines[k].update(i, c)),
        ) == spec_decode(lines),
{
    lemma_corruption_detected_from(lines, k, i, c, 0, 0);
}

/// Corruption detection for the lines of the encoder: where one character
/// of one of them is replaced by another, the decoder reports an error or
/// still gives the stream that was encoded. The one exception is a
/// `length_collision` in the changed line.
pub proof fn lemma_encoded_corruption_detected(data: Seq<u8>, width: nat, k: int, i: int, c: u8)
    requires
        width > 0,
        width % 8 == 0,
        0 <= k < spec_encode(data, width).len(),
        0 <= i < spec_encode(data, width)[k].len(),
        c != spec_encode(data, width)[k][i],
        !length_collision(
            spec_encode(data, width)[k],
            crc_before(spec_encode(data, width), k as nat),
            i,
            c,
        ),
    ensures
        spec_decode(
            spec_encode(data, width).update(k, spec_encode(data, width)[k].update(i, c)),
        ) is Err || spec_decode(
            spec_encode(data, width).update(k, spec_encode(data, width)[k].update(i, c)),
        ) == Ok::<Seq<u8>, DecodeError>(data),
{
    lemma_decode_encode(data, width);
    lemma_corruption_detected(spec_encode(data, width), k, i, c);
}

/// Where the segment of index `k` ends in a stream of `len` bytes that is
/// cut into segments of `raw_width` bytes.
pub open spec fn segment_end(len: nat, raw_width: nat, k: nat) -> nat {
    if (k + 1) * raw_width < len {
        (k + 1) * raw_width
    } else {
        len
    }
}

/// The number of lines: as many as it takes to hold the stream, and not
/// one more.
pub proof fn lemma_encode_from_len(data: Seq<u8>, raw_width: nat, crc: u32)
    requires
        raw_width > 0,
    ensures
        spec_encode_from(data, raw_width, crc).len() * raw_width >= data.len(),
        data.len() > 0 ==> (spec_encode_from(data, raw_width, crc).len() - 1) * raw_width
            < data.len(),
        data.len() == 0 ==> spec_encode_from(data, raw_width, crc).len() == 0,
    decreases data.len(),
{
    if data.len() > 0 {
        let segment = if data.len() <= raw_width {
            data
        } else {
            data.take(raw_width as int)
        };
        let after = spec_crc_update(segment, crc);
        let rest = data.skip(segment.len() as int);
        lemma_encode_from_len(rest, raw_width, after);
        let m = spec_encode_from(rest, raw_width, after).len();
        assert(spec_encode_from(data, raw_width, crc).len() == m + 1);
        assert((m + 1) * raw_width == m * raw_width + raw_width) by (nonlinear_arith);
        assert((m + 1 - 1) * raw_width == m * raw_width);
        if rest.len() > 0 {
            assert((m - 1) * raw_width == m * raw_width - raw_width) by (nonlinear_arith);
        } else {
            assert(m * raw_width == 0) by (nonlinear_arith)
                requires
                    m == 0,
            ;
        }
    }
}

/// The line of index `k` holds the segment of index `k` and the checksum of
/// the whole stream up to the end of that segment: the checksum does not
/// depend on where the lines were cut.
pub proof fn lemma_encode_from_line(data: Seq<u8>, raw_width: nat, crc: u32, k: nat)
    requires
        raw_width > 0,
        k * raw_width < data.len(),
    ensures
        k < spec_encode_from(data, raw_width, crc).len(),
        spec_encode_from(data, raw_width, crc)[k as int] == spec_encode_line(
            data.subrange((k * raw_width) as int, segment_end(data.len(), raw_width, k) as int),
            spec_crc_update(data.take(segment_end(data.len(), raw_width, k) as int), crc),
        ),
    decreases k,
{
    let end = segment_end(data.len(), raw_width, k);
    if k == 0 {
        assert(0 * raw_width == 0) by (nonlinear_arith);
        assert((0 + 1) * raw_width == raw_width) by (nonlinear_arith);
        if data.len() <= raw_width {
            assert(data.subrange(0, end as int) =~= data);
            assert(data.take(end as int) =~= data);
        } else {
            assert(data.subrange(0, end as int) =~= data.take(raw_width as int));
        }
    } else {
        assert(k * raw_width == (k - 1) * raw_width + raw_width) by (nonlinear_arith);
        assert((k + 1) * raw_width == k * raw_width + raw_width) by (nonlinear_arith);
        assert((k - 1) * raw_width >= 0) by (nonlinear_arith)
            requires
                k >= 1,
                raw_width > 0,
        ;
        let first = data.take(raw_width as int);
        let rest = data.skip(raw_width as int);
        let after = spec_crc_update(first, crc);
        lemma_encode_from_line(rest, raw_width, after, (k - 1) as nat);
        let end_in_rest = segment_end(rest.len(), raw_width, (k - 1) as nat);
        assert(end_in_rest + raw_width == end);
        assert(rest.subrange(((k - 1) * raw_width) as int, end_in_rest as int) =~= data.subrange(
            (k * raw_width) as int,
            end as int,
        ));
        assert(data.take(end as int) =~= first + rest.take(end_in_rest as int));
        lemma_crc_update_concat(first, rest.take(end_in_rest as int), crc);
        let lines = spec_encode_from(data, raw_width, crc);
        let following = spec_encode_from(rest, raw_width, after);
        assert(lines[k as int] == following[k - 1]);
    }
}

/// A line is made of whole groups of eight characters and four symbols of
/// checksum.
pub proof fn lemma_encode_line_len(segment: Seq<u8>, crc: u32)
    ensures
        spec_encode_line(segment, crc).len() == 8 * group_count(segment.len()) + 4,
{
    lemma_raw_encode_len(segment);
    lemma_low_bytes_len(crc as nat, 3);
    lemma_raw_encode_len(low_bytes(crc as nat, 3));
}

/// The layout of the lines: there are as many as it takes to hold the
/// stream; the line of index `k` holds the segment of index `k` and the
/// checksum of the whole stream up to the end of that segment; every line
/// but the last has `width` symbols before its checksum, and the last has
/// as many groups as its segment fills or begins.
pub proof fn lemma_encode_layout(data: Seq<u8>, width: nat, k: nat)
    requires
        width > 0,
        width % 8 == 0,
        k * spec_raw_width(width) < data.len(),
    ensures
        spec_encode(data, width).len() * spec_raw_width(width) >= data.len(),
        (spec_encode(data, width).len() - 1) * spec_raw_width(width) < data.len(),
        k < spec_encode(data, width).len(),
        spec_encode(data, width)[k as int] == spec_encode_line(
            data.subrange(
                (k * spec_raw_width(width)) as int,
                segment_end(data.len(), spec_raw_width(width), k) as int,
            ),
            spec_crc_update(
                data.take(segment_end(data.len(), spec_raw_width(width), k) as int),
                0,
            ),
        ),
        (k + 1) * spec_raw_width(width) <= data.len() ==> spec_encode(data, width)[k as int].len()
            == width + 4,
        spec_encode(data, width)[k as int].len() <= width + 4,
        spec_encode(data, width)[k as int].len() % 8 == 4,
{
    let raw_width = spec_raw_width(width);
    let end = segment_end(data.len(), raw_width, k);
    lemma_encode_from_len(data, raw_width, 0);
    lemma_encode_from_line(data, raw_width, 0, k);
    let segment = data.subrange((k * raw_width) as int, end as int);
    lemma_encode_line_len(segment, spec_crc_update(data.take(end as int), 0));
    assert((k + 1) * raw_width == k * raw_width + raw_width) by (nonlinear_arith);
    assert(segment.len() <= raw_width);
}

} // verus!
