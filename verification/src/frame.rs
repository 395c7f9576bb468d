//! The line framers: byte streams against lines of symbols, each line ending
//! with the checksum of the stream up to the end of that line.

use crate::chunk::{
    lemma_raw_encode_len, raw_decode, raw_encode, spec_raw_decode, spec_raw_encode, view_ok,
    ChunkError, ENCODED_BYTES_PER_CHUNK, RAW_BYTES_PER_CHUNK,
};
use crate::crc::{
    crc_bytes, crc_update, decode_crc, encode_crc, spec_crc_update, ENCODED_CRC_LEN,
};
use crate::radix::{le_value, low_bytes, lemma_low_bytes_len};
use vstd::prelude::*;

verus! {

/// The lines as sequences of characters.
pub open spec fn lines_view(lines: Seq<Vec<u8>>) -> Seq<Seq<u8>> {
    Seq::new(lines.len(), |i: int| lines[i]@)
}

/// The four symbols that carry a checksum: of the encoding of its three
/// little-endian bytes, the four symbols that hold its 20 bits.
pub open spec fn crc_suffix(crc: u32) -> Seq<u8> {
    spec_raw_encode(low_bytes(crc as nat, 3)).take(4)
}

/// Bytes that a line of `width` symbols holds.
pub open spec fn spec_raw_width(width: nat) -> nat {
    width * 5 / 8
}

/// The line for one segment of the stream: the encoding of the segment,
/// then the checksum of the stream up to the segment's end.
pub open spec fn spec_encode_line(segment: Seq<u8>, crc: u32) -> Seq<u8> {
    spec_raw_encode(segment) + crc_suffix(crc)
}

/// The lines for the rest of a stream, `data`, cut into segments of
/// `raw_width` bytes, where `crc` is the checksum of what came before.
pub open spec fn spec_encode_from(data: Seq<u8>, raw_width: nat, crc: u32) -> Seq<Seq<u8>>
    decreases data.len(),
{
    if data.len() == 0 || raw_width == 0 {
        Seq::empty()
    } else {
        let segment = if data.len() <= raw_width {
            data
        } else {
            data.take(raw_width as int)
        };
        let crc = spec_crc_update(segment, crc);
        seq![spec_encode_line(segment, crc)] + spec_encode_from(
            data.skip(segment.len() as int),
            raw_width,
            crc,
        )
    }
}

/// The lines that stand for a stream. An empty stream has no lines.
pub open spec fn spec_encode(data: Seq<u8>, width: nat) -> Seq<Seq<u8>> {
    spec_encode_from(data, spec_raw_width(width), 0)
}

/// The line for the next segment of a stream and the checksum of the stream
/// after it, where `crc` is the checksum of the stream before the segment.
pub fn encode_line(segment: &[u8], crc: u32) -> (r: (Vec<u8>, u32))
    ensures
        r.1 == spec_crc_update(segment@, crc),
        r.0@ == spec_encode_line(segment@, r.1),
{
    let crc = crc_update(segment, crc);
    let mut line = raw_encode(segment);
    let suffix = raw_encode(encode_crc(crc).as_slice());
    proof {
        lemma_low_bytes_len(crc as nat, 3);
        lemma_raw_encode_len(low_bytes(crc as nat, 3));
    }
    line.extend_from_slice(&suffix[0..ENCODED_CRC_LEN]);
    (line, crc)
}

/// Encodes a stream as lines of `width` symbols and a checksum each; the
/// last line may be shorter.
pub fn encode(data: &[u8], width: usize) -> (out: Vec<Vec<u8>>)
    requires
        width > 0,
        width % 8 == 0,
    ensures
        lines_view(out@) == spec_encode(data@, width as nat),
{
    let raw_width = width / ENCODED_BYTES_PER_CHUNK * RAW_BYTES_PER_CHUNK;
    assert(raw_width == spec_raw_width(width as nat));
    let mut out: Vec<Vec<u8>> = Vec::new();
    let mut crc: u32 = 0;
    let mut start: usize = 0;
    proof {
        assert(data@.skip(0) =~= data@);
        assert(lines_view(out@) + spec_encode(data@, width as nat) =~= spec_encode(
            data@,
            width as nat,
        ));
    }
    while start < data.len()
        invariant
            start <= data@.len(),
            raw_width > 0,
            spec_encode_from(data@, raw_width as nat, 0) == lines_view(out@) + spec_encode_from(
                data@.skip(start as int),
                raw_width as nat,
                crc,
            ),
        decreases data.len() - start,
    {
        let end = if data.len() - start > raw_width {
            start + raw_width
        } else {
            data.len()
        };
        let ins = &data[start..end];
        let ghost before = lines_view(out@);
        let (line, after) = encode_line(ins, crc);
        crc = after;
        out.push(line);
        proof {
            let rest = data@.skip(start as int);
            if rest.len() <= raw_width {
                assert(ins@ =~= rest);
            } else {
                assert(ins@ =~= rest.take(raw_width as int));
            }
            assert(data@.skip(end as int) =~= rest.skip(ins@.len() as int));
            assert(lines_view(out@) =~= before + seq![line@]);
            assert(before + (seq![line@] + spec_encode_from(
                data@.skip(end as int),
                raw_width as nat,
                crc,
            )) =~= lines_view(out@) + spec_encode_from(
                data@.skip(end as int),
                raw_width as nat,
                crc,
            ));
        }
        start = end;
    }
    proof {
        assert(lines_view(out@) + Seq::<Seq<u8>>::empty() =~= lines_view(out@));
    }
    out
}

/// Why a sequence of lines is not the encoding of a stream. Lines are
/// counted from 1.
#[derive(Debug, Clone, Copy, PartialEq, Eq)]
pub enum DecodeError {
    /// The line has fewer than twelve characters: no room for a group and a
    /// checksum.
    LineTooShort { line: usize },
    /// The line, of `len` characters, is not made of whole groups before
    /// its checksum.
    InvalidLineLength { line: usize, len: usize },
    /// The groups or the checksum of the line do not decode.
    DecodeFailed { line: usize, cause: ChunkError },
    /// The checksum at the end of the line is not that of the stream up to
    /// there.
    CrcMismatch { line: usize },
}

/// The bytes that one line stands for and the checksum of the stream after
/// them, where `crc` is the checksum of the stream before the line and
/// `number` the line's number.
pub open spec fn spec_decode_line(line: Seq<u8>, number: usize, crc: u32) -> Result<
    (Seq<u8>, u32),
    DecodeError,
> {
    if line.len() < 12 {
        Err(DecodeError::LineTooShort { line: number })
    } else if (line.len() - 4) % 8 != 0 {
        Err(DecodeError::InvalidLineLength { line: number, len: line.len() as usize })
    } else {
        match spec_raw_decode(line.take(line.len() - 4)) {
            Err(cause) => Err(DecodeError::DecodeFailed { line: number, cause }),
            Ok(bytes) => match spec_raw_decode(line.skip(line.len() - 4)) {
                Err(cause) => Err(DecodeError::DecodeFailed { line: number, cause }),
                Ok(carried) => {
                    let crc = spec_crc_update(bytes, crc);
                    if crc != le_value(crc_bytes(carried)) {
                        Err(DecodeError::CrcMismatch { line: number })
                    } else {
                        Ok((bytes, crc))
                    }
                },
            },
        }
    }
}

/// The bytes that the lines from the index `start` on stand for, where `crc`
/// is the checksum of the stream before them. A line of fewer than five
/// bytes ends the stream, whatever follows it.
pub open spec fn spec_decode_from(lines: Seq<Seq<u8>>, start: nat, crc: u32) -> Result<
    Seq<u8>,
    DecodeError,
>
    decreases lines.len() - start,
{
    if start >= lines.len() {
        Ok(Seq::empty())
    } else {
        match spec_decode_line(lines[start as int], (start + 1) as usize, crc) {
            Err(e) => Err(e),
            Ok((bytes, crc)) => if bytes.len() < 5 {
                Ok(bytes)
            } else {
                match spec_decode_from(lines, start + 1, crc) {
                    Err(e) => Err(e),
                    Ok(rest) => Ok(bytes + rest),
                }
            },
        }
    }
}

/// The stream that a sequence of lines stands for, or what is wrong with
/// the first line that is not valid.
pub open spec fn spec_decode(lines: Seq<Seq<u8>>) -> Result<Seq<u8>, DecodeError> {
    spec_decode_from(lines, 0, 0)
}

/// Decodes one line, the line of the number `number`, where `crc` is the
/// checksum of the stream before it: gives its bytes and the checksum of
/// the stream after them.
pub fn decode_line(raw_line: &[u8], number: usize, crc: u32) -> (r: Result<
    (Vec<u8>, u32),
    DecodeError,
>)
    ensures
        match r {
            Ok((bytes, after)) => spec_decode_line(raw_line@, number, crc) == Ok::<
                (Seq<u8>, u32),
                DecodeError,
            >((bytes@, after)),
            Err(e) => spec_decode_line(raw_line@, number, crc) == Err::<
                (Seq<u8>, u32),
                DecodeError,
            >(e),
        },
{
    if raw_line.len() < ENCODED_BYTES_PER_CHUNK + ENCODED_CRC_LEN {
        return Err(DecodeError::LineTooShort { line: number });
    }
    let split = raw_line.len() - ENCODED_CRC_LEN;
    let line = &raw_line[0..split];
    let enc_crc = &raw_line[split..raw_line.len()];
    if line.len() % ENCODED_BYTES_PER_CHUNK != 0 {
        return Err(DecodeError::InvalidLineLength { line: number, len: raw_line.len() });
    }
    proof {
        assert(line@ =~= raw_line@.take(raw_line@.len() - 4));
        assert(enc_crc@ =~= raw_line@.skip(raw_line@.len() - 4));
    }
    let decoded_line = match raw_decode(line) {
        Ok(bytes) => bytes,
        Err(cause) => { return Err(DecodeError::DecodeFailed { line: number, cause }); },
    };
    let decoded_crc = match raw_decode(enc_crc) {
        Ok(bytes) => bytes,
        Err(cause) => { return Err(DecodeError::DecodeFailed { line: number, cause }); },
    };
    let crc = crc_update(decoded_line.as_slice(), crc);
    let dec_crc = decode_crc(decoded_crc.as_slice());
    if crc != dec_crc {
        return Err(DecodeError::CrcMismatch { line: number });
    }
    Ok((decoded_line, crc))
}

/// Decodes a sequence of lines, each with its checksum, into the stream.
pub fn decode(lines: Vec<Vec<u8>>) -> (r: Result<Vec<u8>, DecodeError>)
    ensures
        view_ok(r) == spec_decode(lines_view(lines@)),
{
    let ghost all = lines_view(lines@);
    let mut crc: u32 = 0;
    let mut out: Vec<u8> = Vec::new();
    let mut i: usize = 0;
    proof {
        if let Ok(bytes) = spec_decode(all) {
            assert(out@ + bytes =~= bytes);
        }
    }
    while i < lines.len()
        invariant
            i <= lines@.len(),
            all == lines_view(lines@),
            spec_decode(all) == match spec_decode_from(all, i as nat, crc) {
                Ok(rest) => Ok(out@ + rest),
                Err(e) => Err(e),
            },
        decreases lines.len() - i,
    {
        let ghost step = spec_decode_line(all[i as int], (i + 1) as usize, crc);
        assert(all[i as int] == lines[i as int]@);
        let (decoded_line, after) = match decode_line(lines[i].as_slice(), i + 1, crc) {
            Ok(pair) => pair,
            Err(e) => {
                assert(step == Err::<(Seq<u8>, u32), DecodeError>(e));
                assert(spec_decode_from(all, i as nat, crc) == Err::<Seq<u8>, DecodeError>(e));
                return Err(e);
            },
        };
        assert(step == Ok::<(Seq<u8>, u32), DecodeError>((decoded_line@, after)));
        let ghost before = out@;
        out.extend_from_slice(decoded_line.as_slice());
        if decoded_line.len() < RAW_BYTES_PER_CHUNK {
            assert(spec_decode_from(all, i as nat, crc) == Ok::<Seq<u8>, DecodeError>(
                decoded_line@,
            ));
            assert(spec_decode(all) == Ok::<Seq<u8>, DecodeError>(before + decoded_line@));
            assert(out@ == before + decoded_line@);
            return Ok(out);
        }
        proof {
            match spec_decode_from(all, (i + 1) as nat, after) {
                Ok(rest) => {
                    assert(spec_decode_from(all, i as nat, crc) == Ok::<Seq<u8>, DecodeError>(
                        decoded_line@ + rest,
                    ));
                    assert(before + (decoded_line@ + rest) =~= out@ + rest);
                },
                Err(e) => {
                    assert(spec_decode_from(all, i as nat, crc) == Err::<Seq<u8>, DecodeError>(e));
                },
            }
        }
        crc = after;
        i += 1;
    }
    proof {
        assert(out@ + Seq::<u8>::empty() =~= out@);
    }
    Ok(out)
}

} // verus!
