use zbase32_codec::chunk::{raw_encode, ChunkError};
use zbase32_codec::crc::{crc_update, decode_crc, encode_crc};
use zbase32_codec::frame::{decode, decode_line, encode, encode_line, DecodeError};

fn sample(len: usize, seed: usize) -> Vec<u8> {
    (0..len).map(|i| (i * 73 + seed * 29 + (i >> 3)) as u8).collect()
}

fn line(text: &str) -> Vec<u8> {
    text.as_bytes().to_vec()
}

#[test]
fn crc_check_value() {
    assert_eq!(crc_update(b"123456789", 0), 0xa5448);
}

#[test]
fn crc_exact_values() {
    assert_eq!(crc_update(b"", 0), 0);
    assert_eq!(crc_update(b"", 0x12345), 0x12345);
    assert_eq!(crc_update(&[0], 0), 0);
    assert_eq!(crc_update(&[0, 0, 0, 0, 0], 0), 0);
    // One bit through an empty register leaves the polynomial.
    assert_eq!(crc_update(&[0x80], 0) != 0, true);
    assert_eq!(crc_update(&[1], 0), 0xc4047);
}

#[test]
fn crc_keeps_20_bits() {
    assert_eq!(crc_update(b"", 0xfff_fffff), 0xfffff);
    assert_eq!(crc_update(b"abc", 0xabc0_0000), crc_update(b"abc", 0));
    for len in 0..40 {
        assert!(crc_update(&sample(len, 3), 0) <= 0xfffff);
    }
}

#[test]
fn crc_does_not_depend_on_the_cut() {
    let data = sample(97, 5);
    let whole = crc_update(&data, 0);
    for cut in 0..=data.len() {
        let first = crc_update(&data[..cut], 0);
        assert_eq!(crc_update(&data[cut..], first), whole);
    }
}

#[test]
fn crc_tells_neighbouring_bytes_apart() {
    let data = sample(20, 9);
    let crc = crc_update(&data, 0);
    for at in 0..data.len() {
        for flip in [1u8, 0x80, 0xff, 0x55] {
            let mut other = data.clone();
            other[at] ^= flip;
            assert_ne!(crc_update(&other, 0), crc);
            if at + 1 < data.len() {
                other[at + 1] ^= 0xa5;
                assert_ne!(crc_update(&other, 0), crc);
            }
        }
    }
}

#[test]
fn crc_bytes_are_little_endian() {
    assert_eq!(encode_crc(0xa5448), vec![0x48, 0x54, 0x0a]);
    assert_eq!(encode_crc(0), vec![0, 0, 0]);
    assert_eq!(encode_crc(0x1234_5678), vec![0x78, 0x56, 0x34]);
    assert_eq!(decode_crc(&[0x48, 0x54, 0x0a]), 0xa5448);
    assert_eq!(decode_crc(&[0x48, 0x54, 0x0a, 0xff]), 0xa5448);
    assert_eq!(decode_crc(&[0x48, 0x54]), 0x5448);
    assert_eq!(decode_crc(&[]), 0);
    for crc in [0u32, 1, 0xfffff, 0xa5448, 0x80000] {
        assert_eq!(decode_crc(&encode_crc(crc)), crc);
    }
}

#[test]
fn scenario_36_bytes() {
    let lines = encode(b"0123456789abcdefghijklmnopqrstuvwxyz", 80);
    assert_eq!(lines.len(), 1);
    let (payload, suffix) = lines[0].split_at(lines[0].len() - 4);
    assert_eq!(
        payload,
        "ojcru3ogitpqdhr8buagg1icg53oswjpmd54gz7pomhrz3tqiu7q8hfx4d======".as_bytes()
    );
    assert_eq!(suffix, b"hkxj");
    assert_eq!(decode(lines), Ok(b"0123456789abcdefghijklmnopqrstuvwxyz".to_vec()));
}

#[test]
fn empty_stream_has_no_lines() {
    let lines = encode(b"", 80);
    assert!(lines.is_empty());
    assert_eq!(decode(lines), Ok(vec![]));
    assert_eq!(decode(Vec::new()), Ok(vec![]));
}

#[test]
fn round_trip_every_length_and_width() {
    for width in [8usize, 16, 24, 40, 80, 160] {
        for len in 0usize..=130 {
            let data = sample(len, width);
            let lines = encode(&data, width);
            assert_eq!(decode(lines), Ok(data), "width {} length {}", width, len);
        }
    }
}

#[test]
fn lines_are_full_but_the_last() {
    for width in [8usize, 16, 80] {
        let raw_width = width * 5 / 8;
        for len in 1usize..=120 {
            let data = sample(len, 1);
            let lines = encode(&data, width);
            assert_eq!(lines.len(), (len + raw_width - 1) / raw_width);
            for (k, l) in lines.iter().enumerate() {
                assert_eq!((l.len() - 4) % 8, 0);
                assert!(l.len() >= 12);
                if k + 1 < lines.len() {
                    assert_eq!(l.len(), width + 4);
                } else {
                    assert!(l.len() <= width + 4);
                }
            }
        }
    }
}

#[test]
fn each_line_carries_the_running_checksum() {
    let data = sample(23, 4);
    let lines = encode(&data, 16);
    assert_eq!(lines.len(), 3);
    let ends = [10usize, 20, 23];
    let mut start = 0;
    for (k, l) in lines.iter().enumerate() {
        let mut expected = raw_encode(&data[start..ends[k]]);
        let crc = crc_update(&data[..ends[k]], 0);
        expected.extend_from_slice(&raw_encode(&encode_crc(crc))[..4]);
        assert_eq!(*l, expected);
        start = ends[k];
    }
}

#[test]
fn two_lines_exact() {
    let lines = encode(&[0, 0, 0, 0, 0, 1], 8);
    assert_eq!(lines, vec![line("yyyyyyyyyyyy"), line("by======8noa")]);
    assert_eq!(decode(lines), Ok(vec![0, 0, 0, 0, 0, 1]));
}

#[test]
fn error_line_too_short() {
    assert_eq!(decode(vec![line("yy======yyy")]), Err(DecodeError::LineTooShort { line: 1 }));
    assert_eq!(decode(vec![line("")]), Err(DecodeError::LineTooShort { line: 1 }));
    assert_eq!(
        decode(vec![line("yyyyyyyyyyyy"), line("hkxj")]),
        Err(DecodeError::LineTooShort { line: 2 })
    );
}

#[test]
fn error_invalid_line_length() {
    assert_eq!(
        decode(vec![line("yyyyyyyyyyyyy")]),
        Err(DecodeError::InvalidLineLength { line: 1, len: 13 })
    );
    assert_eq!(
        decode(vec![line("yyyyyyyyyyyy"), line("yyyyyyyyyyyyyyyyyyy")]),
        Err(DecodeError::InvalidLineLength { line: 2, len: 19 })
    );
}

#[test]
fn error_decode_failed() {
    assert_eq!(
        decode(vec![line("yyyyyy==yyyy")]),
        Err(DecodeError::DecodeFailed { line: 1, cause: ChunkError::InvalidPadding })
    );
    assert_eq!(
        decode(vec![line("yyyyyyy!yyyy")]),
        Err(DecodeError::DecodeFailed { line: 1, cause: ChunkError::InvalidCharacter(b'!') })
    );
    // A pad character is no symbol of a checksum.
    assert_eq!(
        decode(vec![line("yyyyyyyyyyy=")]),
        Err(DecodeError::DecodeFailed { line: 1, cause: ChunkError::InvalidCharacter(b'=') })
    );
    // The groups are looked at before the checksum.
    assert_eq!(
        decode(vec![line("yyyyyyy!yyy=")]),
        Err(DecodeError::DecodeFailed { line: 1, cause: ChunkError::InvalidCharacter(b'!') })
    );
}

#[test]
fn error_crc_mismatch() {
    assert_eq!(decode(vec![line("yyyyyyyyyyyb")]), Err(DecodeError::CrcMismatch { line: 1 }));
    assert_eq!(
        decode(vec![
            line("ojcru3ogitpqdhr8buagg1icg53oswjpmd54gz7pomhrz3tqiu7q8hfx4d======hkxy")
        ]),
        Err(DecodeError::CrcMismatch { line: 1 })
    );
    // The second line must continue the checksum of the first.
    let first = encode(&[1, 2, 3, 4, 5], 8);
    let alone = encode(&[6, 7, 8, 9, 10], 8);
    assert_eq!(
        decode(vec![first[0].clone(), alone[0].clone()]),
        Err(DecodeError::CrcMismatch { line: 2 })
    );
}

#[test]
fn a_short_line_ends_the_stream() {
    let mut lines = encode(&[1, 2, 3, 4, 5, 6, 7], 8);
    assert_eq!(lines.len(), 2);
    lines.push(line("not a line at all"));
    lines.push(line(""));
    assert_eq!(decode(lines), Ok(vec![1, 2, 3, 4, 5, 6, 7]));
}

#[test]
fn a_full_last_line_does_not_end_the_stream() {
    let mut lines = encode(&[1, 2, 3, 4, 5], 8);
    lines.push(line("short"));
    assert_eq!(decode(lines), Err(DecodeError::LineTooShort { line: 2 }));
}

#[test]
fn lines_may_be_narrower_than_they_were_written() {
    // A decoder is not told the width: any whole number of groups will do.
    let data = sample(50, 2);
    let wide = encode(&data, 80);
    assert_eq!(wide.len(), 1);
    assert_eq!(wide[0].len(), 84);
    assert_eq!(decode(wide), Ok(data));
}

fn corrupt_and_decode(lines: &[Vec<u8>], k: usize, i: usize, c: u8) -> Result<Vec<u8>, DecodeError> {
    let mut changed = lines.to_vec();
    changed[k][i] = c;
    decode(changed)
}

#[test]
fn a_changed_checksum_symbol_is_always_reported() {
    let data = sample(33, 6);
    let lines = encode(&data, 16);
    for k in 0..lines.len() {
        let len = lines[k].len();
        for i in len - 4..len {
            for c in 0u8..=255 {
                if c == lines[k][i] {
                    continue;
                }
                let r = corrupt_and_decode(&lines, k, i, c);
                assert!(r.is_err(), "line {} index {} character {}", k, i, c);
            }
        }
    }
}

#[test]
fn a_changed_symbol_never_gives_other_bytes_of_the_same_length() {
    for len in [1usize, 2, 3, 4, 5, 7, 10, 23] {
        let data = sample(len, 8);
        let lines = encode(&data, 16);
        for k in 0..lines.len() {
            for i in 0..lines[k].len() {
                for c in 0u8..=255 {
                    if c == lines[k][i] {
                        continue;
                    }
                    match corrupt_and_decode(&lines, k, i, c) {
                        Err(_) => {}
                        Ok(bytes) => {
                            assert!(bytes == data || bytes.len() != data.len());
                        }
                    }
                }
            }
        }
    }
}

#[test]
fn a_change_in_unused_bits_leaves_the_stream() {
    // Two symbols carry ten bits; one byte takes eight of them.
    let lines = encode(&[0], 8);
    assert_eq!(lines, vec![line("yy======yyyy")]);
    assert_eq!(corrupt_and_decode(&lines, 0, 1, b'e'), Ok(vec![0]));
    assert_eq!(
        corrupt_and_decode(&lines, 0, 1, b'b'),
        Err(DecodeError::CrcMismatch { line: 1 })
    );
    assert_eq!(
        corrupt_and_decode(&lines, 0, 0, b'b'),
        Err(DecodeError::CrcMismatch { line: 1 })
    );
}

#[test]
fn a_change_of_length_can_collide() {
    // Five zero bytes and four zero bytes have one checksum, 0: a pad
    // character in place of the last symbol goes unseen.
    let lines = encode(&[0, 0, 0, 0, 0], 8);
    assert_eq!(lines, vec![line("yyyyyyyyyyyy")]);
    assert_eq!(corrupt_and_decode(&lines, 0, 7, b'='), Ok(vec![0, 0, 0, 0]));
    // With other bytes the same change is reported.
    let lines = encode(&[1, 2, 3, 4, 5], 8);
    assert_eq!(
        corrupt_and_decode(&lines, 0, 7, b'='),
        Err(DecodeError::CrcMismatch { line: 1 })
    );
}

#[test]
fn one_line_at_a_time() {
    let (first, crc) = encode_line(&[0, 0, 0, 0, 0], 0);
    assert_eq!(first, line("yyyyyyyyyyyy"));
    assert_eq!(crc, 0);
    let (second, crc) = encode_line(&[1], crc);
    assert_eq!(second, line("by======8noa"));
    assert_eq!(crc, 0xc4047);
    assert_eq!(crc, crc_update(&[0, 0, 0, 0, 0, 1], 0));

    assert_eq!(decode_line(&second, 2, 0), Ok((vec![1], 0xc4047)));
    assert_eq!(decode_line(&second, 2, 1), Err(DecodeError::CrcMismatch { line: 2 }));
    assert_eq!(decode_line(b"by======8no", 7, 0), Err(DecodeError::LineTooShort { line: 7 }));
    let (text, crc) = encode_line(b"0123456789abcdefghijklmnopqrstuvwxyz", 0);
    assert_eq!(
        text,
        line("ojcru3ogitpqdhr8buagg1icg53oswjpmd54gz7pomhrz3tqiu7q8hfx4d======hkxj")
    );
    assert_eq!(decode_line(&text, 1, 0), Ok((b"0123456789abcdefghijklmnopqrstuvwxyz".to_vec(), crc)));
}
