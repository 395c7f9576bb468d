use zbase32_codec::alphabet::{decode_symbol, encode_symbol, ALPHA, DE_ALPHA, NO_SYMBOL, PAD_CHAR};
use zbase32_codec::chunk::{ljust, raw_decode, raw_encode, strip_padding, ChunkError};

#[test]
fn alphabet_is_the_z_base_32_alphabet() {
    assert_eq!(&ALPHA[..], b"ybndrfg8ejkmcpqxot1uwisza345h769");
    assert_eq!(PAD_CHAR, b'=');
}

#[test]
fn alphabet_tables_are_inverse() {
    for v in 0u8..32 {
        assert_eq!(decode_symbol(encode_symbol(v)), Some(v));
    }
    let mut symbols = 0;
    for c in 0u8..=255 {
        match decode_symbol(c) {
            Some(v) => {
                assert!(v < 32);
                assert_eq!(encode_symbol(v), c);
                symbols += 1;
            }
            None => assert!(!ALPHA.contains(&c)),
        }
    }
    assert_eq!(symbols, 32);
    for c in 0usize..256 {
        match decode_symbol(c as u8) {
            Some(v) => assert_eq!(DE_ALPHA[c], v),
            None => assert_eq!(DE_ALPHA[c], NO_SYMBOL),
        }
    }
    assert_eq!(decode_symbol(PAD_CHAR), None);
    assert_eq!(decode_symbol(b'y'), Some(0));
    assert_eq!(decode_symbol(b'9'), Some(31));
    assert_eq!(decode_symbol(b'l'), None);
    assert_eq!(decode_symbol(b'Y'), None);
}

#[test]
fn ljust_fills_only_short_input() {
    assert_eq!(ljust(b"", 0, b'x'), b"");
    assert_eq!(ljust(b"", 3, b'x'), b"xxx");
    assert_eq!(ljust(b"abcdef", 3, b'x'), b"abcdef");
    assert_eq!(ljust(b"ab", 3, 0), [b'a', b'b', 0]);
}

#[test]
fn boundary_table() {
    let expected: [(usize, usize); 5] = [(1, 2), (2, 4), (3, 5), (4, 7), (5, 8)];
    for (raw_len, significant) in expected {
        for fill in [0u8, 1, 0x5a, 0xff] {
            let input = vec![fill; raw_len];
            let out = raw_encode(&input);
            assert_eq!(out.len(), 8);
            for (i, c) in out.iter().enumerate() {
                if i < significant {
                    assert!(ALPHA.contains(c), "symbol expected at {}", i);
                } else {
                    assert_eq!(*c, PAD_CHAR, "pad expected at {}", i);
                }
            }
        }
    }
}

#[test]
fn raw_encode_exact_groups() {
    assert_eq!(raw_encode(b""), b"");
    assert_eq!(raw_encode(&[0]), b"yy======");
    assert_eq!(raw_encode(&[0xff]), b"98======");
    assert_eq!(raw_encode(&[1]), b"by======");
    assert_eq!(raw_encode(&[0, 0, 0, 0, 0]), b"yyyyyyyy");
    assert_eq!(raw_encode(&[0xff, 0xff, 0xff, 0xff, 0xff]), b"99999999");
    assert_eq!(raw_encode(b"01234"), b"ojcru3og");
    assert_eq!(raw_encode(b"012345"), b"ojcru3ogib======");
    // 0x0201 = 513 = 1 + 16 * 32: digits 1, 16, 0, 0
    assert_eq!(raw_encode(&[1, 2]), b"boyy====");
}

#[test]
fn raw_encode_length_is_whole_groups() {
    for len in 0usize..40 {
        let input: Vec<u8> = (0..len).map(|i| (i * 37 + 11) as u8).collect();
        assert_eq!(raw_encode(&input).len(), (len + 4) / 5 * 8);
    }
}

#[test]
fn raw_round_trip_all_short_lengths() {
    for len in 0usize..64 {
        for seed in [0usize, 1, 7, 255] {
            let input: Vec<u8> = (0..len).map(|i| (i * 131 + seed * 17 + (i ^ seed)) as u8).collect();
            let encoded = raw_encode(&input);
            assert_eq!(raw_decode(&encoded), Ok(input));
        }
    }
}

#[test]
fn raw_round_trip_every_byte_value() {
    for b in 0u8..=255 {
        for len in 1usize..=5 {
            let input = vec![b; len];
            assert_eq!(raw_decode(&raw_encode(&input)), Ok(input));
        }
    }
}

#[test]
fn strip_padding_errors() {
    assert_eq!(strip_padding(b""), Err(ChunkError::InvalidChunkLength));
    assert_eq!(strip_padding(b"yyyyyy=="), Err(ChunkError::InvalidPadding));
    assert_eq!(strip_padding(b"yyy====="), Err(ChunkError::InvalidPadding));
    assert_eq!(strip_padding(b"y======="), Err(ChunkError::InvalidPadding));
    assert_eq!(strip_padding(b"========"), Err(ChunkError::InvalidPadding));
}

#[test]
fn strip_padding_counts_to_the_last_symbol() {
    // A pad character before the last symbol is not padding.
    assert_eq!(strip_padding(b"y=yyyyyy"), Ok((b"y=yyyyyy".to_vec(), 5)));
    assert_eq!(strip_padding(b"=y======"), Ok((b"=y".to_vec(), 1)));
    // A short group is taken as it is.
    assert_eq!(strip_padding(b"yy="), Ok((b"yy=".to_vec(), 2)));
    // Characters outside the alphabet are not looked at here.
    assert_eq!(strip_padding(b"!!!!===="), Ok((b"!!!!".to_vec(), 2)));
}

#[test]
fn padding_rejection() {
    // The five valid shapes decode.
    for group in [&b"yyyyyyyy"[..], b"yyyyyyy=", b"yyyyy===", b"yyyy====", b"yy======"] {
        assert!(raw_decode(group).is_ok());
    }
    // Every other number of pad characters at the end is refused.
    for group in [&b"yyyyyy=="[..], b"yyy=====", b"y=======", b"========"] {
        assert_eq!(raw_decode(group), Err(ChunkError::InvalidPadding));
    }
    // A pad character among the symbols is refused as a character.
    assert_eq!(raw_decode(b"yy=yyyyy"), Err(ChunkError::InvalidCharacter(b'=')));
    assert_eq!(raw_decode(b"=y======"), Err(ChunkError::InvalidCharacter(b'=')));
    assert_eq!(raw_decode(b"y=yy===="), Err(ChunkError::InvalidCharacter(b'=')));
}

#[test]
fn raw_decode_names_the_character() {
    assert_eq!(raw_decode(b"yyyyyyyl"), Err(ChunkError::InvalidCharacter(b'l')));
    assert_eq!(raw_decode(b"Yyyyyyyy"), Err(ChunkError::InvalidCharacter(b'Y')));
    // Of several, the last one of the group is named.
    assert_eq!(raw_decode(b"0yyy2yyy"), Err(ChunkError::InvalidCharacter(b'2')));
    // The first group at fault decides.
    assert_eq!(raw_decode(b"yyyyyy==0yyyyyyy"), Err(ChunkError::InvalidPadding));
    assert_eq!(raw_decode(b"0yyyyyyyyyyyyy=="), Err(ChunkError::InvalidCharacter(b'0')));
    assert_eq!(raw_decode(b"yy "), Err(ChunkError::InvalidCharacter(b' ')));
}

#[test]
fn raw_decode_short_last_group() {
    assert_eq!(raw_decode(b""), Ok(vec![]));
    // 1 symbol: 5 bits, one byte begun.
    assert_eq!(raw_decode(b"b"), Ok(vec![1]));
    assert_eq!(raw_decode(b"9"), Ok(vec![31]));
    // 4 symbols: 20 bits in three bytes.
    assert_eq!(raw_decode(b"9999"), Ok(vec![0xff, 0xff, 0x0f]));
    // 7 symbols: 35 bits in five bytes.
    assert_eq!(raw_decode(b"9999999"), Ok(vec![0xff, 0xff, 0xff, 0xff, 0x07]));
    // A full group and a short one: two symbols begin two bytes.
    assert_eq!(raw_decode(b"ojcru3ogib"), Ok(b"012345\0".to_vec()));
    assert_eq!(raw_decode(b"ojcru3ogit"), Ok(b"012345\x02".to_vec()));
}

#[test]
fn raw_decode_drops_the_bits_above_the_bytes() {
    // 7 symbols and a pad character stand for 4 bytes; the 3 high bits go.
    assert_eq!(raw_decode(b"yyyyyy9="), Ok(vec![0, 0, 0, 0xc0]));
    // 2 symbols stand for 1 byte; the 2 high bits go.
    assert_eq!(raw_decode(b"y9======"), Ok(vec![0xe0]));
    assert_eq!(raw_decode(b"ye======"), Ok(vec![0]));
}

#[test]
fn raw_decode_padded_group_in_the_middle() {
    assert_eq!(raw_decode(b"by======by======"), Ok(vec![1, 1]));
}
