use zbase32_codec::frame::{encode, DecodeError};
use zbase32_codec::text::{
    alphabet_line, data_line, data_lines, decimal, decode_text, digest_line, encode_text,
    encode_text_with, hex_lower, keep_data_line, length_line, summary, summary_lines,
};

const SHA256_EMPTY: &str = "e3b0c44298fc1c149afbf4c8996fb92427ae41e4649b934ca495991b7852b855";
const SHA256_ABC: &str = "ba7816bf8f01cfea414140de5dae2223b00361a396177a9cb410ff61f20015ad";

#[test]
fn decimal_digits() {
    assert_eq!(decimal(0), b"0");
    assert_eq!(decimal(7), b"7");
    assert_eq!(decimal(10), b"10");
    assert_eq!(decimal(36), b"36");
    assert_eq!(decimal(1234567890), b"1234567890");
    assert_eq!(decimal(usize::MAX), usize::MAX.to_string().as_bytes());
    for n in 0usize..2000 {
        assert_eq!(decimal(n), n.to_string().as_bytes());
    }
}

#[test]
fn hex_digits() {
    assert_eq!(hex_lower(&[]), b"");
    assert_eq!(hex_lower(&[0]), b"00");
    assert_eq!(hex_lower(&[0x0a, 0x14, 0x1e]), b"0a141e");
    assert_eq!(hex_lower(&[0xff, 0x9a, 0xa9, 0x01]), b"ff9aa901");
    for b in 0u8..=255 {
        assert_eq!(hex_lower(&[b]), format!("{:02x}", b).as_bytes());
    }
}

#[test]
fn comment_lines() {
    assert_eq!(length_line(36), b"# length: 36");
    assert_eq!(length_line(0), b"# length: 0");
    assert_eq!(digest_line(&[0xde, 0xad, 0x01]), b"# sha256: dead01");
    assert_eq!(
        alphabet_line(),
        "# alphabet: ybndrfg8ejkmcpqxot1uwisza345h769, CRC-20 poly: 0x1c4047, check: 0xa5448"
            .as_bytes()
    );
    assert_eq!(
        summary_lines(5, &[1, 2]),
        vec![b"# length: 5".to_vec(), b"# sha256: 0102".to_vec()]
    );
}

#[test]
fn summary_has_the_sha256_digest() {
    assert_eq!(
        summary(b""),
        vec![b"# length: 0".to_vec(), format!("# sha256: {}", SHA256_EMPTY).into_bytes()]
    );
    assert_eq!(
        summary(b"abc"),
        vec![b"# length: 3".to_vec(), format!("# sha256: {}", SHA256_ABC).into_bytes()]
    );
}

#[test]
fn text_of_a_stream() {
    let text = encode_text(b"0123456789abcdefghijklmnopqrstuvwxyz");
    assert_eq!(text.len(), 4);
    assert_eq!(
        text[0],
        "ojcru3ogitpqdhr8buagg1icg53oswjpmd54gz7pomhrz3tqiu7q8hfx4d======hkxj".as_bytes()
    );
    assert_eq!(text[1], b"# length: 36");
    assert_eq!(&text[2][..10], b"# sha256: ");
    assert_eq!(text[2].len(), 10 + 64);
    assert_eq!(text[3], alphabet_line());

    let text = encode_text(b"abc");
    assert_eq!(text[2], format!("# sha256: {}", SHA256_ABC).into_bytes());

    let text = encode_text(b"");
    assert_eq!(
        text,
        vec![
            b"# length: 0".to_vec(),
            format!("# sha256: {}", SHA256_EMPTY).into_bytes(),
            alphabet_line()
        ]
    );
}

#[test]
fn text_with_a_given_digest() {
    let data: Vec<u8> = (0..120).map(|i| i as u8).collect();
    let text = encode_text_with(&data, &[0xab; 4]);
    let lines = encode(&data, 80);
    assert_eq!(lines.len(), 3);
    assert_eq!(&text[..3], &lines[..]);
    assert_eq!(text[3], b"# length: 120");
    assert_eq!(text[4], b"# sha256: abababab");
    assert_eq!(text[5], alphabet_line());
    assert_eq!(text.len(), 6);
}

#[test]
fn data_line_is_trimmed() {
    assert_eq!(data_line("  yyyy \t"), Some(b"yyyy".to_vec()));
    assert_eq!(data_line("yyyy\r"), Some(b"yyyy".to_vec()));
    assert_eq!(data_line("yy yy"), Some(b"yy yy".to_vec()));
    assert_eq!(data_line("\u{a0}yyyy\u{2003}"), Some(b"yyyy".to_vec()));
    assert_eq!(data_line("y\u{e9}"), Some("y\u{e9}".as_bytes().to_vec()));
}

#[test]
fn comments_and_blank_lines_carry_no_data() {
    assert_eq!(data_line(""), None);
    assert_eq!(data_line("   "), None);
    assert_eq!(data_line("# length: 3"), None);
    assert_eq!(data_line("   #"), None);
    assert_eq!(data_line("#"), None);
    assert_eq!(data_line("y#"), Some(b"y#".to_vec()));
    assert_eq!(keep_data_line(b""), None);
    assert_eq!(keep_data_line(b"#yy"), None);
    assert_eq!(keep_data_line(b" #"), Some(b" #".to_vec()));
}

#[test]
fn data_lines_keep_their_order() {
    let text: Vec<String> = ["# one", "bbbb", "", "  aaaa", " # two", "cccc  "]
        .iter()
        .map(|s| s.to_string())
        .collect();
    assert_eq!(data_lines(&text), vec![b"bbbb".to_vec(), b"aaaa".to_vec(), b"cccc".to_vec()]);
    assert_eq!(data_lines(&Vec::new()), Vec::<Vec<u8>>::new());
}

#[test]
fn text_round_trip() {
    for len in [0usize, 1, 36, 50, 51, 200] {
        let data: Vec<u8> = (0..len).map(|i| (i * 7 + 3) as u8).collect();
        let text: Vec<String> = encode_text(&data)
            .into_iter()
            .map(|l| format!("  {}\r", String::from_utf8(l).unwrap()))
            .collect();
        assert_eq!(decode_text(&text), Ok(data));
    }
}

#[test]
fn text_errors_count_data_lines() {
    let text: Vec<String> = ["# a comment", "", "yyyyyyyyyyyy", "# another", "oops"]
        .iter()
        .map(|s| s.to_string())
        .collect();
    assert_eq!(decode_text(&text), Err(DecodeError::LineTooShort { line: 2 }));
}
