use zbase32_codec::chunk::{ljust, raw_decode, raw_encode, strip_padding};
use zbase32_codec::crc::crc_update;
use zbase32_codec::frame::{decode, encode};

#[test]
fn test_ljust() {
    assert_eq!(ljust(b"abc", 3, b'a'), b"abc");
    assert_eq!(ljust(b"abc", 5, b'a'), b"abcaa");
}

#[test]
fn test_raw_encode() {
    let result = raw_encode(b"0123456789abcdefghijklmnopqrstuvwxyz");
    assert_eq!(
        result,
        "ojcru3ogitpqdhr8buagg1icg53oswjpmd54gz7pomhrz3tqiu7q8hfx4d======".as_bytes()
    );
}

fn raw_size(s: &[u8]) -> usize {
    let length = s.len() as f32 * 5.0 / 8.0;
    length.ceil() as usize
}

#[test]
fn test_strip_padding() {
    // Max chunk size, padded, valid lengths
    let result = strip_padding(b"yyyyyyyy").unwrap();
    assert_eq!(result, (b"yyyyyyyy".to_vec(), 5));

    let result = strip_padding(b"yyyyyyy=").unwrap();
    assert_eq!(result, (b"yyyyyyy".to_vec(), 4));

    let result = strip_padding(b"yyyyy===").unwrap();
    assert_eq!(result, (b"yyyyy".to_vec(), 3));

    let result = strip_padding(b"yyyy====").unwrap();
    assert_eq!(result, (b"yyyy".to_vec(), 2));

    let result = strip_padding(b"yy======").unwrap();
    assert_eq!(result, (b"yy".to_vec(), 1));

    // Max chunk size, invalid lengths (expect error)
    strip_padding(b"yyyyyy==").unwrap_err();
    strip_padding(b"yyy=====").unwrap_err();
    strip_padding(b"y=======").unwrap_err();

    // Less than max chunk size (excess bits spill over to an additional decoded byte)
    let input = b"yyyyyyy";
    let result = strip_padding(input).unwrap();
    assert_eq!(result, (input.to_vec(), raw_size(input)));

    let input = b"yyyyyy";
    let result = strip_padding(input).unwrap();
    assert_eq!(result, (input.to_vec(), raw_size(input)));

    let input = b"yyyyy";
    let result = strip_padding(input).unwrap();
    assert_eq!(result, (input.to_vec(), raw_size(input)));

    let input = b"yyyy";
    let result = strip_padding(input).unwrap();
    assert_eq!(result, (input.to_vec(), raw_size(input)));

    let input = b"yyy";
    let result = strip_padding(input).unwrap();
    assert_eq!(result, (input.to_vec(), raw_size(input)));

    let input = b"yy";
    let result = strip_padding(input).unwrap();
    assert_eq!(result, (input.to_vec(), raw_size(input)));

    let input = b"y";
    let result = strip_padding(input).unwrap();
    assert_eq!(result, (input.to_vec(), raw_size(input)));
}

#[test]
fn test_raw_decode() {
    let result = raw_decode(b"ojcru3ogitpqdhr8buagg1icg53oswjpmd54gz7pomhrz3tqiu7q8hfx4d======");
    assert_eq!(result.unwrap(), "0123456789abcdefghijklmnopqrstuvwxyz".as_bytes());
}

#[test]
fn test_crc() {
    let crc = crc_update(b"123456789", 0);
    assert_eq!(crc, 0xa5448);
}

#[test]
fn test_encode() {
    let result = &encode(b"0123456789abcdefghijklmnopqrstuvwxyz", 80)[0];
    assert_eq!(
        *result,
        "ojcru3ogitpqdhr8buagg1icg53oswjpmd54gz7pomhrz3tqiu7q8hfx4d======hkxj".as_bytes()
    );
}

#[test]
fn test_decode() {
    let input = vec![
        "ojcru3ogitpqdhr8buagg1icg53oswjpmd54gz7pomhrz3tqiu7q8hfx4d======hkxj"
            .as_bytes()
            .to_vec(),
    ];
    let result = decode(input).unwrap();
    assert_eq!(result, "0123456789abcdefghijklmnopqrstuvwxyz".as_bytes());
}

#[test]
fn test_encode_decode() {
    let text = b"Hello there.\nGeneral Kenobi..\nYou are a bold one.\n";
    assert_eq!(text.len(), 50); // Otherwise our assumptions break

    for text_len in 0..text.len() {
        let raw_text = &text[..text_len + 1];

        let encoded = encode(raw_text, 80); // width is 50 * 8 / 5, so the text at full length will be encoded in 80 bytes
        assert_eq!(encoded.len(), 1);

        let decoded = decode(encoded).unwrap();
        assert_eq!(decoded, raw_text);
    }
}
