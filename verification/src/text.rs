//! The text around the encoded lines: the comment lines that follow them,
//! with the length and the SHA-256 digest of the stream, and the choice of
//! the lines that carry data when such a text is read back.

use crate::alphabet::ALPHA;
use crate::chunk::view_ok;
use crate::frame::{decode, encode, lines_view, spec_decode, spec_encode, DecodeError};
use sha2::{Digest, Sha256};
use vstd::prelude::*;
use vstd::string::StringSliceAdditionalSpecFns;
use vstd::utf8::encode_utf8;

verus! {

/// Symbols on a line of the text.
pub const LINE_WIDTH: usize = 80;

/// The character that opens a comment line (`#`).
pub const COMMENT_CHAR: u8 = 35;

/// The decimal digits of `n`, as characters.
pub open spec fn spec_decimal(n: nat) -> Seq<u8>
    decreases n,
{
    if n < 10 {
        seq![(48 + n) as u8]
    } else {
        spec_decimal(n / 10).push((48 + n % 10) as u8)
    }
}

/// Writes `n` in decimal digits.
pub fn decimal(n: usize) -> (out: Vec<u8>)
    ensures
        out@ == spec_decimal(n as nat),
{
    let mut digits: Vec<u8> = Vec::new();
    digits.push(48 + (n % 10) as u8);
    let mut rest: usize = n / 10;
    while rest > 0
        invariant
            spec_decimal(n as nat) == (if rest == 0 {
                Seq::<u8>::empty()
            } else {
                spec_decimal(rest as nat)
            }) + digits@.reverse(),
        decreases rest,
    {
        let ghost before = digits@;
        digits.push(48 + (rest % 10) as u8);
        proof {
            let digit = (48 + rest % 10) as u8;
            let front = if rest / 10 == 0 {
                Seq::<u8>::empty()
            } else {
                spec_decimal((rest / 10) as nat)
            };
            assert(spec_decimal(rest as nat) =~= front + seq![digit]);
            assert(digits@.reverse() =~= seq![digit] + before.reverse());
            assert((front + seq![digit]) + before.reverse() =~= front + digits@.reverse());
        }
        rest = rest / 10;
    }
    let mut out: Vec<u8> = Vec::new();
    let mut i: usize = digits.len();
    while i > 0
        invariant
            i <= digits@.len(),
            out@ == digits@.reverse().take(digits@.len() - i),
        decreases i,
    {
        i -= 1;
        out.push(digits[i]);
        proof {
            assert(out@ =~= digits@.reverse().take(digits@.len() - i));
        }
    }
    proof {
        assert(out@ =~= digits@.reverse());
        assert(Seq::<u8>::empty() + digits@.reverse() =~= digits@.reverse());
    }
    out
}

/// The character for a hexadecimal digit: `0` to `9`, then `a` to `f`.
pub open spec fn hex_digit(v: int) -> u8 {
    if v < 10 {
        (48 + v) as u8
    } else {
        (87 + v) as u8
    }
}

/// The bytes in lower-case hexadecimal, two digits for each byte, the high
/// digit first.
pub open spec fn spec_hex_lower(bytes: Seq<u8>) -> Seq<u8> {
    Seq::new(
        2 * bytes.len(),
        |i: int|
            if i % 2 == 0 {
                hex_digit(bytes[i / 2] as int / 16)
            } else {
                hex_digit(bytes[i / 2] as int % 16)
            },
    )
}

/// Writes bytes in lower-case hexadecimal.
pub fn hex_lower(bytes: &[u8]) -> (out: Vec<u8>)
    ensures
        out@ == spec_hex_lower(bytes@),
{
    let mut out: Vec<u8> = Vec::new();
    let mut k: usize = 0;
    while k < bytes.len()
        invariant
            k <= bytes@.len(),
            out@ == spec_hex_lower(bytes@.take(k as int)),
        decreases bytes.len() - k,
    {
        let b = bytes[k];
        let high = b / 16;
        let low = b % 16;
        out.push(if high < 10 { 48 + high } else { 87 + high });
        out.push(if low < 10 { 48 + low } else { 87 + low });
        k += 1;
        proof {
            assert(out@ =~= spec_hex_lower(bytes@.take(k as int)));
        }
    }
    proof {
        assert(bytes@.take(k as int) =~= bytes@);
    }
    out
}

/// The SHA-256 digest of a byte string.
pub uninterp spec fn sha256_of(data: Seq<u8>) -> Seq<u8>;

/// `sha2::Sha256::digest` (the method `digest` of `digest::Digest`), which
/// hashes the whole of `data` at once. Trusted: the result is the SHA-256
/// digest of `data`, a function of `data` alone.
#[verifier::external_body]
fn sha256(data: &[u8]) -> (digest: Vec<u8>)
    ensures
        digest@ == sha256_of(data@),
{
    Sha256::digest(data).to_vec()
}

/// The comment line that gives the length of a stream.
pub open spec fn spec_length_line(length: nat) -> Seq<u8> {
    "# length: ".spec_bytes() + spec_decimal(length)
}

/// The comment line that gives the digest of a stream.
pub open spec fn spec_digest_line(digest: Seq<u8>) -> Seq<u8> {
    "# sha256: ".spec_bytes() + spec_hex_lower(digest)
}

/// The comment line that names the alphabet, the polynomial of the checksum
/// and the checksum of the nine characters `123456789`.
pub open spec fn spec_alphabet_line() -> Seq<u8> {
    "# alphabet: ".spec_bytes() + ALPHA@ + ", CRC-20 poly: 0x1c4047, check: 0xa5448".spec_bytes()
}

/// The line `# length: ` and the length in decimal digits.
pub fn length_line(length: usize) -> (line: Vec<u8>)
    ensures
        line@ == spec_length_line(length as nat),
{
    let mut line: Vec<u8> = Vec::new();
    line.extend_from_slice("# length: ".as_bytes());
    let digits = decimal(length);
    line.extend_from_slice(digits.as_slice());
    line
}

/// The line `# sha256: ` and the digest in hexadecimal digits.
pub fn digest_line(digest: &[u8]) -> (line: Vec<u8>)
    ensures
        line@ == spec_digest_line(digest@),
{
    let mut line: Vec<u8> = Vec::new();
    line.extend_from_slice("# sha256: ".as_bytes());
    let digits = hex_lower(digest);
    line.extend_from_slice(digits.as_slice());
    line
}

/// The line that describes the encoding.
pub fn alphabet_line() -> (line: Vec<u8>)
    ensures
        line@ == spec_alphabet_line(),
{
    let mut line: Vec<u8> = Vec::new();
    line.extend_from_slice("# alphabet: ".as_bytes());
    line.extend_from_slice(ALPHA.as_slice());
    line.extend_from_slice(", CRC-20 poly: 0x1c4047, check: 0xa5448".as_bytes());
    line
}

/// The two lines that sum a stream up: its length and its digest.
pub fn summary_lines(length: usize, digest: &[u8]) -> (lines: Vec<Vec<u8>>)
    ensures
        lines_view(lines@) == seq![spec_length_line(length as nat), spec_digest_line(digest@)],
{
    let mut lines: Vec<Vec<u8>> = Vec::new();
    lines.push(length_line(length));
    lines.push(digest_line(digest));
    proof {
        assert(lines_view(lines@) =~= seq![
            spec_length_line(length as nat),
            spec_digest_line(digest@),
        ]);
    }
    lines
}

/// The two lines that sum up the stream `data`: its length and its SHA-256
/// digest.
pub fn summary(data: &[u8]) -> (lines: Vec<Vec<u8>>)
    ensures
        lines_view(lines@) == seq![
            spec_length_line(data@.len()),
            spec_digest_line(sha256_of(data@)),
        ],
{
    let digest = sha256(data);
    summary_lines(data.len(), digest.as_slice())
}

/// The text for a stream: its encoded lines, then the comment lines with
/// its length and its digest, then the line that describes the encoding.
pub open spec fn spec_encode_text(data: Seq<u8>, digest: Seq<u8>) -> Seq<Seq<u8>> {
    spec_encode(data, LINE_WIDTH as nat) + seq![
        spec_length_line(data.len()),
        spec_digest_line(digest),
        spec_alphabet_line(),
    ]
}

/// The text for the stream `data`, line by line, where `digest` is the
/// digest to report.
pub fn encode_text_with(data: &[u8], digest: &[u8]) -> (text: Vec<Vec<u8>>)
    ensures
        lines_view(text@) == spec_encode_text(data@, digest@),
{
    let mut text = encode(data, LINE_WIDTH);
    let ghost encoded = lines_view(text@);
    text.push(length_line(data.len()));
    text.push(digest_line(digest));
    text.push(alphabet_line());
    proof {
        assert(lines_view(text@) =~= encoded + seq![
            spec_length_line(data@.len()),
            spec_digest_line(digest@),
            spec_alphabet_line(),
        ]);
    }
    text
}

/// The text for the stream `data`, line by line, with its SHA-256 digest.
pub fn encode_text(data: &[u8]) -> (text: Vec<Vec<u8>>)
    ensures
        lines_view(text@) == spec_encode_text(data@, sha256_of(data@)),
{
    let digest = sha256(data);
    encode_text_with(data, digest.as_slice())
}

/// A line without the white space at its two ends.
pub uninterp spec fn spec_trim(line: Seq<char>) -> Seq<char>;

/// `str::trim` of the standard library, which gives the line without the
/// white space at its two ends. Trusted: the result is a function of the
/// line alone.
#[verifier::external_body]
fn trim_line(line: &str) -> (trimmed: &str)
    ensures
        trimmed@ == spec_trim(line@),
{
    line.trim()
}

/// Whether a line that was trimmed carries data: it is not empty and is no
/// comment.
pub open spec fn is_data_line(bytes: Seq<u8>) -> bool {
    bytes.len() > 0 && bytes[0] != COMMENT_CHAR
}

/// The characters of a line of text that carry data: the bytes of the
/// trimmed line, or nothing where that is empty or a comment.
pub open spec fn spec_data_line(line: Seq<char>) -> Option<Seq<u8>> {
    let bytes = encode_utf8(spec_trim(line));
    if is_data_line(bytes) {
        Some(bytes)
    } else {
        None
    }
}

/// Keeps a trimmed line where it carries data.
pub fn keep_data_line(trimmed: &[u8]) -> (r: Option<Vec<u8>>)
    ensures
        match r {
            Some(bytes) => is_data_line(trimmed@) && bytes@ == trimmed@,
            None => !is_data_line(trimmed@),
        },
{
    if trimmed.len() == 0 || trimmed[0] == COMMENT_CHAR {
        None
    } else {
        let mut out: Vec<u8> = Vec::new();
        out.extend_from_slice(trimmed);
        Some(out)
    }
}

/// The data that a line of text carries, if any.
pub fn data_line(line: &str) -> (r: Option<Vec<u8>>)
    ensures
        match r {
            Some(bytes) => spec_data_line(line@) == Some(bytes@),
            None => spec_data_line(line@) is None,
        },
{
    keep_data_line(trim_line(line).as_bytes())
}

/// The lines of a text as sequences of characters.
pub open spec fn text_view(text: Seq<String>) -> Seq<Seq<char>> {
    Seq::new(text.len(), |i: int| text[i]@)
}

/// The data lines of a text, in their order.
pub open spec fn spec_data_lines(text: Seq<Seq<char>>) -> Seq<Seq<u8>>
    decreases text.len(),
{
    if text.len() == 0 {
        Seq::empty()
    } else {
        match spec_data_line(text.last()) {
            Some(bytes) => spec_data_lines(text.drop_last()).push(bytes),
            None => spec_data_lines(text.drop_last()),
        }
    }
}

/// Picks the data lines out of a text.
pub fn data_lines(text: &Vec<String>) -> (lines: Vec<Vec<u8>>)
    ensures
        lines_view(lines@) == spec_data_lines(text_view(text@)),
{
    let mut lines: Vec<Vec<u8>> = Vec::new();
    let mut i: usize = 0;
    proof {
        assert(lines_view(lines@) =~= Seq::<Seq<u8>>::empty());
    }
    while i < text.len()
        invariant
            i <= text@.len(),
            lines_view(lines@) == spec_data_lines(text_view(text@).take(i as int)),
        decreases text.len() - i,
    {
        let ghost before = lines_view(lines@);
        let found = data_line(text[i].as_str());
        proof {
            let front = text_view(text@).take(i + 1);
            assert(front.drop_last() =~= text_view(text@).take(i as int));
            assert(front.last() == text[i as int]@);
        }
        match found {
            Some(bytes) => {
                lines.push(bytes);
                proof {
                    assert(lines_view(lines@) =~= before.push(bytes@));
                }
            },
            None => {},
        }
        i += 1;
    }
    proof {
        assert(text_view(text@).take(i as int) =~= text_view(text@));
    }
    lines
}

/// Decodes a text: its data lines, decoded as a sequence of lines. Lines
/// are counted among the data lines.
pub fn decode_text(text: &Vec<String>) -> (r: Result<Vec<u8>, DecodeError>)
    ensures
        view_ok(r) == spec_decode(spec_data_lines(text_view(text@))),
{
    decode(data_lines(text))
}

} // verus!
