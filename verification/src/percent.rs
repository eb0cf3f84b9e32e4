//! Percent-encoding of the bytes of one path segment, and its inverse.

use url::percent_encoding::{percent_decode, utf8_percent_encode, PATH_SEGMENT_ENCODE_SET};
use vstd::prelude::*;
use vstd::utf8::*;

verus! {

/// The bytes that may not stand for themselves inside one segment of a URL
/// path: controls, everything beyond `~`, and
/// `` space " # < > ` ? { } % / ``.
pub open spec fn needs_escape(b: u8) -> bool {
    b < 0x20 || b > 0x7E || b == 0x20 || b == 0x22 || b == 0x23 || b == 0x3C || b == 0x3E
        || b == 0x60 || b == 0x3F || b == 0x7B || b == 0x7D || b == 0x25 || b == 0x2F
}

/// The upper-case hexadecimal digit for a value below sixteen.
pub open spec fn hex_digit(n: int) -> u8 {
    if n < 10 {
        (0x30 + n) as u8
    } else {
        (0x41 + n - 10) as u8
    }
}

/// The value of a hexadecimal digit of either case.
pub open spec fn hex_value(b: u8) -> Option<int> {
    if 0x30 <= b <= 0x39 {
        Some(b - 0x30)
    } else if 0x41 <= b <= 0x46 {
        Some(b - 0x41 + 10)
    } else if 0x61 <= b <= 0x66 {
        Some(b - 0x61 + 10)
    } else {
        None
    }
}

/// One byte as it stands in an encoded segment: itself, or `%` and two
/// hexadecimal digits.
pub open spec fn escape_byte(b: u8) -> Seq<u8> {
    if needs_escape(b) {
        seq![0x25u8, hex_digit(b as int / 16), hex_digit(b as int % 16)]
    } else {
        seq![b]
    }
}

/// The percent-encoding of a run of bytes.
pub open spec fn escaped(bytes: Seq<u8>) -> Seq<u8>
    decreases bytes.len(),
{
    if bytes.len() == 0 {
        Seq::empty()
    } else {
        escape_byte(bytes[0]) + escaped(bytes.drop_first())
    }
}

/// Whether the bytes begin with `%` and two hexadecimal digits.
pub open spec fn starts_with_escape(bytes: Seq<u8>) -> bool {
    bytes.len() >= 3 && bytes[0] == 0x25 && hex_value(bytes[1]) is Some && hex_value(
        bytes[2],
    ) is Some
}

/// The bytes that a percent-encoded run stands for. A `%` that two
/// hexadecimal digits do not follow stands for itself.
pub open spec fn unescaped(bytes: Seq<u8>) -> Seq<u8>
    decreases bytes.len(),
{
    if bytes.len() == 0 {
        Seq::empty()
    } else if starts_with_escape(bytes) {
        seq![(hex_value(bytes[1])->0 * 16 + hex_value(bytes[2])->0) as u8] + unescaped(
            bytes.skip(3),
        )
    } else {
        seq![bytes[0]] + unescaped(bytes.drop_first())
    }
}

/// Whether two hexadecimal digits follow every `%` of the run.
pub open spec fn well_escaped(bytes: Seq<u8>) -> bool {
    forall|k: int|
        0 <= k < bytes.len() && #[trigger] bytes[k] == 0x25 ==> k + 2 < bytes.len() && hex_value(
            bytes[k + 1],
        ) is Some && hex_value(bytes[k + 2]) is Some
}

/// Whether the byte is a hexadecimal digit of either case.
pub fn is_hex_digit(b: u8) -> (r: bool)
    ensures
        r == hex_value(b) is Some,
{
    (0x30 <= b && b <= 0x39) || (0x41 <= b && b <= 0x46) || (0x61 <= b && b <= 0x66)
}

/// Whether two hexadecimal digits follow every `%` of the run.
pub fn is_well_escaped(run: &[u8]) -> (r: bool)
    ensures
        r == well_escaped(run@),
{
    let n = run.len();
    let mut k: usize = 0;
    while k < n
        invariant
            k <= n,
            n == run.len(),
            forall|j: int|
                0 <= j < k && #[trigger] run@[j] == 0x25 ==> j + 2 < n && hex_value(run@[j + 1])
                    is Some && hex_value(run@[j + 2]) is Some,
        decreases n - k,
    {
        if run[k] == 0x25 {
            if n - k < 3 || !is_hex_digit(run[k + 1]) || !is_hex_digit(run[k + 2]) {
                return false;
            }
        }
        k += 1;
    }
    true
}

/// The text of a segment as it stands in a link.
pub open spec fn escaped_text(segment: Seq<char>) -> Seq<char> {
    decode_utf8(escaped(encode_utf8(segment)))
}

/// `url::percent_encoding::utf8_percent_encode` with `PATH_SEGMENT_ENCODE_SET`,
/// written out as a `String`. Trusted: the bytes of the result are the
/// bytes of `segment`, each byte of the set replaced by `%` and its two
/// upper-case hexadecimal digits.
#[verifier::external_body]
pub(crate) fn escape_segment(segment: &str) -> (r: String)
    ensures
        encode_utf8(r@) == escaped(encode_utf8(segment@)),
{
    utf8_percent_encode(segment, PATH_SEGMENT_ENCODE_SET).to_string()
}

/// `url::percent_encoding::percent_decode` followed by `decode_utf8` on what
/// it returns. Trusted: every `%` with two hexadecimal digits behind it is
/// replaced, together with them, by the byte they denote, every other byte
/// is kept, and the result is read as UTF-8; `None` when it is not
/// well-formed UTF-8.
#[verifier::external_body]
pub(crate) fn unescape_segment(raw: &[u8]) -> (r: Option<String>)
    ensures
        r is Some <==> valid_utf8(unescaped(raw@)),
        r is Some ==> r->0@ == decode_utf8(unescaped(raw@)),
{
    match percent_decode(raw).decode_utf8() {
        Ok(text) => Some(text.into_owned()),
        Err(_) => None,
    }
}

/// Decoding undoes encoding.
pub proof fn lemma_unescaped_escaped(bytes: Seq<u8>)
    ensures
        unescaped(escaped(bytes)) == bytes,
    decreases bytes.len(),
{
    if bytes.len() > 0 {
        let b = bytes[0];
        let rest = bytes.drop_first();
        let whole = escaped(bytes);
        lemma_unescaped_escaped(rest);
        if needs_escape(b) {
            let high = hex_digit(b as int / 16);
            let low = hex_digit(b as int % 16);
            assert(whole[0] == 0x25 && whole[1] == high && whole[2] == low);
            assert(hex_value(high) == Some(b as int / 16));
            assert(hex_value(low) == Some(b as int % 16));
            assert(whole.skip(3) == escaped(rest));
        } else {
            assert(whole[0] == b);
            assert(whole.drop_first() == escaped(rest));
        }
        assert(bytes == seq![b] + rest);
    }
}

/// An encoded run holds ASCII only and no slash, and is empty only where
/// the run itself is.
pub proof fn lemma_escaped_is_plain(bytes: Seq<u8>)
    ensures
        forall|j: int|
            0 <= j < escaped(bytes).len() ==> (#[trigger] escaped(bytes)[j]) < 0x80 && escaped(
                bytes,
            )[j] != 0x2F,
        escaped(bytes).len() >= bytes.len(),
    decreases bytes.len(),
{
    if bytes.len() > 0 {
        lemma_escaped_is_plain(bytes.drop_first());
        let head = escape_byte(bytes[0]);
        let tail = escaped(bytes.drop_first());
        assert forall|j: int| 0 <= j < escaped(bytes).len() implies (#[trigger] escaped(bytes)[j])
            < 0x80 && escaped(bytes)[j] != 0x2F by {
            if j >= head.len() {
                assert(escaped(bytes)[j] == tail[j - head.len()]);
            }
        }
    }
}

/// Two hexadecimal digits follow every `%` of an encoded run.
pub proof fn lemma_escaped_is_well_escaped(bytes: Seq<u8>)
    ensures
        well_escaped(escaped(bytes)),
    decreases bytes.len(),
{
    if bytes.len() > 0 {
        lemma_escaped_is_well_escaped(bytes.drop_first());
        let whole = escaped(bytes);
        let head = escape_byte(bytes[0]);
        let tail = escaped(bytes.drop_first());
        assert forall|k: int| 0 <= k < whole.len() && #[trigger] whole[k] == 0x25 implies k + 2
            < whole.len() && hex_value(whole[k + 1]) is Some && hex_value(whole[k + 2]) is Some by {
            if k >= head.len() {
                let at = k - head.len();
                assert(whole[k] == tail[at]);
                assert(whole[k + 1] == tail[at + 1]);
                assert(whole[k + 2] == tail[at + 2]);
            } else {
                assert(whole[k] == head[k]);
                assert(k == 0 && head.len() == 3);
                assert(whole[1] == head[1] && whole[2] == head[2]);
            }
        }
    }
}

/// Bytes below `0x80` are well-formed UTF-8.
pub proof fn lemma_ascii_is_utf8(bytes: Seq<u8>)
    requires
        forall|j: int| 0 <= j < bytes.len() ==> (#[trigger] bytes[j]) < 0x80,
    ensures
        valid_utf8(bytes),
{
    assert forall|j: int| 0 <= j < bytes.len() implies #[trigger] is_leading_byte_width_1(
        bytes[j],
    ) by {
        utf8_byte_ranges_bitwise(bytes[j]);
    }
    assert(bytes.subrange(0, 0) == Seq::<u8>::empty());
    assert(partial_valid_utf8(bytes, 0));
    partial_valid_utf8_extend_ascii_block(bytes, 0, bytes.len() as int);
    assert(bytes.subrange(0, bytes.len() as int) == bytes);
}

/// The bytes of the text of an encoded segment are the encoded bytes of the
/// segment.
pub proof fn lemma_escaped_text_bytes(segment: Seq<char>)
    ensures
        encode_utf8(escaped_text(segment)) == escaped(encode_utf8(segment)),
{
    let plain = escaped(encode_utf8(segment));
    lemma_escaped_is_plain(encode_utf8(segment));
    lemma_ascii_is_utf8(plain);
    decode_utf8_encode_utf8(plain);
}

} // verus!
