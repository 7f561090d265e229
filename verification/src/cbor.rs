//! The part of CBOR (RFC 8949) that keys are made of, and the calls into
//! `serde_cbor` that encode and decode single data items.
//!
//! Encoding a text string is stated exactly: serde_cbor writes the shortest
//! head for the byte length, then the UTF-8 bytes. Decoding is stated exactly
//! for those canonical text items; for every other item the result is named
//! (`cbor_item_span`, `cbor_item_string`), since it is a function of the bytes
//! alone but takes the whole CBOR grammar to state.
use vstd::prelude::*;
use vstd::utf8::encode_utf8;

verus! {

/// Largest value, plus one, that `width` big-endian bytes can hold.
pub open spec fn byte_range(width: nat) -> nat
    decreases width,
{
    if width == 0 {
        1
    } else {
        256 * byte_range((width - 1) as nat)
    }
}

/// `n` written as `width` big-endian bytes (the high part is dropped when
/// `n` does not fit).
pub open spec fn be_bytes(n: nat, width: nat) -> Seq<u8>
    decreases width,
{
    if width == 0 {
        Seq::empty()
    } else {
        be_bytes(n / 256, (width - 1) as nat).push((n % 256) as u8)
    }
}

/// The big-endian number that `b` holds.
pub open spec fn be_value(b: Seq<u8>) -> nat
    decreases b.len(),
{
    if b.len() == 0 {
        0
    } else {
        (be_value(b.drop_last()) * 256 + b.last()) as nat
    }
}

/// The shortest CBOR head of major type `major` whose argument is `n`.
pub open spec fn head_bytes(major: u8, n: nat) -> Seq<u8> {
    let base: nat = (major as nat) * 32;
    if n < 24 {
        seq![(base + n) as u8]
    } else if n < 0x100 {
        seq![(base + 24) as u8, n as u8]
    } else if n < 0x1_0000 {
        seq![(base + 25) as u8] + be_bytes(n, 2)
    } else if n < 0x1_0000_0000 {
        seq![(base + 26) as u8] + be_bytes(n, 4)
    } else {
        seq![(base + 27) as u8] + be_bytes(n, 8)
    }
}

/// The text string `s` as one CBOR data item: its head, then its UTF-8 bytes.
pub open spec fn text_item(s: Seq<char>) -> Seq<u8> {
    head_bytes(3, encode_utf8(s).len()) + encode_utf8(s)
}

/// `s` is short enough for its byte length to fit a head's 8-byte argument.
pub open spec fn text_fits(s: Seq<char>) -> bool {
    encode_utf8(s).len() < byte_range(8)
}

/// `b` begins with the canonical encoding of some text string.
pub open spec fn starts_with_text(b: Seq<u8>) -> bool {
    exists|s: Seq<char>| text_fits(s) && #[trigger] text_item(s).is_prefix_of(b)
}

/// The text string whose canonical encoding begins `b` (meaningful when
/// `starts_with_text(b)`).
pub open spec fn leading_text(b: Seq<u8>) -> Seq<char> {
    choose|s: Seq<char>| text_fits(s) && #[trigger] text_item(s).is_prefix_of(b)
}

/// `item` is exactly the canonical encoding of some text string.
pub open spec fn is_text_item(item: Seq<u8>) -> bool {
    exists|s: Seq<char>| text_fits(s) && #[trigger] text_item(s) == item
}

/// The text string that `item` encodes (meaningful when `is_text_item(item)`).
pub open spec fn text_of_item(item: Seq<u8>) -> Seq<char> {
    choose|s: Seq<char>| text_fits(s) && #[trigger] text_item(s) == item
}

/// How many bytes serde_cbor reads for the first data item of `bytes`, when
/// it reads that item as a `serde_cbor::Value` (`None`: it fails).
pub uninterp spec fn cbor_item_span(bytes: Seq<u8>) -> Option<nat>;

/// The string serde_cbor decodes from `item` when it reads the whole of
/// `item` as a `String` (`None`: it fails).
pub uninterp spec fn cbor_item_string(item: Seq<u8>) -> Option<Seq<char>>;

/// Length of the first data item of `b`.
pub open spec fn item_len(b: Seq<u8>) -> Option<nat> {
    if starts_with_text(b) {
        Some(text_item(leading_text(b)).len())
    } else {
        cbor_item_span(b)
    }
}

/// The string a data item stands for, when it stands for one.
pub open spec fn item_text(item: Seq<u8>) -> Option<Seq<char>> {
    if is_text_item(item) {
        Some(text_of_item(item))
    } else {
        cbor_item_string(item)
    }
}

/// Encodes `s` with `serde_cbor::to_vec`.
///
/// Trusted: serde_cbor's `serialize_str` writes the head of major type 3 with
/// the shortest argument for the byte length (`write_u64` falls through to
/// the smallest width), then the UTF-8 bytes of the string; writing into a
/// `Vec` cannot fail.
#[verifier::external_body]
pub(crate) fn encode_text(s: &str) -> (out: Vec<u8>)
    ensures
        out@ == text_item(s@),
{
    match serde_cbor::to_vec(&s) {
        Ok(bytes) => bytes,
        Err(_) => Vec::new(),
    }
}

/// Length of the first data item of `bytes`, read with a
/// `serde_cbor::StreamDeserializer` of `serde_cbor::Value` and its
/// `byte_offset`.
///
/// Trusted: on a canonical text item serde_cbor's `parse_str` reads the head
/// and exactly the announced bytes, which are valid UTF-8; otherwise the
/// result is named. A read that succeeds consumes at least one byte and no
/// more than there are. Not stated: serde_cbor limits the nesting depth of
/// the item it reads, counting from the start of `bytes`.
#[verifier::external_body]
pub(crate) fn read_item_len(bytes: &[u8]) -> (len: Option<usize>)
    ensures
        starts_with_text(bytes@) ==> len == Some(text_item(leading_text(bytes@)).len() as usize),
        !starts_with_text(bytes@) ==> match len {
            Some(n) => cbor_item_span(bytes@) == Some(n as nat),
            None => cbor_item_span(bytes@) is None,
        },
        len matches Some(n) ==> 0 < n <= bytes@.len(),
{
    let mut items = serde_cbor::Deserializer::from_slice(bytes).into_iter::<serde_cbor::Value>();
    match items.next() {
        Some(Ok(_)) => Some(items.byte_offset()),
        _ => None,
    }
}

/// Reads the whole of `item` as a `String` with `serde_cbor::from_slice`.
///
/// Trusted: a canonical text item decodes to the string it encodes (the
/// UTF-8 bytes are valid and nothing trails them); otherwise the result is
/// named.
#[verifier::external_body]
pub(crate) fn read_text(item: &[u8]) -> (s: Option<String>)
    ensures
        is_text_item(item@) ==> s is Some && s.unwrap()@ == text_of_item(item@),
        !is_text_item(item@) ==> match s {
            Some(t) => cbor_item_string(item@) == Some(t@),
            None => cbor_item_string(item@) is None,
        },
{
    serde_cbor::from_slice::<String>(item).ok()
}

} // verus!
