use vstd::prelude::*;

verus! {

/// The lower-case ASCII digit of a value below 16.
pub open spec fn hex_digit(n: int) -> u8 {
    if 0 <= n < 10 {
        (48 + n) as u8
    } else {
        (87 + n) as u8
    }
}

/// Whether `c` is one of `0`-`9`, `a`-`f`.
pub open spec fn is_lower_hex(c: u8) -> bool {
    (48 <= c <= 57) || (97 <= c <= 102)
}

/// Whether `c` is one of `0`-`9`, `a`-`f`, `A`-`F`.
pub open spec fn is_hex(c: u8) -> bool {
    is_lower_hex(c) || (65 <= c <= 70)
}

/// The value of a hexadecimal digit of either case.
pub open spec fn hex_value(c: u8) -> int {
    if 48 <= c <= 57 {
        c - 48
    } else if 97 <= c <= 102 {
        c - 87
    } else {
        c - 55
    }
}

/// Two lower-case digits for each byte, the high half first.
pub open spec fn hex_encoded(data: Seq<u8>) -> Seq<u8> {
    Seq::new(
        2 * data.len(),
        |i: int|
            if i % 2 == 0 {
                hex_digit(data[i / 2] as int / 16)
            } else {
                hex_digit(data[i / 2] as int % 16)
            },
    )
}

/// Whether `text` is an even number of hexadecimal digits.
pub open spec fn hex_decodable(text: Seq<u8>) -> bool {
    text.len() % 2 == 0 && forall|i: int| 0 <= i < text.len() ==> is_hex(#[trigger] text[i])
}

/// The bytes that the digit pairs of `text` stand for.
pub open spec fn hex_decoded(text: Seq<u8>) -> Seq<u8> {
    Seq::new(
        text.len() / 2,
        |i: int| (16 * hex_value(text[2 * i]) + hex_value(text[2 * i + 1])) as u8,
    )
}

/// Whether `text` is lower-case hexadecimal digits only.
pub open spec fn all_lower_hex(text: Seq<u8>) -> bool {
    forall|i: int| 0 <= i < text.len() ==> is_lower_hex(#[trigger] text[i])
}

/// Whether `text` is an object address: forty lower-case hexadecimal digits.
pub open spec fn is_address(text: Seq<u8>) -> bool {
    text.len() == 40 && all_lower_hex(text)
}

/// One byte through its two digits and back.
proof fn lemma_hex_byte(b: u8)
    ensures
        is_lower_hex(hex_digit(b as int / 16)),
        is_lower_hex(hex_digit(b as int % 16)),
        16 * hex_value(hex_digit(b as int / 16)) + hex_value(hex_digit(b as int % 16)) == b,
{
    let hi = b as int / 16;
    let lo = b as int % 16;
    assert(0 <= hi < 16 && 0 <= lo < 16);
    assert(hex_value(hex_digit(hi)) == hi);
    assert(hex_value(hex_digit(lo)) == lo);
}

/// Two lower-case digits through their byte and back.
proof fn lemma_hex_pair(hi: u8, lo: u8)
    requires
        is_lower_hex(hi),
        is_lower_hex(lo),
    ensures
        0 <= 16 * hex_value(hi) + hex_value(lo) < 256,
        hex_digit((16 * hex_value(hi) + hex_value(lo)) / 16) == hi,
        hex_digit((16 * hex_value(hi) + hex_value(lo)) % 16) == lo,
{
    let h = hex_value(hi);
    let l = hex_value(lo);
    assert(0 <= h < 16 && 0 <= l < 16);
    assert((16 * h + l) / 16 == h);
    assert((16 * h + l) % 16 == l);
    assert(hex_digit(h) == hi);
    assert(hex_digit(l) == lo);
}

/// What was encoded can be decoded, and decodes to itself.
pub proof fn lemma_hex_round_trip(data: Seq<u8>)
    ensures
        hex_encoded(data).len() == 2 * data.len(),
        all_lower_hex(hex_encoded(data)),
        hex_decodable(hex_encoded(data)),
        hex_decoded(hex_encoded(data)) == data,
{
    let text = hex_encoded(data);
    assert forall|i: int| 0 <= i < text.len() implies is_lower_hex(#[trigger] text[i]) by {
        lemma_hex_byte(data[i / 2]);
    }
    assert forall|i: int| 0 <= i < data.len() implies hex_decoded(text)[i] == data[i] by {
        lemma_hex_byte(data[i]);
        assert((2 * i) / 2 == i && (2 * i) % 2 == 0);
        assert((2 * i + 1) / 2 == i && (2 * i + 1) % 2 == 1);
        assert(text[2 * i] == hex_digit(data[i] as int / 16));
        assert(text[2 * i + 1] == hex_digit(data[i] as int % 16));
    }
    assert(hex_decoded(text) =~= data);
}

/// Lower-case digits that were decoded encode to themselves.
pub proof fn lemma_hex_canonical(text: Seq<u8>)
    requires
        text.len() % 2 == 0,
        all_lower_hex(text),
    ensures
        hex_decodable(text),
        hex_decoded(text).len() * 2 == text.len(),
        hex_encoded(hex_decoded(text)) == text,
{
    let data = hex_decoded(text);
    assert(data.len() * 2 == text.len());
    assert forall|i: int| 0 <= i < text.len() implies hex_encoded(data)[i] == text[i] by {
        let k = i / 2;
        assert(is_lower_hex(text[2 * k]) && is_lower_hex(text[2 * k + 1]));
        lemma_hex_pair(text[2 * k], text[2 * k + 1]);
        assert(data[k] == 16 * hex_value(text[2 * k]) + hex_value(text[2 * k + 1]));
        if i % 2 == 0 {
            assert(i == 2 * k);
        } else {
            assert(i == 2 * k + 1);
        }
    }
    assert(hex_encoded(data) =~= text);
}

/// Calls `hex::encode`. The contract claims what the crate documents: two
/// lower-case digits for each byte, taken from the table `0123456789abcdef`
/// by the byte's high and low half.
#[verifier::external_body]
pub(crate) fn hex_encode(data: &[u8]) -> (text: Vec<u8>)
    ensures
        text@ == hex_encoded(data@),
{
    hex::encode(data).into_bytes()
}

/// Calls `hex::decode`. The contract claims what the crate's source shows: it
/// fails on an odd length and on any byte that is no hexadecimal digit of
/// either case, and otherwise each pair of digits gives one byte.
#[verifier::external_body]
pub(crate) fn hex_decode(text: &[u8]) -> (decoded: Result<Vec<u8>, hex::FromHexError>)
    ensures
        decoded is Ok <==> hex_decodable(text@),
        decoded matches Ok(data) ==> data@ == hex_decoded(text@),
{
    hex::decode(text)
}

/// The error of `hex::decode`, carried through unread.
#[verifier::external_type_specification]
#[verifier::external_body]
pub struct ExFromHexError(hex::FromHexError);

/// Whether `text` is forty lower-case hexadecimal digits.
pub fn is_object_address(text: &[u8]) -> (yes: bool)
    ensures
        yes == is_address(text@),
{
    if text.len() != 40 {
        return false;
    }
    let mut i: usize = 0;
    while i < 40
        invariant
            text@.len() == 40,
            i <= 40,
            forall|k: int| 0 <= k < i ==> is_lower_hex(#[trigger] text@[k]),
        decreases 40 - i,
    {
        let c = text[i];
        if !((48 <= c && c <= 57) || (97 <= c && c <= 102)) {
            return false;
        }
        i = i + 1;
    }
    true
}

/// The bytes behind an address, or `None` where `text` is no address.
pub fn address_to_bytes(text: &[u8]) -> (raw: Option<Vec<u8>>)
    ensures
        raw is Some <==> is_address(text@),
        raw matches Some(bytes) ==> bytes@ == hex_decoded(text@) && bytes@.len() == 20,
{
    if !is_object_address(text) {
        return None;
    }
    match hex_decode(text) {
        Ok(bytes) => Some(bytes),
        Err(_) => {
            proof {
                lemma_hex_canonical(text@);
            }
            None
        },
    }
}

/// The address that twenty raw bytes stand for.
pub fn bytes_to_address(raw: &[u8]) -> (text: Vec<u8>)
    ensures
        text@ == hex_encoded(raw@),
        raw@.len() == 20 ==> is_address(text@),
{
    proof {
        lemma_hex_round_trip(raw@);
    }
    hex_encode(raw)
}

} // verus!
