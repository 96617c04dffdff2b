//! Identifiers whose text form comes from outside libraries.
use vstd::prelude::*;

verus! {

/// The lower-case hexadecimal digits, by value.
pub open spec fn hex_digits() -> Seq<char> {
    seq!['0', '1', '2', '3', '4', '5', '6', '7', '8', '9', 'a', 'b', 'c', 'd', 'e', 'f']
}

/// The `i`-th hexadecimal digit of `id`, counting from the most significant.
pub open spec fn nibble(id: u128, i: int) -> u128 {
    (id >> ((124 - 4 * i) as u128)) & 15u128
}

/// The 32 hexadecimal digits of `id`, most significant first.
pub open spec fn hex_of(id: u128) -> Seq<char> {
    Seq::new(32, |i: int| hex_digits()[nibble(id, i) as int])
}

/// The hyphenated text form of the UUID `id`: its digits in groups of 8, 4,
/// 4, 4 and 12, joined by `-`.
pub open spec fn uuid_text(id: u128) -> Seq<char> {
    let h = hex_of(id);
    h.subrange(0, 8) + seq!['-'] + h.subrange(8, 12) + seq!['-'] + h.subrange(12, 16) + seq!['-']
        + h.subrange(16, 20) + seq!['-'] + h.subrange(20, 32)
}

/// Whether `s` is a valid Matrix user ID.
pub uninterp spec fn user_id_valid(s: Seq<char>) -> bool;

/// Relies on uuid's `Uuid::from_u128` (the value's bytes, most significant
/// first) and its `Display`, which writes each byte as two lower-case hex
/// digits and hyphenates after the 4th, 6th, 8th and 10th byte.
#[verifier::external_body]
pub(crate) fn request_key(id: u128) -> (r: String)
    ensures
        r@ == uuid_text(id),
{
    uuid::Uuid::from_u128(id).to_string()
}

/// Relies on ruma's `<&UserId>::try_from(&str)`: it accepts the text of a
/// valid user ID and nothing else.
#[verifier::external_body]
pub(crate) fn is_valid_user_id(s: &str) -> (r: bool)
    ensures
        r == user_id_valid(s@),
{
    <&ruma::UserId>::try_from(s).is_ok()
}

/// The value of a lower-case hexadecimal digit.
pub open spec fn hex_value(c: char) -> u128 {
    if c == '0' { 0 } else if c == '1' { 1 } else if c == '2' { 2 } else if c == '3' { 3 }
    else if c == '4' { 4 } else if c == '5' { 5 } else if c == '6' { 6 } else if c == '7' { 7 }
    else if c == '8' { 8 } else if c == '9' { 9 } else if c == 'a' { 10 } else if c == 'b' { 11 }
    else if c == 'c' { 12 } else if c == 'd' { 13 } else if c == 'e' { 14 } else { 15 }
}

proof fn lemma_hex_value(n: u128)
    requires
        n < 16,
    ensures
        hex_value(hex_digits()[n as int]) == n,
{
        assert(hex_value(hex_digits()[0]) == 0);
        assert(hex_value(hex_digits()[1]) == 1);
        assert(hex_value(hex_digits()[2]) == 2);
        assert(hex_value(hex_digits()[3]) == 3);
        assert(hex_value(hex_digits()[4]) == 4);
        assert(hex_value(hex_digits()[5]) == 5);
        assert(hex_value(hex_digits()[6]) == 6);
        assert(hex_value(hex_digits()[7]) == 7);
        assert(hex_value(hex_digits()[8]) == 8);
        assert(hex_value(hex_digits()[9]) == 9);
        assert(hex_value(hex_digits()[10]) == 10);
        assert(hex_value(hex_digits()[11]) == 11);
        assert(hex_value(hex_digits()[12]) == 12);
        assert(hex_value(hex_digits()[13]) == 13);
        assert(hex_value(hex_digits()[14]) == 14);
        assert(hex_value(hex_digits()[15]) == 15);
}

proof fn lemma_nibbles_determine(a: u128, b: u128)
    by (bit_vector)
    requires
        (a >> 0u128) & 15u128 == (b >> 0u128) & 15u128,
        (a >> 4u128) & 15u128 == (b >> 4u128) & 15u128,
        (a >> 8u128) & 15u128 == (b >> 8u128) & 15u128,
        (a >> 12u128) & 15u128 == (b >> 12u128) & 15u128,
        (a >> 16u128) & 15u128 == (b >> 16u128) & 15u128,
        (a >> 20u128) & 15u128 == (b >> 20u128) & 15u128,
        (a >> 24u128) & 15u128 == (b >> 24u128) & 15u128,
        (a >> 28u128) & 15u128 == (b >> 28u128) & 15u128,
        (a >> 32u128) & 15u128 == (b >> 32u128) & 15u128,
        (a >> 36u128) & 15u128 == (b >> 36u128) & 15u128,
        (a >> 40u128) & 15u128 == (b >> 40u128) & 15u128,
        (a >> 44u128) & 15u128 == (b >> 44u128) & 15u128,
        (a >> 48u128) & 15u128 == (b >> 48u128) & 15u128,
        (a >> 52u128) & 15u128 == (b >> 52u128) & 15u128,
        (a >> 56u128) & 15u128 == (b >> 56u128) & 15u128,
        (a >> 60u128) & 15u128 == (b >> 60u128) & 15u128,
        (a >> 64u128) & 15u128 == (b >> 64u128) & 15u128,
        (a >> 68u128) & 15u128 == (b >> 68u128) & 15u128,
        (a >> 72u128) & 15u128 == (b >> 72u128) & 15u128,
        (a >> 76u128) & 15u128 == (b >> 76u128) & 15u128,
        (a >> 80u128) & 15u128 == (b >> 80u128) & 15u128,
        (a >> 84u128) & 15u128 == (b >> 84u128) & 15u128,
        (a >> 88u128) & 15u128 == (b >> 88u128) & 15u128,
        (a >> 92u128) & 15u128 == (b >> 92u128) & 15u128,
        (a >> 96u128) & 15u128 == (b >> 96u128) & 15u128,
        (a >> 100u128) & 15u128 == (b >> 100u128) & 15u128,
        (a >> 104u128) & 15u128 == (b >> 104u128) & 15u128,
        (a >> 108u128) & 15u128 == (b >> 108u128) & 15u128,
        (a >> 112u128) & 15u128 == (b >> 112u128) & 15u128,
        (a >> 116u128) & 15u128 == (b >> 116u128) & 15u128,
        (a >> 120u128) & 15u128 == (b >> 120u128) & 15u128,
        (a >> 124u128) & 15u128 == (b >> 124u128) & 15u128,
    ensures
        a == b,
{
}

/// Different ids have different text forms, so the records of one request
/// are never filed under another's key.
pub proof fn lemma_uuid_text_injective(a: u128, b: u128)
    requires
        uuid_text(a) == uuid_text(b),
    ensures
        a == b,
{
    let ha = hex_of(a);
    let hb = hex_of(b);
    assert forall|i: int| 0 <= i < 32 implies ha[i] == hb[i] by {
        let j = if i < 8 { i } else if i < 12 { i + 1 } else if i < 16 { i + 2 } else if i < 20 { i + 3 } else { i + 4 };
        assert(uuid_text(a)[j] == ha[i]);
        assert(uuid_text(b)[j] == hb[i]);
    }
    assert forall|i: int| 0 <= i < 32 implies nibble(a, i) == nibble(b, i) by {
        let s = (124 - 4 * i) as u128;
        assert((a >> s) & 15u128 < 16) by (bit_vector);
        assert((b >> s) & 15u128 < 16) by (bit_vector);
        lemma_hex_value(nibble(a, i));
        lemma_hex_value(nibble(b, i));
        assert(ha[i] == hb[i]);
    }
    assert(nibble(a, 31) == nibble(b, 31));
    assert(nibble(a, 30) == nibble(b, 30));
    assert(nibble(a, 29) == nibble(b, 29));
    assert(nibble(a, 28) == nibble(b, 28));
    assert(nibble(a, 27) == nibble(b, 27));
    assert(nibble(a, 26) == nibble(b, 26));
    assert(nibble(a, 25) == nibble(b, 25));
    assert(nibble(a, 24) == nibble(b, 24));
    assert(nibble(a, 23) == nibble(b, 23));
    assert(nibble(a, 22) == nibble(b, 22));
    assert(nibble(a, 21) == nibble(b, 21));
    assert(nibble(a, 20) == nibble(b, 20));
    assert(nibble(a, 19) == nibble(b, 19));
    assert(nibble(a, 18) == nibble(b, 18));
    assert(nibble(a, 17) == nibble(b, 17));
    assert(nibble(a, 16) == nibble(b, 16));
    assert(nibble(a, 15) == nibble(b, 15));
    assert(nibble(a, 14) == nibble(b, 14));
    assert(nibble(a, 13) == nibble(b, 13));
    assert(nibble(a, 12) == nibble(b, 12));
    assert(nibble(a, 11) == nibble(b, 11));
    assert(nibble(a, 10) == nibble(b, 10));
    assert(nibble(a, 9) == nibble(b, 9));
    assert(nibble(a, 8) == nibble(b, 8));
    assert(nibble(a, 7) == nibble(b, 7));
    assert(nibble(a, 6) == nibble(b, 6));
    assert(nibble(a, 5) == nibble(b, 5));
    assert(nibble(a, 4) == nibble(b, 4));
    assert(nibble(a, 3) == nibble(b, 3));
    assert(nibble(a, 2) == nibble(b, 2));
    assert(nibble(a, 1) == nibble(b, 1));
    assert(nibble(a, 0) == nibble(b, 0));
    lemma_nibbles_determine(a, b);
}

} // verus!
