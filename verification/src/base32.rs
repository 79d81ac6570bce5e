//! The base-32 text of bytes, in which onion services are named.

use data_encoding::BASE32_NOPAD;
use vstd::prelude::*;

verus! {

/// A bit of a byte string, counted from the highest bit of its first byte; past
/// the end every bit is zero.
pub open spec fn bit_at(bytes: Seq<u8>, i: int) -> int {
    if 0 <= i < 8 * bytes.len() {
        ((bytes[i / 8] >> ((7 - i % 8) as u8)) & 1) as int
    } else {
        0
    }
}

/// The number that five bits in a row spell.
pub open spec fn five_bits(bytes: Seq<u8>, k: int) -> int {
    16 * bit_at(bytes, 5 * k) + 8 * bit_at(bytes, 5 * k + 1) + 4 * bit_at(bytes, 5 * k + 2) + 2
        * bit_at(bytes, 5 * k + 3) + bit_at(bytes, 5 * k + 4)
}

/// The symbol of a number below 32: the letters, then the digits from two on.
pub open spec fn base32_symbol(value: int) -> char {
    if value < 26 {
        ('A' as int + value) as char
    } else {
        ('2' as int + value - 26) as char
    }
}

/// The base-32 text of a byte string, in upper case and without padding: one
/// symbol for each five bits, the last filled up with zeros.
pub open spec fn base32_text(bytes: Seq<u8>) -> Seq<char> {
    Seq::new(((8 * bytes.len() + 4) / 5) as nat, |k: int| base32_symbol(five_bits(bytes, k)))
}

/// The base-32 text of the bytes of an onion address.
///
/// Calls `BASE32_NOPAD.encode` of data_encoding. The contract says what the
/// encoding is: the symbols `A` to `Z` and `2` to `7`, the highest bits first,
/// no padding.
#[verifier::external_body]
pub(crate) fn base32_nopad(bytes: &[u8; 35]) -> (text: String)
    ensures
        text@ == base32_text(bytes@),
{
    BASE32_NOPAD.encode(bytes)
}

/// The lower-case form of an ASCII letter; any other character as it is.
pub open spec fn ascii_lower(c: char) -> char {
    if 'A' <= c <= 'Z' {
        ((c as int) + 32) as char
    } else {
        c
    }
}

/// A text with its ASCII letters in lower case.
pub open spec fn lower_text(text: Seq<char>) -> Seq<char> {
    text.map_values(|c: char| ascii_lower(c))
}

proof fn lemma_bit(bytes: Seq<u8>, i: int)
    ensures
        0 <= bit_at(bytes, i) <= 1,
{
    if 0 <= i < 8 * bytes.len() {
        let byte = bytes[i / 8];
        let shift = (7 - i % 8) as u8;
        assert(((byte >> shift) & 1) <= 1) by (bit_vector);
    }
}

proof fn lemma_five_bits(a: Seq<u8>, b: Seq<u8>, k: int)
    ensures
        0 <= five_bits(a, k) < 32,
        five_bits(a, k) == five_bits(b, k) ==> forall|d: int|
            0 <= d < 5 ==> #[trigger] bit_at(a, 5 * k + d) == bit_at(b, 5 * k + d),
{
    assert forall|d: int| 0 <= d < 5 implies 0 <= #[trigger] bit_at(a, 5 * k + d) <= 1 && 0
        <= bit_at(b, 5 * k + d) <= 1 by {
        lemma_bit(a, 5 * k + d);
        lemma_bit(b, 5 * k + d);
    }
    assert(0 <= bit_at(a, 5 * k + 0) <= 1 && 0 <= bit_at(b, 5 * k + 0) <= 1);
    assert(0 <= bit_at(a, 5 * k + 1) <= 1 && 0 <= bit_at(b, 5 * k + 1) <= 1);
    assert(0 <= bit_at(a, 5 * k + 2) <= 1 && 0 <= bit_at(b, 5 * k + 2) <= 1);
    assert(0 <= bit_at(a, 5 * k + 3) <= 1 && 0 <= bit_at(b, 5 * k + 3) <= 1);
    assert(0 <= bit_at(a, 5 * k + 4) <= 1 && 0 <= bit_at(b, 5 * k + 4) <= 1);
}

proof fn lemma_symbols_differ(a: int, b: int)
    requires
        0 <= a < 32,
        0 <= b < 32,
        ascii_lower(base32_symbol(a)) == ascii_lower(base32_symbol(b)),
    ensures
        a == b,
{
    assert(ascii_lower(base32_symbol(a)) as int == if a < 26 { 97 + a } else { 24 + a });
    assert(ascii_lower(base32_symbol(b)) as int == if b < 26 { 97 + b } else { 24 + b });
}

proof fn lemma_byte_of_bits(a: Seq<u8>, b: Seq<u8>, i: int)
    requires
        0 <= i < a.len(),
        a.len() == b.len(),
        forall|j: int| 0 <= j < 8 * a.len() ==> #[trigger] bit_at(a, j) == bit_at(b, j),
    ensures
        a[i] == b[i],
{
    let x = a[i];
    let y = b[i];
    assert forall|p: int| 0 <= p < 8 implies #[trigger] ((x >> ((7 - p) as u8)) & 1) == ((y >> ((7
        - p) as u8)) & 1) by {
        let j = 8 * i + p;
        assert(j / 8 == i && j % 8 == p);
        assert(bit_at(a, j) == bit_at(b, j));
    }
    assert((x >> ((7 - 0int) as u8)) & 1 == (y >> ((7 - 0int) as u8)) & 1);
    assert((x >> ((7 - 1int) as u8)) & 1 == (y >> ((7 - 1int) as u8)) & 1);
    assert((x >> ((7 - 2int) as u8)) & 1 == (y >> ((7 - 2int) as u8)) & 1);
    assert((x >> ((7 - 3int) as u8)) & 1 == (y >> ((7 - 3int) as u8)) & 1);
    assert((x >> ((7 - 4int) as u8)) & 1 == (y >> ((7 - 4int) as u8)) & 1);
    assert((x >> ((7 - 5int) as u8)) & 1 == (y >> ((7 - 5int) as u8)) & 1);
    assert((x >> ((7 - 6int) as u8)) & 1 == (y >> ((7 - 6int) as u8)) & 1);
    assert((x >> ((7 - 7int) as u8)) & 1 == (y >> ((7 - 7int) as u8)) & 1);
    assert(x == y) by (bit_vector)
        requires
            (x >> 7u8) & 1 == (y >> 7u8) & 1,
            (x >> 6u8) & 1 == (y >> 6u8) & 1,
            (x >> 5u8) & 1 == (y >> 5u8) & 1,
            (x >> 4u8) & 1 == (y >> 4u8) & 1,
            (x >> 3u8) & 1 == (y >> 3u8) & 1,
            (x >> 2u8) & 1 == (y >> 2u8) & 1,
            (x >> 1u8) & 1 == (y >> 1u8) & 1,
            (x >> 0u8) & 1 == (y >> 0u8) & 1,
    ;
}

/// Different byte strings have different base-32 texts, in lower case too.
pub proof fn base_32_tells_bytes_apart(a: Seq<u8>, b: Seq<u8>)
    ensures
        (lower_text(base32_text(a)) == lower_text(base32_text(b))) == (a == b),
        (base32_text(a) == base32_text(b)) == (a == b),
{
    if lower_text(base32_text(a)) == lower_text(base32_text(b)) {
        let la = lower_text(base32_text(a));
        let lb = lower_text(base32_text(b));
        assert(la.len() == (8 * a.len() + 4) / 5 && lb.len() == (8 * b.len() + 4) / 5);
        assert(a.len() == b.len());
        assert forall|j: int| 0 <= j < 8 * a.len() implies #[trigger] bit_at(a, j) == bit_at(
            b,
            j,
        ) by {
            let k = j / 5;
            assert(0 <= k < la.len());
            assert(la[k] == ascii_lower(base32_symbol(five_bits(a, k))));
            assert(lb[k] == ascii_lower(base32_symbol(five_bits(b, k))));
            lemma_five_bits(a, b, k);
            lemma_five_bits(b, a, k);
            lemma_symbols_differ(five_bits(a, k), five_bits(b, k));
            assert(bit_at(a, 5 * k + j % 5) == bit_at(b, 5 * k + j % 5));
        }
        assert forall|i: int| 0 <= i < a.len() implies a[i] == b[i] by {
            lemma_byte_of_bits(a, b, i);
        }
        assert(a =~= b);
    }
}

/// Bringing a text into lower case once more changes nothing.
pub proof fn lower_case_stays(text: Seq<char>)
    ensures
        lower_text(lower_text(text)) == lower_text(text),
{
    assert(lower_text(lower_text(text)) =~= lower_text(text));
}

/// The thirty-two symbols are the letters and then the digits from two to seven; the
/// highest bits of a byte string come first, five for each symbol.
pub proof fn symbols_are_letters_and_digits(value: int, bytes: Seq<u8>)
    requires
        0 <= value < 32,
    ensures
        value < 26 ==> base32_symbol(value) as int == 65 + value,
        value >= 26 ==> base32_symbol(value) as int == 50 + (value - 26),
        bytes.len() > 0 ==> base32_text(bytes).len() > 0 && base32_text(bytes)[0] == base32_symbol(
            (bytes[0] / 8) as int,
        ),
        base32_text(bytes).len() * 5 >= bytes.len() * 8,
        base32_text(bytes).len() * 5 < bytes.len() * 8 + 5,
{
    if bytes.len() > 0 {
        let b: u8 = bytes[0];
        assert(16 * ((b >> 7) & 1) + 8 * ((b >> 6) & 1) + 4 * ((b >> 5) & 1) + 2 * ((b >> 4) & 1) + (
        (b >> 3) & 1) == b / 8) by (bit_vector);
        assert(five_bits(bytes, 0) == (b / 8) as int);
    }
}

} // verus!
