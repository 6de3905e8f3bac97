//! Textual codecs of the wire protocol: lowercase hexadecimal for digests and
//! ASCII decimal for lengths.
use vstd::prelude::*;

verus! {

// ---------------------------------------------------------------------------
// Hexadecimal
// ---------------------------------------------------------------------------

/// The lowercase hexadecimal digit of a nibble (`0..16`).
pub open spec fn hex_digit(nibble: int) -> char {
    if nibble < 10 {
        (nibble + 48) as char
    } else {
        (nibble + 87) as char
    }
}

/// Two lowercase hexadecimal digits per byte, high nibble first.
pub open spec fn hex_chars(bytes: Seq<u8>) -> Seq<char> {
    Seq::new(
        2 * bytes.len(),
        |i: int|
            if i % 2 == 0 {
                hex_digit(bytes[i / 2] as int / 16)
            } else {
                hex_digit(bytes[i / 2] as int % 16)
            },
    )
}

/// The bytes of an ASCII text.
pub open spec fn ascii_bytes(text: Seq<char>) -> Seq<u8> {
    Seq::new(text.len(), |i: int| text[i] as u8)
}

/// The value of a hexadecimal digit of either case.
pub open spec fn hex_value(c: u8) -> Option<int> {
    if 48 <= c <= 57 {
        Some(c - 48)
    } else if 65 <= c <= 70 {
        Some(c - 55)
    } else if 97 <= c <= 102 {
        Some(c - 87)
    } else {
        None
    }
}

/// Hexadecimal text, of either case, decoded to bytes: `None` unless the text
/// has an even number of characters that are all hexadecimal digits.
pub open spec fn hex_decoded(text: Seq<u8>) -> Option<Seq<u8>> {
    if text.len() % 2 != 0 {
        None
    } else if exists|i: int| 0 <= i < text.len() && #[trigger] hex_value(text[i]) is None {
        None
    } else {
        Some(
            Seq::new(
                text.len() / 2,
                |i: int|
                    (hex_value(text[2 * i])->0 * 16 + hex_value(text[2 * i + 1])->0) as u8,
            ),
        )
    }
}

/// The error type of `hex::decode`.
#[verifier::external_type_specification]
#[verifier::external_body]
pub struct ExFromHexError(hex::FromHexError);

/// Calls `hex::encode`, which writes each byte as two lowercase hexadecimal
/// digits, high nibble first (its `ToHex` table is `0123456789abcdef`).
#[verifier::external_body]
pub(crate) fn hex_encode(bytes: &[u8; 32]) -> (text: String)
    ensures
        text@ == hex_chars(bytes@),
{
    hex::encode(bytes)
}

/// Calls `hex::decode`, which fails on text of odd length or with a character
/// that is not a hexadecimal digit of either case, and otherwise turns each pair
/// of digits into one byte, high nibble first.
#[verifier::external_body]
pub(crate) fn hex_decode(text: &[u8]) -> (res: Result<Vec<u8>, hex::FromHexError>)
    ensures
        match res {
            Ok(bytes) => hex_decoded(text@) == Some(bytes@),
            Err(_) => hex_decoded(text@) is None,
        },
{
    hex::decode(text)
}

/// The lowercase hexadecimal text of a digest, read back as bytes, decodes to
/// the digest: the key that a store hands out names the digest it was made from.
pub proof fn lemma_hex_roundtrip(bytes: Seq<u8>)
    ensures
        hex_decoded(ascii_bytes(hex_chars(bytes))) == Some(bytes),
{
    let text = ascii_bytes(hex_chars(bytes));
    assert forall|i: int| 0 <= i < text.len() implies #[trigger] hex_value(text[i]) is Some by {
        let b = bytes[i / 2] as int;
        if i % 2 == 0 {
            assert(0 <= b / 16 < 16);
        } else {
            assert(0 <= b % 16 < 16);
        }
    }
    assert(text.len() % 2 == 0);
    let decoded = hex_decoded(text)->0;
    assert forall|i: int| 0 <= i < bytes.len() implies #[trigger] decoded[i] == bytes[i] by {
        let b = bytes[i] as int;
        assert(hex_chars(bytes)[2 * i] == hex_digit(b / 16));
        assert(hex_chars(bytes)[2 * i + 1] == hex_digit(b % 16));
        assert(hex_value(text[2 * i]) == Some(b / 16));
        assert(hex_value(text[2 * i + 1]) == Some(b % 16));
        assert(b / 16 * 16 + b % 16 == b);
    }
    assert(decoded =~= bytes);
}

// ---------------------------------------------------------------------------
// Decimal
// ---------------------------------------------------------------------------

/// An ASCII decimal digit.
pub open spec fn is_digit(b: u8) -> bool {
    48 <= b <= 57
}

/// The number of ASCII decimal digits that `text` starts with.
pub open spec fn leading_digits(text: Seq<u8>) -> nat
    decreases text.len(),
{
    if text.len() > 0 && is_digit(text[0]) {
        1 + leading_digits(text.drop_first())
    } else {
        0
    }
}

/// The value of a run of ASCII decimal digits, most significant first.
pub open spec fn digits_value(digits: Seq<u8>) -> nat
    decreases digits.len(),
{
    if digits.len() == 0 {
        0
    } else {
        digits_value(digits.drop_last()) * 10 + (digits.last() - 48) as nat
    }
}

/// What `atoi` reads from the start of `text`: the value of the leading run of
/// decimal digits, or `None` where `text` does not start with a digit. Bytes after
/// the run are ignored; no sign is accepted.
pub open spec fn leading_number(text: Seq<u8>) -> Option<nat> {
    let n = leading_digits(text);
    if n == 0 {
        None
    } else {
        Some(digits_value(text.take(n as int)))
    }
}

/// The shortest decimal text of `n`.
pub open spec fn decimal(n: nat) -> Seq<u8>
    decreases n,
{
    if n < 10 {
        seq![(n + 48) as u8]
    } else {
        decimal(n / 10) + seq![(n % 10 + 48) as u8]
    }
}

/// Calls `atoi::atoi::<usize>`, which multiplies and adds the leading ASCII
/// digits of `text` into a `usize` and answers `None` where there is none. Its
/// arithmetic is unchecked, so `requires` leaves out a value that overflows.
#[verifier::external_body]
pub(crate) fn atoi_usize(text: &[u8]) -> (res: Option<usize>)
    requires
        leading_number(text@) matches Some(v) ==> v <= usize::MAX,
    ensures
        res matches Some(v) ==> leading_number(text@) == Some(v as nat),
        res is None ==> leading_number(text@) is None,
{
    atoi::atoi::<usize>(text)
}

/// Whether the leading number of `text`, if any, fits in a `usize`: what must hold
/// before `atoi_usize` is called.
pub fn leading_number_fits(text: &[u8]) -> (fits: bool)
    ensures
        fits <==> (leading_number(text@) matches Some(v) ==> v <= usize::MAX),
{
    let mut i: usize = 0;
    let mut value: usize = 0;
    while i < text.len() && 48 <= text[i] && text[i] <= 57
        invariant
            i <= text.len(),
            forall|j: int| 0 <= j < i ==> is_digit(#[trigger] text@[j]),
            value == digits_value(text@.take(i as int)),
        decreases text.len() - i,
    {
        assert(text@.take(i + 1).drop_last() =~= text@.take(i as int));
        let d = (text[i] - 48) as usize;
        if value > (usize::MAX - d) / 10 {
            proof {
                lemma_prefix_value_bound(text@, (i + 1) as int);
            }
            return false;
        }
        value = value * 10 + d;
        i = i + 1;
    }
    proof {
        lemma_leading_digits_exact(text@, i as int);
    }
    true
}

/// The value of a digit run only grows as the run gets longer.
proof fn lemma_prefix_value_bound(text: Seq<u8>, k: int)
    requires
        0 < k <= text.len(),
        forall|j: int| 0 <= j < k ==> is_digit(#[trigger] text[j]),
    ensures
        leading_digits(text) >= k,
        digits_value(text.take(k)) <= digits_value(text.take(leading_digits(text) as int)),
{
    lemma_leading_digits_at_least(text, k);
    lemma_digits_value_monotone(text, k, leading_digits(text) as int);
}

proof fn lemma_leading_digits_at_least(text: Seq<u8>, k: int)
    requires
        0 <= k <= text.len(),
        forall|j: int| 0 <= j < k ==> is_digit(#[trigger] text[j]),
    ensures
        leading_digits(text) >= k,
        leading_digits(text) <= text.len(),
        forall|j: int| 0 <= j < leading_digits(text) ==> is_digit(#[trigger] text[j]),
    decreases text.len(),
{
    if text.len() > 0 {
        let rest = text.drop_first();
        if is_digit(text[0]) {
            assert forall|j: int| 0 <= j < k - 1 implies is_digit(#[trigger] rest[j]) by {
                assert(rest[j] == text[j + 1]);
            }
            lemma_leading_digits_at_least(rest, if k > 0 { k - 1 } else { 0 });
            assert forall|j: int| 0 <= j < leading_digits(text) implies is_digit(
                #[trigger] text[j],
            ) by {
                if j > 0 {
                    assert(text[j] == rest[j - 1]);
                }
            }
        }
    }
}

/// Where a run of `k` digits is followed by a non-digit (or the end), the run is
/// exactly the leading digits.
proof fn lemma_leading_digits_exact(text: Seq<u8>, k: int)
    requires
        0 <= k <= text.len(),
        forall|j: int| 0 <= j < k ==> is_digit(#[trigger] text[j]),
        k == text.len() || !is_digit(text[k]),
    ensures
        leading_digits(text) == k,
    decreases k,
{
    if k > 0 {
        let rest = text.drop_first();
        assert forall|j: int| 0 <= j < k - 1 implies is_digit(#[trigger] rest[j]) by {
            assert(rest[j] == text[j + 1]);
        }
        if k - 1 < rest.len() {
            assert(rest[k - 1] == text[k]);
        }
        lemma_leading_digits_exact(rest, k - 1);
    }
}

proof fn lemma_digits_value_monotone(text: Seq<u8>, k: int, m: int)
    requires
        0 <= k <= m <= text.len(),
        forall|j: int| 0 <= j < m ==> is_digit(#[trigger] text[j]),
    ensures
        digits_value(text.take(k)) <= digits_value(text.take(m)),
    decreases m - k,
{
    if k < m {
        lemma_digits_value_monotone(text, k, m - 1);
        assert(text.take(m).drop_last() =~= text.take(m - 1));
        assert(is_digit(text[m - 1]));
    }
}

/// The shortest decimal text of `n`, as `format!("{}", n)` writes it.
pub fn decimal_text(n: usize) -> (text: Vec<u8>)
    ensures
        text@ == decimal(n as nat),
    decreases n,
{
    if n < 10 {
        let mut text = Vec::new();
        text.push((n + 48) as u8);
        text
    } else {
        let mut text = decimal_text(n / 10);
        text.push((n % 10 + 48) as u8);
        text
    }
}

/// Decimal text is all digits and never empty.
pub proof fn lemma_decimal_digits(n: nat)
    ensures
        decimal(n).len() >= 1,
        forall|j: int| 0 <= j < decimal(n).len() ==> is_digit(#[trigger] decimal(n)[j]),
    decreases n,
{
    if n >= 10 {
        lemma_decimal_digits(n / 10);
        assert forall|j: int| 0 <= j < decimal(n).len() implies is_digit(
            #[trigger] decimal(n)[j],
        ) by {
            if j < decimal(n / 10).len() {
                assert(decimal(n)[j] == decimal(n / 10)[j]);
            }
        }
    }
}

/// The digits of decimal text read back as the number.
pub proof fn lemma_decimal_value(n: nat)
    ensures
        digits_value(decimal(n)) == n,
    decreases n,
{
    if n >= 10 {
        lemma_decimal_value(n / 10);
        assert(decimal(n).drop_last() =~= decimal(n / 10));
        assert(decimal(n).last() == (n % 10 + 48) as u8);
        assert(n / 10 * 10 + n % 10 == n);
        let d = decimal(n);
        assert(digits_value(d) == digits_value(d.drop_last()) * 10 + (d.last() - 48) as nat);
        assert((d.last() - 48) as nat == n % 10);
    } else {
        assert(decimal(n).drop_last() =~= Seq::<u8>::empty());
        let d = decimal(n);
        assert(d.last() == (n + 48) as u8);
        assert(digits_value(d) == digits_value(d.drop_last()) * 10 + (d.last() - 48) as nat);
        assert(digits_value(d.drop_last()) == 0);
    }
}

/// A number written in decimal and followed by anything but a digit is read back
/// by `atoi` as that number: the lengths that the protocol writes are the lengths
/// that it reads.
pub proof fn lemma_decimal_roundtrip(n: nat, rest: Seq<u8>)
    requires
        rest.len() == 0 || !is_digit(rest[0]),
    ensures
        leading_number(decimal(n) + rest) == Some(n),
{
    let text = decimal(n) + rest;
    let k = decimal(n).len() as int;
    lemma_decimal_digits(n);
    assert forall|j: int| 0 <= j < k implies is_digit(#[trigger] text[j]) by {
        assert(text[j] == decimal(n)[j]);
    }
    if k < text.len() {
        assert(text[k] == rest[0]);
    }
    lemma_leading_digits_exact(text, k);
    assert(text.take(k) =~= decimal(n));
    lemma_decimal_value(n);
}

} // verus!
