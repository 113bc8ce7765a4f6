//! Verified text rendering: decimal numbers and lowercase hex strings.

use vstd::prelude::*;
use vstd::arithmetic::div_mod::{
    lemma_div_is_strictly_smaller, lemma_mod_division_less_than_divisor,
};
use vstd::string::StringExecFns;

verus! {

/// The character for one decimal or hex digit value below 16.
pub open spec fn digit_char(x: int) -> char {
    if x < 10 {
        ((x + 48) as u8) as char
    } else {
        ((x + 87) as u8) as char
    }
}

/// The decimal rendering of a non-negative integer, most significant
/// digit first, with no leading zeroes (zero itself is "0").
pub open spec fn decimal(n: int) -> Seq<char>
    decreases n,
{
    if n < 10 {
        seq![digit_char(if n < 0 { 0int } else { n })]
    } else {
        decimal(n / 10) + seq![digit_char(n % 10)]
    }
}

/// The lowercase hex rendering of a byte string, two digits per byte.
pub open spec fn hex_of_bytes(s: Seq<u8>) -> Seq<char>
    decreases s.len(),
{
    if s.len() == 0 {
        Seq::empty()
    } else {
        hex_of_bytes(s.drop_last()) + seq![
            digit_char(s.last() as int / 16),
            digit_char(s.last() as int % 16),
        ]
    }
}

/// Appends the single character for a digit value below 16.
fn push_digit(out: &mut String, x: u8)
    requires
        x < 16,
    ensures
        final(out)@ == old(out)@ + seq![digit_char(x as int)],
{
    proof {
        reveal_strlit("0");
        reveal_strlit("1");
        reveal_strlit("2");
        reveal_strlit("3");
        reveal_strlit("4");
        reveal_strlit("5");
        reveal_strlit("6");
        reveal_strlit("7");
        reveal_strlit("8");
        reveal_strlit("9");
        reveal_strlit("a");
        reveal_strlit("b");
        reveal_strlit("c");
        reveal_strlit("d");
        reveal_strlit("e");
        reveal_strlit("f");
    }
    if x == 0 {
        out.append("0");
    } else if x == 1 {
        out.append("1");
    } else if x == 2 {
        out.append("2");
    } else if x == 3 {
        out.append("3");
    } else if x == 4 {
        out.append("4");
    } else if x == 5 {
        out.append("5");
    } else if x == 6 {
        out.append("6");
    } else if x == 7 {
        out.append("7");
    } else if x == 8 {
        out.append("8");
    } else if x == 9 {
        out.append("9");
    } else if x == 10 {
        out.append("a");
    } else if x == 11 {
        out.append("b");
    } else if x == 12 {
        out.append("c");
    } else if x == 13 {
        out.append("d");
    } else if x == 14 {
        out.append("e");
    } else {
        out.append("f");
    }
}

/// Appends the decimal rendering of `n`.
pub fn append_decimal_u128(out: &mut String, n: u128)
    ensures
        final(out)@ == old(out)@ + decimal(n as int),
{
    // collect the digits, least significant first
    let mut digits: Vec<u8> = Vec::new();
    let mut m: u128 = n;
    proof {
        assert(decimal(n as int) + digits_reversed(digits@) =~= decimal(n as int));
    }
    while m >= 10
        invariant
            decimal(n as int) == decimal(m as int) + digits_reversed(digits@),
            forall|j: int| 0 <= j < digits@.len() ==> digits@[j] < 10,
        decreases m,
    {
        let dig = (m % 10) as u8;
        proof {
            lemma_mod_division_less_than_divisor(m as int, 10);
            lemma_div_is_strictly_smaller(m as int, 10);
            assert(digits@.push(dig).drop_last() =~= digits@);
            assert(digits@.push(dig).last() == dig);
            assert(digits_reversed(digits@.push(dig)) =~= seq![
                digit_char(dig as int),
            ] + digits_reversed(digits@));
            assert(decimal((m as int) / 10) + seq![digit_char((m as int) % 10)]
                + digits_reversed(digits@)
                =~= decimal((m as int) / 10) + (seq![digit_char((m as int) % 10)]
                    + digits_reversed(digits@)));
        }
        digits.push(dig);
        m = m / 10;
    }
    push_digit(out, m as u8);
    proof {
        assert(seq![digit_char(m as int)] =~= decimal(m as int));
        lemma_digits_reversed_len(digits@);
        let full = decimal(n as int);
        assert(full.take(full.len() - digits@.len()) =~= decimal(m as int));
        assert(out@ =~= old(out)@ + full.take(full.len() - digits@.len()));
    }
    // emit the digits, most significant first
    let mut i: usize = digits.len();
    while i > 0
        invariant
            i <= digits.len(),
            forall|j: int| 0 <= j < digits@.len() ==> digits@[j] < 10,
            out@ == old(out)@ + decimal(n as int).take(
                decimal(n as int).len() - i as int,
            ),
            decimal(n as int) == decimal(m as int) + digits_reversed(digits@),
            decimal(m as int).len() == 1,
        decreases i,
    {
        i = i - 1;
        proof {
            let full = decimal(n as int);
            lemma_digits_reversed_len(digits@);
            lemma_digits_reversed_index(digits@, i as int);
            let pos = full.len() - 1 - i as int;
            assert(full[pos] == digit_char(digits@[i as int] as int));
            assert(full.take(pos + 1) =~= full.take(pos) + seq![full[pos]]);
            assert(old(out)@ + full.take(pos + 1) =~= (old(out)@ + full.take(pos))
                + seq![full[pos]]);
        }
        push_digit(out, digits[i]);
    }
    proof {
        assert(decimal(n as int).take(decimal(n as int).len() as int)
            =~= decimal(n as int));
    }
}

/// The digit characters of a least-significant-first digit list, read
/// back most significant first.
pub open spec fn digits_reversed(digits: Seq<u8>) -> Seq<char>
    decreases digits.len(),
{
    if digits.len() == 0 {
        Seq::empty()
    } else {
        seq![digit_char(digits.last() as int)] + digits_reversed(digits.drop_last())
    }
}

/// Indexing into the reversal: position `i` from the end of the digit
/// list appears at position `len - 1 - i` of the rendering.
proof fn lemma_digits_reversed_index(digits: Seq<u8>, i: int)
    requires
        0 <= i < digits.len(),
    ensures
        digits_reversed(digits).len() == digits.len(),
        digits_reversed(digits)[digits.len() - 1 - i] == digit_char(digits[i] as int),
    decreases digits.len(),
{
    lemma_digits_reversed_len(digits);
    if i == digits.len() - 1 {
        assert(digits_reversed(digits)[0] == digit_char(digits.last() as int));
    } else {
        lemma_digits_reversed_index(digits.drop_last(), i);
        lemma_digits_reversed_len(digits.drop_last());
        assert(digits.drop_last()[i] == digits[i]);
        assert(digits_reversed(digits)[digits.len() - 1 - i]
            == digits_reversed(digits.drop_last())[digits.len() - 2 - i]);
    }
}

/// The reversal keeps the length.
proof fn lemma_digits_reversed_len(digits: Seq<u8>)
    ensures
        digits_reversed(digits).len() == digits.len(),
    decreases digits.len(),
{
    if digits.len() > 0 {
        lemma_digits_reversed_len(digits.drop_last());
    }
}

/// Appends the lowercase hex rendering of a 32-byte identifier.
pub fn append_hex(out: &mut String, bytes: &[u8; 32])
    ensures
        final(out)@ == old(out)@ + hex_of_bytes(bytes@),
{
    let mut i: usize = 0;
    while i < 32
        invariant
            i <= 32,
            bytes@.len() == 32,
            out@ == old(out)@ + hex_of_bytes(bytes@.take(i as int)),
        decreases 32 - i,
    {
        let b = bytes[i];
        proof {
            lemma_mod_division_less_than_divisor(b as int, 16);
            vstd::arithmetic::div_mod::lemma_multiply_divide_lt(b as int, 16, 16);
            assert(b as int / 16 < 16);
            let t = bytes@.take(i + 1);
            assert(t.drop_last() =~= bytes@.take(i as int));
            assert(t.last() == bytes@[i as int]);
        }
        push_digit(out, b / 16);
        push_digit(out, b % 16);
        proof {
            assert(old(out)@ + hex_of_bytes(bytes@.take(i as int)) + seq![
                digit_char(b as int / 16),
            ] + seq![digit_char(b as int % 16)]
                =~= old(out)@ + hex_of_bytes(bytes@.take(i + 1)));
        }
        i = i + 1;
    }
    proof {
        assert(bytes@.take(bytes@.len() as int) =~= bytes@);
    }
}

/// The decimal rendering of `n`, as a fresh string.
pub fn decimal_string_u128(n: u128) -> (r: String)
    ensures
        r@ == decimal(n as int),
{
    let mut out = String::new();
    append_decimal_u128(&mut out, n);
    out
}

/// The text of a rational: numerator, a slash, denominator.
pub open spec fn rational_text(r: crate::rational::Rational128) -> Seq<char> {
    decimal(r.n as int) + "/"@ + decimal(r.d as int)
}

/// Appends the text of a rational.
pub fn append_rational(out: &mut String, r: &crate::rational::Rational128)
    ensures
        final(out)@ == old(out)@ + rational_text(*r),
{
    append_decimal_u128(out, r.n);
    out.append("/");
    append_decimal_u128(out, r.d);
    proof {
        assert(out@ =~= old(out)@ + rational_text(*r));
    }
}

} // verus!
