//! Rendering of move and result labels.
//!
//! The engine records a human-readable label for the last accepted move and
//! for the hand result.  Numbers are rendered in decimal by hand, so that the
//! labels are pinned exactly in the contracts.

use vstd::prelude::*;

verus! {

/// The decimal digit character for `d < 10`.
pub open spec fn digit_char(d: int) -> char {
    if d == 0 {
        '0'
    } else if d == 1 {
        '1'
    } else if d == 2 {
        '2'
    } else if d == 3 {
        '3'
    } else if d == 4 {
        '4'
    } else if d == 5 {
        '5'
    } else if d == 6 {
        '6'
    } else if d == 7 {
        '7'
    } else if d == 8 {
        '8'
    } else {
        '9'
    }
}

/// The decimal rendering of `n`, most significant digit first.
pub open spec fn dec_rep(n: int) -> Seq<char>
    decreases n,
{
    if n < 10 {
        seq![digit_char(n)]
    } else {
        dec_rep(n / 10) + seq![digit_char(n % 10)]
    }
}

/// The characters of collected digits, least significant digit first in the
/// input, read back most significant first.
pub open spec fn digits_chars(digits: Seq<u16>) -> Seq<char>
    decreases digits.len(),
{
    if digits.len() == 0 {
        Seq::empty()
    } else {
        digits_chars(digits.drop_first()) + seq![digit_char(digits.first() as int)]
    }
}

/// A digit collected later renders in front.
proof fn lemma_digits_chars_push(digits: Seq<u16>, x: u16)
    ensures
        digits_chars(digits.push(x)) == seq![digit_char(x as int)] + digits_chars(digits),
    decreases digits.len(),
{
    if digits.len() == 0 {
        assert(digits.push(x).drop_first() =~= Seq::<u16>::empty());
        assert(digits.push(x).first() == x);
        assert(digits_chars(Seq::<u16>::empty()) =~= Seq::<char>::empty());
        assert(digits_chars(digits.push(x)) == digits_chars(digits.push(x).drop_first())
            + seq![digit_char(x as int)]);
        assert(digits_chars(digits.push(x)) =~= seq![digit_char(x as int)] + digits_chars(
            digits,
        ));
    } else {
        assert(digits.push(x).drop_first() =~= digits.drop_first().push(x));
        lemma_digits_chars_push(digits.drop_first(), x);
        assert((seq![digit_char(x as int)] + digits_chars(digits.drop_first()))
            + seq![digit_char(digits.first() as int)] =~= seq![digit_char(x as int)] + (
        digits_chars(digits.drop_first()) + seq![digit_char(digits.first() as int)]));
    }
}

/// Append the digit character for `d` to `s`.
fn push_digit(s: &mut String, d: u16)
    requires
        d < 10,
    ensures
        final(s)@ == old(s)@ + seq![digit_char(d as int)],
{
    let lit = match d {
        0u16 => "0",
        1u16 => "1",
        2u16 => "2",
        3u16 => "3",
        4u16 => "4",
        5u16 => "5",
        6u16 => "6",
        7u16 => "7",
        8u16 => "8",
        _ => "9",
    };
    proof {
        reveal_strlit("0");
        reveal_strlit("1");
        reveal_strlit("2");
        reveal_strlit("3");
        reveal_strlit("4");
        reveal_strlit("5");
        reveal_strlit("6");
        reveal_strlit("7");
        reveal_strlit("8");
        reveal_strlit("9");
        assert(lit@ =~= seq![digit_char(d as int)]);
    }
    s.append(lit);
}

/// Append the decimal rendering of `n` to `s`.
pub fn append_u16(s: &mut String, n: u16)
    ensures
        final(s)@ == old(s)@ + dec_rep(n as int),
{
    // Collect the trailing digits, least significant first, until one digit
    // is left in front.
    let mut digits: Vec<u16> = Vec::new();
    let mut m: u16 = n;
    proof {
        assert(dec_rep(n as int) =~= dec_rep(n as int) + digits_chars(digits@));
    }
    while m >= 10
        invariant
            dec_rep(n as int) == dec_rep(m as int) + digits_chars(digits@),
            forall|q: int| 0 <= q < digits@.len() ==> #[trigger] digits@[q] < 10,
        decreases m,
    {
        proof {
            lemma_digits_chars_push(digits@, m % 10);
            assert(dec_rep(m as int) == dec_rep(m as int / 10) + seq![digit_char(m as int % 10)]);
            assert(dec_rep(m as int / 10) + (seq![digit_char(m as int % 10)] + digits_chars(
                digits@,
            )) =~= (dec_rep(m as int / 10) + seq![digit_char(m as int % 10)]) + digits_chars(
                digits@,
            ));
        }
        digits.push(m % 10);
        m = m / 10;
    }

    push_digit(s, m);
    proof {
        assert(digits@.skip(digits@.len() as int) =~= Seq::<u16>::empty());
        assert(s@ =~= old(s)@ + seq![digit_char(m as int)] + digits_chars(
            digits@.skip(digits@.len() as int),
        ));
    }

    // Write the collected digits back, most significant first.
    let mut k: usize = digits.len();
    while k > 0
        invariant
            m < 10,
            k <= digits@.len(),
            forall|q: int| 0 <= q < digits@.len() ==> #[trigger] digits@[q] < 10,
            s@ == old(s)@ + seq![digit_char(m as int)] + digits_chars(digits@.skip(k as int)),
        decreases k,
    {
        k -= 1;
        push_digit(s, digits[k]);
        proof {
            assert(digits@.skip(k as int).drop_first() =~= digits@.skip(k as int + 1));
            assert(digits@.skip(k as int).first() == digits@[k as int]);
            assert(old(s)@ + seq![digit_char(m as int)] + digits_chars(digits@.skip(k as int + 1))
                + seq![digit_char(digits@[k as int] as int)] =~= old(s)@ + seq![
                digit_char(m as int),
            ] + (digits_chars(digits@.skip(k as int + 1)) + seq![
                digit_char(digits@[k as int] as int),
            ]));
        }
    }
    proof {
        assert(digits@.skip(0) =~= digits@);
        assert(old(s)@ + seq![digit_char(m as int)] + digits_chars(digits@) =~= old(s)@ + (seq![
            digit_char(m as int),
        ] + digits_chars(digits@)));
        assert(seq![digit_char(m as int)] + digits_chars(digits@) =~= dec_rep(n as int));
    }
}

} // verus!
