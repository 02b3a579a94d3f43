use vstd::arithmetic::power2::pow2;
use vstd::prelude::*;
use vstd::string::*;

use crate::error::PlotError;
use crate::fraction::Fraction;
use crate::label::{all_valid, count_code, valid_code, DECOY, TARGET};
use crate::rounding::{
    lemma_nearest_count_exact, lemma_nearest_quotient_scaled_up, lemma_round_half_even_nearest,
    lemma_up_scale, nearest_count, nearest_quotient, round_count, round_div, round_half_even,
    round_quotient, BIT_52, BIT_53,
};

verus! {

/// The number of decoy labels over the number of target labels.
pub open spec fn pi0_of(labels: Seq<i32>) -> Fraction {
    Fraction {
        num: count_code(labels, DECOY) as usize,
        den: count_code(labels, TARGET) as usize,
    }
}

/// What `estimate_pi0` returns: the ratio of the two counts, once every
/// label is known to be valid and a target exists.
pub open spec fn pi0_model(labels: Seq<i32>) -> Result<Fraction, PlotError> {
    if !all_valid(labels) {
        Err(PlotError::InvalidLabel)
    } else if count_code(labels, TARGET) == 0 {
        Err(PlotError::EmptySample)
    } else {
        Ok(pi0_of(labels))
    }
}

/// The character of a decimal digit.
pub open spec fn digit_char(d: int) -> char {
    if d == 0 {
        '0'
    } else if d == 1 {
        '1'
    } else if d == 2 {
        '2'
    } else if d == 3 {
        '3'
    } else if d == 4 {
        '4'
    } else if d == 5 {
        '5'
    } else if d == 6 {
        '6'
    } else if d == 7 {
        '7'
    } else if d == 8 {
        '8'
    } else {
        '9'
    }
}

/// The decimal numeral of `n`, without leading zeros.
pub open spec fn decimal_digits(n: nat) -> Seq<char>
    decreases n,
{
    if n < 10 {
        seq![digit_char(n as int)]
    } else {
        decimal_digits(n / 10).push(digit_char((n % 10) as int))
    }
}

/// The ratio as double-precision arithmetic gives it: each count is taken
/// to the nearest number with 53 significant bits, and so is their
/// quotient. The result is a numerator over a power of two.
pub open spec fn binary_quotient(f: Fraction) -> (nat, nat)
    recommends
        f.den > 0,
{
    nearest_quotient(nearest_count(f.num as nat), nearest_count(f.den as nat))
}

/// The ratio in thousandths, as the number shown for it: the binary
/// quotient rounded to the nearest whole count of thousandths, a value
/// exactly halfway between two going to the even one.
///
/// A ratio such as 1/80, whose nearest binary number lies just above
/// 0.0125, therefore counts 13 thousandths, and 1/16, which is exactly
/// 0.0625, counts 62. `lemma_thousandths_by_scale` gives the count for
/// given counts without unfolding the scaling.
pub open spec fn thousandths(f: Fraction) -> nat
    recommends
        f.den > 0,
{
    round_half_even(1000 * binary_quotient(f).0, binary_quotient(f).1)
}

/// A count of thousandths written with exactly three decimals.
pub open spec fn fixed3(m: nat) -> Seq<char> {
    decimal_digits(m / 1000) + seq![
        '.',
        digit_char(((m / 100) % 10) as int),
        digit_char(((m / 10) % 10) as int),
        digit_char((m % 10) as int),
    ]
}

/// The words in front of the number in the name of the scaled line.
pub open spec fn pi0_label_prefix() -> Seq<char> {
    "Estimated π₀ = "@
}

/// The name of the scaled line for a given estimate.
pub open spec fn pi0_label_text(f: Fraction) -> Seq<char> {
    pi0_label_prefix() + fixed3(thousandths(f))
}

/// The character is one of the ten decimal digits.
pub open spec fn is_decimal_digit(c: char) -> bool {
    exists|d: int| 0 <= d <= 9 && c == digit_char(d)
}

/// A decimal numeral is made of digits only.
pub proof fn lemma_decimal_digits_are_digits(n: nat)
    ensures
        decimal_digits(n).len() >= 1,
        forall|i: int|
            0 <= i < decimal_digits(n).len() ==> is_decimal_digit(#[trigger] decimal_digits(n)[i]),
    decreases n,
{
    if n < 10 {
        assert(decimal_digits(n)[0] == digit_char(n as int));
    } else {
        lemma_decimal_digits_are_digits(n / 10);
        let head = decimal_digits(n / 10);
        assert forall|i: int| 0 <= i < decimal_digits(n).len() implies is_decimal_digit(
            #[trigger] decimal_digits(n)[i],
        ) by {
            if i < head.len() {
                assert(decimal_digits(n)[i] == head[i]);
            } else {
                assert(decimal_digits(n)[i] == digit_char((n % 10) as int));
            }
        }
    }
}

/// A number written by `fixed3` has exactly three decimals: a point stands
/// fourth from the end, and every other character is a digit.
pub proof fn lemma_fixed3_shape(m: nat)
    ensures
        fixed3(m).len() >= 5,
        fixed3(m)[fixed3(m).len() - 4] == '.',
        forall|i: int|
            0 <= i < fixed3(m).len() && i != fixed3(m).len() - 4 ==> is_decimal_digit(
                #[trigger] fixed3(m)[i],
            ),
{
    lemma_decimal_digits_are_digits(m / 1000);
    let whole = decimal_digits(m / 1000);
    let text = fixed3(m);
    assert(text.len() == whole.len() + 4);
    assert forall|i: int| 0 <= i < text.len() && i != text.len() - 4 implies is_decimal_digit(
        #[trigger] text[i],
    ) by {
        if i < whole.len() {
            assert(text[i] == whole[i]);
        } else if i == whole.len() + 1 {
            assert(text[i] == digit_char(((m / 100) % 10) as int));
        } else if i == whole.len() + 2 {
            assert(text[i] == digit_char(((m / 10) % 10) as int));
        } else {
            assert(text[i] == digit_char((m % 10) as int));
        }
    }
}

/// The count of thousandths is a nearest one to the binary quotient: it
/// differs from that quotient by at most half a thousandth.
pub proof fn lemma_thousandths_nearest(f: Fraction)
    requires
        f.den > 0,
    ensures
        binary_quotient(f).1 >= 1,
        -(binary_quotient(f).1 as int) <= 2 * (thousandths(f) * binary_quotient(f).1 - 1000
            * binary_quotient(f).0) <= binary_quotient(f).1,
{
    let a = nearest_count(f.num as nat);
    let b = nearest_count(f.den as nat);
    if a > 0 {
        lemma_up_scale(a, (BIT_52 * b) as nat);
    }
    lemma_round_half_even_nearest(1000 * binary_quotient(f).0, binary_quotient(f).1);
}

/// The count of thousandths of a ratio of counts below two to the power 53,
/// by the scale of the ratio: where `2^k` brings `num / den` into the
/// range of the significands, the ratio is rounded there and the result is
/// rounded to thousandths. With given counts and their `k` both roundings
/// are plain divisions.
pub proof fn lemma_thousandths_by_scale(f: Fraction, k: nat)
    requires
        0 < f.num < BIT_53,
        0 < f.den < BIT_53,
        BIT_52 * f.den <= f.num * pow2(k) < BIT_53 * f.den,
    ensures
        binary_quotient(f) == (round_half_even((f.num * pow2(k)) as nat, f.den as nat), pow2(k)),
        thousandths(f) == round_half_even(
            1000 * round_half_even((f.num * pow2(k)) as nat, f.den as nat),
            pow2(k),
        ),
{
    lemma_nearest_count_exact(f.num as nat);
    lemma_nearest_count_exact(f.den as nat);
    lemma_nearest_quotient_scaled_up(f.num as nat, f.den as nat, k);
}

/// Without a decoy the ratio is zero and so is its count of thousandths.
pub proof fn lemma_thousandths_of_zero(f: Fraction)
    requires
        f.num == 0,
        f.den > 0,
    ensures
        thousandths(f) == 0,
{
    lemma_nearest_count_exact(0);
    assert(binary_quotient(f) == (0nat, 1nat));
}

/// For counts below two to the power 53 the binary quotient is the nearest
/// number with 53 significant bits to the exact ratio.
pub proof fn lemma_binary_quotient_of_small_counts(f: Fraction)
    requires
        f.num < BIT_53,
        f.den < BIT_53,
    ensures
        binary_quotient(f) == nearest_quotient(f.num as nat, f.den as nat),
{
    lemma_nearest_count_exact(f.num as nat);
    lemma_nearest_count_exact(f.den as nat);
}

/// Estimates the null proportion of a labelled data set as the number of
/// decoys divided by the number of targets.
///
/// This is the plain count ratio and nothing else: no threshold enters it.
/// A label outside the two classes is an error, and so is a data set
/// without a target, for which the ratio has no value.
pub fn estimate_pi0(labels: &Vec<i32>) -> (r: Result<Fraction, PlotError>)
    ensures
        r == pi0_model(labels@),
{
    let n: usize = labels.len();
    let mut targets: usize = 0;
    let mut decoys: usize = 0;
    let mut i: usize = 0;
    while i < n
        invariant
            n == labels.len(),
            i <= n,
            all_valid(labels@.take(i as int)),
            targets == count_code(labels@.take(i as int), TARGET),
            decoys == count_code(labels@.take(i as int), DECOY),
            targets + decoys == i,
        decreases n - i,
    {
        let ghost next = labels@.take(i + 1);
        proof {
            assert(next.drop_last() =~= labels@.take(i as int));
        }
        let code: i32 = labels[i];
        if code == TARGET {
            targets = targets + 1;
        } else if code == DECOY {
            decoys = decoys + 1;
        } else {
            proof {
                assert(!valid_code(labels@[i as int]));
            }
            return Err(PlotError::InvalidLabel);
        }
        proof {
            assert forall|k: int| 0 <= k < next.len() implies valid_code(#[trigger] next[k]) by {
                if k < i {
                    assert(labels@.take(i as int)[k] == next[k]);
                }
            }
        }
        i = i + 1;
    }
    proof {
        assert(labels@.take(n as int) =~= labels@);
    }
    if targets == 0 {
        Err(PlotError::EmptySample)
    } else {
        Ok(Fraction { num: decoys, den: targets })
    }
}

/// Appends the character of one decimal digit.
fn push_digit(s: &mut String, d: u8)
    requires
        d < 10,
    ensures
        final(s)@ == old(s)@.push(digit_char(d as int)),
{
    proof {
        reveal_strlit("0");
        reveal_strlit("1");
        reveal_strlit("2");
        reveal_strlit("3");
        reveal_strlit("4");
        reveal_strlit("5");
        reveal_strlit("6");
        reveal_strlit("7");
        reveal_strlit("8");
        reveal_strlit("9");
    }
    let ghost before = s@;
    let text: &str = if d == 0 {
        "0"
    } else if d == 1 {
        "1"
    } else if d == 2 {
        "2"
    } else if d == 3 {
        "3"
    } else if d == 4 {
        "4"
    } else if d == 5 {
        "5"
    } else if d == 6 {
        "6"
    } else if d == 7 {
        "7"
    } else if d == 8 {
        "8"
    } else {
        "9"
    };
    assert(text@ =~= seq![digit_char(d as int)]);
    s.append(text);
    assert(s@ =~= before.push(digit_char(d as int)));
}

/// Appends the decimal numeral of `n`.
fn push_decimal(s: &mut String, n: u128)
    ensures
        final(s)@ == old(s)@ + decimal_digits(n as nat),
    decreases n,
{
    let ghost before = s@;
    if n >= 10 {
        push_decimal(s, n / 10);
    }
    push_digit(s, (n % 10) as u8);
    assert(s@ =~= before + decimal_digits(n as nat));
}

/// Computes the count of thousandths that is shown for the ratio.
pub fn round_to_thousandths(f: Fraction) -> (m: u128)
    requires
        f.den > 0,
    ensures
        m == thousandths(f),
{
    let a: u128 = round_count(f.num as u128);
    let b: u128 = round_count(f.den as u128);
    let (p, q) = round_quotient(a, b);
    round_div(1000 * p, q)
}

/// Writes the ratio with exactly three decimals, as in `2.000` or `0.667`:
/// the digits that double-precision arithmetic and rounding of its result
/// to thousandths give.
pub fn format_three_decimals(f: Fraction) -> (s: String)
    requires
        f.den > 0,
    ensures
        s@ == fixed3(thousandths(f)),
{
    let m: u128 = round_to_thousandths(f);
    let mut s = String::new();
    push_decimal(&mut s, m / 1000);
    let ghost whole = s@;
    proof {
        reveal_strlit(".");
    }
    s.append(".");
    push_digit(&mut s, ((m / 100) % 10) as u8);
    push_digit(&mut s, ((m / 10) % 10) as u8);
    push_digit(&mut s, (m % 10) as u8);
    assert(s@ =~= fixed3(m as nat));
    s
}

/// The name of the scaled line: the fixed words and the estimate with
/// three decimals.
pub fn pi0_label(f: Fraction) -> (s: String)
    requires
        f.den > 0,
    ensures
        s@ == pi0_label_text(f),
{
    let mut s = String::from_str("Estimated π₀ = ");
    let digits = format_three_decimals(f);
    s.append(digits.as_str());
    s
}

} // verus!
