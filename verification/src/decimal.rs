//! Decimal rendering of operation identifiers. Every operation started on a
//! subscription is named by the decimal string of a counter that starts at 0,
//! so identifiers are pairwise distinct within a subscription; the proof of
//! distinctness is `lemma_dec_str_injective`.

use vstd::prelude::*;
use vstd::string::StringExecFns;

verus! {

/// The character for a single decimal digit value.
pub open spec fn dec_digit_char(d: int) -> char {
    if d == 0 {
        '0'
    } else if d == 1 {
        '1'
    } else if d == 2 {
        '2'
    } else if d == 3 {
        '3'
    } else if d == 4 {
        '4'
    } else if d == 5 {
        '5'
    } else if d == 6 {
        '6'
    } else if d == 7 {
        '7'
    } else if d == 8 {
        '8'
    } else {
        '9'
    }
}

/// The decimal digit string of a natural number, most significant digit
/// first, with no leading zeros (`0` itself is "0").
#[verifier::opaque]
pub open spec fn dec_str(n: nat) -> Seq<char>
    decreases n,
{
    if n < 10 {
        seq![dec_digit_char(n as int)]
    } else {
        dec_str(n / 10) + seq![dec_digit_char((n % 10) as int)]
    }
}

/// The numeric value of a decimal digit character, inverse of
/// `dec_digit_char` on digits.
pub open spec fn dec_char_val(c: char) -> int {
    if c == '0' {
        0
    } else if c == '1' {
        1
    } else if c == '2' {
        2
    } else if c == '3' {
        3
    } else if c == '4' {
        4
    } else if c == '5' {
        5
    } else if c == '6' {
        6
    } else if c == '7' {
        7
    } else if c == '8' {
        8
    } else {
        9
    }
}

proof fn lemma_dec_char_val_inverse(d: int)
    requires
        0 <= d < 10,
    ensures
        dec_char_val(dec_digit_char(d)) == d,
{
}

/// The numeric value of a decimal digit string, most significant first.
pub open spec fn dec_val(s: Seq<char>) -> nat
    decreases s.len(),
{
    if s.len() == 0 {
        0
    } else {
        dec_val(s.drop_last()) * 10 + (if 0 <= dec_char_val(s.last()) < 10 {
            dec_char_val(s.last()) as nat
        } else {
            0
        })
    }
}

/// `dec_val` recovers the number from its digit string, so `dec_str` is
/// injective.
pub proof fn lemma_dec_str_val(n: nat)
    ensures
        dec_val(dec_str(n)) == n,
    decreases n,
{
    reveal_with_fuel(dec_str, 2);
    if n < 10 {
        let s = dec_str(n);
        assert(s =~= seq![dec_digit_char(n as int)]);
        assert(s.drop_last() =~= Seq::<char>::empty());
        assert(dec_val(s.drop_last()) == 0);
        lemma_dec_char_val_inverse(n as int);
        assert(s.last() == dec_digit_char(n as int));
        assert(dec_val(s) == n);
    } else {
        let s = dec_str(n);
        lemma_dec_str_val(n / 10);
        lemma_dec_char_val_inverse((n % 10) as int);
        assert(s =~= dec_str(n / 10) + seq![dec_digit_char((n % 10) as int)]);
        assert(s.len() > 0);
        assert(s.drop_last() =~= dec_str(n / 10));
        assert(s.last() == dec_digit_char((n % 10) as int));
        assert(dec_val(s) == dec_val(s.drop_last()) * 10 + (n % 10));
        assert(dec_val(s.drop_last()) == n / 10);
        vstd::arithmetic::div_mod::lemma_fundamental_div_mod(n as int, 10);
        assert((n / 10) * 10 + n % 10 == n);
    }
}

/// Distinct numbers have distinct decimal strings.
pub proof fn lemma_dec_str_injective(a: nat, b: nat)
    requires
        a != b,
    ensures
        dec_str(a) != dec_str(b),
{
    lemma_dec_str_val(a);
    lemma_dec_str_val(b);
}

/// One decimal digit as a string slice.
fn dec_digit_str(d: u64) -> (r: &'static str)
    requires
        d < 10,
    ensures
        r@ == seq![dec_digit_char(d as int)],
{
    let r: &'static str = if d == 0 {
        "0"
    } else if d == 1 {
        "1"
    } else if d == 2 {
        "2"
    } else if d == 3 {
        "3"
    } else if d == 4 {
        "4"
    } else if d == 5 {
        "5"
    } else if d == 6 {
        "6"
    } else if d == 7 {
        "7"
    } else if d == 8 {
        "8"
    } else {
        "9"
    };
    proof {
        reveal_strlit("0");
        reveal_strlit("1");
        reveal_strlit("2");
        reveal_strlit("3");
        reveal_strlit("4");
        reveal_strlit("5");
        reveal_strlit("6");
        reveal_strlit("7");
        reveal_strlit("8");
        reveal_strlit("9");
    }
    r
}

/// Renders a number as its decimal string.
pub fn u64_to_dec_string(n: u64) -> (r: String)
    ensures
        r@ == dec_str(n as nat),
{
    proof {
        reveal_with_fuel(dec_str, 2);
    }
    let mut digits: Vec<u64> = Vec::new();
    let mut m: u64 = n;
    // Digits of n, least significant first.
    while m >= 10
        invariant
            forall|i: int| 0 <= i < digits@.len() ==> #[trigger] digits@[i] < 10,
            dec_str(n as nat) =~= dec_str(m as nat) + Seq::new(
                digits@.len(),
                |i: int| dec_digit_char(digits@[digits@.len() - 1 - i] as int),
            ),
        decreases m,
    {
        proof {
            reveal_with_fuel(dec_str, 2);
            assert(dec_str(m as nat) =~= dec_str((m / 10) as nat) + seq![
                dec_digit_char((m % 10) as int),
            ]);
        }
        let d: u64 = m % 10;
        let ghost old_digits = digits@;
        digits.push(d);
        m = m / 10;
        proof {
            assert(Seq::new(
                digits@.len(),
                |i: int| dec_digit_char(digits@[digits@.len() - 1 - i] as int),
            ) =~= seq![dec_digit_char(d as int)] + Seq::new(
                old_digits.len(),
                |i: int| dec_digit_char(old_digits[old_digits.len() - 1 - i] as int),
            ));
        }
    }
    let mut r = String::new();
    r.append(dec_digit_str(m));
    proof {
        reveal_with_fuel(dec_str, 2);
        assert(r@ =~= dec_str(m as nat));
    }
    let mut i: usize = digits.len();
    while i > 0
        invariant
            i <= digits@.len(),
            forall|j: int| 0 <= j < digits@.len() ==> #[trigger] digits@[j] < 10,
            dec_str(n as nat) =~= r@ + Seq::new(i as nat, |k: int| dec_digit_char(digits@[i - 1 - k] as int)),
        decreases i,
    {
        i = i - 1;
        let d = digits[i];
        let ghost old_r = r@;
        r.append(dec_digit_str(d));
        proof {
            assert(Seq::new((i + 1) as nat, |k: int| dec_digit_char(digits@[i + 1 - 1 - k] as int))
                =~= seq![dec_digit_char(digits@[i as int] as int)] + Seq::new(
                i as nat,
                |k: int| dec_digit_char(digits@[i - 1 - k] as int),
            ));
            assert(old_r + seq![dec_digit_char(digits@[i as int] as int)] =~= r@);
            assert(dec_str(n as nat) =~= r@ + Seq::new(
                i as nat,
                |k: int| dec_digit_char(digits@[i - 1 - k] as int),
            ));
        }
    }
    proof {
        assert(dec_str(n as nat) =~= r@);
    }
    r
}

} // verus!
