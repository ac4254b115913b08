//! Texts: numbers written out, strings quoted, and texts joined.
use vstd::arithmetic::div_mod::lemma_div_denominator;
use vstd::arithmetic::power::{lemma_pow0, lemma_pow1, lemma_pow_adds, lemma_pow_positive, pow};
use vstd::prelude::*;

verus! {

/// A decimal digit.
pub open spec fn digit(n: nat) -> char {
    if n == 0 {
        '0'
    } else if n == 1 {
        '1'
    } else if n == 2 {
        '2'
    } else if n == 3 {
        '3'
    } else if n == 4 {
        '4'
    } else if n == 5 {
        '5'
    } else if n == 6 {
        '6'
    } else if n == 7 {
        '7'
    } else if n == 8 {
        '8'
    } else {
        '9'
    }
}

/// A number in decimal.
pub open spec fn decimal(n: nat) -> Seq<char>
    decreases n,
{
    if n < 10 {
        seq![digit(n)]
    } else {
        decimal(n / 10).push(digit(n % 10))
    }
}

fn digit_text(n: u64) -> (s: &'static str)
    requires
        n < 10,
    ensures
        s@ == seq![digit(n as nat)],
{
    proof {
        reveal_strlit("0");
        reveal_strlit("1");
        reveal_strlit("2");
        reveal_strlit("3");
        reveal_strlit("4");
        reveal_strlit("5");
        reveal_strlit("6");
        reveal_strlit("7");
        reveal_strlit("8");
        reveal_strlit("9");
    }
    let s = if n == 0 {
        "0"
    } else if n == 1 {
        "1"
    } else if n == 2 {
        "2"
    } else if n == 3 {
        "3"
    } else if n == 4 {
        "4"
    } else if n == 5 {
        "5"
    } else if n == 6 {
        "6"
    } else if n == 7 {
        "7"
    } else if n == 8 {
        "8"
    } else {
        "9"
    };
    assert(s@ =~= seq![digit(n as nat)]);
    s
}

/// Writes a number out in decimal.
pub fn decimal_text(n: u64) -> (s: String)
    ensures
        s@ == decimal(n as nat),
    decreases n,
{
    if n < 10 {
        digit_text(n).to_string()
    } else {
        let mut s = decimal_text(n / 10);
        let last = digit_text(n % 10);
        s.append(last);
        assert(s@ =~= decimal((n / 10) as nat).push(digit((n % 10) as nat)));
        s
    }
}

/// A digit says its number.
proof fn lemma_digit_injective(a: nat, b: nat)
    requires
        a < 10,
        b < 10,
        digit(a) == digit(b),
    ensures
        a == b,
{
}

/// Decimals say their numbers.
pub proof fn lemma_decimal_injective(a: nat, b: nat)
    requires
        decimal(a) == decimal(b),
    ensures
        a == b,
    decreases a,
{
    lemma_decimal_len(a);
    lemma_decimal_len(b);
    if a < 10 && b < 10 {
        assert(decimal(a) == seq![digit(a)]);
        assert(decimal(b) == seq![digit(b)]);
        assert(decimal(a)[0] == digit(a));
        assert(decimal(b)[0] == digit(b));
        lemma_digit_injective(a, b);
    } else if a >= 10 && b >= 10 {
        assert(decimal(a).drop_last() =~= decimal(a / 10));
        assert(decimal(b).drop_last() =~= decimal(b / 10));
        assert(decimal(a).last() == digit(a % 10));
        assert(decimal(b).last() == digit(b % 10));
        lemma_decimal_injective(a / 10, b / 10);
        lemma_digit_injective(a % 10, b % 10);
    } else if a < 10 {
        lemma_decimal_len(b / 10);
        assert(decimal(b).len() >= 2);
    } else {
        lemma_decimal_len(a / 10);
        assert(decimal(a).len() >= 2);
    }
}

proof fn lemma_decimal_len(n: nat)
    ensures
        decimal(n).len() >= 1,
    decreases n,
{
    if n >= 10 {
        lemma_decimal_len(n / 10);
    }
}

/// A string in quotes, with what does not print escaped.
pub uninterp spec fn quoted(text: Seq<char>) -> Seq<char>;

/// Formats a string with the `Debug` of `str`. Claims that the text is a
/// function of the string.
#[verifier::external_body]
pub(crate) fn quote(text: &str) -> (r: String)
    ensures
        r@ == quoted(text@),
{
    format!("{text:?}")
}

/// Two texts, one behind the other.
pub fn join(a: &str, b: &str) -> (r: String)
    ensures
        r@ == a@ + b@,
{
    let mut r = a.to_string();
    r.append(b);
    r
}

/// A number between two texts.
pub fn counted(a: &str, n: usize, b: &str) -> (r: String)
    ensures
        r@ == a@ + decimal(n as nat) + b@,
{
    let mut r = a.to_string();
    r.append(decimal_text(n as u64).as_str());
    r.append(b);
    r
}

/// A quoted string between two texts.
pub fn named(a: &str, name: &str, b: &str) -> (r: String)
    ensures
        r@ == a@ + quoted(name@) + b@,
{
    let mut r = a.to_string();
    r.append(quote(name).as_str());
    r.append(b);
    r
}

/// A number is written out digit by digit: counted from the last, the digit at `i`
/// stands for what is left of the number when ten to the power of `i` is divided
/// out, modulo ten, and no number but zero starts with a zero.
pub proof fn law_decimals_are_digits(n: nat, i: nat)
    ensures
        decimal(n).len() > 0,
        i < decimal(n).len() ==> decimal(n)[decimal(n).len() - 1 - i] as int == '0' as int + (n as int
            / pow(10, i)) % 10,
        i >= decimal(n).len() ==> n < pow(10, i),
        n > 0 ==> decimal(n)[0] as int > '0' as int,
    decreases n,
{
    lemma_pow0(10);
    lemma_pow1(10);
    if n < 10 {
        assert(forall|d: nat| d < 10 ==> #[trigger] digit(d) as int == '0' as int + d);
        if i > 0 {
            lemma_pow_adds(10, 1, (i - 1) as nat);
            lemma_pow_positive(10, (i - 1) as nat);
            assert(pow(10, i) >= 10) by (nonlinear_arith)
                requires
                    pow(10, i) == 10 * pow(10, (i - 1) as nat),
                    pow(10, (i - 1) as nat) >= 1,
            ;
        }
    } else {
        let head = decimal(n / 10);
        assert(forall|d: nat| d < 10 ==> #[trigger] digit(d) as int == '0' as int + d);
        if i == 0 {
            law_decimals_are_digits(n / 10, 0);
        } else {
            law_decimals_are_digits(n / 10, (i - 1) as nat);
            lemma_pow_adds(10, 1, (i - 1) as nat);
            lemma_pow_positive(10, (i - 1) as nat);
            lemma_div_denominator(n as int, 10, pow(10, (i - 1) as nat));
            if i < decimal(n).len() {
                assert(decimal(n)[decimal(n).len() - 1 - i] == head[head.len() - 1 - (i - 1)]);
            } else {
                assert(n < 10 * pow(10, (i - 1) as nat)) by (nonlinear_arith)
                    requires
                        (n as int) / 10 < pow(10, (i - 1) as nat),
                        pow(10, (i - 1) as nat) >= 1,
                ;
            }
        }
        assert(decimal(n)[0] == head[0]);
    }
}

} // verus!
