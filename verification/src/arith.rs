//! Integer arithmetic shared by the cache and the reports: rounding a division
//! up, exact ratios, and decimal text.
use vstd::prelude::*;

verus! {

/// `a / b` rounded up.
pub open spec fn ceil_div(a: nat, b: nat) -> nat
    recommends
        b > 0,
{
    ((a + b - 1) / b as int) as nat
}

/// `ceil_div(a, b)` blocks of size `b` hold `a` items, and one block fewer does
/// not.
pub proof fn lemma_ceil_div(a: nat, b: nat)
    requires
        b > 0,
    ensures
        ceil_div(a, b) * b >= a,
        ceil_div(a, b) * b < a + b,
{
    let q: int = (a + b - 1) / b as int;
    vstd::arithmetic::div_mod::lemma_fundamental_div_mod(a + b - 1, b as int);
    vstd::arithmetic::div_mod::lemma_mod_bound(a + b - 1, b as int);
    vstd::arithmetic::div_mod::lemma_div_pos_is_pos(a + b - 1, b as int);
    vstd::arithmetic::mul::lemma_mul_is_commutative(b as int, q);
}

/// The two bounds of [`lemma_ceil_div`] pin the quotient down.
pub proof fn lemma_ceil_div_unique(a: nat, b: nat, n: nat)
    requires
        b > 0,
        n * b >= a,
        n * b < a + b,
    ensures
        n == ceil_div(a, b),
{
    lemma_ceil_div(a, b);
    let m = ceil_div(a, b);
    if n < m {
        assert((n + 1) * b <= m * b) by (nonlinear_arith)
            requires
                n + 1 <= m,
        ;
        assert((n + 1) * b == n * b + b) by (nonlinear_arith);
    }
    if m < n {
        assert((m + 1) * b <= n * b) by (nonlinear_arith)
            requires
                m + 1 <= n,
        ;
        assert((m + 1) * b == m * b + b) by (nonlinear_arith);
    }
}

/// A larger total never needs fewer blocks.
pub proof fn lemma_ceil_div_monotone(a: nat, c: nat, b: nat)
    requires
        b > 0,
        a <= c,
    ensures
        ceil_div(a, b) <= ceil_div(c, b),
{
    lemma_ceil_div(a, b);
    lemma_ceil_div(c, b);
    let m = ceil_div(a, b);
    let n = ceil_div(c, b);
    if n < m {
        assert((n + 1) * b <= m * b) by (nonlinear_arith)
            requires
                n + 1 <= m,
        ;
        assert((n + 1) * b == n * b + b) by (nonlinear_arith);
    }
}

/// Divide rounding up.
pub fn div_ceil(a: usize, b: usize) -> (q: usize)
    requires
        b > 0,
    ensures
        q == ceil_div(a as nat, b as nat),
{
    let q: usize = a / b;
    let r: usize = a % b;
    proof {
        vstd::arithmetic::div_mod::lemma_fundamental_div_mod(a as int, b as int);
        vstd::arithmetic::mul::lemma_mul_is_commutative(b as int, q as int);
        assert(q * b + r == a);
        if r == 0 {
            lemma_ceil_div_unique(a as nat, b as nat, q as nat);
        } else {
            assert((q + 1) * b == q * b + b) by (nonlinear_arith);
            assert(q <= q * b) by (nonlinear_arith)
                requires
                    b >= 1,
            ;
            lemma_ceil_div_unique(a as nat, b as nat, (q + 1) as nat);
        }
    }
    if r == 0 {
        q
    } else {
        q + 1
    }
}

/// An exact fraction, the form in which rates and utilisations are reported.
/// `numer as f32 / denom as f32` is the number to print.
#[derive(Debug, Clone, Copy, PartialEq, Eq, Structural)]
pub struct Ratio {
    pub numer: u128,
    pub denom: u128,
}

impl Ratio {
    /// The fraction `part / whole`, or zero when there is no whole.
    pub fn of(part: u128, whole: u128) -> (r: Ratio)
        ensures
            r == Ratio::spec_of(part, whole),
    {
        if whole == 0 {
            Ratio { numer: 0, denom: 1 }
        } else {
            Ratio { numer: part, denom: whole }
        }
    }

    pub open spec fn spec_of(part: u128, whole: u128) -> Ratio {
        if whole == 0 {
            Ratio { numer: 0, denom: 1 }
        } else {
            Ratio { numer: part, denom: whole }
        }
    }

    /// The fraction lies in `[0, 1]`.
    pub open spec fn in_unit_interval(self) -> bool {
        0 < self.denom && self.numer <= self.denom
    }
}

/// The character of a decimal digit.
pub open spec fn digit_char(d: nat) -> char {
    (48 + d) as char
}

/// A number in decimal, most significant digit first and without leading zeros.
pub open spec fn decimal_text(n: nat) -> Seq<char>
    decreases n,
{
    if n < 10 {
        seq![digit_char(n)]
    } else {
        decimal_text(n / 10).push(digit_char(n % 10))
    }
}

/// The number that a text of decimal digits stands for.
pub open spec fn number_in(text: Seq<char>) -> int
    decreases text.len(),
{
    if text.len() == 0 {
        0
    } else {
        10 * number_in(text.drop_last()) + (text.last() as int - '0' as int)
    }
}

/// Decimal text is the one way to write a number: it holds digits alone, reads
/// back as the number, and starts with a zero only if that is all it holds.
pub proof fn law_decimal_text_reads_back(n: nat)
    ensures
        number_in(decimal_text(n)) == n,
        decimal_text(n).len() > 0,
        forall|i: int|
            0 <= i < decimal_text(n).len() ==> '0' as int <= #[trigger] decimal_text(n)[i] as int
                <= '9' as int,
        decimal_text(n).len() > 1 ==> decimal_text(n)[0] != '0',
        decimal_text(n)[0] == '0' ==> n == 0,
    decreases n,
{
    let text = decimal_text(n);
    if n >= 10 {
        law_decimal_text_reads_back(n / 10);
        assert(text.drop_last() =~= decimal_text(n / 10));
    } else {
        assert(text.drop_last() =~= Seq::empty());
        assert(number_in(text.drop_last()) == 0);
    }
}

/// A ratio is the quotient it was made of, exactly, and no whole makes zero.
pub proof fn law_ratio_is_the_quotient(part: u128, whole: u128)
    ensures
        Ratio::spec_of(part, whole).denom > 0,
        whole > 0 ==> Ratio::spec_of(part, whole).numer * whole == part * Ratio::spec_of(
            part,
            whole,
        ).denom,
        whole > 0 ==> Ratio::spec_of(part, whole).denom == whole,
        whole == 0 ==> Ratio::spec_of(part, whole).numer == 0,
        whole == 0 ==> Ratio::spec_of(part, whole).denom == 1,
        part <= whole ==> Ratio::spec_of(part, whole).numer <= Ratio::spec_of(part, whole).denom,
{
}

fn digit_str(d: u64) -> (r: &'static str)
    requires
        d < 10,
    ensures
        r@ == seq![digit_char(d as nat)],
{
    proof {
        reveal_strlit("0");
        reveal_strlit("1");
        reveal_strlit("2");
        reveal_strlit("3");
        reveal_strlit("4");
        reveal_strlit("5");
        reveal_strlit("6");
        reveal_strlit("7");
        reveal_strlit("8");
        reveal_strlit("9");
    }
    match d {
        0 => "0",
        1 => "1",
        2 => "2",
        3 => "3",
        4 => "4",
        5 => "5",
        6 => "6",
        7 => "7",
        8 => "8",
        _ => "9",
    }
}

/// Append a number in decimal.
pub fn append_decimal(text: &mut String, n: u64)
    ensures
        final(text)@ == old(text)@ + decimal_text(n as nat),
    decreases n,
{
    if n >= 10 {
        append_decimal(text, n / 10);
    }
    text.append(digit_str(n % 10));
}

} // verus!
