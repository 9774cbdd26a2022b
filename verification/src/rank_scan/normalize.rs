//! Normalizing factors of the scanned sequences: double factorials,
//! factorials and central binomials of the loop order.
use crate::error::ExperimentError;
use crate::ladder::{binom, lemma_binom_fact, lemma_binom_step, lemma_fact_positive};
use crate::modular::{gcd, lemma_gcd_divides};
use crate::rank_scan::Rational;
use crate::rational::{is_normalized_of, normalize_spec, rational_new_wide};
use vstd::prelude::*;
use vstd::string::StringExecFns;

verus! {

#[derive(Clone, Copy, Debug, PartialEq, Eq, Structural)]
pub enum NormalizeMode {
    Plain,
    OddDoubleFactorial,
    EvenDoubleFactorial,
    FactorialLm1,
    CentralBinomialLm1,
}

/// The name of a normalization.
pub open spec fn mode_name(m: NormalizeMode) -> Seq<char> {
    match m {
        NormalizeMode::Plain => "none"@,
        NormalizeMode::OddDoubleFactorial => "odd-double-factorial"@,
        NormalizeMode::EvenDoubleFactorial => "even-double-factorial"@,
        NormalizeMode::FactorialLm1 => "factorial"@,
        NormalizeMode::CentralBinomialLm1 => "central-binomial"@,
    }
}

/// The preference order among normalizations that tie.
pub open spec fn mode_order(m: NormalizeMode) -> int {
    match m {
        NormalizeMode::Plain => 0,
        NormalizeMode::OddDoubleFactorial => 1,
        NormalizeMode::EvenDoubleFactorial => 2,
        NormalizeMode::FactorialLm1 => 3,
        NormalizeMode::CentralBinomialLm1 => 4,
    }
}

impl NormalizeMode {
    pub fn as_str(self) -> (r: &'static str)
        ensures
            r@ == mode_name(self),
    {
        match self {
            Self::Plain => "none",
            Self::OddDoubleFactorial => "odd-double-factorial",
            Self::EvenDoubleFactorial => "even-double-factorial",
            Self::FactorialLm1 => "factorial",
            Self::CentralBinomialLm1 => "central-binomial",
        }
    }

    pub fn order_key(self) -> (r: usize)
        ensures
            r == mode_order(self),
    {
        match self {
            Self::Plain => 0,
            Self::OddDoubleFactorial => 1,
            Self::EvenDoubleFactorial => 2,
            Self::FactorialLm1 => 3,
            Self::CentralBinomialLm1 => 4,
        }
    }
}

/// Two normalizations tie-break in the order of their keys, and no two share a key.
pub proof fn lemma_order_key_injective(a: NormalizeMode, b: NormalizeMode)
    ensures
        (mode_order(a) == mode_order(b)) <==> (a == b),
{
}

#[derive(Clone, Copy, Debug, PartialEq, Eq, Structural)]
pub enum NormalizeChoice {
    Plain,
    OddDoubleFactorial,
    EvenDoubleFactorial,
    FactorialLm1,
    CentralBinomialLm1,
    Auto,
}

/// The name of a choice of normalization.
pub open spec fn choice_name(c: NormalizeChoice) -> Seq<char> {
    match c {
        NormalizeChoice::Plain => "none"@,
        NormalizeChoice::OddDoubleFactorial => "odd-double-factorial"@,
        NormalizeChoice::EvenDoubleFactorial => "even-double-factorial"@,
        NormalizeChoice::FactorialLm1 => "factorial"@,
        NormalizeChoice::CentralBinomialLm1 => "central-binomial"@,
        NormalizeChoice::Auto => "auto"@,
    }
}

impl NormalizeChoice {
    pub fn as_str(self) -> (r: &'static str)
        ensures
            r@ == choice_name(self),
    {
        match self {
            Self::Plain => "none",
            Self::OddDoubleFactorial => "odd-double-factorial",
            Self::EvenDoubleFactorial => "even-double-factorial",
            Self::FactorialLm1 => "factorial",
            Self::CentralBinomialLm1 => "central-binomial",
            Self::Auto => "auto",
        }
    }
}

/// `prod_{k=1}^{n} (step * k - offset)`.
pub open spec fn stepped_product(n: nat, step: int, offset: int) -> int
    decreases n,
{
    if n == 0 {
        1
    } else {
        stepped_product((n - 1) as nat, step, offset) * (step * n - offset)
    }
}

/// `(2L-3)!! = 1 * 3 * ... * (2L-3)`, and 1 for `L <= 1`.
pub open spec fn odd_double_factorial_spec(loop_index: nat) -> int {
    if loop_index <= 1 {
        1
    } else {
        stepped_product((loop_index - 1) as nat, 2, 1)
    }
}

/// `(2L-2)!! = 2 * 4 * ... * (2L-2)`, and 1 for `L <= 1`.
pub open spec fn even_double_factorial_spec(loop_index: nat) -> int {
    if loop_index <= 1 {
        1
    } else {
        stepped_product((loop_index - 1) as nat, 2, 0)
    }
}

/// `(L-1)!`, and 1 for `L <= 1`.
pub open spec fn factorial_lm1_spec(loop_index: nat) -> int {
    if loop_index <= 1 {
        1
    } else {
        stepped_product((loop_index - 1) as nat, 1, 0)
    }
}

proof fn lemma_stepped_positive(n: nat, step: int, offset: int)
    requires
        step >= 1,
        0 <= offset < step,
    ensures
        stepped_product(n, step, offset) >= 1,
    decreases n,
{
    if n > 0 {
        lemma_stepped_positive((n - 1) as nat, step, offset);
        assert(step * n - offset >= 1) by (nonlinear_arith)
            requires
                step >= 1,
                n >= 1,
                offset < step,
        ;
        assert(stepped_product((n - 1) as nat, step, offset) * (step * n - offset) >= 1) by (nonlinear_arith)
            requires
                stepped_product((n - 1) as nat, step, offset) >= 1,
                step * n - offset >= 1,
        ;
    }
}

proof fn lemma_stepped_monotone(a: nat, b: nat, step: int, offset: int)
    requires
        step >= 1,
        0 <= offset < step,
        a <= b,
    ensures
        stepped_product(a, step, offset) <= stepped_product(b, step, offset),
    decreases b,
{
    if a < b {
        lemma_stepped_monotone(a, (b - 1) as nat, step, offset);
        lemma_stepped_positive((b - 1) as nat, step, offset);
        assert(step * b - offset >= 1) by (nonlinear_arith)
            requires
                step >= 1,
                b >= 1,
                offset < step,
        ;
        assert(stepped_product((b - 1) as nat, step, offset) <= stepped_product((b - 1) as nat, step, offset) * (step * b - offset)) by (nonlinear_arith)
            requires
                stepped_product((b - 1) as nat, step, offset) >= 1,
                step * b - offset >= 1,
        ;
    }
}

/// `prod_{k=1}^{loop_index-1} (step * k - offset)` in `i64`, or an error once
/// a partial product leaves `i64`.
fn stepped_product_i64(loop_index: usize, step: i64, offset: i64, what: &str) -> (r: Result<i64, ExperimentError>)
    requires
        1 <= step <= 2,
        0 <= offset < step,
        loop_index >= 2,
    ensures
        match r {
            Ok(v) => v == stepped_product((loop_index - 1) as nat, step as int, offset as int),
            Err(_) => stepped_product((loop_index - 1) as nat, step as int, offset as int) > i64::MAX,
        },
{
    let mut acc: i64 = 1;
    let mut k: usize = 1;
    while k < loop_index
        invariant
            1 <= step <= 2,
            0 <= offset < step,
            loop_index >= 2,
            1 <= k <= loop_index,
            acc == stepped_product((k - 1) as nat, step as int, offset as int),
        decreases loop_index - k,
    {
        proof {
            lemma_stepped_positive((k - 1) as nat, step as int, offset as int);
        }
        proof {
            assert(step * k <= 2 * k) by (nonlinear_arith)
                requires
                    1 <= step <= 2,
                    k >= 1,
            ;
            assert(step * k >= 1) by (nonlinear_arith)
                requires
                    1 <= step <= 2,
                    k >= 1,
            ;
        }
        let term_wide: i128 = (step as i128) * (k as i128) - (offset as i128);
        if term_wide > i64::MAX as i128 {
            // the factor itself leaves i64 only for loop orders no memory holds
            proof {
                assert(acc * term_wide > i64::MAX) by (nonlinear_arith)
                    requires
                        acc >= 1,
                        term_wide > i64::MAX,
                ;
                lemma_stepped_monotone(k as nat, (loop_index - 1) as nat, step as int, offset as int);
            }
            return Err(ExperimentError::InvalidConfig(overflow_message(what, loop_index)));
        }
        proof {
            assert(term_wide >= 1) by (nonlinear_arith)
                requires
                    term_wide == step * k - offset,
                    step >= 1,
                    k >= 1,
                    offset < step,
            ;
        }
        let term = term_wide as i64;
        match acc.checked_mul(term) {
            Some(v) => {
                acc = v;
            },
            None => {
                proof {
                    lemma_stepped_monotone(k as nat, (loop_index - 1) as nat, step as int, offset as int);
                }
                return Err(ExperimentError::InvalidConfig(overflow_message(what, loop_index)));
            },
        }
        k += 1;
    }
    Ok(acc)
}

fn overflow_message(what: &str, loop_index: usize) -> (r: String)
    ensures
        r@ == what@ + " overflow for L="@ + crate::text::decimal_digits(loop_index as nat),
{
    let mut msg = String::new();
    msg.append(what);
    msg.append(" overflow for L=");
    let digits = crate::text::u64_to_text(loop_index as u64);
    msg.append(digits.as_str());
    proof {
        assert(msg@ =~= what@ + " overflow for L="@ + crate::text::decimal_digits(loop_index as nat));
    }
    msg
}

/// `1 * 3 * ... * (2L-3)`: the odd double factorial of `2L-3`.
pub fn odd_double_factorial(loop_index: usize) -> (r: Result<i64, ExperimentError>)
    ensures
        match r {
            Ok(v) => v == odd_double_factorial_spec(loop_index as nat),
            Err(_) => odd_double_factorial_spec(loop_index as nat) > i64::MAX,
        },
{
    if loop_index <= 1 {
        return Ok(1);
    }
    stepped_product_i64(loop_index, 2, 1, "odd double factorial")
}

/// `2 * 4 * ... * (2L-2)`: the even double factorial of `2L-2`.
pub fn even_double_factorial(loop_index: usize) -> (r: Result<i64, ExperimentError>)
    ensures
        match r {
            Ok(v) => v == even_double_factorial_spec(loop_index as nat),
            Err(_) => even_double_factorial_spec(loop_index as nat) > i64::MAX,
        },
{
    if loop_index <= 1 {
        return Ok(1);
    }
    stepped_product_i64(loop_index, 2, 0, "even double factorial")
}

/// `(L-1)!`.
pub fn factorial_lm1(loop_index: usize) -> (r: Result<i64, ExperimentError>)
    ensures
        match r {
            Ok(v) => v == factorial_lm1_spec(loop_index as nat),
            Err(_) => factorial_lm1_spec(loop_index as nat) > i64::MAX,
        },
{
    if loop_index <= 1 {
        return Ok(1);
    }
    stepped_product_i64(loop_index, 1, 0, "factorial")
}

/// The greatest common divisor of `|a|` and `|b|`.
pub fn gcd_i128(a: i128, b: i128) -> (r: i128)
    requires
        a > i128::MIN,
        b > i128::MIN,
    ensures
        r == gcd(abs(a as int) as nat, abs(b as int) as nat),
        r >= 0,
{
    let mut x: i128 = if a < 0 { -a } else { a };
    let mut y: i128 = if b < 0 { -b } else { b };
    while y != 0
        invariant
            x >= 0,
            y >= 0,
            gcd(x as nat, y as nat) == gcd(abs(a as int) as nat, abs(b as int) as nat),
        decreases y,
    {
        let r = x % y;
        proof {
            vstd::arithmetic::div_mod::lemma_mod_bound(x as int, y as int);
        }
        x = y;
        y = r;
    }
    x
}

/// `|v|`.
pub open spec fn abs(v: int) -> int {
    if v < 0 {
        -v
    } else {
        v
    }
}


/// `C(2L-2, L-1)`, and 1 for `L <= 1`.
pub open spec fn central_binomial_spec(loop_index: nat) -> int {
    if loop_index <= 1 {
        1
    } else {
        binom((2 * (loop_index - 1)) as nat, (loop_index - 1) as nat) as int
    }
}

proof fn lemma_binom_positive(n: nat, k: nat)
    requires
        k <= n,
    ensures
        binom(n, k) >= 1,
{
    lemma_binom_fact(n, k);
    lemma_fact_positive(n);
    lemma_fact_positive(k);
    lemma_fact_positive((n - k) as nat);
    let b = binom(n, k) as int;
    let fk = crate::ladder::fact(k) as int;
    let fnk = crate::ladder::fact((n - k) as nat) as int;
    if b == 0 {
        assert(b * fk * fnk == 0) by (nonlinear_arith)
            requires
                b == 0,
        ;
    }
}

proof fn lemma_exact_quotient(a: int, g: int)
    requires
        a >= 0,
        g > 0,
        a % g == 0,
    ensures
        (a / g) * g == a,
        a / g >= 0,
{
    vstd::arithmetic::div_mod::lemma_fundamental_div_mod(a, g);
    vstd::arithmetic::div_mod::lemma_div_pos_is_pos(a, g);
    assert(a == g * (a / g) + a % g);
    vstd::arithmetic::mul::lemma_mul_is_commutative(g, a / g);
}

/// `C(2L-2, L-1)`, the central binomial coefficient of `L-1`, built up as
/// `C(L-1+k, k)` for `k = 1, ..., L-1` with each factor reduced by common
/// divisors; an error when it passes `i64::MAX` (or a reduction leaves a
/// denominator).
pub fn central_binomial_lm1(loop_index: usize) -> (r: Result<i64, ExperimentError>)
    ensures
        r matches Ok(v) ==> v == central_binomial_spec(loop_index as nat),
        central_binomial_spec(loop_index as nat) > i64::MAX ==> r is Err,
        central_binomial_spec(loop_index as nat) <= i64::MAX ==> r is Ok,
{
    if loop_index <= 1 {
        return Ok(1);
    }
    let n = loop_index - 1;
    let ghost fits = central_binomial_spec(loop_index as nat) <= i64::MAX;
    let mut result: i128 = 1;
    let mut k: usize = 1;
    while k <= n
        invariant
            n == loop_index - 1,
            n >= 1,
            1 <= k <= n + 1,
            result == binom((n + k - 1) as nat, (k - 1) as nat),
            1 <= result <= i64::MAX,
            fits == (central_binomial_spec(loop_index as nat) <= i64::MAX),
            central_binomial_spec(loop_index as nat) == binom((2 * n) as nat, n as nat),
        decreases n + 1 - k,
    {
        let numer0: i128 = (n as i128) + (k as i128);
        let denom0: i128 = k as i128;
        let g1 = gcd_i128(numer0, denom0);
        proof {
            lemma_gcd_divides(abs(numer0 as int) as nat, abs(denom0 as int) as nat);
            lemma_exact_quotient(numer0 as int, g1 as int);
            lemma_exact_quotient(denom0 as int, g1 as int);
        }
        let numer = numer0 / g1;
        let denom1 = denom0 / g1;
        proof {
            assert(denom1 >= 1) by (nonlinear_arith)
                requires
                    denom1 * g1 == denom0,
                    denom0 >= 1,
                    g1 > 0,
            ;
        }
        let ghost c = binom((n + k) as nat, k as nat);
        proof {
            lemma_binom_step(n as nat, k as nat);
            let rr = result as int;
            assert(k * c == (n + k) * rr);
            // numer and denom1 have no common divisor
            assert(numer >= 1) by (nonlinear_arith)
                requires
                    numer * g1 == numer0,
                    numer0 >= 1,
                    g1 > 0,
            ;
            crate::modular::lemma_gcd_scale(numer as nat, denom1 as nat, g1 as nat);
            assert((numer as nat) * (g1 as nat) == numer0 as nat);
            assert((denom1 as nat) * (g1 as nat) == denom0 as nat);
            assert(crate::modular::gcd(numer as nat, denom1 as nat) * (g1 as nat) == g1 as nat);
            assert(crate::modular::gcd(numer as nat, denom1 as nat) == 1) by (nonlinear_arith)
                requires
                    crate::modular::gcd(numer as nat, denom1 as nat) * (g1 as nat) == g1 as nat,
                    g1 > 0,
            ;
            // denom1 * c == numer * result
            assert(denom1 * c * g1 == numer * rr * g1) by (nonlinear_arith)
                requires
                    k * c == (n + k) * rr,
                    denom1 * g1 == k,
                    numer * g1 == n + k,
            ;
            assert(denom1 * c == numer * rr) by (nonlinear_arith)
                requires
                    denom1 * c * g1 == numer * rr * g1,
                    g1 > 0,
            ;
            assert(((numer as nat) * (rr as nat)) % (denom1 as nat) == 0) by {
                vstd::arithmetic::div_mod::lemma_mod_multiples_basic(c as int, denom1 as int);
                assert(c * denom1 == denom1 * c) by (nonlinear_arith);
            }
            crate::modular::lemma_coprime_divides(numer as nat, denom1 as nat, rr as nat);
            crate::modular::lemma_gcd_of_divisor(rr as nat, denom1 as nat);
        }
        let g2 = gcd_i128(result, denom1);
        proof {
            lemma_gcd_divides(abs(result as int) as nat, abs(denom1 as int) as nat);
            lemma_exact_quotient(result as int, g2 as int);
            lemma_exact_quotient(denom1 as int, g2 as int);
            assert(g2 == denom1);
        }
        let reduced = result / g2;
        let denom = denom1 / g2;
        proof {
            vstd::arithmetic::div_mod::lemma_div_by_self(denom1 as int);
        }
        if denom != 1 {
            return Err(ExperimentError::InvalidConfig(overflow_message("central binomial reduction failed:", loop_index)));
        }
        proof {
            let rr = result as int;
            assert(reduced * numer * k == rr * (n + k)) by (nonlinear_arith)
                requires
                    reduced * g2 == rr,
                    numer * g1 == numer0,
                    numer0 == n + k,
                    k == g1 * g2,
            ;
            assert(reduced * numer == c) by (nonlinear_arith)
                requires
                    reduced * numer * k == rr * (n + k),
                    k * c == (n + k) * rr,
                    k >= 1,
            ;
            lemma_binom_positive((n + k) as nat, k as nat);
            lemma_binom_up_to_center(n as nat, k as nat);
        }
        let product = match reduced.checked_mul(numer) {
            Some(v) => v,
            None => {
                return Err(ExperimentError::InvalidConfig(overflow_message("central binomial", loop_index)));
            },
        };
        if product > i64::MAX as i128 {
            return Err(ExperimentError::InvalidConfig(overflow_message("central binomial", loop_index)));
        }
        result = product;
        k += 1;
    }
    proof {
        assert((n + k - 1) as nat == (2 * (loop_index - 1)) as nat);
    }
    Ok(result as i64)
}

/// `C(n + k, k) <= C(2n, n)` for `k <= n`.
proof fn lemma_binom_up_to_center(n: nat, k: nat)
    requires
        k <= n,
    ensures
        binom(n + k, k) <= binom(2 * n, n),
    decreases n - k,
{
    if k < n {
        lemma_binom_up_to_center(n, k + 1);
        lemma_binom_step(n, k + 1);
        let a = binom(n + k + 1, k + 1);
        let b = binom(n + k, k);
        assert((k + 1) * a == (n + k + 1) * b);
        assert(b <= a) by (nonlinear_arith)
            requires
                (k + 1) * a == (n + k + 1) * b,
                k + 1 <= n + k + 1,
                k + 1 > 0,
                a >= 0,
                b >= 0,
        ;
    }
}

/// The factor a normalization mode divides the value at loop order `L` by.
pub open spec fn mode_factor(mode: NormalizeMode, loop_index: nat) -> int {
    match mode {
        NormalizeMode::Plain => 1,
        NormalizeMode::OddDoubleFactorial => odd_double_factorial_spec(loop_index),
        NormalizeMode::EvenDoubleFactorial => even_double_factorial_spec(loop_index),
        NormalizeMode::FactorialLm1 => factorial_lm1_spec(loop_index),
        NormalizeMode::CentralBinomialLm1 => central_binomial_spec(loop_index),
    }
}

pub(crate) fn mode_factor_exec(mode: NormalizeMode, loop_index: usize) -> (r: Result<i64, ExperimentError>)
    ensures
        r matches Ok(v) ==> v == mode_factor(mode, loop_index as nat) && v >= 1,
        mode_factor(mode, loop_index as nat) > i64::MAX ==> r is Err,
        r is Err ==> mode_factor(mode, loop_index as nat) > i64::MAX,
{
    let r = match mode {
        NormalizeMode::Plain => Ok(1),
        NormalizeMode::OddDoubleFactorial => odd_double_factorial(loop_index),
        NormalizeMode::EvenDoubleFactorial => even_double_factorial(loop_index),
        NormalizeMode::FactorialLm1 => factorial_lm1(loop_index),
        NormalizeMode::CentralBinomialLm1 => central_binomial_lm1(loop_index),
    };
    proof {
        if loop_index > 1 {
            lemma_stepped_positive((loop_index - 1) as nat, 2, 1);
            lemma_stepped_positive((loop_index - 1) as nat, 2, 0);
            lemma_stepped_positive((loop_index - 1) as nat, 1, 0);
            lemma_binom_positive((2 * (loop_index - 1)) as nat, (loop_index - 1) as nat);
        }
    }
    r
}

/// Whether a coefficient has a positive denominator and a numerator above
/// `i64::MIN`.
pub open spec fn rational_ok(c: Rational) -> bool {
    c.denom > 0 && c.numer > i64::MIN
}

/// Value `i` can be normalized: its factor fits in `i64` and, unless the
/// values are kept as they are, the quotient in lowest terms fits too.
pub open spec fn value_normalizes(values: Seq<Rational>, loops: Seq<usize>, mode: NormalizeMode, i: int) -> bool {
    mode_factor(mode, loops[i] as nat) <= i64::MAX && (mode == NormalizeMode::Plain || crate::rational::lowest(
        values[i].numer as int,
        values[i].denom * mode_factor(mode, loops[i] as nat),
    ) is Some)
}

/// Each value divided by the normalizing factor of its loop order, in lowest
/// terms. An error when the lists differ in length, when a factor passes
/// `i64::MAX`, or when a quotient does not fit in `i64`.
pub fn normalize_values(values: &[Rational], loops: &[usize], mode: NormalizeMode) -> (r: Result<Vec<Rational>, ExperimentError>)
    requires
        forall|i: int| 0 <= i < values@.len() ==> rational_ok(#[trigger] values@[i]),
    ensures
        values@.len() != loops@.len() ==> r is Err,
        r matches Ok(out) ==> out@.len() == values@.len() && forall|i: int|
            0 <= i < out@.len() ==> if mode == NormalizeMode::Plain {
                #[trigger] out@[i] == values@[i]
            } else {
                is_normalized_of(out@[i], values@[i].numer as int, values@[i].denom * mode_factor(mode, loops@[i] as nat))
            },
        (values@.len() == loops@.len() && exists|i: int|
            0 <= i < loops@.len() && #[trigger] mode_factor(mode, loops@[i] as nat) > i64::MAX) ==> r is Err,
        r matches Ok(out) ==> forall|i: int| 0 <= i < out@.len() ==> (#[trigger] out@[i]).denom > 0,
        r is Ok <==> (values@.len() == loops@.len() && forall|i: int|
            0 <= i < values@.len() ==> #[trigger] value_normalizes(values@, loops@, mode, i)),
{
    if values.len() != loops.len() {
        return Err(ExperimentError::InvalidConfig("normalize values: length mismatch".to_string()));
    }
    let mut out: Vec<Rational> = Vec::with_capacity(values.len());
    let mut i: usize = 0;
    while i < values.len()
        invariant
            values@.len() == loops@.len(),
            forall|t: int| 0 <= t < values@.len() ==> rational_ok(#[trigger] values@[t]),
            i <= values@.len(),
            out@.len() == i,
            forall|t: int|
                0 <= t < i ==> if mode == NormalizeMode::Plain {
                    #[trigger] out@[t] == values@[t]
                } else {
                    is_normalized_of(out@[t], values@[t].numer as int, values@[t].denom * mode_factor(mode, loops@[t] as nat))
                },
            forall|t: int| 0 <= t < i ==> #[trigger] mode_factor(mode, loops@[t] as nat) <= i64::MAX,
            forall|t: int| 0 <= t < i ==> (#[trigger] out@[t]).denom > 0,
            forall|t: int| 0 <= t < i ==> #[trigger] value_normalizes(values@, loops@, mode, t),
        decreases values@.len() - i,
    {
        let value = values[i];
        let factor = match mode_factor_exec(mode, loops[i]) {
            Ok(f) => f,
            Err(e) => {
                proof {
                    assert(!value_normalizes(values@, loops@, mode, i as int));
                }
                return Err(e);
            },
        };
        if mode == NormalizeMode::Plain {
            proof {
                assert(rational_ok(values@[i as int]));
                assert(value_normalizes(values@, loops@, mode, i as int));
            }
            out.push(value);
        } else {
            proof {
                assert(0 < value.denom * factor <= i64::MAX * i64::MAX) by (nonlinear_arith)
                    requires
                        1 <= value.denom <= i64::MAX,
                        1 <= factor <= i64::MAX,
                ;
            }
            let d: i128 = (value.denom as i128) * (factor as i128);
            match rational_new_wide(value.numer as i128, d) {
                Some(q) => {
                    proof {
                        crate::rational::lemma_positive_denominator(d as int);
                        assert(crate::rational::normalize_spec(value.numer as int, d as int).1 > 0);
                        assert(value_normalizes(values@, loops@, mode, i as int));
                    }
                    out.push(q);
                },
                None => {
                    proof {
                        assert(!value_normalizes(values@, loops@, mode, i as int));
                    }
                    return Err(ExperimentError::InvalidConfig("normalize values: value out of range".to_string()));
                },
            }
        }
        i += 1;
    }
    proof {
        assert forall|t: int| 0 <= t < loops@.len() implies #[trigger] mode_factor(mode, loops@[t] as nat) <= i64::MAX by {}
    }
    Ok(out)
}

} // verus!
