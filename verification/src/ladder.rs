//! Counting for the ladder symbols: binomials, factorials and the closed-form
//! marginal counts of ladder words.
use crate::error::ExperimentError;
use crate::rank_scan::family::{format_letters_compact, FamilyType, SequenceSource, SequenceSpec};
use crate::rank_scan::observables::MatrixRankRow;
use crate::rank_scan::rank::{all_inverses_ok, rank_matrix_mod_p, rectangular_rat, residue_rank, unusable_matrix};
use crate::rank_scan::Rational;
use crate::text::{decimal_digits, strings_view, str_seq_join, u64_to_text};
use crate::text::str_eq;
use crate::kze2::words::{lemma_pow_monotone, lemma_pow_nonneg, word_at, word_from_index};
use crate::modular::pow;
use vstd::prelude::*;

verus! {

/// `n!`.
pub open spec fn fact(n: nat) -> nat
    decreases n,
{
    if n == 0 {
        1
    } else {
        n * fact((n - 1) as nat)
    }
}

/// The binomial coefficient by Pascal's rule; 0 when `k > n`.
pub open spec fn binom(n: nat, k: nat) -> nat
    decreases n,
{
    if k > n {
        0
    } else if k == 0 || k == n {
        1
    } else {
        binom((n - 1) as nat, (k - 1) as nat) + binom((n - 1) as nat, k)
    }
}

pub proof fn lemma_fact_positive(n: nat)
    ensures
        fact(n) >= 1,
    decreases n,
{
    if n > 0 {
        lemma_fact_positive((n - 1) as nat);
        assert(n * fact((n - 1) as nat) >= 1) by (nonlinear_arith)
            requires
                n >= 1,
                fact((n - 1) as nat) >= 1,
        ;
    }
}

/// `C(n, k) * k! * (n-k)! = n!`.
pub proof fn lemma_binom_fact(n: nat, k: nat)
    requires
        k <= n,
    ensures
        binom(n, k) * fact(k) * fact((n - k) as nat) == fact(n),
    decreases n,
{
    if k == 0 || k == n {
        assert(binom(n, k) == 1);
        assert(fact(0) == 1);
        if k == 0 {
            assert((n - k) as nat == n);
            assert(binom(n, k) * fact(k) == 1);
        } else {
            assert((n - k) as nat == 0);
            assert(binom(n, k) * fact(k) == fact(n));
        }
    } else {
        let n1 = (n - 1) as nat;
        lemma_binom_fact(n1, (k - 1) as nat);
        lemma_binom_fact(n1, k);
        let a = binom(n1, (k - 1) as nat);
        let b = binom(n1, k);
        let fk1 = fact((k - 1) as nat);
        let fnk = fact((n - k) as nat);
        let fnk1 = fact((n1 - k) as nat);
        assert(fact(k) == k * fk1);
        assert((n - k) as nat == (n1 - k) + 1);
        assert(fnk == (n - k) * fnk1);
        assert(fact(n) == n * fact(n1));
        assert(((n1 - (k - 1)) as nat) == (n - k) as nat);
        assert((a + b) * fact(k) * fnk == fact(n)) by (nonlinear_arith)
            requires
                a * fk1 * fnk == fact(n1),
                b * fact(k) * fnk1 == fact(n1),
                fact(k) == k * fk1,
                fnk == (n - k) * fnk1,
                fact(n) == n * fact(n1),
                0 < k < n,
        ;
    }
}

/// `i * C(a+i, i) = (a+i) * C(a+i-1, i-1)`: one step of the product formula.
pub proof fn lemma_binom_step(a: nat, i: nat)
    requires
        i >= 1,
    ensures
        i * binom(a + i, i) == (a + i) * binom((a + i - 1) as nat, (i - 1) as nat),
{
    let n = a + i;
    lemma_binom_fact(n, i);
    lemma_binom_fact((n - 1) as nat, (i - 1) as nat);
    lemma_fact_positive((i - 1) as nat);
    lemma_fact_positive(a);
    let x = binom(n, i);
    let y = binom((n - 1) as nat, (i - 1) as nat);
    let fi1 = fact((i - 1) as nat);
    let fa = fact(a);
    assert(fact(i) == i * fi1);
    assert(fact(n) == n * fact((n - 1) as nat));
    assert((n - i) as nat == a);
    assert(((n - 1) - (i - 1)) as nat == a);
    let f_i = fact(i);
    let f_n = fact(n);
    let f_n1 = fact((n - 1) as nat);
    assert(x * f_i * fa == f_n);
    assert(y * fi1 * fa == f_n1);
    assert(i * x * (fi1 * fa) == n * y * (fi1 * fa)) by (nonlinear_arith)
        requires
            x * f_i * fa == f_n,
            y * fi1 * fa == f_n1,
            f_i == i * fi1,
            f_n == n * f_n1,
    ;
    assert(fi1 * fa > 0) by (nonlinear_arith)
        requires
            fi1 >= 1,
            fa >= 1,
    ;
    assert(i * x == n * y) by (nonlinear_arith)
        requires
            i * x * (fi1 * fa) == n * y * (fi1 * fa),
            fi1 * fa > 0,
    ;
}

/// `C(n, k) = C(n, n-k)`.
pub proof fn lemma_binom_symmetric(n: nat, k: nat)
    requires
        k <= n,
    ensures
        binom(n, k) == binom(n, (n - k) as nat),
{
    lemma_binom_fact(n, k);
    lemma_binom_fact(n, (n - k) as nat);
    lemma_fact_positive(k);
    lemma_fact_positive((n - k) as nat);
    assert(((n - (n - k)) as nat) == k);
    let f = fact(k) * fact((n - k) as nat);
    assert(f > 0) by (nonlinear_arith)
        requires
            f == fact(k) * fact((n - k) as nat),
            fact(k) >= 1,
            fact((n - k) as nat) >= 1,
    ;
    assert(binom(n, k) == binom(n, (n - k) as nat)) by (nonlinear_arith)
        requires
            binom(n, k) * fact(k) * fact((n - k) as nat) == binom(n, (n - k) as nat) * fact((n - k) as nat) * fact(k),
            f == fact(k) * fact((n - k) as nat),
            f > 0,
    ;
}


proof fn lemma_fact_monotone(a: nat, b: nat)
    requires
        a <= b,
    ensures
        fact(a) <= fact(b),
    decreases b,
{
    if a < b {
        lemma_fact_monotone(a, (b - 1) as nat);
        lemma_fact_positive((b - 1) as nat);
        assert(fact((b - 1) as nat) <= b * fact((b - 1) as nat)) by (nonlinear_arith)
            requires
                b >= 1,
                fact((b - 1) as nat) >= 1,
        ;
    }
}

/// `value!` in `i128`, or an error when it does not fit.
pub fn factorial_i128(value: usize) -> (r: Result<i128, ExperimentError>)
    ensures
        match r {
            Ok(v) => v == fact(value as nat),
            Err(_) => fact(value as nat) > i128::MAX,
        },
{
    let mut out: i128 = 1;
    let mut k: usize = 1;
    proof {
        assert(fact(1) == 1) by {
            assert(fact(0) == 1);
        }
    }
    while k < value
        invariant
            1 <= k,
            value >= 1 ==> k <= value,
            value == 0 ==> k == 1,
            out == fact(k as nat),
        decreases value - k,
    {
        let m = k + 1;
        proof {
            assert(fact(m as nat) == m * fact(k as nat));
            lemma_fact_positive(k as nat);
        }
        match out.checked_mul(m as i128) {
            Some(v) => {
                out = v;
            },
            None => {
                proof {
                    lemma_fact_monotone(m as nat, value as nat);
                    assert(out * m > i128::MAX) by (nonlinear_arith)
                        requires
                            out >= 1,
                            m >= 2,
                            !(i128::MIN <= out * m <= i128::MAX),
                    ;
                }
                return Err(ExperimentError::InvalidConfig("factorial overflow".to_string()));
            },
        }
        k = m;
    }
    proof {
        if value < 1 {
            assert(fact(0) == 1);
            assert(fact(1) == 1);
            assert(value == 0);
            assert(out == fact(value as nat));
        } else {
            assert(k == value);
        }
    }
    Ok(out)
}

proof fn lemma_pow_matches_pow2(e: nat)
    ensures
        pow(2, e) == vstd::arithmetic::power2::pow2(e) as int,
    decreases e,
{
    if e == 0 {
        vstd::arithmetic::power2::lemma2_to64();
    } else {
        vstd::arithmetic::power2::lemma_pow2_unfold(e);
        lemma_pow_matches_pow2((e - 1) as nat);
    }
}

/// `2^63` and `2^126` as numbers.
pub proof fn lemma_pow2_values()
    ensures
        pow(2, 63) == 0x8000_0000_0000_0000int,
        pow(2, 126) == 85070591730234615865843651857942052864int,
{
    lemma_pow_matches_pow2(63);
    vstd::arithmetic::power2::lemma2_to64_rest();
    crate::modular::lemma_pow_add(2, 63, 63);
}

/// `2^exp` in `i128`, or an error for `exp >= 127`.
pub fn pow2_i128(exp: usize) -> (r: Result<i128, ExperimentError>)
    ensures
        exp >= 127 ==> r is Err,
        r matches Ok(v) ==> v == pow(2, exp as nat),
        exp < 127 ==> r is Ok,
{
    if exp >= 127 {
        return Err(ExperimentError::InvalidConfig("2^exp overflow".to_string()));
    }
    let mut v: i128 = 1;
    let mut i: usize = 0;
    proof {
        lemma_pow2_values();
    }
    while i < exp
        invariant
            exp < 127,
            i <= exp,
            v == pow(2, i as nat),
            v >= 1,
            pow(2, 126) == 85070591730234615865843651857942052864int,
        decreases exp - i,
    {
        proof {
            assert(pow(2, (i + 1) as nat) == 2 * pow(2, i as nat));
            lemma_pow_monotone(2, (i + 1) as nat, 126);
            assert(2 * v <= 85070591730234615865843651857942052864int);
        }
        v = v + v;
        i += 1;
    }
    Ok(v)
}


/// The smaller of `k` and `n - k`.
pub open spec fn low_side(n: nat, k: nat) -> nat {
    if k <= (n - k) as nat {
        k
    } else {
        (n - k) as nat
    }
}

/// The product formula for `C(n, k)` overflows `u128` at its step `i`.
pub open spec fn binom_step_overflows(n: nat, k: nat) -> bool {
    let j = low_side(n, k);
    exists|i: nat| 1 <= i <= j && #[trigger] (i * binom((n - j + i) as nat, i)) > u128::MAX
}

/// `C(n, k)` in `u128` by the product formula, or an error when a step of it
/// overflows; 0 for `k > n`.
pub fn binom_u128(n: usize, k: usize) -> (r: Result<u128, ExperimentError>)
    ensures
        k > n ==> r == Ok::<u128, ExperimentError>(0),
        k <= n ==> (r is Err <==> binom_step_overflows(n as nat, k as nat)),
        r matches Ok(v) ==> v == binom(n as nat, k as nat),
{
    if k > n {
        return Ok(0);
    }
    let k2 = if k <= n - k { k } else { n - k };
    let ghost a: nat = (n - k2) as nat;
    let mut value: u128 = 1;
    let mut i: usize = 1;
    proof {
        assert(binom(a, 0) == 1);
    }
    while i <= k2
        invariant
            k <= n,
            k2 == low_side(n as nat, k as nat),
            a == n - k2,
            1 <= i <= k2 + 1,
            value == binom((a + i - 1) as nat, (i - 1) as nat),
            forall|t: nat| 1 <= t < i ==> #[trigger] (t * binom((a + t) as nat, t)) <= u128::MAX,
        decreases k2 + 1 - i,
    {
        let numerator = (n - k2 + i) as u128;
        let ghost prev = binom((a + i - 1) as nat, (i - 1) as nat);
        let ghost next = binom((a + i) as nat, i as nat);
        proof {
            lemma_binom_step(a, i as nat);
            assert(numerator == a + i);
            assert(value * numerator == i * next) by (nonlinear_arith)
                requires
                    value == prev,
                    numerator == a + i,
                    i * next == (a + i) * prev,
            ;
        }
        match value.checked_mul(numerator) {
            Some(v) => {
                proof {
                    let b = next;
                    assert(v == i * b);
                    assert(v as int / (i as int) == b) by {
                        vstd::arithmetic::div_mod::lemma_div_multiples_vanish(b as int, i as int);
                    }
                }
                value = v / (i as u128);
            },
            None => {
                proof {
                    assert(i * binom((a + i) as nat, i as nat) > u128::MAX);
                    assert(((a + i) as nat) == ((n - k2 + i) as nat));
                }
                return Err(ExperimentError::InvalidConfig("binomial overflow".to_string()));
            },
        }
        i += 1;
    }
    proof {
        assert((a + k2) as nat == n);
        if k2 != k {
            lemma_binom_symmetric(n as nat, k as nat);
        }
        assert(!binom_step_overflows(n as nat, k as nat)) by {
            if binom_step_overflows(n as nat, k as nat) {
                let t = choose|t: nat| 1 <= t <= k2 && #[trigger] (t * binom((n - k2 + t) as nat, t)) > u128::MAX;
                assert(((n - k2 + t) as nat) == ((a + t) as nat));
            }
        }
    }
    Ok(value)
}

/// `C(n, k)` in `i128`, or an error when it does not fit or a step of the
/// product formula overflows.
pub fn binom_i128(n: usize, k: usize) -> (r: Result<i128, ExperimentError>)
    ensures
        k > n ==> r == Ok::<i128, ExperimentError>(0),
        r matches Ok(v) ==> v == binom(n as nat, k as nat),
        k <= n ==> (r is Err <==> (binom_step_overflows(n as nat, k as nat) || binom(n as nat, k as nat) > i128::MAX)),
{
    let value = binom_u128(n, k)?;
    if value > i128::MAX as u128 {
        return Err(ExperimentError::InvalidConfig("binomial overflow".to_string()));
    }
    Ok(value as i128)
}


/// `2^(2L+1)`, the number of words a ladder symbol of loop order `L` can
/// have at most, when it fits in `u128`.
pub fn estimate_term_count(loop_value: usize) -> (r: Option<u128>)
    ensures
        2 * loop_value + 1 >= 128 ==> r is None,
        2 * loop_value + 1 < 128 ==> r == Some(pow(2, (2 * loop_value + 1) as nat) as u128),
{
    if loop_value >= 64 {
        return None;
    }
    let exp = 2 * loop_value + 1;
    let mut v: u128 = 1;
    let mut i: usize = 0;
    proof {
        lemma_pow2_values();
        crate::modular::lemma_pow_add(2, 126, 1);
        assert(pow(2, 1) == 2);
    }
    while i < exp
        invariant
            exp < 128,
            exp == 2 * loop_value + 1,
            i <= exp,
            v == pow(2, i as nat),
            pow(2, 127) == 170141183460469231731687303715884105728int,
        decreases exp - i,
    {
        proof {
            assert(pow(2, (i + 1) as nat) == 2 * pow(2, i as nat));
            lemma_pow_monotone(2, (i + 1) as nat, 127);
            lemma_pow_nonneg(2, i as nat);
        }
        v = v + v;
        i += 1;
    }
    Some(v)
}

/// `2^len` for a binary word length below 63.
pub fn binary_total(len: usize) -> (r: Result<u64, ExperimentError>)
    ensures
        len >= 63 ==> r is Err,
        len < 63 ==> r == Ok::<u64, ExperimentError>(pow(2, len as nat) as u64),
{
    if len >= 63 {
        return Err(ExperimentError::InvalidConfig("binary word length too large for jsonl emission".to_string()));
    }
    let mut v: u64 = 1;
    let mut i: usize = 0;
    proof {
        lemma_pow2_values();
    }
    while i < len
        invariant
            len < 63,
            i <= len,
            v == pow(2, i as nat),
            pow(2, 63) == 0x8000_0000_0000_0000int,
        decreases len - i,
    {
        proof {
            assert(pow(2, (i + 1) as nat) == 2 * pow(2, i as nat));
            lemma_pow_monotone(2, (i + 1) as nat, 63);
            lemma_pow_nonneg(2, i as nat);
        }
        v = v + v;
        i += 1;
    }
    Ok(v)
}

/// The letter id of `z`.
pub const ID_Z: usize = 0;

/// The letter id of `zbar`.
pub const ID_ZBAR: usize = 1;

/// The letter id of `1-z`.
pub const ID_ONE_MINUS_Z: usize = 2;

/// The letter id of `1-zbar`.
pub const ID_ONE_MINUS_ZBAR: usize = 3;

/// The binary word of length `len` read off `mask`, most significant bit
/// first: `zbar` for a set bit, `z` otherwise.
pub fn binary_word_from_mask(len: usize, mask: u64) -> (r: Vec<usize>)
    requires
        len <= 64,
    ensures
        r@.len() == len,
        forall|i: int| 0 <= i < len ==> #[trigger] r@[i] == if (mask >> ((len - 1 - i) as u64)) & 1u64 == 0u64 {
            ID_Z
        } else {
            ID_ZBAR
        },
{
    let mut out: Vec<usize> = Vec::with_capacity(len);
    let mut i: usize = 0;
    while i < len
        invariant
            len <= 64,
            i <= len,
            out@.len() == i,
            forall|t: int| 0 <= t < i ==> #[trigger] out@[t] == if (mask >> ((len - 1 - t) as u64)) & 1u64 == 0u64 {
                ID_Z
            } else {
                ID_ZBAR
            },
        decreases len - i,
    {
        let shift = (len - 1 - i) as u64;
        let bit = (mask >> shift) & 1;
        if bit == 0 {
            out.push(ID_Z);
        } else {
            out.push(ID_ZBAR);
        }
        i += 1;
    }
    out
}

/// A number of `z` letters the suffix must hold, with the sign of the terms.
#[derive(Clone, Copy, Debug)]
pub struct ZCountCase {
    pub z_required: i64,
    pub sign: i128,
}

/// The two suffix cases behind the special letter: after `1-z`, `L` or `L-1`
/// letters `z` with signs `+` and `-`; after `1-zbar`, `m-L` or `m-L+1` with
/// signs `-` and `+`.
pub open spec fn z_cases_spec(loop_value: int, m: int, special_id: usize) -> (int, int, int, int) {
    if special_id == ID_ONE_MINUS_Z {
        (loop_value, 1, loop_value - 1, -1)
    } else {
        (m - loop_value, -1, m - loop_value + 1, 1)
    }
}

/// The two suffix cases of one position of the special letter.
pub fn z_count_cases(loop_value: usize, m: usize, special_id: usize) -> (r: [ZCountCase; 2])
    requires
        loop_value <= i64::MAX,
        m < i64::MAX,
    ensures
        (r[0].z_required as int, r[0].sign as int, r[1].z_required as int, r[1].sign as int) == z_cases_spec(
            loop_value as int,
            m as int,
            special_id,
        ),
{
    let l = loop_value as i64;
    let m = m as i64;
    if special_id == ID_ONE_MINUS_Z {
        [ZCountCase { z_required: l, sign: 1 }, ZCountCase { z_required: l - 1, sign: -1 }]
    } else {
        [ZCountCase { z_required: m - l, sign: -1 }, ZCountCase { z_required: m - l + 1, sign: 1 }]
    }
}

/// Some position other than `special_pos` holds a special letter.
pub open spec fn special_conflict(fixed: Seq<Option<usize>>, special_pos: int) -> bool {
    exists|idx: int| 0 <= idx < fixed.len() && idx != special_pos && (#[trigger] fixed[idx] matches Some(id) && id >= ID_ONE_MINUS_Z)
}

/// Whether a special letter is fixed away from `special_pos`.
pub fn fixed_special_conflict(fixed: &[Option<usize>], special_pos: usize) -> (r: bool)
    ensures
        r == special_conflict(fixed@, special_pos as int),
{
    let mut idx: usize = 0;
    while idx < fixed.len()
        invariant
            idx <= fixed@.len(),
            forall|t: int| 0 <= t < idx && t != special_pos ==> !(#[trigger] fixed@[t] matches Some(id) && id >= ID_ONE_MINUS_Z),
        decreases fixed@.len() - idx,
    {
        if idx != special_pos {
            match fixed[idx] {
                Some(id) => {
                    if id >= ID_ONE_MINUS_Z {
                        return true;
                    }
                },
                None => {},
            }
        }
        idx += 1;
    }
    false
}

/// How many of the positions `lo..hi` are fixed to `Some(v)` (or, for `v`
/// `None`, free).
pub open spec fn count_fixed(fixed: Seq<Option<usize>>, lo: int, hi: int, v: Option<usize>) -> nat
    decreases hi - lo,
{
    if hi <= lo {
        0
    } else {
        count_fixed(fixed, lo, hi - 1, v) + if fixed[hi - 1] == v {
            1nat
        } else {
            0nat
        }
    }
}

proof fn lemma_count_fixed_bound(fixed: Seq<Option<usize>>, lo: int, hi: int, v: Option<usize>)
    requires
        lo <= hi,
    ensures
        count_fixed(fixed, lo, hi, v) <= hi - lo,
    decreases hi - lo,
{
    if hi > lo {
        lemma_count_fixed_bound(fixed, lo, hi - 1, v);
    }
}

pub proof fn lemma_count_fixed_sum(fixed: Seq<Option<usize>>, lo: int, hi: int)
    requires
        lo <= hi,
        forall|t: int| lo <= t < hi ==> (#[trigger] fixed[t]) is None || fixed[t] == Some(ID_Z) || fixed[t] == Some(ID_ZBAR),
    ensures
        count_fixed(fixed, lo, hi, Some(ID_Z)) + count_fixed(fixed, lo, hi, Some(ID_ZBAR)) + count_fixed(fixed, lo, hi, None)
            == hi - lo,
    decreases hi - lo,
{
    if hi > lo {
        lemma_count_fixed_sum(fixed, lo, hi - 1);
    }
}

/// The counts around the special position: fixed `z` and `zbar` letters after
/// it, free positions before it, and free positions after it.
pub fn fixed_counts(fixed: &[Option<usize>], special_pos: usize, n: usize) -> (r: Result<(usize, usize, usize, usize), ExperimentError>)
    requires
        special_pos < n,
        n <= fixed@.len(),
    ensures
        r is Err <==> exists|t: int|
            0 <= t < n && t != special_pos && (#[trigger] fixed@[t] matches Some(id) && id != ID_Z && id != ID_ZBAR),
        r matches Ok(c) ==> c.0 == count_fixed(fixed@, special_pos + 1, n as int, Some(ID_Z)) && c.1 == count_fixed(
            fixed@,
            special_pos + 1,
            n as int,
            Some(ID_ZBAR),
        ) && c.2 == count_fixed(fixed@, 0, special_pos as int, None) && c.3 == (n - special_pos - 1) - c.0 - c.1,
{
    let mut fixed_z: usize = 0;
    let mut fixed_zbar: usize = 0;
    let mut free_prefix: usize = 0;
    let mut t: usize = 0;
    while t < special_pos
        invariant
            special_pos < n,
            n <= fixed@.len(),
            t <= special_pos,
            free_prefix == count_fixed(fixed@, 0, t as int, None),
            free_prefix <= t,
            forall|q: int| 0 <= q < t ==> !(#[trigger] fixed@[q] matches Some(id) && id != ID_Z && id != ID_ZBAR),
        decreases special_pos - t,
    {
        match fixed[t] {
            Some(id) => {
                if id != ID_Z && id != ID_ZBAR {
                    return Err(ExperimentError::InvalidConfig(
                        "special letter in prefix outside special position".to_string(),
                    ));
                }
            },
            None => {
                free_prefix += 1;
            },
        }
        t += 1;
    }
    let mut t: usize = special_pos + 1;
    while t < n
        invariant
            special_pos < n,
            n <= fixed@.len(),
            special_pos + 1 <= t <= n,
            free_prefix == count_fixed(fixed@, 0, special_pos as int, None),
            fixed_z == count_fixed(fixed@, special_pos + 1, t as int, Some(ID_Z)),
            fixed_zbar == count_fixed(fixed@, special_pos + 1, t as int, Some(ID_ZBAR)),
            fixed_z + fixed_zbar <= t - special_pos - 1,
            forall|q: int| 0 <= q < special_pos ==> !(#[trigger] fixed@[q] matches Some(id) && id != ID_Z && id != ID_ZBAR),
            forall|q: int| special_pos < q < t ==> !(#[trigger] fixed@[q] matches Some(id) && id != ID_Z && id != ID_ZBAR),
        decreases n - t,
    {
        match fixed[t] {
            Some(id) => {
                if id == ID_Z {
                    fixed_z += 1;
                } else if id == ID_ZBAR {
                    fixed_zbar += 1;
                } else {
                    return Err(ExperimentError::InvalidConfig(
                        "special letter in suffix outside special position".to_string(),
                    ));
                }
            },
            None => {},
        }
        t += 1;
    }
    let m = n - special_pos - 1;
    let fixed_total = fixed_z + fixed_zbar;
    if fixed_total > m {
        return Err(ExperimentError::InvalidConfig("fixed suffix count exceeds suffix length".to_string()));
    }
    Ok((fixed_z, fixed_zbar, free_prefix, m - fixed_total))
}


/// The number of letters of the ladder alphabet.
pub const NUM_LETTERS: usize = 4;

/// The letter fixed at `pos` of a word of length `n` by a prefix and a suffix.
pub open spec fn fixed_at(prefix: Seq<usize>, suffix: Seq<usize>, n: int, pos: int) -> Option<usize> {
    if 0 <= pos < prefix.len() {
        Some(prefix[pos])
    } else if n - suffix.len() <= pos < n {
        Some(suffix[pos - (n - suffix.len())])
    } else {
        None
    }
}

/// The letters fixed by a prefix and a suffix in a word of length `n`.
pub open spec fn fixed_seq(prefix: Seq<usize>, suffix: Seq<usize>, n: int) -> Seq<Option<usize>> {
    Seq::new(n as nat, |pos: int| fixed_at(prefix, suffix, n, pos))
}

/// The prefix and the suffix overlap with different letters.
pub open spec fn overlap_conflict(prefix: Seq<usize>, suffix: Seq<usize>, n: int) -> bool {
    exists|pos: int| 0 <= pos < prefix.len() && n - suffix.len() <= pos && #[trigger] prefix[pos] != suffix[pos - (n - suffix.len())]
}

/// The signed count of one suffix case: `sign * 2^free_prefix *
/// C(free_suffix, zr - fixed_z)` when `zr` letters `z` fit the suffix.
pub open spec fn case_count(zr: int, sign: int, m: int, fixed_z: int, free_suffix: int, free_prefix: int) -> int {
    if zr < 0 || zr > m || zr < fixed_z || zr - fixed_z > free_suffix {
        0
    } else {
        sign * pow(2, free_prefix as nat) * binom(free_suffix as nat, (zr - fixed_z) as nat)
    }
}

/// The signed count of the ladder words with the special letter `special` at
/// position `p` that agree with the fixed letters.
pub open spec fn position_count(loop_value: int, n: int, f: Seq<Option<usize>>, special: usize, p: int) -> int {
    if p >= n || (f[p] matches Some(id) && id != special) || special_conflict(f, p) {
        0
    } else {
        let m = n - p - 1;
        let fz = count_fixed(f, p + 1, n, Some(ID_Z)) as int;
        let fzb = count_fixed(f, p + 1, n, Some(ID_ZBAR)) as int;
        let fp = count_fixed(f, 0, p, None) as int;
        let fs = m - fz - fzb;
        let (z1, s1, z2, s2) = z_cases_spec(loop_value, m, special);
        case_count(z1, s1, m, fz, fs, fp) + case_count(z2, s2, m, fz, fs, fp)
    }
}

/// The counts of the positions `0..upto` of the special letter.
pub open spec fn special_count(loop_value: int, n: int, f: Seq<Option<usize>>, special: usize, upto: int) -> int
    decreases upto,
{
    if upto <= 0 {
        0
    } else {
        special_count(loop_value, n, f, special, upto - 1) + position_count(loop_value, n, f, special, upto - 1)
    }
}

/// The closed-form marginal count: the signed number of ladder words of loop
/// order `L` (length `2L`) that start with `prefix` and end with `suffix`.
pub open spec fn marginal_count_spec(loop_value: int, prefix: Seq<usize>, suffix: Seq<usize>) -> int {
    let n = 2 * loop_value;
    if overlap_conflict(prefix, suffix, n) {
        0
    } else {
        let f = fixed_seq(prefix, suffix, n);
        special_count(loop_value, n, f, ID_ONE_MINUS_Z, loop_value + 1) + special_count(
            loop_value,
            n,
            f,
            ID_ONE_MINUS_ZBAR,
            loop_value + 1,
        )
    }
}

/// The inputs a marginal count refuses: a prefix and suffix longer than the
/// word, or a letter id outside the alphabet.
pub open spec fn marginal_input_bad(loop_value: int, prefix: Seq<usize>, suffix: Seq<usize>) -> bool {
    prefix.len() + suffix.len() > 2 * loop_value || (exists|i: int| 0 <= i < prefix.len() && #[trigger] prefix[i] >= NUM_LETTERS)
        || (exists|i: int| 0 <= i < suffix.len() && #[trigger] suffix[i] >= NUM_LETTERS)
}

/// `C(n, k) <= 2^n`.
proof fn lemma_binom_le_pow2(n: nat, k: nat)
    ensures
        binom(n, k) <= pow(2, n),
    decreases n,
{
    lemma_pow_nonneg(2, n);
    if k > n || k == 0 || k == n {
    } else {
        lemma_binom_le_pow2((n - 1) as nat, (k - 1) as nat);
        lemma_binom_le_pow2((n - 1) as nat, k);
        assert(pow(2, n) == 2 * pow(2, (n - 1) as nat));
    }
}

/// The powers of two that bound the counts of words of loop order at most
/// [`SMALL_LOOP`].
proof fn lemma_small_loop_bounds()
    ensures
        pow(2, 38) * pow(2, 75) == pow(2, 113),
        pow(2, 114) == 2 * pow(2, 113),
        128 * pow(2, 75) <= pow(2, 126),
        128 * pow(2, 114) <= pow(2, 126),
        pow(2, 126) == 85070591730234615865843651857942052864int,
        pow(2, 75) >= 1,
        pow(2, 113) >= 1,
{
    lemma_pow_nonneg(2, 113);
    lemma_pow2_values();
    assert(pow(2, 7) == 128) by {
        reveal_with_fuel(pow, 8);
    }
    crate::modular::lemma_pow_add(2, 38, 75);
    crate::modular::lemma_pow_add(2, 113, 1);
    assert(pow(2, 1) == 2) by {
        reveal_with_fuel(pow, 2);
    }
    crate::modular::lemma_pow_add(2, 7, 75);
    crate::modular::lemma_pow_add(2, 7, 114);
    lemma_pow_monotone(2, 82, 126);
    lemma_pow_monotone(2, 121, 126);
    lemma_pow_nonneg(2, 75);
}

/// For `n <= 75` no step of the product formula for `C(n, k)` leaves `u128`,
/// and `C(n, k) <= 2^75`.
proof fn lemma_binom_small(n: nat, k: nat)
    requires
        n <= 75,
        k <= n,
    ensures
        !binom_step_overflows(n, k),
        binom(n, k) <= pow(2, 75),
{
    lemma_small_loop_bounds();
    lemma_binom_le_pow2(n, k);
    lemma_pow_monotone(2, n, 75);
    let j = low_side(n, k);
    assert forall|i: nat| 1 <= i <= j implies !(#[trigger] (i * binom((n - j + i) as nat, i)) > u128::MAX) by {
        let b = binom((n - j + i) as nat, i);
        lemma_binom_le_pow2((n - j + i) as nat, i);
        lemma_pow_monotone(2, (n - j + i) as nat, 75);
        assert(i * b <= 128 * pow(2, 75)) by (nonlinear_arith)
            requires
                i <= 75,
                0 <= b <= pow(2, 75),
        ;
    }
}

/// The loop orders for which every marginal count is computed without
/// leaving `i128`.
pub const SMALL_LOOP: usize = 38;

/// The signed count of one position of the special letter.
fn position_count_exec(loop_value: usize, n: usize, fixed: &Vec<Option<usize>>, special: usize, p: usize) -> (r: Result<i128, ExperimentError>)
    requires
        n == 2 * loop_value,
        loop_value <= 0x3fff_ffff_ffff_ffff,
        fixed@.len() == n,
        p <= loop_value,
        forall|t: int| 0 <= t < n ==> (#[trigger] fixed@[t] matches Some(id) ==> id < NUM_LETTERS),
    ensures
        r matches Ok(v) ==> v == position_count(loop_value as int, n as int, fixed@, special, p as int),
        loop_value <= SMALL_LOOP ==> (r matches Ok(v) && -pow(2, 114) <= v <= pow(2, 114)),
{
    proof {
        lemma_small_loop_bounds();
    }
    if p >= n {
        return Ok(0);
    }
    match fixed[p] {
        Some(id) => {
            if id != special {
                return Ok(0);
            }
        },
        None => {},
    }
    if fixed_special_conflict(fixed.as_slice(), p) {
        return Ok(0);
    }
    let m = n - p - 1;
    proof {
        if exists|t: int| 0 <= t < n && t != p && (#[trigger] fixed@[t] matches Some(id) && id != ID_Z && id != ID_ZBAR) {
            let t = choose|t: int| 0 <= t < n && t != p && (#[trigger] fixed@[t] matches Some(id) && id != ID_Z && id != ID_ZBAR);
            assert(fixed@[t] matches Some(id) && id >= ID_ONE_MINUS_Z);
            assert(special_conflict(fixed@, p as int));
        }
    }
    let (fixed_z, _fixed_zbar, free_prefix, free_suffix) = fixed_counts(fixed.as_slice(), p, n)?;
    proof {
        lemma_count_fixed_bound(fixed@, 0, p as int, None);
        if loop_value <= SMALL_LOOP {
            lemma_pow_monotone(2, free_prefix as nat, 38);
        }
        lemma_pow_nonneg(2, free_prefix as nat);
    }
    let ways_prefix = pow2_i128(free_prefix)?;
    let cases = z_count_cases(loop_value, m, special);
    let mut total: i128 = 0;
    let ghost fz = fixed_z as int;
    let ghost fs = free_suffix as int;
    let ghost fp = free_prefix as int;
    let mut c: usize = 0;
    while c < 2
        invariant
            c <= 2,
            ways_prefix == pow(2, fp as nat),
            fz == fixed_z,
            fs == free_suffix,
            fp == free_prefix,
            total == (if c >= 1 {
                case_count(cases[0].z_required as int, cases[0].sign as int, m as int, fz, fs, fp)
            } else {
                0
            }) + (if c >= 2 {
                case_count(cases[1].z_required as int, cases[1].sign as int, m as int, fz, fs, fp)
            } else {
                0
            }),
            cases[0].sign == 1 || cases[0].sign == -1,
            cases[1].sign == 1 || cases[1].sign == -1,
            free_suffix <= m,
            m == n - p - 1,
            n == 2 * loop_value,
            p <= loop_value,
            pow(2, 38) * pow(2, 75) == pow(2, 113),
            pow(2, 114) == 2 * pow(2, 113),
            128 * pow(2, 114) <= pow(2, 126),
            pow(2, 126) == 85070591730234615865843651857942052864int,
            loop_value <= SMALL_LOOP ==> 0 <= ways_prefix <= pow(2, 38),
            pow(2, 113) >= 1,
            128 * pow(2, 75) <= pow(2, 126),
            loop_value <= SMALL_LOOP && c == 0 ==> total == 0,
            loop_value <= SMALL_LOOP && c == 1 ==> -pow(2, 113) <= total <= pow(2, 113),
            loop_value <= SMALL_LOOP && c == 2 ==> -pow(2, 114) <= total <= pow(2, 114),
        decreases 2 - c,
    {
        let case = cases[c];
        let ghost before = total;
        if case.z_required >= 0 && (case.z_required as i128) <= (m as i128) {
            let z_required = case.z_required as usize;
            if z_required >= fixed_z {
                let needed_z = z_required - fixed_z;
                if needed_z <= free_suffix {
                    proof {
                        if loop_value <= SMALL_LOOP {
                            lemma_binom_small(free_suffix as nat, needed_z as nat);
                            assert(!binom_step_overflows(free_suffix as nat, needed_z as nat));
                            assert(binom(free_suffix as nat, needed_z as nat) <= i128::MAX);
                        }
                    }
                    let ways_suffix = binom_i128(free_suffix, needed_z)?;
                    proof {
                        if loop_value <= SMALL_LOOP {
                            assert(0 <= ways_prefix * ways_suffix <= pow(2, 113)) by (nonlinear_arith)
                                requires
                                    0 <= ways_prefix <= pow(2, 38),
                                    0 <= ways_suffix <= pow(2, 75),
                                    pow(2, 38) * pow(2, 75) == pow(2, 113),
                            ;
                        }
                    }
                    let prod = match ways_prefix.checked_mul(ways_suffix) {
                        Some(v) => v,
                        None => {
                            return Err(ExperimentError::InvalidConfig("marginal count overflow".to_string()));
                        },
                    };
                    let signed = if case.sign == 1 {
                        prod
                    } else {
                        proof {
                            lemma_pow_nonneg(2, fp as nat);
                            assert(prod >= 0) by (nonlinear_arith)
                                requires
                                    prod == ways_prefix * ways_suffix,
                                    ways_prefix >= 0,
                                    ways_suffix >= 0,
                            ;
                        }
                        -prod
                    };
                    proof {
                        assert(signed == case.sign * pow(2, fp as nat) * binom(fs as nat, (case.z_required - fz) as nat)) by (nonlinear_arith)
                            requires
                                case.sign == 1 || case.sign == -1,
                                case.sign == 1 ==> signed == prod,
                                case.sign == -1 ==> signed == -prod,
                                prod == ways_prefix * ways_suffix,
                                ways_prefix == pow(2, fp as nat),
                                ways_suffix == binom(fs as nat, (case.z_required - fz) as nat),
                        ;
                    }
                    total = match total.checked_add(signed) {
                        Some(v) => v,
                        None => {
                            return Err(ExperimentError::InvalidConfig("marginal count overflow".to_string()));
                        },
                    };
                }
            }
        }
        c += 1;
    }
    proof {
        let (z1, s1, z2, s2) = z_cases_spec(loop_value as int, m as int, special);
        assert(z1 == cases[0].z_required && s1 == cases[0].sign && z2 == cases[1].z_required && s2 == cases[1].sign);
    }
    Ok(total)
}

/// The counts of all positions `0..=L` of one special letter.
fn special_count_exec(loop_value: usize, n: usize, fixed: &Vec<Option<usize>>, special: usize) -> (r: Result<i128, ExperimentError>)
    requires
        n == 2 * loop_value,
        loop_value <= 0x3fff_ffff_ffff_ffff,
        fixed@.len() == n,
        forall|t: int| 0 <= t < n ==> (#[trigger] fixed@[t] matches Some(id) ==> id < NUM_LETTERS),
    ensures
        r matches Ok(v) ==> v == special_count(loop_value as int, n as int, fixed@, special, loop_value + 1),
        loop_value <= SMALL_LOOP ==> (r matches Ok(v) && -64 * pow(2, 114) <= v <= 64 * pow(2, 114)),
{
    proof {
        lemma_small_loop_bounds();
    }
    let mut total: i128 = 0;
    let mut p: usize = 0;
    while p <= loop_value
        invariant
            n == 2 * loop_value,
            loop_value <= 0x3fff_ffff_ffff_ffff,
            fixed@.len() == n,
            forall|t: int| 0 <= t < n ==> (#[trigger] fixed@[t] matches Some(id) ==> id < NUM_LETTERS),
            p <= loop_value + 1,
            total == special_count(loop_value as int, n as int, fixed@, special, p as int),
            pow(2, 113) >= 1,
            pow(2, 114) == 2 * pow(2, 113),
            128 * pow(2, 114) <= pow(2, 126),
            pow(2, 126) == 85070591730234615865843651857942052864int,
            loop_value <= SMALL_LOOP ==> -((p as int) * pow(2, 114)) <= total <= (p as int) * pow(2, 114),
        decreases loop_value + 1 - p,
    {
        let v = position_count_exec(loop_value, n, fixed, special, p)?;
        proof {
            if loop_value <= SMALL_LOOP {
                let b = pow(2, 114);
                assert(((p + 1) as int) * b == (p as int) * b + b) by (nonlinear_arith);
                assert((p as int) * b <= 39 * b) by (nonlinear_arith)
                    requires
                        p <= 39,
                        b >= 0,
                ;
            }
        }
        total = match total.checked_add(v) {
            Some(t) => t,
            None => {
                return Err(ExperimentError::InvalidConfig("marginal count overflow".to_string()));
            },
        };
        p += 1;
    }
    proof {
        if loop_value <= SMALL_LOOP {
            let b = pow(2, 114);
            assert((p as int) * b <= 64 * b) by (nonlinear_arith)
                requires
                    p <= 39,
                    b >= 0,
            ;
        }
    }
    Ok(total)
}

/// The closed-form marginal count of the ladder words of loop order `L` with
/// the given prefix and suffix letter ids, in `i128`; an error for a prefix
/// and suffix longer than the word, an id outside the alphabet, or overflow.
pub fn ladder_marginal_count_i128(loop_value: usize, prefix: &[usize], suffix: &[usize]) -> (r: Result<i128, ExperimentError>)
    requires
        loop_value <= 0x3fff_ffff_ffff_ffff,
        prefix@.len() + suffix@.len() <= usize::MAX,
    ensures
        marginal_input_bad(loop_value as int, prefix@, suffix@) ==> r is Err,
        r matches Ok(v) ==> v == marginal_count_spec(loop_value as int, prefix@, suffix@),
        loop_value <= SMALL_LOOP && !marginal_input_bad(loop_value as int, prefix@, suffix@) ==> r is Ok,
{
    let n = match loop_value.checked_mul(2) {
        Some(v) => v,
        None => {
            return Err(ExperimentError::InvalidConfig("loop * 2 overflow".to_string()));
        },
    };
    if prefix.len() + suffix.len() > n {
        return Err(ExperimentError::InvalidConfig("prefix+suffix length exceeds word length".to_string()));
    }
    let mut i: usize = 0;
    while i < prefix.len()
        invariant
            i <= prefix@.len(),
            forall|t: int| 0 <= t < i ==> #[trigger] prefix@[t] < NUM_LETTERS,
        decreases prefix@.len() - i,
    {
        if prefix[i] >= NUM_LETTERS {
            return Err(ExperimentError::InvalidConfig("letter id out of range".to_string()));
        }
        i += 1;
    }
    let mut i: usize = 0;
    while i < suffix.len()
        invariant
            i <= suffix@.len(),
            forall|t: int| 0 <= t < i ==> #[trigger] suffix@[t] < NUM_LETTERS,
        decreases suffix@.len() - i,
    {
        if suffix[i] >= NUM_LETTERS {
            return Err(ExperimentError::InvalidConfig("letter id out of range".to_string()));
        }
        i += 1;
    }
    let ghost f = fixed_seq(prefix@, suffix@, n as int);
    let mut fixed: Vec<Option<usize>> = Vec::with_capacity(n);
    let mut pos: usize = 0;
    while pos < n
        invariant
            n == 2 * loop_value,
            prefix@.len() + suffix@.len() <= n,
            pos <= n,
            fixed@.len() == pos,
            f == fixed_seq(prefix@, suffix@, n as int),
            forall|t: int| 0 <= t < pos ==> #[trigger] fixed@[t] == f[t],
        decreases n - pos,
    {
        if pos < prefix.len() {
            fixed.push(Some(prefix[pos]));
        } else if pos >= n - suffix.len() {
            fixed.push(Some(suffix[pos - (n - suffix.len())]));
        } else {
            fixed.push(None);
        }
        pos += 1;
    }
    let start = n - suffix.len();
    let mut q: usize = start;
    while q < n
        invariant
            n == 2 * loop_value,
            prefix@.len() + suffix@.len() <= n,
            start == n - suffix@.len(),
            start <= q <= n,
            forall|t: int| start <= t < q && t < prefix@.len() ==> #[trigger] prefix@[t] == suffix@[t - start],
        decreases n - q,
    {
        if q < prefix.len() && prefix[q] != suffix[q - start] {
            proof {
                assert(prefix@[q as int] != suffix@[q - (n - suffix@.len())]);
            }
            return Ok(0);
        }
        q += 1;
    }
    proof {
        assert(!overlap_conflict(prefix@, suffix@, n as int));
        assert(fixed@ =~= f);
        assert forall|t: int| 0 <= t < n implies (#[trigger] fixed@[t] matches Some(id) ==> id < NUM_LETTERS) by {
            assert(fixed@[t] == f[t]);
        }
    }
    proof {
        lemma_small_loop_bounds();
    }
    let a = special_count_exec(loop_value, n, &fixed, ID_ONE_MINUS_Z)?;
    let b = special_count_exec(loop_value, n, &fixed, ID_ONE_MINUS_ZBAR)?;
    match a.checked_add(b) {
        Some(total) => Ok(total),
        None => Err(ExperimentError::InvalidConfig("marginal count overflow".to_string())),
    }
}


/// A marginal count that [`ladder_marginal_count`] computes: a positive loop
/// order of at most [`SMALL_LOOP`], inputs it accepts, and a count in `i64`.
pub open spec fn marginal_count_ok(loop_value: int, prefix: Seq<usize>, suffix: Seq<usize>) -> bool {
    &&& 1 <= loop_value <= SMALL_LOOP
    &&& !marginal_input_bad(loop_value, prefix, suffix)
    &&& i64::MIN <= marginal_count_spec(loop_value, prefix, suffix) <= i64::MAX
}

/// The marginal count as a coefficient; an error for loop order 0, for the
/// inputs [`ladder_marginal_count_i128`] refuses, or when it leaves `i64`.
pub fn ladder_marginal_count(loop_value: usize, prefix: &[usize], suffix: &[usize]) -> (r: Result<Rational, ExperimentError>)
    requires
        loop_value <= 0x3fff_ffff_ffff_ffff,
        prefix@.len() + suffix@.len() <= usize::MAX,
    ensures
        loop_value == 0 ==> r is Err,
        marginal_input_bad(loop_value as int, prefix@, suffix@) ==> r is Err,
        r matches Ok(c) ==> c.denom == 1 && c.numer == marginal_count_spec(loop_value as int, prefix@, suffix@),
        loop_value <= SMALL_LOOP ==> (r is Ok <==> marginal_count_ok(loop_value as int, prefix@, suffix@)),
{
    if loop_value == 0 {
        return Err(ExperimentError::InvalidConfig("loop must be >= 1".to_string()));
    }
    let count = ladder_marginal_count_i128(loop_value, prefix, suffix)?;
    if count > i64::MAX as i128 || count < i64::MIN as i128 {
        return Err(ExperimentError::InvalidConfig("coefficient overflow (i64)".to_string()));
    }
    Ok(Rational { numer: count as i64, denom: 1 })
}

/// The number of terms of the ladder symbol of loop order `L`:
/// `sum_{p=0}^{L} 2 * 2^p * (C(2L-p-1, L) + C(2L-p-1, L-1))`.
pub open spec fn term_count_upto(loop_value: nat, upto: nat) -> int
    decreases upto,
{
    if upto == 0 {
        0
    } else {
        let p = (upto - 1) as nat;
        let m = (2 * loop_value - p - 1) as nat;
        term_count_upto(loop_value, p) + 2 * pow(2, p) * (binom(m, loop_value) + binom(m, (loop_value - 1) as nat))
    }
}

/// The exact number of terms of the ladder symbol of loop order `L`, or an
/// error for `L = 0` or when a step leaves `u128` or the total leaves `u64`.
pub fn count_terms_exact(loop_value: usize) -> (r: Result<u64, ExperimentError>)
    ensures
        loop_value == 0 ==> r is Err,
        r matches Ok(v) ==> v == term_count_upto(loop_value as nat, (loop_value + 1) as nat),
        1 <= loop_value <= SMALL_LOOP ==> (r is Ok <==> term_count_upto(loop_value as nat, (loop_value + 1) as nat) <= u64::MAX),
{
    if loop_value == 0 {
        return Err(ExperimentError::InvalidConfig("term count overflow".to_string()));
    }
    let n = match loop_value.checked_mul(2) {
        Some(v) => v,
        None => {
            return Err(ExperimentError::InvalidConfig("term count overflow".to_string()));
        },
    };
    let mut total: u128 = 0;
    let mut prefix: u128 = 1;
    let mut p: usize = 0;
    proof {
        lemma_pow2_values();
        crate::modular::lemma_pow_add(2, 126, 1);
        assert(pow(2, 1) == 2);
        lemma_small_loop_bounds();
        crate::modular::lemma_pow_add(2, 114, 1);
    }
    while p <= loop_value
        invariant
            loop_value >= 1,
            n == 2 * loop_value,
            p <= loop_value + 1,
            p <= 128,
            p <= 127 ==> prefix == pow(2, p as nat),
            pow(2, 127) == 170141183460469231731687303715884105728int,
            total == term_count_upto(loop_value as nat, p as nat),
            pow(2, 38) * pow(2, 75) == pow(2, 113),
            pow(2, 114) == 2 * pow(2, 113),
            pow(2, 115) == pow(2, 114) * 2,
            128 * pow(2, 114) <= pow(2, 126),
            pow(2, 126) == 85070591730234615865843651857942052864int,
            pow(2, 113) >= 1,
            128 * pow(2, 75) <= pow(2, 126),
            loop_value <= SMALL_LOOP ==> total <= (p as int) * pow(2, 115),
        decreases loop_value + 1 - p,
    {
        if p > 127 {
            return Err(ExperimentError::InvalidConfig("prefix count overflow".to_string()));
        }
        let m = n - p - 1;
        proof {
            if loop_value <= SMALL_LOOP {
                if loop_value <= m {
                    lemma_binom_small(m as nat, loop_value as nat);
                }
                lemma_binom_small(m as nat, (loop_value - 1) as nat);
                lemma_pow_monotone(2, p as nat, 38);
                lemma_pow_nonneg(2, p as nat);
            }
        }
        let count_l = binom_u128(m, loop_value)?;
        let count_lm1 = binom_u128(m, loop_value - 1)?;
        proof {
            if loop_value <= SMALL_LOOP {
                let b = pow(2, 115);
                assert(0 <= (count_l + count_lm1) * prefix * 2 <= b) by (nonlinear_arith)
                    requires
                        0 <= count_l <= pow(2, 75),
                        0 <= count_lm1 <= pow(2, 75),
                        0 <= prefix <= pow(2, 38),
                        pow(2, 38) * pow(2, 75) == pow(2, 113),
                        b == 4 * pow(2, 113),
                ;
                assert(((p + 1) as int) * b == (p as int) * b + b) by (nonlinear_arith);
                assert(((p + 1) as int) * b <= 64 * b) by (nonlinear_arith)
                    requires
                        p <= 38,
                        b >= 0,
                ;
            }
        }
        let sum = match count_l.checked_add(count_lm1) {
            Some(v) => v,
            None => {
                return Err(ExperimentError::InvalidConfig("term count overflow".to_string()));
            },
        };
        let add = match sum.checked_mul(prefix) {
            Some(v) => match v.checked_mul(2) {
                Some(w) => w,
                None => {
                    return Err(ExperimentError::InvalidConfig("term count overflow".to_string()));
                },
            },
            None => {
                return Err(ExperimentError::InvalidConfig("term count overflow".to_string()));
            },
        };
        proof {
            assert(add == 2 * pow(2, p as nat) * (binom(m as nat, loop_value as nat) + binom(m as nat, (loop_value - 1) as nat))) by (nonlinear_arith)
                requires
                    add == (sum * prefix) * 2,
                    sum == count_l + count_lm1,
                    prefix == pow(2, p as nat),
                    count_l == binom(m as nat, loop_value as nat),
                    count_lm1 == binom(m as nat, (loop_value - 1) as nat),
            ;
        }
        total = match total.checked_add(add) {
            Some(v) => v,
            None => {
                return Err(ExperimentError::InvalidConfig("term count overflow".to_string()));
            },
        };
        if p < 127 {
            proof {
                assert(pow(2, (p + 1) as nat) == 2 * pow(2, p as nat));
                lemma_pow_monotone(2, (p + 1) as nat, 127);
                lemma_pow_nonneg(2, p as nat);
            }
            prefix = prefix + prefix;
        }
        p += 1;
    }
    if total > u64::MAX as u128 {
        return Err(ExperimentError::InvalidConfig("term count overflow".to_string()));
    }
    Ok(total as u64)
}

/// The names of the ladder letters.
pub open spec fn letter_name(id: usize) -> Seq<char> {
    if id == ID_Z {
        "z"@
    } else if id == ID_ZBAR {
        "zbar"@
    } else if id == ID_ONE_MINUS_Z {
        "1-z"@
    } else {
        "1-zbar"@
    }
}

/// The name of one letter id.
pub fn letter_name_of(id: usize) -> (r: String)
    requires
        id < NUM_LETTERS,
    ensures
        r@ == letter_name(id),
{
    if id == ID_Z {
        String::from_str("z")
    } else if id == ID_ZBAR {
        String::from_str("zbar")
    } else if id == ID_ONE_MINUS_Z {
        String::from_str("1-z")
    } else {
        String::from_str("1-zbar")
    }
}

/// The names of a word of letter ids.
pub fn ids_to_names(ids: &[usize]) -> (r: Vec<String>)
    requires
        forall|i: int| 0 <= i < ids@.len() ==> #[trigger] ids@[i] < NUM_LETTERS,
    ensures
        r@.len() == ids@.len(),
        forall|i: int| 0 <= i < ids@.len() ==> (#[trigger] r@[i])@ == letter_name(ids@[i]),
{
    let mut out: Vec<String> = Vec::with_capacity(ids.len());
    let mut i: usize = 0;
    while i < ids.len()
        invariant
            forall|t: int| 0 <= t < ids@.len() ==> #[trigger] ids@[t] < NUM_LETTERS,
            i <= ids@.len(),
            out@.len() == i,
            forall|t: int| 0 <= t < i ==> (#[trigger] out@[t])@ == letter_name(ids@[t]),
        decreases ids@.len() - i,
    {
        out.push(letter_name_of(ids[i]));
        i += 1;
    }
    out
}

/// The family of marginals a ladder run computes.
#[derive(Clone, Copy, Debug, PartialEq, Eq, Structural)]
pub enum LadderFamily {
    Prefix,
    Suffix,
    PrefixSuffix,
}

/// The name of a ladder family.
pub open spec fn ladder_family_name(f: LadderFamily) -> Seq<char> {
    match f {
        LadderFamily::Prefix => "prefix"@,
        LadderFamily::Suffix => "suffix"@,
        LadderFamily::PrefixSuffix => "prefix-suffix"@,
    }
}

impl LadderFamily {
    pub fn as_str(self) -> (r: &'static str)
        ensures
            r@ == ladder_family_name(self),
    {
        match self {
            Self::Prefix => "prefix",
            Self::Suffix => "suffix",
            Self::PrefixSuffix => "prefix-suffix",
        }
    }

    /// The family with the given name.
    pub fn parse(value: &str) -> (r: Option<LadderFamily>)
        ensures
            r matches Some(f) ==> ladder_family_name(f) == value@,
            r is None ==> forall|f: LadderFamily| ladder_family_name(f) != value@,
    {
        if str_eq(value, "prefix") {
            Some(Self::Prefix)
        } else if str_eq(value, "suffix") {
            Some(Self::Suffix)
        } else if str_eq(value, "prefix-suffix") {
            Some(Self::PrefixSuffix)
        } else {
            proof {
                assert forall|f: LadderFamily| ladder_family_name(f) != value@ by {
                    match f {
                        LadderFamily::Prefix => {},
                        LadderFamily::Suffix => {},
                        LadderFamily::PrefixSuffix => {},
                    }
                }
            }
            None
        }
    }
}

/// What a ladder run generates.
#[derive(Clone, Debug)]
pub struct LadderGenConfig {
    pub out_dir: String,
    pub loops: Vec<usize>,
    pub prefix_len: usize,
    pub suffix_len: usize,
    pub family: LadderFamily,
    pub emit_jsonl: bool,
    pub max_terms: u64,
    pub data_dir: Option<String>,
    pub validate: bool,
    pub matrix_rank: bool,
    pub reference_bruteforce_max_loop: usize,
}

/// The largest number of terms a generated symbol file may hold by default.
pub const DEFAULT_MAX_TERMS: u64 = 5000000;

/// The largest loop order checked against brute force by default.
pub const DEFAULT_REF_LOOP: usize = 5;

impl Default for LadderGenConfig {
    fn default() -> (r: Self)
        ensures
            r.out_dir@.len() == 0,
            r.loops@.len() == 0,
            r.prefix_len == 2,
            r.suffix_len == 2,
            r.family == LadderFamily::PrefixSuffix,
            !r.emit_jsonl,
            r.max_terms == DEFAULT_MAX_TERMS,
            r.data_dir is None,
            r.validate,
            !r.matrix_rank,
            r.reference_bruteforce_max_loop == DEFAULT_REF_LOOP,
    {
        LadderGenConfig {
            out_dir: String::new(),
            loops: Vec::new(),
            prefix_len: 2,
            suffix_len: 2,
            family: LadderFamily::PrefixSuffix,
            emit_jsonl: false,
            max_terms: DEFAULT_MAX_TERMS,
            data_dir: None,
            validate: true,
            matrix_rank: false,
            reference_bruteforce_max_loop: DEFAULT_REF_LOOP,
        }
    }
}

/// What a ladder run wrote.
#[derive(Clone, Debug)]
pub struct LadderGenReport {
    pub out_dir: String,
    pub loops: Vec<usize>,
    pub data_dir: Option<String>,
    pub wrote_jsonl: bool,
}


/// The `i`-th word of length `len` over `base` letters, as letter ids, in
/// lexicographic order.
pub open spec fn word_ids(i: int, len: nat, base: int) -> Seq<usize> {
    word_at(i, len, base).map_values(|d: u8| d as usize)
}

/// All words of length `len` over `base` letters, in lexicographic order.
pub fn enumerate_words(base: usize, len: usize) -> (r: Vec<Vec<usize>>)
    requires
        base <= 256,
        pow(base as int, len as nat) <= usize::MAX,
    ensures
        len == 0 ==> r@.len() == 1 && r@[0]@.len() == 0,
        len > 0 ==> r@.len() == pow(base as int, len as nat),
        len > 0 ==> forall|i: int| 0 <= i < r@.len() ==> (#[trigger] r@[i])@ == word_ids(i, len as nat, base as int),
{
    if len == 0 {
        let mut out: Vec<Vec<usize>> = Vec::new();
        out.push(Vec::new());
        return out;
    }
    if base == 0 {
        proof {
            assert(pow(0, len as nat) == 0 * pow(0, (len - 1) as nat));
        }
        return Vec::new();
    }
    let total = pow_usize(base, len);
    let mut out: Vec<Vec<usize>> = Vec::with_capacity(total);
    let mut idx: usize = 0;
    while idx < total
        invariant
            1 <= base <= 256,
            total == pow(base as int, len as nat),
            idx <= total,
            out@.len() == idx,
            forall|i: int| 0 <= i < idx ==> (#[trigger] out@[i])@ == word_ids(i, len as nat, base as int),
        decreases total - idx,
    {
        let digits = word_from_index(idx, len, base);
        let mut word: Vec<usize> = Vec::with_capacity(len);
        let mut t: usize = 0;
        while t < digits.len()
            invariant
                t <= digits@.len(),
                word@.len() == t,
                forall|q: int| 0 <= q < t ==> #[trigger] word@[q] == digits@[q] as usize,
            decreases digits@.len() - t,
        {
            word.push(digits[t] as usize);
            t += 1;
        }
        proof {
            assert(word@ =~= word_ids(idx as int, len as nat, base as int));
        }
        out.push(word);
        idx += 1;
    }
    out
}

/// `base^len` when it fits in `usize`.
fn pow_usize(base: usize, len: usize) -> (r: usize)
    requires
        base >= 1,
        pow(base as int, len as nat) <= usize::MAX,
    ensures
        r == pow(base as int, len as nat),
{
    let mut v: usize = 1;
    let mut i: usize = 0;
    while i < len
        invariant
            base >= 1,
            pow(base as int, len as nat) <= usize::MAX,
            i <= len,
            v == pow(base as int, i as nat),
        decreases len - i,
    {
        proof {
            assert(pow(base as int, (i + 1) as nat) == base * pow(base as int, i as nat));
            lemma_pow_monotone(base as int, (i + 1) as nat, len as nat);
            assert(v * base == pow(base as int, (i + 1) as nat)) by (nonlinear_arith)
                requires
                    v == pow(base as int, i as nat),
                    pow(base as int, (i + 1) as nat) == base * pow(base as int, i as nat),
            ;
        }
        v = v * base;
        i += 1;
    }
    v
}

/// `key=` followed by a number.
fn setting_number(key: &str, value: usize) -> (r: String)
    ensures
        r@ == key@ + seq!['='] + decimal_digits(value as nat),
{
    let mut out = String::new();
    out.append(key);
    crate::text::push_char(&mut out, '=');
    out.append(u64_to_text(value as u64).as_str());
    out
}

/// `key=` followed by the compact form of a word.
fn setting_word(key: &str, names: &Vec<String>) -> (r: String)
    ensures
        r@ == key@ + seq!['='] + str_seq_join(strings_view(names@), ""@),
{
    let mut out = String::new();
    out.append(key);
    crate::text::push_char(&mut out, '=');
    out.append(format_letters_compact(names.as_slice()).as_str());
    out
}

/// The marginal counts of one pair of prefix and suffix at each loop order.
fn marginal_row(loops: &[usize], prefix: &Vec<usize>, suffix: &Vec<usize>) -> (r: Result<Vec<Rational>, ExperimentError>)
    requires
        forall|j: int| 0 <= j < loops@.len() ==> #[trigger] loops@[j] <= 0x3fff_ffff_ffff_ffff,
        prefix@.len() + suffix@.len() <= usize::MAX,
    ensures
        r matches Ok(row) ==> row@.len() == loops@.len() && forall|j: int|
            0 <= j < loops@.len() ==> (#[trigger] row@[j]).denom == 1 && row@[j].numer == marginal_count_spec(
                loops@[j] as int,
                prefix@,
                suffix@,
            ),
        (forall|j: int| 0 <= j < loops@.len() ==> #[trigger] loops@[j] <= SMALL_LOOP) ==> (r is Ok <==> forall|j: int|
            0 <= j < loops@.len() ==> marginal_count_ok(#[trigger] loops@[j] as int, prefix@, suffix@)),
{
    let mut row: Vec<Rational> = Vec::with_capacity(loops.len());
    let mut j: usize = 0;
    while j < loops.len()
        invariant
            forall|t: int| 0 <= t < loops@.len() ==> #[trigger] loops@[t] <= 0x3fff_ffff_ffff_ffff,
            prefix@.len() + suffix@.len() <= usize::MAX,
            j <= loops@.len(),
            row@.len() == j,
            forall|t: int| 0 <= t < j ==> (#[trigger] row@[t]).denom == 1 && row@[t].numer == marginal_count_spec(
                loops@[t] as int,
                prefix@,
                suffix@,
            ),
            forall|t: int| 0 <= t < j ==> #[trigger] loops@[t] <= SMALL_LOOP ==> marginal_count_ok(loops@[t] as int, prefix@, suffix@),
        decreases loops@.len() - j,
    {
        let c = ladder_marginal_count(loops[j], prefix.as_slice(), suffix.as_slice())?;
        row.push(c);
        j += 1;
    }
    Ok(row)
}

/// The `i`-th word of length `len` over the four letters, in lexicographic
/// order.
pub open spec fn key_word(i: int, len: nat) -> Seq<usize> {
    if len == 0 {
        Seq::empty()
    } else {
        word_ids(i, len, NUM_LETTERS as int)
    }
}

/// The number of words of length `len` over the four letters.
pub open spec fn key_count(len: nat) -> int {
    if len == 0 {
        1
    } else {
        pow(NUM_LETTERS as int, len)
    }
}

/// The prefix-suffix marginals of the ladder symbols at the given loop orders:
/// for each prefix of length `prefix_len` and suffix of length `suffix_len`
/// over the four letters (in lexicographic order, prefixes outermost), its
/// sequence description and its counts; the counts also by prefix and suffix.
pub fn compute_prefix_suffix_marginals(loops: &[usize], prefix_len: usize, suffix_len: usize) -> (r: Result<
    (Vec<SequenceSpec>, Vec<Vec<Rational>>, Vec<Vec<Vec<Rational>>>),
    ExperimentError,
>)
    requires
        forall|j: int| 0 <= j < loops@.len() ==> #[trigger] loops@[j] <= 0x3fff_ffff_ffff_ffff,
        pow(NUM_LETTERS as int, prefix_len as nat) * pow(NUM_LETTERS as int, suffix_len as nat) <= usize::MAX,
        prefix_len + suffix_len <= usize::MAX,
    ensures
        r matches Ok(t) ==> t.0@.len() == t.1@.len() && t.2@.len() == (if prefix_len == 0 {
            1
        } else {
            pow(NUM_LETTERS as int, prefix_len as nat)
        }) && (forall|i: int| 0 <= i < t.1@.len() ==> (#[trigger] t.1@[i])@.len() == loops@.len()) && (forall|i: int|
            0 <= i < t.2@.len() ==> (#[trigger] t.2@[i])@.len() == (if suffix_len == 0 {
                1
            } else {
                pow(NUM_LETTERS as int, suffix_len as nat)
            })),
        (forall|j: int| 0 <= j < loops@.len() ==> #[trigger] loops@[j] <= SMALL_LOOP) ==> (r is Ok <==> forall|j: int, a: int, b: int|
            0 <= j < loops@.len() && 0 <= a < key_count(prefix_len as nat) && 0 <= b < key_count(suffix_len as nat)
                ==> #[trigger] marginal_count_ok(loops@[j] as int, key_word(a, prefix_len as nat), key_word(b, suffix_len as nat))),
        r matches Ok(t) ==> forall|a: int, b: int, j: int|
            0 <= a < t.2@.len() && 0 <= b < t.2@[a]@.len() && 0 <= j < loops@.len() ==> (#[trigger] t.2@[a]@[b]@[j]).denom == 1
                && t.2@[a]@[b]@[j].numer == marginal_count_spec(
                loops@[j] as int,
                key_word(a, prefix_len as nat),
                key_word(b, suffix_len as nat),
            ),
{
    proof {
        lemma_pow_nonneg(NUM_LETTERS as int, prefix_len as nat);
        lemma_pow_nonneg(NUM_LETTERS as int, suffix_len as nat);
        let (a, b) = (pow(NUM_LETTERS as int, prefix_len as nat), pow(NUM_LETTERS as int, suffix_len as nat));
        assert(a <= a * b && b <= a * b) by (nonlinear_arith)
            requires
                a >= 1,
                b >= 1,
        ;
    }
    let prefix_keys = enumerate_words(NUM_LETTERS, prefix_len);
    let suffix_keys = enumerate_words(NUM_LETTERS, suffix_len);
    proof {
        assert forall|a: int| 0 <= a < prefix_keys@.len() implies (#[trigger] prefix_keys@[a])@ == key_word(a, prefix_len as nat) by {
            if prefix_len == 0 {
                assert(prefix_keys@[a]@ =~= Seq::<usize>::empty());
            }
        }
        assert forall|a: int| 0 <= a < suffix_keys@.len() implies (#[trigger] suffix_keys@[a])@ == key_word(a, suffix_len as nat) by {
            if suffix_len == 0 {
                assert(suffix_keys@[a]@ =~= Seq::<usize>::empty());
            }
        }
    }
    let ghost small = forall|j: int| 0 <= j < loops@.len() ==> #[trigger] loops@[j] <= SMALL_LOOP;
    let mut pair_values: Vec<Vec<Vec<Rational>>> = Vec::with_capacity(prefix_keys.len());
    let mut sequences: Vec<SequenceSpec> = Vec::new();
    let mut values: Vec<Vec<Rational>> = Vec::new();
    let mut i: usize = 0;
    while i < prefix_keys.len()
        invariant
            forall|j: int| 0 <= j < loops@.len() ==> #[trigger] loops@[j] <= 0x3fff_ffff_ffff_ffff,
            prefix_len + suffix_len <= usize::MAX,
            forall|a: int| 0 <= a < prefix_keys@.len() ==> (#[trigger] prefix_keys@[a])@.len() == prefix_len,
            forall|a: int| 0 <= a < suffix_keys@.len() ==> (#[trigger] suffix_keys@[a])@.len() == suffix_len,
            forall|a: int, q: int| 0 <= a < prefix_keys@.len() && 0 <= q < prefix_len ==> #[trigger] prefix_keys@[a]@[q] < NUM_LETTERS,
            forall|a: int, q: int| 0 <= a < suffix_keys@.len() && 0 <= q < suffix_len ==> #[trigger] suffix_keys@[a]@[q] < NUM_LETTERS,
            i <= prefix_keys@.len(),
            pair_values@.len() == i,
            sequences@.len() == values@.len(),
            forall|a: int| 0 <= a < values@.len() ==> (#[trigger] values@[a])@.len() == loops@.len(),
            forall|a: int| 0 <= a < i ==> (#[trigger] pair_values@[a])@.len() == suffix_keys@.len(),
            prefix_keys@.len() == key_count(prefix_len as nat),
            suffix_keys@.len() == key_count(suffix_len as nat),
            forall|a: int| 0 <= a < prefix_keys@.len() ==> (#[trigger] prefix_keys@[a])@ == key_word(a, prefix_len as nat),
            forall|a: int| 0 <= a < suffix_keys@.len() ==> (#[trigger] suffix_keys@[a])@ == key_word(a, suffix_len as nat),
            small == forall|j: int| 0 <= j < loops@.len() ==> #[trigger] loops@[j] <= SMALL_LOOP,
            forall|a: int, b: int, t: int|
                0 <= a < i && 0 <= b < pair_values@[a]@.len() && 0 <= t < loops@.len() ==> (#[trigger] pair_values@[a]@[b]@[t]).denom == 1
                    && pair_values@[a]@[b]@[t].numer == marginal_count_spec(
                    loops@[t] as int,
                    key_word(a, prefix_len as nat),
                    key_word(b, suffix_len as nat),
                ),
            small ==> forall|j: int, a: int, b: int|
                0 <= j < loops@.len() && 0 <= a < i && 0 <= b < key_count(suffix_len as nat)
                    ==> #[trigger] marginal_count_ok(loops@[j] as int, key_word(a, prefix_len as nat), key_word(b, suffix_len as nat)),
        decreases prefix_keys@.len() - i,
    {
        let prefix_ids = &prefix_keys[i];
        let prefix_names = ids_to_names(prefix_ids.as_slice());
        let mut by_suffix: Vec<Vec<Rational>> = Vec::with_capacity(suffix_keys.len());
        let mut j: usize = 0;
        while j < suffix_keys.len()
            invariant
                forall|t: int| 0 <= t < loops@.len() ==> #[trigger] loops@[t] <= 0x3fff_ffff_ffff_ffff,
                prefix_len + suffix_len <= usize::MAX,
                prefix_ids@.len() == prefix_len,
                forall|a: int| 0 <= a < suffix_keys@.len() ==> (#[trigger] suffix_keys@[a])@.len() == suffix_len,
                forall|a: int, q: int| 0 <= a < suffix_keys@.len() && 0 <= q < suffix_len ==> #[trigger] suffix_keys@[a]@[q] < NUM_LETTERS,
                j <= suffix_keys@.len(),
                by_suffix@.len() == j,
                sequences@.len() == values@.len(),
                forall|a: int| 0 <= a < values@.len() ==> (#[trigger] values@[a])@.len() == loops@.len(),
                i < prefix_keys@.len(),
                i < key_count(prefix_len as nat),
                prefix_ids@ == key_word(i as int, prefix_len as nat),
                suffix_keys@.len() == key_count(suffix_len as nat),
                forall|a: int| 0 <= a < suffix_keys@.len() ==> (#[trigger] suffix_keys@[a])@ == key_word(a, suffix_len as nat),
                small == forall|t: int| 0 <= t < loops@.len() ==> #[trigger] loops@[t] <= SMALL_LOOP,
                forall|b: int, t: int|
                    0 <= b < j && 0 <= t < loops@.len() ==> (#[trigger] by_suffix@[b]@[t]).denom == 1
                        && by_suffix@[b]@[t].numer == marginal_count_spec(
                        loops@[t] as int,
                        key_word(i as int, prefix_len as nat),
                        key_word(b, suffix_len as nat),
                    ),
                small ==> forall|t: int, b: int|
                    0 <= t < loops@.len() && 0 <= b < j
                        ==> #[trigger] marginal_count_ok(loops@[t] as int, key_word(i as int, prefix_len as nat), key_word(b, suffix_len as nat)),
            decreases suffix_keys@.len() - j,
        {
            let suffix_ids = &suffix_keys[j];
            let row = match marginal_row(loops, prefix_ids, suffix_ids) {
                Ok(x) => x,
                Err(e) => {
                    proof {
                        if small {
                            let t = choose|t: int| 0 <= t < loops@.len() && !marginal_count_ok(#[trigger] loops@[t] as int, prefix_ids@, suffix_ids@);
                            assert(!marginal_count_ok(loops@[t] as int, key_word(i as int, prefix_len as nat), key_word(j as int, suffix_len as nat)));
                        }
                    }
                    return Err(e);
                },
            };
            let suffix_names = ids_to_names(suffix_ids.as_slice());
            let params = vec![
                setting_number("r", prefix_len),
                setting_number("k", suffix_len),
                setting_word("u", &prefix_names),
                setting_word("v", &suffix_names),
            ];
            sequences.push(SequenceSpec {
                family: FamilyType::PrefixSuffix,
                params,
                source: SequenceSource::PrefixSuffix { prefix: prefix_names.clone(), suffix: suffix_names },
            });
            values.push(row.clone());
            let ghost bs0 = by_suffix@;
            by_suffix.push(row);
            proof {
                assert forall|b: int, t: int|
                    0 <= b < j + 1 && 0 <= t < loops@.len() implies (#[trigger] by_suffix@[b]@[t]).denom == 1
                        && by_suffix@[b]@[t].numer == marginal_count_spec(
                        loops@[t] as int,
                        key_word(i as int, prefix_len as nat),
                        key_word(b, suffix_len as nat),
                    ) by {
                    if b < j {
                        assert(by_suffix@[b] == bs0[b]);
                    } else {
                        assert(by_suffix@[b]@ == row@);
                    }
                }
            }
            j += 1;
        }
        let ghost pv0 = pair_values@;
        pair_values.push(by_suffix);
        proof {
            assert forall|a: int, b: int, t: int|
                0 <= a < i + 1 && 0 <= b < pair_values@[a]@.len() && 0 <= t < loops@.len() implies (#[trigger] pair_values@[a]@[b]@[t]).denom
                    == 1 && pair_values@[a]@[b]@[t].numer == marginal_count_spec(
                    loops@[t] as int,
                    key_word(a, prefix_len as nat),
                    key_word(b, suffix_len as nat),
                ) by {
                if a < i {
                    assert(pair_values@[a] == pv0[a]);
                }
            }
        }
        i += 1;
    }
    proof {
        assert(prefix_keys@.len() == key_count(prefix_len as nat));
    }
    Ok((sequences, values, pair_values))
}

/// The primes the ladder ranks are taken modulo.
pub fn default_primes() -> (r: Vec<i64>)
    ensures
        r@ == seq![1000003i64, 1000033i64, 1000037i64],
{
    vec![1000003, 1000033, 1000037]
}

/// `m` is the matrix of the counts at loop position `k`: rows by prefix,
/// columns by suffix.
pub open spec fn loop_block(m: Seq<Vec<Rational>>, pair_values: Seq<Vec<Vec<Rational>>>, k: int) -> bool {
    &&& m.len() == pair_values.len()
    &&& forall|i: int| 0 <= i < m.len() ==> (#[trigger] m[i])@.len() == pair_values[i]@.len()
    &&& forall|i: int, q: int| 0 <= i < m.len() && 0 <= q < m[i]@.len() ==> #[trigger] m[i]@[q] == pair_values[i]@[q]@[k]
}

/// `rank` is the rank of the counts at loop position `k`: when the default
/// primes all have their inverses, the largest rank of the matrix modulo
/// those of them that leave it usable.
pub open spec fn loop_rank_ok(pair_values: Seq<Vec<Vec<Rational>>>, k: int, rank: int) -> bool {
    let primes = seq![1000003i64, 1000033i64, 1000037i64];
    exists|m: Seq<Vec<Rational>>|
        #![trigger loop_block(m, pair_values, k)]
        loop_block(m, pair_values, k) && (all_inverses_ok(primes) ==> {
            &&& forall|q: int|
                0 <= q < 3 && !unusable_matrix(m, primes[q] as int) ==> #[trigger] residue_rank(m, primes[q] as int) <= rank
            &&& exists|q: int| 0 <= q < 3 && !unusable_matrix(m, primes[q] as int) && rank == #[trigger] residue_rank(m, primes[q] as int)
        })
}

/// Some count at loop position `k` has a denominator divisible by `p`.
pub open spec fn loop_matrix_unusable(pair_values: Seq<Vec<Vec<Rational>>>, k: int, p: int) -> bool {
    exists|i: int, j: int| 0 <= i < pair_values.len() && 0 <= j < pair_values[i]@.len() && (#[trigger] pair_values[i]@[j]@[k]).denom as int % p == 0
}

/// The mod-`p` rank of each loop order's prefix-by-suffix matrix of counts.
pub fn compute_matrix_rank_rows(
    loops: &[usize],
    prefix_len: usize,
    suffix_len: usize,
    pair_values: &Vec<Vec<Vec<Rational>>>,
) -> (r: Result<Vec<MatrixRankRow>, ExperimentError>)
    requires
        forall|i: int| 0 <= i < pair_values@.len() ==> (#[trigger] pair_values@[i])@.len() == (if pair_values@.len() > 0 {
            pair_values@[0]@.len()
        } else {
            0
        }),
        forall|i: int, j: int|
            0 <= i < pair_values@.len() && 0 <= j < pair_values@[i]@.len() ==> (#[trigger] pair_values@[i]@[j])@.len() == loops@.len(),
    ensures
        r matches Ok(rows) ==> rows@.len() == loops@.len() && forall|k: int|
            0 <= k < loops@.len() ==> (#[trigger] rows@[k]).loop_index == loops@[k] && rows@[k].prefix_len == prefix_len
                && rows@[k].suffix_len == suffix_len && rows@[k].nrows == pair_values@.len() && rows@[k].ncols == (if pair_values@.len() > 0 {
                pair_values@[0]@.len()
            } else {
                0
            }) && rows@[k].rank_mod_p <= rows@[k].nrows && rows@[k].rank_mod_p <= rows@[k].ncols,
        r matches Ok(rows) ==> forall|k: int|
            0 <= k < loops@.len() ==> if pair_values@.len() > 0 && pair_values@[0]@.len() > 0 {
                loop_rank_ok(pair_values@, k, (#[trigger] rows@[k]).rank_mod_p as int)
            } else {
                rows@[k].rank_mod_p == 0
            },
        r is Err <==> (pair_values@.len() > 0 && pair_values@[0]@.len() > 0 && exists|k: int|
            0 <= k < loops@.len() && loop_matrix_unusable(pair_values@, k, 1000003) && loop_matrix_unusable(pair_values@, k, 1000033)
                && #[trigger] loop_matrix_unusable(pair_values@, k, 1000037)),
{
    let nrows = pair_values.len();
    let ncols = if nrows > 0 { pair_values[0].len() } else { 0 };
    let primes = default_primes();
    let mut rows: Vec<MatrixRankRow> = Vec::with_capacity(loops.len());
    let mut k: usize = 0;
    while k < loops.len()
        invariant
            nrows == pair_values@.len(),
            ncols == (if nrows > 0 { pair_values@[0]@.len() } else { 0 }),
            primes@ == seq![1000003i64, 1000033i64, 1000037i64],
            forall|i: int| 0 <= i < nrows ==> (#[trigger] pair_values@[i])@.len() == ncols,
            forall|i: int, j: int| 0 <= i < nrows && 0 <= j < ncols ==> (#[trigger] pair_values@[i]@[j])@.len() == loops@.len(),
            k <= loops@.len(),
            rows@.len() == k,
            forall|t: int|
                0 <= t < k ==> (#[trigger] rows@[t]).loop_index == loops@[t] && rows@[t].prefix_len == prefix_len
                    && rows@[t].suffix_len == suffix_len && rows@[t].nrows == nrows && rows@[t].ncols == ncols
                    && rows@[t].rank_mod_p <= nrows && rows@[t].rank_mod_p <= ncols,
            forall|t: int|
                0 <= t < k ==> if nrows > 0 && ncols > 0 {
                    loop_rank_ok(pair_values@, t, (#[trigger] rows@[t]).rank_mod_p as int)
                } else {
                    rows@[t].rank_mod_p == 0
                },
            forall|t: int| 0 <= t < k ==> !(nrows > 0 && ncols > 0 && loop_matrix_unusable(pair_values@, t, 1000003)
                && loop_matrix_unusable(pair_values@, t, 1000033) && #[trigger] loop_matrix_unusable(pair_values@, t, 1000037)),
        decreases loops@.len() - k,
    {
        if nrows == 0 || ncols == 0 {
            rows.push(MatrixRankRow { loop_index: loops[k], prefix_len, suffix_len, nrows, ncols, rank_mod_p: 0 });
            k += 1;
            continue;
        }
        let mut matrix: Vec<Vec<Rational>> = Vec::with_capacity(nrows);
        let mut i: usize = 0;
        while i < nrows
            invariant
                nrows == pair_values@.len(),
                ncols == pair_values@[0]@.len(),
                forall|a: int| 0 <= a < nrows ==> (#[trigger] pair_values@[a])@.len() == ncols,
                forall|a: int, j: int| 0 <= a < nrows && 0 <= j < ncols ==> (#[trigger] pair_values@[a]@[j])@.len() == loops@.len(),
                k < loops@.len(),
                i <= nrows,
                matrix@.len() == i,
                rectangular_rat(matrix@, ncols as int),
                forall|a: int, q: int| 0 <= a < i && 0 <= q < ncols ==> (#[trigger] matrix@[a]@[q]) == pair_values@[a]@[q]@[k as int],
            decreases nrows - i,
        {
            let mut row: Vec<Rational> = Vec::with_capacity(ncols);
            let mut j: usize = 0;
            while j < ncols
                invariant
                    nrows == pair_values@.len(),
                    i < nrows,
                    forall|a: int| 0 <= a < nrows ==> (#[trigger] pair_values@[a])@.len() == ncols,
                    forall|a: int, q: int| 0 <= a < nrows && 0 <= q < ncols ==> (#[trigger] pair_values@[a]@[q])@.len() == loops@.len(),
                    k < loops@.len(),
                    j <= ncols,
                    row@.len() == j,
                    forall|q: int| 0 <= q < j ==> (#[trigger] row@[q]) == pair_values@[i as int]@[q]@[k as int],
                decreases ncols - j,
            {
                row.push(pair_values[i][j][k]);
                j += 1;
            }
            matrix.push(row);
            i += 1;
        }
        proof {
            assert(matrix@[0]@.len() == ncols);
            assert forall|q: int| 0 <= q < primes@.len() implies crate::rank_scan::rank::prime_ok(#[trigger] primes@[q] as int) by {}
        }
        proof {
            assert forall|p: int| crate::rank_scan::rank::unusable_matrix(matrix@, p) <==> loop_matrix_unusable(pair_values@, k as int, p) by {
                if crate::rank_scan::rank::unusable_matrix(matrix@, p) {
                    let (a, q) = choose|a: int, q: int| 0 <= a < matrix@.len() && 0 <= q < matrix@[a]@.len() && (#[trigger] matrix@[a]@[q]).denom as int % p == 0;
                    assert(pair_values@[a]@[q]@[k as int].denom as int % p == 0);
                }
                if loop_matrix_unusable(pair_values@, k as int, p) {
                    let (a, q) = choose|a: int, q: int| 0 <= a < pair_values@.len() && 0 <= q < pair_values@[a]@.len() && (#[trigger] pair_values@[a]@[q]@[k as int]).denom as int % p == 0;
                    assert(matrix@[a]@[q].denom as int % p == 0);
                }
            }
        }
        let rank = match rank_matrix_mod_p(matrix.as_slice(), primes.as_slice()) {
            Ok(x) => x,
            Err(e) => {
                proof {
                    assert(crate::rank_scan::rank::unusable_matrix(matrix@, primes@[0] as int));
                    assert(crate::rank_scan::rank::unusable_matrix(matrix@, primes@[1] as int));
                    assert(crate::rank_scan::rank::unusable_matrix(matrix@, primes@[2] as int));
                    assert(loop_matrix_unusable(pair_values@, k as int, 1000037));
                }
                return Err(e);
            },
        };
        proof {
            if loop_matrix_unusable(pair_values@, k as int, 1000003) && loop_matrix_unusable(pair_values@, k as int, 1000033)
                && loop_matrix_unusable(pair_values@, k as int, 1000037) {
                assert forall|q: int| 0 <= q < primes@.len() implies crate::rank_scan::rank::unusable_matrix(matrix@, #[trigger] primes@[q] as int) by {}
            }
        }
        proof {
            assert(loop_block(matrix@, pair_values@, k as int));
            assert(loop_rank_ok(pair_values@, k as int, rank as int));
        }
        let ghost rows0 = rows@;
        rows.push(MatrixRankRow { loop_index: loops[k], prefix_len, suffix_len, nrows, ncols, rank_mod_p: rank });
        proof {
            assert forall|t: int| 0 <= t < k + 1 implies if nrows > 0 && ncols > 0 {
                loop_rank_ok(pair_values@, t, (#[trigger] rows@[t]).rank_mod_p as int)
            } else {
                rows@[t].rank_mod_p == 0
            } by {
                if t < k {
                    assert(rows@[t] == rows0[t]);
                }
            }
        }
        k += 1;
    }
    Ok(rows)
}

/// The prefix and suffix lengths fit a word of loop order `x`, and `2x`
/// fits in `usize`.
pub open spec fn lengths_fit_ladder(family: LadderFamily, prefix_len: usize, suffix_len: usize, x: usize) -> bool {
    2 * x <= usize::MAX && match family {
        LadderFamily::Prefix => prefix_len <= 2 * x,
        LadderFamily::Suffix => suffix_len <= 2 * x,
        LadderFamily::PrefixSuffix => prefix_len + suffix_len <= 2 * x,
    }
}

/// The settings a run accepts: an output directory, some loop orders none of
/// them 0, a term budget when terms are written, the matrix only for the
/// prefix-suffix family, and lengths that fit the least loop order.
pub open spec fn settings_ok_ladder(out_dir: Seq<char>, loops: Seq<usize>, emit_jsonl: bool, max_terms: u64, matrix_rank: bool, family: LadderFamily, prefix_len: usize, suffix_len: usize) -> bool {
    &&& out_dir.len() > 0
    &&& loops.len() > 0
    &&& !(emit_jsonl && max_terms == 0)
    &&& !(matrix_rank && family != LadderFamily::PrefixSuffix)
    &&& !loops.contains(0)
    &&& forall|x: usize| #[trigger] loops.contains(x) && (forall|y: usize| loops.contains(y) ==> x <= y) ==> lengths_fit_ladder(family, prefix_len, suffix_len, x)
}

/// The loop orders of a run, sorted without repeats, once its settings are
/// checked: an output directory, some loop orders, all positive, a term limit
/// when symbol files are written, ranks only for prefix-suffix marginals, and
/// prefixes and suffixes that fit the shortest word.
pub fn prepare_ladder_loops(cfg: &LadderGenConfig) -> (r: Result<Vec<usize>, ExperimentError>)
    ensures
        r is Ok <==> settings_ok_ladder(cfg.out_dir@, cfg.loops@, cfg.emit_jsonl, cfg.max_terms, cfg.matrix_rank, cfg.family, cfg.prefix_len, cfg.suffix_len),
        cfg.out_dir@.len() == 0 ==> r is Err,
        cfg.loops@.len() == 0 ==> r is Err,
        (cfg.emit_jsonl && cfg.max_terms == 0) ==> r is Err,
        (cfg.matrix_rank && cfg.family != LadderFamily::PrefixSuffix) ==> r is Err,
        cfg.loops@.contains(0) ==> r is Err,
        r matches Ok(loops) ==> loops@.len() > 0 && (forall|a: int, b: int| 0 <= a < b < loops@.len() ==> #[trigger] loops@[a] < #[trigger] loops@[b])
            && (forall|x: usize| loops@.contains(x) <==> cfg.loops@.contains(x)) && (forall|a: int| 0 <= a < loops@.len() ==> #[trigger] loops@[a] >= 1)
            && (match cfg.family {
            LadderFamily::Prefix => cfg.prefix_len <= 2 * loops@[0],
            LadderFamily::Suffix => cfg.suffix_len <= 2 * loops@[0],
            LadderFamily::PrefixSuffix => cfg.prefix_len + cfg.suffix_len <= 2 * loops@[0],
        }),
{
    if cfg.out_dir.unicode_len() == 0 {
        return Err(ExperimentError::InvalidConfig("missing out_dir".to_string()));
    }
    if cfg.loops.len() == 0 {
        return Err(ExperimentError::InvalidConfig("loops list is empty".to_string()));
    }
    if cfg.emit_jsonl && cfg.max_terms == 0 {
        return Err(ExperimentError::InvalidConfig("max_terms must be >= 1 when emitting jsonl".to_string()));
    }
    if cfg.matrix_rank && cfg.family != LadderFamily::PrefixSuffix {
        return Err(ExperimentError::InvalidConfig("matrix_rank requires prefix-suffix family".to_string()));
    }
    let loops = sorted_distinct(&cfg.loops);
    if loops[0] == 0 {
        return Err(ExperimentError::InvalidConfig("loops must be >= 1".to_string()));
    }
    proof {
        assert forall|a: int| 0 <= a < loops@.len() implies #[trigger] loops@[a] >= 1 by {
            if a > 0 {
                assert(loops@[0] < loops@[a]);
            }
        }
        if cfg.loops@.contains(0) {
            assert(loops@.contains(0));
        }
    }
    proof {
        assert forall|x: usize| #[trigger] cfg.loops@.contains(x) implies loops@[0] <= x by {
            assert(loops@.contains(x));
            let w = choose|w: int| 0 <= w < loops@.len() && loops@[w] == x;
            if w > 0 {
                assert(loops@[0] < loops@[w]);
            }
        }
        assert(cfg.loops@.contains(loops@[0])) by {
            assert(loops@.contains(loops@[0]));
        }
    }
    let min_len = match loops[0].checked_mul(2) {
        Some(v) => v,
        None => {
            return Err(ExperimentError::InvalidConfig("loop * 2 overflow".to_string()));
        },
    };
    match cfg.family {
        LadderFamily::Prefix => {
            if cfg.prefix_len > min_len {
                let mut msg = String::from_str("prefix length ");
                msg.append(u64_to_text(cfg.prefix_len as u64).as_str());
                msg.append(" exceeds min word length ");
                msg.append(u64_to_text(min_len as u64).as_str());
                return Err(ExperimentError::InvalidConfig(msg));
            }
        },
        LadderFamily::Suffix => {
            if cfg.suffix_len > min_len {
                let mut msg = String::from_str("suffix length ");
                msg.append(u64_to_text(cfg.suffix_len as u64).as_str());
                msg.append(" exceeds min word length ");
                msg.append(u64_to_text(min_len as u64).as_str());
                return Err(ExperimentError::InvalidConfig(msg));
            }
        },
        LadderFamily::PrefixSuffix => {
            let sum = if cfg.prefix_len > usize::MAX - cfg.suffix_len {
                usize::MAX
            } else {
                cfg.prefix_len + cfg.suffix_len
            };
            if sum > min_len {
                let mut msg = String::from_str("prefix-suffix lengths r=");
                msg.append(u64_to_text(cfg.prefix_len as u64).as_str());
                msg.append(",k=");
                msg.append(u64_to_text(cfg.suffix_len as u64).as_str());
                msg.append(" exceed min word length ");
                msg.append(u64_to_text(min_len as u64).as_str());
                return Err(ExperimentError::InvalidConfig(msg));
            }
        },
    }
    Ok(loops)
}

/// The distinct values of a nonempty list, in increasing order.
pub fn sorted_distinct(values: &Vec<usize>) -> (r: Vec<usize>)
    requires
        values@.len() > 0,
    ensures
        r@.len() > 0,
        forall|a: int, b: int| 0 <= a < b < r@.len() ==> #[trigger] r@[a] < #[trigger] r@[b],
        forall|x: usize| r@.contains(x) <==> values@.contains(x),
{
    let mut out: Vec<usize> = Vec::new();
    let mut i: usize = 0;
    while i < values.len()
        invariant
            i <= values@.len(),
            forall|a: int, b: int| 0 <= a < b < out@.len() ==> #[trigger] out@[a] < #[trigger] out@[b],
            forall|x: usize| out@.contains(x) <==> exists|t: int| 0 <= t < i && values@[t] == x,
            i > 0 ==> out@.len() > 0,
        decreases values@.len() - i,
    {
        let v = values[i];
        let mut q: usize = 0;
        while q < out.len() && out[q] < v
            invariant
                q <= out@.len(),
                forall|t: int| 0 <= t < q ==> #[trigger] out@[t] < v,
            decreases out@.len() - q,
        {
            q += 1;
        }
        let ghost before = out@;
        if q < out.len() && out[q] == v {
            proof {
                assert forall|x: usize| out@.contains(x) <==> exists|t: int| 0 <= t < i + 1 && values@[t] == x by {
                    if x == v {
                        assert(out@[q as int] == x);
                    }
                    if out@.contains(x) {
                        let w = choose|t: int| 0 <= t < i && values@[t] == x;
                        assert(0 <= w < i + 1);
                    }
                }
            }
        } else {
            out.insert(q, v);
            proof {
                assert forall|a: int, b: int| 0 <= a < b < out@.len() implies #[trigger] out@[a] < #[trigger] out@[b] by {
                    if a < q && b == q {
                    } else if a == q {
                        assert(out@[b] == before[b - 1]);
                        if q < before.len() {
                            assert(before[q as int] >= v);
                            if b - 1 > q {
                                assert(before[q as int] < before[b - 1]);
                            }
                        }
                    } else if a < q {
                        assert(out@[a] == before[a]);
                        if b > q {
                            assert(out@[b] == before[b - 1]);
                        } else {
                            assert(out@[b] == before[b]);
                        }
                    } else {
                        assert(out@[a] == before[a - 1]);
                        assert(out@[b] == before[b - 1]);
                    }
                }
                assert forall|x: usize| out@.contains(x) <==> exists|t: int| 0 <= t < i + 1 && values@[t] == x by {
                    if out@.contains(x) {
                        let w = choose|w: int| 0 <= w < out@.len() && out@[w] == x;
                        if w == q {
                            assert(values@[i as int] == x);
                        } else {
                            let w0 = if w < q { w } else { w - 1 };
                            assert(before[w0] == x);
                            assert(before.contains(x));
                            let t = choose|t: int| 0 <= t < i && values@[t] == x;
                            assert(0 <= t < i + 1);
                        }
                    }
                    if exists|t: int| 0 <= t < i + 1 && values@[t] == x {
                        let t = choose|t: int| 0 <= t < i + 1 && values@[t] == x;
                        if t == i {
                            assert(out@[q as int] == x);
                        } else {
                            assert(before.contains(x));
                            let w = choose|w: int| 0 <= w < before.len() && before[w] == x;
                            let w1 = if w < q { w } else { w + 1 };
                            assert(out@[w1] == x);
                        }
                    }
                }
            }
        }
        i += 1;
    }
    proof {
        assert forall|x: usize| out@.contains(x) <==> values@.contains(x) by {
            if values@.contains(x) {
                let t = choose|t: int| 0 <= t < values@.len() && values@[t] == x;
                assert(exists|t: int| 0 <= t < values@.len() && values@[t] == x);
            }
        }
    }
    out
}

} // verus!
