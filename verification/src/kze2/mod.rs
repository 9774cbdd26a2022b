//! The KZE2 Hankel experiment: a weighted automaton over a five-letter
//! alphabet is recovered from its Hankel matrix over a prime field, and the
//! recovered automaton is compared with the true one on every word of a
//! holdout length.
pub mod automaton;
pub mod cli;

pub mod field;
pub mod linalg;
pub mod spectral;
pub mod words;

use crate::error::ExperimentError;
use crate::text::{decimal_digits, u64_to_text};
use automaton::{
    eval_wfa, is_automaton, letters_below, mats_vals, run_prefix, run_suffix, run_word_prefix,
    run_word_suffix, wfa_value,
};
use field::{lemma_fp_eq, Field, Fp};
use linalg::{
    dot, idot, is_mat, is_vec, mvals, pivot_columns, rvals, vec_mat_mul, vm, zeros, Matrix,
    Vector,
};
use spectral::{is_model, SpectralModel};
use vstd::prelude::*;
use words::{count_upto, views, word_at, word_from_index, words_upto, LetterId, Word};

verus! {

/// The letter names, indexed by letter id.
pub const ALPHABET: [&'static str; 5] = ["1", "11", "2", "22", "12"];

pub const ALPHABET_SIZE: usize = 5;

pub const MAX_LAMBDA_GAMMA_SHIFT: usize = 8;

/// How the initial and final vectors are generated.
#[derive(Clone, Copy, Debug, PartialEq, Eq, Structural)]
pub enum CandidateFamily {
    Lcg,
    GlobalLinearQuadratic,
    BlockMixed,
}

impl CandidateFamily {
    pub fn all() -> (r: [Self; 3])
        ensures
            r@ == seq![
                CandidateFamily::Lcg,
                CandidateFamily::GlobalLinearQuadratic,
                CandidateFamily::BlockMixed,
            ],
    {
        let r = [Self::Lcg, Self::GlobalLinearQuadratic, Self::BlockMixed];
        assert(r@ =~= seq![
            CandidateFamily::Lcg,
            CandidateFamily::GlobalLinearQuadratic,
            CandidateFamily::BlockMixed,
        ]);
        r
    }
}

/// Parameters of the experiment.
#[derive(Clone, Copy, Debug)]
pub struct Kze2HankelMvpConfig {
    /// Dimension of the true automaton (even).
    pub r: usize,
    pub prime: u64,
    /// Prefixes and suffixes have length at most `prefix_len`.
    pub prefix_len: usize,
    /// Every word of this length is checked.
    pub holdout_len: usize,
}

impl Default for Kze2HankelMvpConfig {
    fn default() -> (r: Self)
        ensures
            r.r == 20 && r.prime == 1_000_003 && r.prefix_len == 2 && r.holdout_len == 6,
    {
        Self { r: 20, prime: 1_000_003, prefix_len: 2, holdout_len: 6 }
    }
}

/// What the experiment found.
#[derive(Clone, Copy, Debug)]
pub struct Kze2HankelMvpReport {
    pub r: usize,
    pub hankel_rank: usize,
    pub prime: u64,
    pub prefix_len: usize,
    pub holdout_len: usize,
    pub w_train: usize,
    pub total_holdout_words: u64,
    pub mismatches: usize,
}

/// The 2-by-2 blocks of the five letters.
pub open spec fn base_block(l: int, a: int, b: int) -> int {
    if l == 0 {
        0
    } else if l == 1 {
        if a == 1 && b == 1 { 1 } else { 0 }
    } else if l == 2 {
        if a == 0 && b == 0 { 1 } else { 0 }
    } else if l == 3 {
        if a != b { 1 } else { 0 }
    } else {
        if a == 0 && b == 0 { 0 } else { -1 }
    }
}

/// Entry `(i, j)` of the matrix of letter `l`: block `b` on the diagonal is
/// `(b + 1)` times the letter's base block.
pub open spec fn kze2_entry(l: int, i: int, j: int) -> int {
    if i / 2 == j / 2 {
        (i / 2 + 1) * base_block(l, i % 2, j % 2)
    } else {
        0
    }
}

/// One step of the 64-bit linear congruential generator.
pub open spec fn lcg_step_spec(state: u64) -> u64 {
    ((state as int * 6364136223846793005int + 1442695040888963407int) % 0x1_0000_0000_0000_0000int) as u64
}

/// `n` steps of the generator from `seed`.
pub open spec fn lcg_iter(seed: u64, n: nat) -> u64
    decreases n,
{
    if n == 0 {
        seed
    } else {
        lcg_step_spec(lcg_iter(seed, (n - 1) as nat))
    }
}

pub open spec fn lcg_lambda_seed(shift: u64) -> u64 {
    0x9E3779B97F4A7C15u64 ^ shift
}

pub open spec fn lcg_gamma_seed(shift: u64) -> u64 {
    0xD1B54A32D192ED03u64 ^ shift
}

/// The initial vector of a candidate.
pub open spec fn lambda_spec(p: int, r: int, sl: u64, family: CandidateFamily) -> Seq<int> {
    match family {
        CandidateFamily::Lcg => Seq::new(r as nat, |i: int| lcg_iter(lcg_lambda_seed(sl), (i + 1) as nat) as int % p),
        CandidateFamily::GlobalLinearQuadratic => Seq::new(r as nat, |i: int| (i + 1 + sl) % p),
        CandidateFamily::BlockMixed => Seq::new(
            (2 * (r / 2)) as nat,
            |i: int|
                {
                    let b = i / 2 + 1;
                    if i % 2 == 0 {
                        (b + sl) % p
                    } else {
                        (b * (b + 1) + sl) % p
                    }
                },
        ),
    }
}

/// The final vector of a candidate.
pub open spec fn gamma_spec(p: int, r: int, sg: u64, family: CandidateFamily) -> Seq<int> {
    match family {
        CandidateFamily::Lcg => Seq::new(r as nat, |i: int| lcg_iter(lcg_gamma_seed(sg), (i + 1) as nat) as int % p),
        CandidateFamily::GlobalLinearQuadratic => Seq::new(r as nat, |i: int| (i * i + 1 + sg) % p),
        CandidateFamily::BlockMixed => Seq::new(
            (2 * (r / 2)) as nat,
            |i: int|
                {
                    let b = i / 2 + 1;
                    if i % 2 == 0 {
                        (b * b + 1 + sg) % p
                    } else {
                        (b * b * b + 1 + sg) % p
                    }
                },
        ),
    }
}

/// One step of the generator.
pub fn lcg_step(state: u64) -> (r: u64)
    ensures
        r == lcg_step_spec(state),
{
    let r = state.wrapping_mul(6364136223846793005).wrapping_add(1442695040888963407);
    proof {
        assert(r == lcg_step_spec(state)) by {
            let a = state as int * 6364136223846793005int;
            let m = 0x1_0000_0000_0000_0000int;
            crate::modular::lemma_mod_ops(a, 1442695040888963407int, m);
        }
    }
    r
}

/// The initial and final vectors of the candidate `family` with the given shifts.
pub fn build_lambda_gamma(
    field: &Field,
    r: usize,
    shift_lambda: u64,
    shift_gamma: u64,
    family: CandidateFamily,
) -> (res: (Vector, Vector))
    requires
        field.wf(),
        r < 0x1_0000_0000,
    ensures
        rvals(res.0@) == lambda_spec(field.modulus(), r as int, shift_lambda, family),
        rvals(res.1@) == gamma_spec(field.modulus(), r as int, shift_gamma, family),
        is_vec(*field, res.0@, res.0@.len() as int),
        is_vec(*field, res.1@, res.1@.len() as int),
{
    let prime = field.prime() as u128;
    let ghost p = field.modulus();
    let sl = shift_lambda as u128;
    let sg = shift_gamma as u128;
    let mut lambda: Vector = Vec::with_capacity(r);
    let mut gamma: Vector = Vec::with_capacity(r);
    match family {
        CandidateFamily::Lcg => {
            let mut state = 0x9E3779B97F4A7C15u64 ^ shift_lambda;
            let mut k: usize = 0;
            while k < r
                invariant
                    field.wf(),
                    p == field.modulus(),
                    k <= r,
                    state == lcg_iter(lcg_lambda_seed(shift_lambda), k as nat),
                    lambda.len() == k,
                    forall|i: int| 0 <= i < k ==> field.holds(#[trigger] lambda@[i]),
                    forall|i: int| 0 <= i < k ==> (#[trigger] lambda@[i]).val() == lcg_iter(lcg_lambda_seed(shift_lambda), (i + 1) as nat) as int % p,
                decreases r - k,
            {
                state = lcg_step(state);
                lambda.push(field.reduce_u64(state));
                k += 1;
            }
            let mut state = 0xD1B54A32D192ED03u64 ^ shift_gamma;
            let mut k: usize = 0;
            while k < r
                invariant
                    field.wf(),
                    p == field.modulus(),
                    k <= r,
                    state == lcg_iter(lcg_gamma_seed(shift_gamma), k as nat),
                    gamma.len() == k,
                    forall|i: int| 0 <= i < k ==> field.holds(#[trigger] gamma@[i]),
                    forall|i: int| 0 <= i < k ==> (#[trigger] gamma@[i]).val() == lcg_iter(lcg_gamma_seed(shift_gamma), (i + 1) as nat) as int % p,
                decreases r - k,
            {
                state = lcg_step(state);
                gamma.push(field.reduce_u64(state));
                k += 1;
            }
        },
        CandidateFamily::GlobalLinearQuadratic => {
            let mut idx: usize = 0;
            while idx < r
                invariant
                    field.wf(),
                    p == field.modulus(),
                    prime == p,
                    sl == shift_lambda,
                    sg == shift_gamma,
                    r < 0x1_0000_0000,
                    idx <= r,
                    lambda.len() == idx,
                    gamma.len() == idx,
                    forall|i: int| 0 <= i < idx ==> field.holds(#[trigger] lambda@[i]),
                    forall|i: int| 0 <= i < idx ==> field.holds(#[trigger] gamma@[i]),
                    forall|i: int| 0 <= i < idx ==> (#[trigger] lambda@[i]).val() == (i + 1 + shift_lambda) % p,
                    forall|i: int| 0 <= i < idx ==> (#[trigger] gamma@[i]).val() == (i * i + 1 + shift_gamma) % p,
                decreases r - idx,
            {
                let i = idx as u128;
                proof {
                    assert(i * i <= 0x1_0000_0000 * 0x1_0000_0000) by (nonlinear_arith)
                        requires
                            i < 0x1_0000_0000,
                    ;
                }
                let lambda_val = ((i + 1 + sl) % prime) as u64;
                let gamma_val = ((i * i + 1 + sg) % prime) as u64;
                proof {
                    crate::modular::lemma_mod_ops(i + 1 + sl, 0, p);
                    crate::modular::lemma_mod_ops(i * i + 1 + sg, 0, p);
                }
                lambda.push(field.reduce_u64(lambda_val));
                gamma.push(field.reduce_u64(gamma_val));
                idx += 1;
            }
        },
        CandidateFamily::BlockMixed => {
            let blocks = r / 2;
            let mut block: usize = 0;
            while block < blocks
                invariant
                    field.wf(),
                    p == field.modulus(),
                    prime == p,
                    sl == shift_lambda,
                    sg == shift_gamma,
                    blocks == r / 2,
                    r < 0x1_0000_0000,
                    block <= blocks,
                    lambda.len() == 2 * block,
                    gamma.len() == 2 * block,
                    forall|i: int| 0 <= i < 2 * block ==> field.holds(#[trigger] lambda@[i]),
                    forall|i: int| 0 <= i < 2 * block ==> field.holds(#[trigger] gamma@[i]),
                    forall|i: int|
                        0 <= i < 2 * block ==> (#[trigger] lambda@[i]).val() == (if i % 2 == 0 {
                            (i / 2 + 1 + shift_lambda) % p
                        } else {
                            ((i / 2 + 1) * (i / 2 + 2) + shift_lambda) % p
                        }),
                    forall|i: int|
                        0 <= i < 2 * block ==> (#[trigger] gamma@[i]).val() == (if i % 2 == 0 {
                            ((i / 2 + 1) * (i / 2 + 1) + 1 + shift_gamma) % p
                        } else {
                            ((i / 2 + 1) * (i / 2 + 1) * (i / 2 + 1) + 1 + shift_gamma) % p
                        }),
                decreases blocks - block,
            {
                let b = block as u128 + 1;
                proof {
                    assert(b * b <= 0x1_0000_0000 * 0x1_0000_0000) by (nonlinear_arith)
                        requires
                            b <= 0x1_0000_0000,
                    ;
                    assert(b * (b + 1) <= 0x1_0000_0000 * 0x1_0000_0001) by (nonlinear_arith)
                        requires
                            b <= 0x1_0000_0000,
                    ;
                    assert(b * b * b <= 0x1_0000_0000 * 0x1_0000_0000 * 0x1_0000_0000) by (nonlinear_arith)
                        requires
                            b <= 0x1_0000_0000,
                    ;
                }
                let lambda0 = ((b + sl) % prime) as u64;
                let lambda1 = ((b * (b + 1) + sl) % prime) as u64;
                let gamma0 = ((b * b + 1 + sg) % prime) as u64;
                let gamma1 = ((b * b * b + 1 + sg) % prime) as u64;
                proof {
                    crate::modular::lemma_mod_ops(b + sl, 0, p);
                    crate::modular::lemma_mod_ops(b * (b + 1) + sl, 0, p);
                    crate::modular::lemma_mod_ops(b * b + 1 + sg, 0, p);
                    crate::modular::lemma_mod_ops(b * b * b + 1 + sg, 0, p);
                }
                lambda.push(field.reduce_u64(lambda0));
                lambda.push(field.reduce_u64(lambda1));
                gamma.push(field.reduce_u64(gamma0));
                gamma.push(field.reduce_u64(gamma1));
                proof {
                    let i0 = 2 * block as int;
                    assert(i0 / 2 == block as int && i0 % 2 == 0);
                    assert((i0 + 1) / 2 == block as int && (i0 + 1) % 2 == 1);
                }
                block += 1;
            }
        },
    }
    proof {
        assert(rvals(lambda@) =~= lambda_spec(p, r as int, shift_lambda, family));
        assert(rvals(gamma@) =~= gamma_spec(p, r as int, shift_gamma, family));
    }
    (lambda, gamma)
}

/// The base blocks of the five letters.
pub fn base_blocks() -> (r: [[[i64; 2]; 2]; ALPHABET_SIZE])
    ensures
        forall|l: int, a: int, b: int|
            0 <= l < 5 && 0 <= a < 2 && 0 <= b < 2 ==> #[trigger] r@[l]@[a]@[b] == base_block(l, a, b),
{
    let r = [
        [[0, 0], [0, 0]],
        [[0, 0], [0, 1]],
        [[1, 0], [0, 0]],
        [[0, 1], [1, 0]],
        [[0, -1], [-1, -1]],
    ];
    r
}

/// The transition matrices of the true automaton of dimension `r`.
pub fn build_kze2_matrices(r: usize, field: &Field) -> (res: Result<Vec<Matrix>, ExperimentError>)
    requires
        field.wf(),
    ensures
        res is Err <==> (r == 0 || r % 2 != 0),
        res matches Ok(ms) ==> ms.len() == ALPHABET_SIZE && is_automaton(*field, ms@, r as int) && (
        forall|l: int, i: int, j: int|
            0 <= l < 5 && 0 <= i < r && 0 <= j < r ==> (#[trigger] ms@[l]@[i]@[j]).val() == field.of(
                kze2_entry(l, i, j),
            )),
{
    if r == 0 || r % 2 != 0 {
        return Err(ExperimentError::InvalidConfig("r must be a positive even integer".to_string()));
    }
    let blocks = base_blocks();
    let ghost p = field.modulus();
    let mut out: Vec<Matrix> = Vec::with_capacity(ALPHABET_SIZE);
    let mut l: usize = 0;
    while l < ALPHABET_SIZE
        invariant
            field.wf(),
            p == field.modulus(),
            r > 0,
            r % 2 == 0,
            forall|l2: int, a: int, b: int|
                0 <= l2 < 5 && 0 <= a < 2 && 0 <= b < 2 ==> #[trigger] blocks@[l2]@[a]@[b] == base_block(l2, a, b),
            l <= ALPHABET_SIZE,
            out.len() == l,
            is_automaton(*field, out@, r as int),
            forall|l2: int, i: int, j: int|
                0 <= l2 < l && 0 <= i < r && 0 <= j < r ==> (#[trigger] out@[l2]@[i]@[j]).val()
                    == field.of(kze2_entry(l2, i, j)),
        decreases ALPHABET_SIZE - l,
    {
        let block = blocks[l];
        let mut mat: Matrix = Vec::with_capacity(r);
        let mut i: usize = 0;
        while i < r
            invariant
                field.wf(),
                p == field.modulus(),
                r > 0,
                r % 2 == 0,
                l < 5,
                forall|a: int, b: int| 0 <= a < 2 && 0 <= b < 2 ==> #[trigger] block@[a]@[b] == base_block(l as int, a, b),
                i <= r,
                is_mat(*field, mat@, i as int, r as int),
                forall|i2: int, j: int|
                    0 <= i2 < i && 0 <= j < r ==> (#[trigger] mat@[i2]@[j]).val() == field.of(
                        kze2_entry(l as int, i2, j),
                    ),
            decreases r - i,
        {
            let block_idx = i / 2;
            let r_idx = i % 2;
            let scale = field.reduce_u64((block_idx + 1) as u64);
            let mut row: Vector = Vec::with_capacity(r);
            let mut j: usize = 0;
            while j < r
                invariant
                    field.wf(),
                    p == field.modulus(),
                    r % 2 == 0,
                    i < r,
                    l < 5,
                    block_idx == i / 2,
                    r_idx == i % 2,
                    scale.val() == field.of(block_idx + 1),
                    field.holds(scale),
                    forall|a: int, b: int| 0 <= a < 2 && 0 <= b < 2 ==> #[trigger] block@[a]@[b] == base_block(l as int, a, b),
                    j <= r,
                    row.len() == j,
                    forall|t: int| 0 <= t < j ==> field.holds(#[trigger] row@[t]),
                    forall|t: int| 0 <= t < j ==> (#[trigger] row@[t]).val() == field.of(kze2_entry(l as int, i as int, t)),
                decreases r - j,
            {
                if j / 2 == block_idx {
                    let c_idx = j % 2;
                    let value = field.reduce_i64(block[r_idx][c_idx]);
                    let entry = field.mul(scale, value);
                    proof {
                        crate::modular::lemma_mod_ops(block_idx + 1, base_block(l as int, r_idx as int, c_idx as int), p);
                    }
                    row.push(entry);
                } else {
                    proof {
                        crate::modular::lemma_small(0, p);
                    }
                    row.push(field.zero());
                }
                j += 1;
            }
            mat.push(row);
            i += 1;
        }
        out.push(mat);
        proof {
            assert forall|l2: int| 0 <= l2 < out.len() implies is_mat(*field, #[trigger] out@[l2]@, r as int, r as int) by {
                if l2 == l {
                    assert(out@[l2] == mat);
                }
            }
        }
        l += 1;
    }
    Ok(out)
}

/// The transition matrices of the true automaton, as integers modulo `p`.
pub open spec fn kze2_mats_spec(p: int, r: int) -> Seq<Seq<Seq<int>>> {
    Seq::new(5, |l: int| Seq::new(r as nat, |i: int| Seq::new(r as nat, |j: int| kze2_entry(l, i, j) % p)))
}

/// Entry `(u, v)` of the Hankel matrix: `lambda * M[u] * M[v] * gamma`.
pub open spec fn hankel_entry(
    p: int,
    lambda: Seq<int>,
    gamma: Seq<int>,
    mats: Seq<Seq<Seq<int>>>,
    u: Seq<u8>,
    v: Seq<u8>,
) -> int {
    idot(run_prefix(p, lambda, mats, u), run_suffix(p, gamma, mats, v), lambda.len() as int) % p
}

/// The entries of `h`, modulo `p`, are those of the Hankel matrix of the
/// automaton over `words` (rows and columns alike).
pub open spec fn hankel_values(
    h: Seq<Vec<Fp>>,
    p: int,
    lambda: Seq<int>,
    gamma: Seq<int>,
    mats: Seq<Seq<Seq<int>>>,
    words: Seq<Seq<u8>>,
) -> bool {
    &&& h.len() == words.len()
    &&& forall|i: int| 0 <= i < h.len() ==> (#[trigger] h[i])@.len() == words.len()
    &&& forall|i: int, j: int|
        0 <= i < words.len() && 0 <= j < words.len() ==> (#[trigger] h[i]@[j]).val() == hankel_entry(
            p,
            lambda,
            gamma,
            mats,
            words[i],
            words[j],
        )
}

/// `h` is the Hankel block of the automaton on the row words `rows_w` and the
/// column words `cols_w`.
pub open spec fn is_hankel(
    field: Field,
    h: Seq<Vec<Fp>>,
    lambda: Seq<int>,
    gamma: Seq<int>,
    mats: Seq<Seq<Seq<int>>>,
    rows_w: Seq<Seq<u8>>,
    cols_w: Seq<Seq<u8>>,
) -> bool {
    &&& is_mat(field, h, rows_w.len() as int, cols_w.len() as int)
    &&& forall|i: int, j: int|
        0 <= i < rows_w.len() && 0 <= j < cols_w.len() ==> (#[trigger] h[i]@[j]).val()
            == hankel_entry(field.modulus(), lambda, gamma, mats, rows_w[i], cols_w[j])
}

/// The words of `ws`, each followed by letter `l`.
pub open spec fn append_letter(ws: Seq<Seq<u8>>, l: int) -> Seq<Seq<u8>> {
    ws.map_values(|w: Seq<u8>| w.push(l as u8))
}

/// Every word of `ws` is over `count` letters.
pub open spec fn all_letters_below(ws: Seq<Seq<u8>>, count: int) -> bool {
    forall|i: int| 0 <= i < ws.len() ==> letters_below(#[trigger] ws[i], count)
}

/// For each word, the row `lambda * M[word]`.
pub fn compute_prefix_rows(words: &Vec<Word>, matrices: &Vec<Matrix>, lambda: &Vector, field: &Field) -> (r: Vec<Vector>)
    requires
        field.wf(),
        lambda.len() > 0,
        is_vec(*field, lambda@, lambda.len() as int),
        is_automaton(*field, matrices@, lambda.len() as int),
        all_letters_below(views(words@), matrices.len() as int),
    ensures
        r.len() == words.len(),
        forall|i: int| 0 <= i < words.len() ==> is_vec(*field, #[trigger] r@[i]@, lambda.len() as int),
        forall|i: int|
            0 <= i < words.len() ==> rvals(#[trigger] r@[i]@) == run_prefix(
                field.modulus(),
                rvals(lambda@),
                mats_vals(matrices@),
                views(words@)[i],
            ),
{
    let mut out: Vec<Vector> = Vec::with_capacity(words.len());
    let mut i: usize = 0;
    while i < words.len()
        invariant
            field.wf(),
            lambda.len() > 0,
            is_vec(*field, lambda@, lambda.len() as int),
            is_automaton(*field, matrices@, lambda.len() as int),
            all_letters_below(views(words@), matrices.len() as int),
            i <= words.len(),
            out.len() == i,
            forall|t: int| 0 <= t < i ==> is_vec(*field, #[trigger] out@[t]@, lambda.len() as int),
            forall|t: int|
                0 <= t < i ==> rvals(#[trigger] out@[t]@) == run_prefix(
                    field.modulus(),
                    rvals(lambda@),
                    mats_vals(matrices@),
                    views(words@)[t],
                ),
        decreases words.len() - i,
    {
        assert(views(words@)[i as int] == words@[i as int]@);
        assert(letters_below(views(words@)[i as int], matrices.len() as int));
        let row = run_word_prefix(lambda, matrices, words[i].as_slice(), field);
        out.push(row);
        i += 1;
    }
    out
}

/// For each word, the column `M[word] * gamma`.
pub fn compute_suffix_cols(words: &Vec<Word>, matrices: &Vec<Matrix>, gamma: &Vector, field: &Field) -> (r: Vec<Vector>)
    requires
        field.wf(),
        gamma.len() > 0,
        is_vec(*field, gamma@, gamma.len() as int),
        is_automaton(*field, matrices@, gamma.len() as int),
        all_letters_below(views(words@), matrices.len() as int),
    ensures
        r.len() == words.len(),
        forall|i: int| 0 <= i < words.len() ==> is_vec(*field, #[trigger] r@[i]@, gamma.len() as int),
        forall|i: int|
            0 <= i < words.len() ==> rvals(#[trigger] r@[i]@) == run_suffix(
                field.modulus(),
                rvals(gamma@),
                mats_vals(matrices@),
                views(words@)[i],
            ),
{
    let mut out: Vec<Vector> = Vec::with_capacity(words.len());
    let mut i: usize = 0;
    while i < words.len()
        invariant
            field.wf(),
            gamma.len() > 0,
            is_vec(*field, gamma@, gamma.len() as int),
            is_automaton(*field, matrices@, gamma.len() as int),
            all_letters_below(views(words@), matrices.len() as int),
            i <= words.len(),
            out.len() == i,
            forall|t: int| 0 <= t < i ==> is_vec(*field, #[trigger] out@[t]@, gamma.len() as int),
            forall|t: int|
                0 <= t < i ==> rvals(#[trigger] out@[t]@) == run_suffix(
                    field.modulus(),
                    rvals(gamma@),
                    mats_vals(matrices@),
                    views(words@)[t],
                ),
        decreases words.len() - i,
    {
        assert(views(words@)[i as int] == words@[i as int]@);
        assert(letters_below(views(words@)[i as int], matrices.len() as int));
        let col = run_word_suffix(gamma, matrices, words[i].as_slice(), field);
        out.push(col);
        i += 1;
    }
    out
}

/// The matrix of `dot(rows[i], cols[j])`.
fn dot_table(rows: &Vec<Vector>, cols: &Vec<Vector>, n: usize, field: &Field) -> (r: Matrix)
    requires
        field.wf(),
        forall|i: int| 0 <= i < rows.len() ==> is_vec(*field, #[trigger] rows@[i]@, n as int),
        forall|j: int| 0 <= j < cols.len() ==> is_vec(*field, #[trigger] cols@[j]@, n as int),
    ensures
        is_mat(*field, r@, rows.len() as int, cols.len() as int),
        forall|i: int, j: int|
            0 <= i < rows.len() && 0 <= j < cols.len() ==> (#[trigger] r@[i]@[j]).val() == idot(
                rvals(rows@[i]@),
                rvals(cols@[j]@),
                n as int,
            ) % field.modulus(),
{
    let mut out: Matrix = Vec::with_capacity(rows.len());
    let mut i: usize = 0;
    while i < rows.len()
        invariant
            field.wf(),
            forall|t: int| 0 <= t < rows.len() ==> is_vec(*field, #[trigger] rows@[t]@, n as int),
            forall|t: int| 0 <= t < cols.len() ==> is_vec(*field, #[trigger] cols@[t]@, n as int),
            i <= rows.len(),
            is_mat(*field, out@, i as int, cols.len() as int),
            forall|t: int, j: int|
                0 <= t < i && 0 <= j < cols.len() ==> (#[trigger] out@[t]@[j]).val() == idot(
                    rvals(rows@[t]@),
                    rvals(cols@[j]@),
                    n as int,
                ) % field.modulus(),
        decreases rows.len() - i,
    {
        let mut row: Vector = Vec::with_capacity(cols.len());
        let mut j: usize = 0;
        while j < cols.len()
            invariant
                field.wf(),
                i < rows.len(),
                is_vec(*field, rows@[i as int]@, n as int),
                forall|t: int| 0 <= t < cols.len() ==> is_vec(*field, #[trigger] cols@[t]@, n as int),
                j <= cols.len(),
                row.len() == j,
                forall|t: int| 0 <= t < j ==> field.holds(#[trigger] row@[t]),
                forall|t: int|
                    0 <= t < j ==> (#[trigger] row@[t]).val() == idot(
                        rvals(rows@[i as int]@),
                        rvals(cols@[t]@),
                        n as int,
                    ) % field.modulus(),
            decreases cols.len() - j,
        {
            assert(is_vec(*field, cols@[j as int]@, n as int));
            let v = dot(rows[i].as_slice(), cols[j].as_slice(), field);
            row.push(v);
            j += 1;
        }
        out.push(row);
        i += 1;
    }
    out
}

/// The Hankel matrix of `(lambda, matrices, gamma)` on `words` and, for each
/// letter, the Hankel matrix shifted by that letter.
pub fn build_hankel(
    words: &Vec<Word>,
    matrices: &Vec<Matrix>,
    lambda: &Vector,
    gamma: &Vector,
    field: &Field,
) -> (res: (Matrix, Vec<Matrix>))
    requires
        field.wf(),
        words.len() > 0,
        lambda.len() > 0,
        gamma.len() == lambda.len(),
        matrices.len() == ALPHABET_SIZE,
        is_vec(*field, lambda@, lambda.len() as int),
        is_vec(*field, gamma@, lambda.len() as int),
        is_automaton(*field, matrices@, lambda.len() as int),
        all_letters_below(views(words@), ALPHABET_SIZE as int),
    ensures
        is_hankel(*field, res.0@, rvals(lambda@), rvals(gamma@), mats_vals(matrices@), views(words@), views(words@)),
        res.1.len() == ALPHABET_SIZE,
        forall|l: int|
            0 <= l < ALPHABET_SIZE ==> is_hankel(
                *field,
                #[trigger] res.1@[l]@,
                rvals(lambda@),
                rvals(gamma@),
                mats_vals(matrices@),
                append_letter(views(words@), l),
                views(words@),
            ),
{
    let ghost p = field.modulus();
    let ghost lam = rvals(lambda@);
    let ghost gam = rvals(gamma@);
    let ghost ms = mats_vals(matrices@);
    let ghost ws = views(words@);
    let n = lambda.len();
    let prefix_rows = compute_prefix_rows(words, matrices, lambda, field);
    let suffix_cols = compute_suffix_cols(words, matrices, gamma, field);
    let hankel = dot_table(&prefix_rows, &suffix_cols, n, field);
    proof {
        assert(lam.len() == n);
    }
    let mut hankel_shifted: Vec<Matrix> = Vec::with_capacity(ALPHABET_SIZE);
    let mut letter: usize = 0;
    while letter < ALPHABET_SIZE
        invariant
            field.wf(),
            p == field.modulus(),
            lam == rvals(lambda@),
            gam == rvals(gamma@),
            ms == mats_vals(matrices@),
            ws == views(words@),
            n == lambda.len(),
            n > 0,
            matrices.len() == ALPHABET_SIZE,
            is_automaton(*field, matrices@, n as int),
            prefix_rows.len() == words.len(),
            suffix_cols.len() == words.len(),
            forall|i: int| 0 <= i < words.len() ==> is_vec(*field, #[trigger] prefix_rows@[i]@, n as int),
            forall|i: int| 0 <= i < words.len() ==> is_vec(*field, #[trigger] suffix_cols@[i]@, n as int),
            forall|i: int| 0 <= i < words.len() ==> rvals(#[trigger] prefix_rows@[i]@) == run_prefix(p, lam, ms, ws[i]),
            forall|i: int| 0 <= i < words.len() ==> rvals(#[trigger] suffix_cols@[i]@) == run_suffix(p, gam, ms, ws[i]),
            letter <= ALPHABET_SIZE,
            hankel_shifted.len() == letter,
            forall|l: int|
                0 <= l < letter ==> is_hankel(
                    *field,
                    #[trigger] hankel_shifted@[l]@,
                    lam,
                    gam,
                    ms,
                    append_letter(ws, l),
                    ws,
                ),
        decreases ALPHABET_SIZE - letter,
    {
        let mut shifted_rows: Vec<Vector> = Vec::with_capacity(words.len());
        let mut i: usize = 0;
        while i < words.len()
            invariant
                field.wf(),
                p == field.modulus(),
                lam == rvals(lambda@),
                ms == mats_vals(matrices@),
                ws == views(words@),
                n == lambda.len(),
                n > 0,
                letter < ALPHABET_SIZE,
                matrices.len() == ALPHABET_SIZE,
                is_automaton(*field, matrices@, n as int),
                prefix_rows.len() == words.len(),
                forall|t: int| 0 <= t < words.len() ==> is_vec(*field, #[trigger] prefix_rows@[t]@, n as int),
                forall|t: int| 0 <= t < words.len() ==> rvals(#[trigger] prefix_rows@[t]@) == run_prefix(p, lam, ms, ws[t]),
                i <= words.len(),
                shifted_rows.len() == i,
                forall|t: int| 0 <= t < i ==> is_vec(*field, #[trigger] shifted_rows@[t]@, n as int),
                forall|t: int|
                    0 <= t < i ==> rvals(#[trigger] shifted_rows@[t]@) == run_prefix(p, lam, ms, ws[t].push(letter as u8)),
            decreases words.len() - i,
        {
            assert(is_mat(*field, matrices@[letter as int]@, n as int, n as int));
            let row = vec_mat_mul(prefix_rows[i].as_slice(), &matrices[letter], field);
            proof {
                let w = ws[i as int].push(letter as u8);
                assert(w.drop_last() =~= ws[i as int]);
                assert(ms[letter as int] == mvals(matrices@[letter as int]@));
            }
            shifted_rows.push(row);
            i += 1;
        }
        let ha = dot_table(&shifted_rows, &suffix_cols, n, field);
        proof {
            assert forall|i: int| 0 <= i < ws.len() implies #[trigger] append_letter(ws, letter as int)[i] == ws[i].push(letter as u8) by {
            }
        }
        hankel_shifted.push(ha);
        proof {
            assert forall|l: int| 0 <= l < letter + 1 implies is_hankel(
                *field,
                #[trigger] hankel_shifted@[l]@,
                lam,
                gam,
                ms,
                append_letter(ws, l),
                ws,
            ) by {
                if l == letter {
                    assert(hankel_shifted@[l] == ha);
                }
            }
        }
        letter += 1;
    }
    (hankel, hankel_shifted)
}

/// The weight of `word` in the true automaton `(lambda, matrices, gamma)`.
pub fn eval_true(lambda: &Vector, gamma: &Vector, matrices: &Vec<Matrix>, word: &[LetterId], field: &Field) -> (r: Fp)
    requires
        field.wf(),
        lambda.len() > 0,
        gamma.len() == lambda.len(),
        is_vec(*field, lambda@, lambda.len() as int),
        is_vec(*field, gamma@, lambda.len() as int),
        is_automaton(*field, matrices@, lambda.len() as int),
        letters_below(word@, matrices.len() as int),
    ensures
        field.holds(r),
        r.val() == wfa_value(field.modulus(), rvals(lambda@), rvals(gamma@), mats_vals(matrices@), word@),
{
    let state = run_word_prefix(lambda, matrices, word, field);
    dot(state.as_slice(), gamma.as_slice(), field)
}

/// The number of indices `i < n` on which two automata disagree on the
/// `i`-th word of length `len`.
pub open spec fn mismatch_count(
    p: int,
    a1: Seq<int>,
    b1: Seq<int>,
    m1: Seq<Seq<Seq<int>>>,
    a2: Seq<int>,
    b2: Seq<int>,
    m2: Seq<Seq<Seq<int>>>,
    len: nat,
    n: int,
) -> int
    decreases n,
{
    if n <= 0 {
        0
    } else {
        mismatch_count(p, a1, b1, m1, a2, b2, m2, len, n - 1) + if wfa_value(
            p,
            a1,
            b1,
            m1,
            word_at(n - 1, len, 5),
        ) != wfa_value(p, a2, b2, m2, word_at(n - 1, len, 5)) {
            1int
        } else {
            0int
        }
    }
}

proof fn lemma_word_at_letters(i: int, len: nat)
    ensures
        letters_below(word_at(i, len, 5), 5),
{
    assert forall|k: int| 0 <= k < len implies (#[trigger] word_at(i, len, 5)[k]) < 5 by {
        let d = crate::modular::pow(5, (len - 1 - k) as nat);
        vstd::arithmetic::div_mod::lemma_mod_bound(i / d, 5);
    }
}

/// Counts the words of length `holdout_len` on which the learned automaton
/// and the true one disagree.
pub fn exhaustive_holdout(
    holdout_len: usize,
    matrices: &Vec<Matrix>,
    lambda: &Vector,
    gamma: &Vector,
    model: &SpectralModel,
    field: &Field,
) -> (r: usize)
    requires
        field.wf(),
        crate::modular::pow(5, holdout_len as nat) <= usize::MAX,
        lambda.len() > 0,
        gamma.len() == lambda.len(),
        matrices.len() == ALPHABET_SIZE,
        is_vec(*field, lambda@, lambda.len() as int),
        is_vec(*field, gamma@, lambda.len() as int),
        is_automaton(*field, matrices@, lambda.len() as int),
        is_model(*field, *model, ALPHABET_SIZE as int),
    ensures
        r == mismatch_count(
            field.modulus(),
            rvals(model.alpha@),
            rvals(model.beta@),
            mats_vals(model.transitions@),
            rvals(lambda@),
            rvals(gamma@),
            mats_vals(matrices@),
            holdout_len as nat,
            crate::modular::pow(5, holdout_len as nat),
        ),
{
    let ghost p = field.modulus();
    let total = count_holdout(holdout_len);
    let mut mismatches: usize = 0;
    let mut index: usize = 0;
    while index < total
        invariant
            field.wf(),
            p == field.modulus(),
            total == crate::modular::pow(5, holdout_len as nat),
            lambda.len() > 0,
            gamma.len() == lambda.len(),
            matrices.len() == ALPHABET_SIZE,
            is_vec(*field, lambda@, lambda.len() as int),
            is_vec(*field, gamma@, lambda.len() as int),
            is_automaton(*field, matrices@, lambda.len() as int),
            is_model(*field, *model, ALPHABET_SIZE as int),
            index <= total,
            mismatches <= index,
            mismatches == mismatch_count(
                p,
                rvals(model.alpha@),
                rvals(model.beta@),
                mats_vals(model.transitions@),
                rvals(lambda@),
                rvals(gamma@),
                mats_vals(matrices@),
                holdout_len as nat,
                index as int,
            ),
        decreases total - index,
    {
        let word = word_from_index(index, holdout_len, ALPHABET_SIZE);
        proof {
            lemma_word_at_letters(index as int, holdout_len as nat);
        }
        let pred = eval_wfa(&model.alpha, &model.beta, &model.transitions, word.as_slice(), field);
        let truth = eval_true(lambda, gamma, matrices, word.as_slice(), field);
        proof {
            lemma_fp_eq(pred, truth);
        }
        if pred != truth {
            mismatches += 1;
        }
        index += 1;
    }
    mismatches
}

/// `5` to the power `len`.
fn count_holdout(len: usize) -> (r: usize)
    requires
        crate::modular::pow(5, len as nat) <= usize::MAX,
    ensures
        r == crate::modular::pow(5, len as nat),
{
    let mut total: usize = 1;
    let mut t: usize = 0;
    while t < len
        invariant
            t <= len,
            total == crate::modular::pow(5, t as nat),
            crate::modular::pow(5, len as nat) <= usize::MAX,
        decreases len - t,
    {
        proof {
            words::lemma_pow_monotone(5, (t + 1) as nat, len as nat);
        }
        total = total * 5;
        t += 1;
    }
    total
}

/// The candidate of `family` with shifts `sl`, `sg` yields these vectors and
/// Hankel blocks.
#[verifier::opaque]
pub open spec fn is_candidate(
    field: Field,
    words: Seq<Seq<u8>>,
    mats: Seq<Seq<Seq<int>>>,
    r: int,
    family: CandidateFamily,
    sl: u64,
    sg: u64,
    res: (Vector, Vector, Matrix, Vec<Matrix>, usize),
) -> bool {
    let p = field.modulus();
    let lam = lambda_spec(p, r, sl, family);
    let gam = gamma_spec(p, r, sg, family);
    &&& sl < MAX_LAMBDA_GAMMA_SHIFT
    &&& sg < MAX_LAMBDA_GAMMA_SHIFT
    &&& rvals(res.0@) == lam
    &&& rvals(res.1@) == gam
    &&& is_vec(field, res.0@, r)
    &&& is_vec(field, res.1@, r)
    &&& is_hankel(field, res.2@, lam, gam, mats, words, words)
    &&& res.3.len() == ALPHABET_SIZE
    &&& (forall|l: int|
        0 <= l < ALPHABET_SIZE ==> is_hankel(
            field,
            #[trigger] res.3@[l]@,
            lam,
            gam,
            mats,
            append_letter(words, l),
            words,
        ))
    &&& 1 <= res.4 <= words.len()
}

/// Every entry of the Hankel block of the candidate of `family` with shifts
/// `sl`, `sg` on the words `words` is 0.
pub open spec fn candidate_zero(
    field: Field,
    words: Seq<Seq<u8>>,
    mats: Seq<Seq<Seq<int>>>,
    r: int,
    family: CandidateFamily,
    sl: u64,
    sg: u64,
) -> bool {
    let p = field.modulus();
    forall|i: int, j: int|
        0 <= i < words.len() && 0 <= j < words.len() ==> #[trigger] hankel_entry(
            p,
            lambda_spec(p, r, sl, family),
            gamma_spec(p, r, sg, family),
            mats,
            words[i],
            words[j],
        ) == 0
}

/// Builds the candidate of `family` with the given shifts and the rank of
/// its Hankel matrix.
fn try_candidate(
    words: &Vec<Word>,
    matrices: &Vec<Matrix>,
    field: &Field,
    target_rank: usize,
    family: CandidateFamily,
    shift_lambda: usize,
    shift_gamma: usize,
) -> (res: Result<(Vector, Vector, Matrix, Vec<Matrix>, usize), ExperimentError>)
    requires
        field.wf(),
        words.len() > 0,
        target_rank > 0,
        target_rank % 2 == 0,
        target_rank < 0x1_0000_0000,
        shift_lambda < MAX_LAMBDA_GAMMA_SHIFT,
        shift_gamma < MAX_LAMBDA_GAMMA_SHIFT,
        matrices.len() == ALPHABET_SIZE,
        is_automaton(*field, matrices@, target_rank as int),
        all_letters_below(views(words@), ALPHABET_SIZE as int),
    ensures
        res matches Ok(c) ==> (c.4 >= 1 ==> is_candidate(
            *field,
            views(words@),
            mats_vals(matrices@),
            target_rank as int,
            family,
            shift_lambda as u64,
            shift_gamma as u64,
            c,
        )),
        res matches Ok(c) ==> (c.4 == 0 <==> candidate_zero(
            *field,
            views(words@),
            mats_vals(matrices@),
            target_rank as int,
            family,
            shift_lambda as u64,
            shift_gamma as u64,
        )),
        linalg::units_invertible(field.modulus()) ==> res is Ok,
{
    let (lambda, gamma) = build_lambda_gamma(field, target_rank, shift_lambda as u64, shift_gamma as u64, family);
    proof {
        assert(lambda@.len() == target_rank) by {
            assert(rvals(lambda@).len() == lambda@.len());
            assert(2 * (target_rank as int / 2) == target_rank);
        }
        assert(gamma@.len() == target_rank) by {
            assert(rvals(gamma@).len() == gamma@.len());
            assert(2 * (target_rank as int / 2) == target_rank);
        }
    }
    let (hankel, hankel_shifted) = build_hankel(words, matrices, &lambda, &gamma, field);
    let pivots = pivot_columns(&hankel, field)?;
    let rank = pivots.len();
    proof {
        let ws = views(words@);
        let ms = mats_vals(matrices@);
        let p = field.modulus();
        assert(hankel@.len() == ws.len());
        if linalg::mat_zero(hankel@) {
            assert forall|i: int, j: int| 0 <= i < ws.len() && 0 <= j < ws.len() implies #[trigger] hankel_entry(
                p,
                lambda_spec(p, target_rank as int, shift_lambda as u64, family),
                gamma_spec(p, target_rank as int, shift_gamma as u64, family),
                ms,
                ws[i],
                ws[j],
            ) == 0 by {
                assert(hankel@[i]@.len() == ws.len());
                assert(hankel@[i]@[j].val() == 0);
            }
        }
        if candidate_zero(*field, ws, ms, target_rank as int, family, shift_lambda as u64, shift_gamma as u64) {
            assert forall|i: int, j: int| 0 <= i < hankel@.len() && 0 <= j < hankel@[i]@.len() implies (#[trigger] hankel@[i]@[j]).val() == 0 by {
                assert(hankel@[i]@.len() == ws.len());
                assert(hankel_entry(
                    p,
                    lambda_spec(p, target_rank as int, shift_lambda as u64, family),
                    gamma_spec(p, target_rank as int, shift_gamma as u64, family),
                    ms,
                    ws[i],
                    ws[j],
                ) == 0);
            }
        }
    }
    let ghost cand = (lambda, gamma, hankel, hankel_shifted, rank);
    proof {
        if rank >= 1 {
            reveal(is_candidate);
        }
    }
    Ok((lambda, gamma, hankel, hankel_shifted, rank))
}

/// Tries the candidate vectors in a fixed order and keeps the first whose
/// Hankel matrix reaches `target_rank`, or else the one of largest rank.
pub fn choose_lambda_gamma(
    words: &Vec<Word>,
    matrices: &Vec<Matrix>,
    field: &Field,
    target_rank: usize,
) -> (res: Result<(Vector, Vector, Matrix, Vec<Matrix>, usize), ExperimentError>)
    requires
        field.wf(),
        words.len() > 0,
        target_rank > 0,
        target_rank % 2 == 0,
        target_rank < 0x1_0000_0000,
        matrices.len() == ALPHABET_SIZE,
        is_automaton(*field, matrices@, target_rank as int),
        all_letters_below(views(words@), ALPHABET_SIZE as int),
    ensures
        res matches Ok(c) ==> exists|family: CandidateFamily, sl: u64, sg: u64|
            is_candidate(*field, views(words@), mats_vals(matrices@), target_rank as int, family, sl, sg, c),
        linalg::units_invertible(field.modulus()) ==> (res is Err <==> forall|family: CandidateFamily, sl: u64, sg: u64|
            sl < MAX_LAMBDA_GAMMA_SHIFT && sg < MAX_LAMBDA_GAMMA_SHIFT ==> #[trigger] candidate_zero(
                *field,
                views(words@),
                mats_vals(matrices@),
                target_rank as int,
                family,
                sl,
                sg,
            )),
{
    let ghost ws = views(words@);
    let ghost ms = mats_vals(matrices@);
    let ghost units = linalg::units_invertible(field.modulus());
    let families = CandidateFamily::all();
    let mut best_rank: usize = 0;
    let mut best: Option<(Vector, Vector, Matrix, Vec<Matrix>, usize)> = None;
    let ghost mut best_fam = CandidateFamily::Lcg;
    let ghost mut best_sl: u64 = 0;
    let ghost mut best_sg: u64 = 0;
    let mut fi: usize = 0;
    while fi < 3
        invariant
            field.wf(),
            ws == views(words@),
            ms == mats_vals(matrices@),
            words.len() > 0,
            target_rank > 0,
            target_rank % 2 == 0,
            target_rank < 0x1_0000_0000,
            matrices.len() == ALPHABET_SIZE,
            is_automaton(*field, matrices@, target_rank as int),
            all_letters_below(ws, ALPHABET_SIZE as int),
            fi <= 3,
            families@.len() == 3,
            best is None <==> best_rank == 0,
            best matches Some(c) ==> c.4 == best_rank && is_candidate(*field, ws, ms, target_rank as int, best_fam, best_sl, best_sg, c),
            units == linalg::units_invertible(field.modulus()),
            best is Some ==> best_sl < MAX_LAMBDA_GAMMA_SHIFT && best_sg < MAX_LAMBDA_GAMMA_SHIFT && !candidate_zero(
                *field, ws, ms, target_rank as int, best_fam, best_sl, best_sg),
            families@ == seq![CandidateFamily::Lcg, CandidateFamily::GlobalLinearQuadratic, CandidateFamily::BlockMixed],
            best is None ==> forall|f: int, sl: u64, sg: u64|
                0 <= f < fi && sl < MAX_LAMBDA_GAMMA_SHIFT && sg < MAX_LAMBDA_GAMMA_SHIFT ==> #[trigger] candidate_zero(
                    *field, ws, ms, target_rank as int, families@[f], sl, sg),
        decreases 3 - fi,
    {
        let family = families[fi];
        let mut shift_lambda: usize = 0;
        while shift_lambda < MAX_LAMBDA_GAMMA_SHIFT
            invariant
                field.wf(),
                ws == views(words@),
                ms == mats_vals(matrices@),
                words.len() > 0,
                target_rank > 0,
                target_rank % 2 == 0,
                target_rank < 0x1_0000_0000,
                matrices.len() == ALPHABET_SIZE,
                is_automaton(*field, matrices@, target_rank as int),
                all_letters_below(ws, ALPHABET_SIZE as int),
                shift_lambda <= MAX_LAMBDA_GAMMA_SHIFT,
                best is None <==> best_rank == 0,
                best matches Some(c) ==> c.4 == best_rank && is_candidate(*field, ws, ms, target_rank as int, best_fam, best_sl, best_sg, c),
                units == linalg::units_invertible(field.modulus()),
                best is Some ==> best_sl < MAX_LAMBDA_GAMMA_SHIFT && best_sg < MAX_LAMBDA_GAMMA_SHIFT && !candidate_zero(
                    *field, ws, ms, target_rank as int, best_fam, best_sl, best_sg),
                families@ == seq![CandidateFamily::Lcg, CandidateFamily::GlobalLinearQuadratic, CandidateFamily::BlockMixed],
                fi < 3,
                family == families@[fi as int],
                best is None ==> forall|f: int, sl: u64, sg: u64|
                    0 <= f < fi && sl < MAX_LAMBDA_GAMMA_SHIFT && sg < MAX_LAMBDA_GAMMA_SHIFT ==> #[trigger] candidate_zero(
                        *field, ws, ms, target_rank as int, families@[f], sl, sg),
                best is None ==> forall|sl: u64, sg: u64|
                    sl < shift_lambda && sg < MAX_LAMBDA_GAMMA_SHIFT ==> #[trigger] candidate_zero(
                        *field, ws, ms, target_rank as int, family, sl, sg),
            decreases MAX_LAMBDA_GAMMA_SHIFT - shift_lambda,
        {
            let mut shift_gamma: usize = 0;
            while shift_gamma < MAX_LAMBDA_GAMMA_SHIFT
                invariant
                    field.wf(),
                    ws == views(words@),
                    ms == mats_vals(matrices@),
                    words.len() > 0,
                    target_rank > 0,
                    target_rank % 2 == 0,
                    target_rank < 0x1_0000_0000,
                    matrices.len() == ALPHABET_SIZE,
                    is_automaton(*field, matrices@, target_rank as int),
                    all_letters_below(ws, ALPHABET_SIZE as int),
                    shift_lambda < MAX_LAMBDA_GAMMA_SHIFT,
                    shift_gamma <= MAX_LAMBDA_GAMMA_SHIFT,
                    best is None <==> best_rank == 0,
                    best matches Some(c) ==> c.4 == best_rank && is_candidate(*field, ws, ms, target_rank as int, best_fam, best_sl, best_sg, c),
                    units == linalg::units_invertible(field.modulus()),
                    best is Some ==> best_sl < MAX_LAMBDA_GAMMA_SHIFT && best_sg < MAX_LAMBDA_GAMMA_SHIFT && !candidate_zero(
                        *field, ws, ms, target_rank as int, best_fam, best_sl, best_sg),
                    families@ == seq![CandidateFamily::Lcg, CandidateFamily::GlobalLinearQuadratic, CandidateFamily::BlockMixed],
                    fi < 3,
                    family == families@[fi as int],
                    best is None ==> forall|f: int, sl: u64, sg: u64|
                        0 <= f < fi && sl < MAX_LAMBDA_GAMMA_SHIFT && sg < MAX_LAMBDA_GAMMA_SHIFT ==> #[trigger] candidate_zero(
                            *field, ws, ms, target_rank as int, families@[f], sl, sg),
                    best is None ==> forall|sl: u64, sg: u64|
                        sl < shift_lambda && sg < MAX_LAMBDA_GAMMA_SHIFT ==> #[trigger] candidate_zero(
                            *field, ws, ms, target_rank as int, family, sl, sg),
                    best is None ==> forall|sg: u64|
                        sg < shift_gamma ==> #[trigger] candidate_zero(
                            *field, ws, ms, target_rank as int, family, shift_lambda as u64, sg),
                decreases MAX_LAMBDA_GAMMA_SHIFT - shift_gamma,
            {
                let cand = try_candidate(words, matrices, field, target_rank, family, shift_lambda, shift_gamma)?;
                let rank = cand.4;
                if rank == target_rank {
                    proof {
                        assert(!candidate_zero(*field, ws, ms, target_rank as int, family, shift_lambda as u64, shift_gamma as u64));
                    }
                    return Ok(cand);
                }
                if rank > best_rank {
                    best_rank = rank;
                    best = Some(cand);
                    proof {
                        best_fam = family;
                        best_sl = shift_lambda as u64;
                        best_sg = shift_gamma as u64;
                    }
                }
                shift_gamma += 1;
            }
            proof {
                if best is None {
                    assert forall|sl: u64, sg: u64| sl < shift_lambda + 1 && sg < MAX_LAMBDA_GAMMA_SHIFT implies #[trigger] candidate_zero(
                        *field, ws, ms, target_rank as int, family, sl, sg) by {
                        if sl == shift_lambda {
                            assert(candidate_zero(*field, ws, ms, target_rank as int, family, shift_lambda as u64, sg));
                        }
                    }
                }
            }
            shift_lambda += 1;
        }
        proof {
            if best is None {
                assert forall|f: int, sl: u64, sg: u64|
                    0 <= f < fi + 1 && sl < MAX_LAMBDA_GAMMA_SHIFT && sg < MAX_LAMBDA_GAMMA_SHIFT implies #[trigger] candidate_zero(
                        *field, ws, ms, target_rank as int, families@[f], sl, sg) by {
                    if f == fi {
                        assert(candidate_zero(*field, ws, ms, target_rank as int, family, sl, sg));
                    }
                }
            }
        }
        fi += 1;
    }
    proof {
        if best is None {
            assert forall|family: CandidateFamily, sl: u64, sg: u64|
                sl < MAX_LAMBDA_GAMMA_SHIFT && sg < MAX_LAMBDA_GAMMA_SHIFT implies #[trigger] candidate_zero(
                    *field, ws, ms, target_rank as int, family, sl, sg) by {
                match family {
                    CandidateFamily::Lcg => {
                        assert(candidate_zero(*field, ws, ms, target_rank as int, families@[0], sl, sg));
                    },
                    CandidateFamily::GlobalLinearQuadratic => {
                        assert(candidate_zero(*field, ws, ms, target_rank as int, families@[1], sl, sg));
                    },
                    CandidateFamily::BlockMixed => {
                        assert(candidate_zero(*field, ws, ms, target_rank as int, families@[2], sl, sg));
                    },
                }
            }
        }
    }
    if let Some(best) = best {
        assert(is_candidate(*field, views(words@), mats_vals(matrices@), target_rank as int, best_fam, best_sl, best_sg, best));
        let r: Result<(Vector, Vector, Matrix, Vec<Matrix>, usize), ExperimentError> = Ok(best);
        assert(r matches Ok(c) && is_candidate(*field, views(words@), mats_vals(matrices@), target_rank as int, best_fam, best_sl, best_sg, c));
        return r;
    }
    Err(ExperimentError::InvalidConfig(
        "failed to find nonzero rank after 192 deterministic attempts".to_string(),
    ))
}

pub proof fn lemma_words_upto_letters(max_len: nat)
    ensures
        all_letters_below(words::words_upto_spec(max_len, 5), 5),
    decreases max_len,
{
    let ws = words::words_upto_spec(max_len, 5);
    if max_len > 0 {
        lemma_words_upto_letters((max_len - 1) as nat);
    }
    assert forall|i: int| 0 <= i < ws.len() implies letters_below(#[trigger] ws[i], 5) by {
        if max_len == 0 {
            lemma_word_at_letters(i, 0);
        } else {
            let prev = words::words_upto_spec((max_len - 1) as nat, 5);
            if i >= prev.len() {
                lemma_word_at_letters(i - prev.len(), max_len);
            }
        }
    }
}

/// Runs the experiment: the true automaton of dimension `r`, its Hankel
/// matrix on the words of length at most `prefix_len`, the learned automaton,
/// and the count of holdout words on which the two disagree.
pub fn run_kze2_hankel_mvp(cfg: &Kze2HankelMvpConfig) -> (res: Result<Kze2HankelMvpReport, ExperimentError>)
    requires
        count_upto(cfg.prefix_len as nat, ALPHABET_SIZE as int) <= usize::MAX,
        cfg.r < 0x1_0000_0000,
    ensures
        (cfg.r == 0 || cfg.r % 2 != 0 || cfg.prefix_len == 0 || cfg.prime < 2 || cfg.r > count_upto(
            cfg.prefix_len as nat,
            5,
        ) || crate::modular::pow(5, cfg.holdout_len as nat) > u64::MAX) ==> res is Err,
        res matches Ok(rep) ==> {
            &&& rep.r == cfg.r
            &&& rep.prime == cfg.prime
            &&& rep.prefix_len == cfg.prefix_len
            &&& rep.holdout_len == cfg.holdout_len
            &&& rep.w_train == 2 * cfg.prefix_len + 1
            &&& rep.total_holdout_words == crate::modular::pow(5, cfg.holdout_len as nat)
            &&& 1 <= rep.hankel_rank <= count_upto(cfg.prefix_len as nat, 5)
            &&& exists|family: CandidateFamily, sl: u64, sg: u64, a: Seq<int>, b: Seq<int>, t: Seq<Seq<Seq<int>>>, h: Seq<Vec<Fp>>|
                sl < MAX_LAMBDA_GAMMA_SHIFT && sg < MAX_LAMBDA_GAMMA_SHIFT && a.len() == rep.hankel_rank
                    && hankel_values(
                    h,
                    cfg.prime as int,
                    lambda_spec(cfg.prime as int, cfg.r as int, sl, family),
                    gamma_spec(cfg.prime as int, cfg.r as int, sg, family),
                    kze2_mats_spec(cfg.prime as int, cfg.r as int),
                    words::words_upto_spec(cfg.prefix_len as nat, 5),
                ) && rep.hankel_rank == linalg::column_rank(
                    h,
                    count_upto(cfg.prefix_len as nat, 5),
                    count_upto(cfg.prefix_len as nat, 5),
                    cfg.prime as int,
                )
                    && rep.mismatches == mismatch_count(
                    cfg.prime as int,
                    a,
                    b,
                    t,
                    lambda_spec(cfg.prime as int, cfg.r as int, sl, family),
                    gamma_spec(cfg.prime as int, cfg.r as int, sg, family),
                    kze2_mats_spec(cfg.prime as int, cfg.r as int),
                    cfg.holdout_len as nat,
                    crate::modular::pow(5, cfg.holdout_len as nat),
                )
        },
{
    if cfg.r == 0 || cfg.r % 2 != 0 {
        return Err(ExperimentError::InvalidConfig("r must be a positive even integer".to_string()));
    }
    if cfg.prefix_len == 0 {
        return Err(ExperimentError::InvalidConfig("prefix_len must be >= 1".to_string()));
    }
    let field = Field::new(cfg.prime)?;
    let words = words_upto(cfg.prefix_len, ALPHABET_SIZE);
    if cfg.r > words.len() {
        return Err(ExperimentError::InvalidConfig("r exceeds the max rank for prefix_len".to_string()));
    }
    let w_train = match cfg.prefix_len.checked_mul(2) {
        Some(v) => match v.checked_add(1) {
            Some(w) => w,
            None => {
                return Err(ExperimentError::InvalidConfig("prefix_len overflow".to_string()));
            },
        },
        None => {
            return Err(ExperimentError::InvalidConfig("prefix_len overflow".to_string()));
        },
    };
    let ghost p = field.modulus();
    proof {
        lemma_words_upto_letters(cfg.prefix_len as nat);
        lemma_count_positive(cfg.prefix_len as nat);
    }
    let matrices = build_kze2_matrices(cfg.r, &field)?;
    proof {
        assert(mats_vals(matrices@) =~~= kze2_mats_spec(p, cfg.r as int)) by {
            assert forall|l: int| 0 <= l < 5 implies #[trigger] mats_vals(matrices@)[l] =~~= kze2_mats_spec(p, cfg.r as int)[l] by {
                assert(is_mat(field, matrices@[l]@, cfg.r as int, cfg.r as int));
                assert forall|i: int| 0 <= i < cfg.r implies #[trigger] mats_vals(matrices@)[l][i] =~~= kze2_mats_spec(p, cfg.r as int)[l][i] by {
                    assert(matrices@[l]@[i]@.len() == cfg.r);
                }
            }
        }
    }
    let chosen = choose_lambda_gamma(&words, &matrices, &field, cfg.r)?;
    proof {
        reveal(is_candidate);
    }
    let ghost cg = chosen;
    let (lambda, gamma, hankel, hankel_shifted, hankel_rank) = chosen;
    let model = spectral::spectral_learn(&hankel, hankel_shifted.as_slice(), &field)?;
    if model.rank != hankel_rank {
        return Err(ExperimentError::InvalidConfig("learned rank does not match hankel rank".to_string()));
    }
    let total_holdout_words = words::count_words_exact(cfg.holdout_len, ALPHABET_SIZE)?;
    if total_holdout_words > usize::MAX as u64 {
        // usize is narrower than u64 on 32-bit targets
        return Err(ExperimentError::InvalidConfig("holdout word count overflow".to_string()));
    }
    let mismatches = exhaustive_holdout(cfg.holdout_len, &matrices, &lambda, &gamma, &model, &field);
    let report = Kze2HankelMvpReport {
        r: cfg.r,
        hankel_rank,
        prime: cfg.prime,
        prefix_len: cfg.prefix_len,
        holdout_len: cfg.holdout_len,
        w_train,
        total_holdout_words,
        mismatches,
    };
    proof {
        let (family, sl, sg) = choose|family: CandidateFamily, sl: u64, sg: u64|
            is_candidate(field, views(words@), mats_vals(matrices@), cfg.r as int, family, sl, sg, cg);
        let h = hankel@;
        let n = count_upto(cfg.prefix_len as nat, 5);
        assert(hankel_values(
            h,
            cfg.prime as int,
            lambda_spec(cfg.prime as int, cfg.r as int, sl, family),
            gamma_spec(cfg.prime as int, cfg.r as int, sg, family),
            kze2_mats_spec(cfg.prime as int, cfg.r as int),
            words::words_upto_spec(cfg.prefix_len as nat, 5),
        ));
        assert(hankel_rank == linalg::column_rank(h, n, n, cfg.prime as int));
        let a = rvals(model.alpha@);
        let b = rvals(model.beta@);
        let t = mats_vals(model.transitions@);
        assert(mismatches == mismatch_count(
            cfg.prime as int,
            a,
            b,
            t,
            lambda_spec(cfg.prime as int, cfg.r as int, sl, family),
            gamma_spec(cfg.prime as int, cfg.r as int, sg, family),
            kze2_mats_spec(cfg.prime as int, cfg.r as int),
            cfg.holdout_len as nat,
            crate::modular::pow(5, cfg.holdout_len as nat),
        ));
    }
    Ok(report)
}

proof fn lemma_count_positive(max_len: nat)
    ensures
        count_upto(max_len, 5) >= 1,
    decreases max_len,
{
    if max_len > 0 {
        lemma_count_positive((max_len - 1) as nat);
        words::lemma_pow_nonneg(5, max_len);
    }
}


/// The `stats.txt` summary of a run: one `name = value` line per count.
pub open spec fn stats_text(rep: Kze2HankelMvpReport) -> Seq<char> {
    "r = "@ + decimal_digits(rep.r as nat) + "\nprime = "@ + decimal_digits(rep.prime as nat) + "\nL = "@
        + decimal_digits(rep.prefix_len as nat) + "\nW_train = "@ + decimal_digits(rep.w_train as nat)
        + "\nholdout_len = "@ + decimal_digits(rep.holdout_len as nat) + "\ntotal_holdout_words = "@ + decimal_digits(
        rep.total_holdout_words as nat,
    ) + "\nhankel_rank = "@ + decimal_digits(rep.hankel_rank as nat) + "\nmismatches = "@ + decimal_digits(
        rep.mismatches as nat,
    ) + "\n"@
}

/// The `stats.txt` summary of a run.
pub fn render_stats_txt(rep: &Kze2HankelMvpReport) -> (r: String)
    ensures
        r@ == stats_text(*rep),
{
    let mut out = String::from_str("r = ");
    out.append(u64_to_text(rep.r as u64).as_str());
    out.append("\nprime = ");
    out.append(u64_to_text(rep.prime).as_str());
    out.append("\nL = ");
    out.append(u64_to_text(rep.prefix_len as u64).as_str());
    out.append("\nW_train = ");
    out.append(u64_to_text(rep.w_train as u64).as_str());
    out.append("\nholdout_len = ");
    out.append(u64_to_text(rep.holdout_len as u64).as_str());
    out.append("\ntotal_holdout_words = ");
    out.append(u64_to_text(rep.total_holdout_words).as_str());
    out.append("\nhankel_rank = ");
    out.append(u64_to_text(rep.hankel_rank as u64).as_str());
    out.append("\nmismatches = ");
    out.append(u64_to_text(rep.mismatches as u64).as_str());
    out.append("\n");
    out
}

} // verus!
