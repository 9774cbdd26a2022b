//! Weighted automata over a prime field: the integer model of running a word
//! through transition matrices, and its executable evaluation.
use crate::kze2::field::{Field, Fp};
use crate::kze2::linalg::{
    dot, idot, is_mat, is_vec, mat_vec_mul, mv, mvals, rvals, vec_mat_mul, vm, Matrix, Vector,
};
use crate::kze2::words::LetterId;
use vstd::prelude::*;

verus! {

/// The integer values of a list of matrices.
pub open spec fn mats_vals(ms: Seq<Matrix>) -> Seq<Seq<Seq<int>>> {
    ms.map_values(|m: Matrix| mvals(m@))
}

/// `v * M[w0] * M[w1] * ... ` modulo `p`, applied letter by letter from the left.
pub open spec fn run_prefix(p: int, v: Seq<int>, mats: Seq<Seq<Seq<int>>>, word: Seq<u8>) -> Seq<int>
    decreases word.len(),
{
    if word.len() == 0 {
        v
    } else {
        vm(p, run_prefix(p, v, mats, word.drop_last()), mats[word.last() as int])
    }
}

/// `M[w0] * M[w1] * ... * v` modulo `p`, applied letter by letter from the right.
pub open spec fn run_suffix(p: int, v: Seq<int>, mats: Seq<Seq<Seq<int>>>, word: Seq<u8>) -> Seq<int>
    decreases word.len(),
{
    if word.len() == 0 {
        v
    } else {
        mv(p, mats[word[0] as int], run_suffix(p, v, mats, word.drop_first()))
    }
}

/// The weight `alpha * M[w] * beta` that the automaton gives to `word`.
pub open spec fn wfa_value(
    p: int,
    alpha: Seq<int>,
    beta: Seq<int>,
    mats: Seq<Seq<Seq<int>>>,
    word: Seq<u8>,
) -> int {
    let state = run_prefix(p, alpha, mats, word);
    idot(state, beta, state.len() as int) % p
}

/// An automaton with `n` states and square transition matrices of size `n`.
pub open spec fn is_automaton(field: Field, mats: Seq<Matrix>, n: int) -> bool {
    forall|l: int| 0 <= l < mats.len() ==> is_mat(field, #[trigger] mats[l]@, n, n)
}

/// Every letter of `word` names one of `count` matrices.
pub open spec fn letters_below(word: Seq<u8>, count: int) -> bool {
    forall|k: int| 0 <= k < word.len() ==> (#[trigger] word[k]) < count
}

/// Runs a word from the left: the row vector `v * M[word]`.
pub fn run_word_prefix(v: &Vector, mats: &Vec<Matrix>, word: &[LetterId], field: &Field) -> (r: Vector)
    requires
        field.wf(),
        v.len() > 0,
        is_vec(*field, v@, v.len() as int),
        is_automaton(*field, mats@, v.len() as int),
        letters_below(word@, mats.len() as int),
    ensures
        is_vec(*field, r@, v.len() as int),
        rvals(r@) == run_prefix(field.modulus(), rvals(v@), mats_vals(mats@), word@),
{
    let n = v.len();
    let mut state: Vector = Vec::with_capacity(n);
    let mut t: usize = 0;
    while t < n
        invariant
            t <= n,
            n == v.len(),
            state@ == v@.subrange(0, t as int),
        decreases n - t,
    {
        state.push(v[t]);
        t += 1;
    }
    assert(state@ =~= v@);
    let mut k: usize = 0;
    while k < word.len()
        invariant
            field.wf(),
            n == v.len(),
            n > 0,
            is_automaton(*field, mats@, n as int),
            letters_below(word@, mats.len() as int),
            k <= word@.len(),
            is_vec(*field, state@, n as int),
            rvals(state@) == run_prefix(field.modulus(), rvals(v@), mats_vals(mats@), word@.take(k as int)),
        decreases word@.len() - k,
    {
        let letter = word[k] as usize;
        assert(word@[k as int] < mats.len());
        assert(is_mat(*field, mats@[letter as int]@, n as int, n as int));
        let next = vec_mat_mul(state.as_slice(), &mats[letter], field);
        proof {
            assert(word@.take(k + 1).drop_last() =~= word@.take(k as int));
            assert(word@.take(k + 1).last() == word@[k as int]);
            assert(mats_vals(mats@)[letter as int] == mvals(mats@[letter as int]@));
        }
        state = next;
        k += 1;
    }
    assert(word@.take(word@.len() as int) =~= word@);
    state
}

/// Runs a word from the right: the column vector `M[word] * v`.
pub fn run_word_suffix(v: &Vector, mats: &Vec<Matrix>, word: &[LetterId], field: &Field) -> (r: Vector)
    requires
        field.wf(),
        v.len() > 0,
        is_vec(*field, v@, v.len() as int),
        is_automaton(*field, mats@, v.len() as int),
        letters_below(word@, mats.len() as int),
    ensures
        is_vec(*field, r@, v.len() as int),
        rvals(r@) == run_suffix(field.modulus(), rvals(v@), mats_vals(mats@), word@),
{
    let n = v.len();
    let mut col: Vector = Vec::with_capacity(n);
    let mut t: usize = 0;
    while t < n
        invariant
            t <= n,
            n == v.len(),
            col@ == v@.subrange(0, t as int),
        decreases n - t,
    {
        col.push(v[t]);
        t += 1;
    }
    assert(col@ =~= v@);
    let len = word.len();
    let mut k: usize = 0;
    assert(word@.skip(len as int) =~= Seq::<u8>::empty());
    while k < len
        invariant
            field.wf(),
            n == v.len(),
            n > 0,
            len == word@.len(),
            is_automaton(*field, mats@, n as int),
            letters_below(word@, mats.len() as int),
            k <= len,
            is_vec(*field, col@, n as int),
            rvals(col@) == run_suffix(field.modulus(), rvals(v@), mats_vals(mats@), word@.skip(len - k)),
        decreases len - k,
    {
        let pos = len - k - 1;
        let letter = word[pos] as usize;
        assert(word@[pos as int] < mats.len());
        assert(is_mat(*field, mats@[letter as int]@, n as int, n as int));
        let next = mat_vec_mul(&mats[letter], col.as_slice(), field);
        proof {
            assert(word@.skip(pos as int).drop_first() =~= word@.skip(len - k));
            assert(word@.skip(pos as int)[0] == word@[pos as int]);
            assert(mats_vals(mats@)[letter as int] == mvals(mats@[letter as int]@));
            assert(pos == len - (k + 1));
        }
        col = next;
        k += 1;
    }
    assert(word@.skip(0) =~= word@);
    col
}

/// The weight of `word` in the automaton `(alpha, transitions, beta)`.
pub fn eval_wfa(alpha: &Vector, beta: &Vector, transitions: &Vec<Matrix>, word: &[LetterId], field: &Field) -> (r: Fp)
    requires
        field.wf(),
        alpha.len() > 0,
        beta.len() == alpha.len(),
        is_vec(*field, alpha@, alpha.len() as int),
        is_vec(*field, beta@, alpha.len() as int),
        is_automaton(*field, transitions@, alpha.len() as int),
        letters_below(word@, transitions.len() as int),
    ensures
        field.holds(r),
        r.val() == wfa_value(field.modulus(), rvals(alpha@), rvals(beta@), mats_vals(transitions@), word@),
{
    let state = run_word_prefix(alpha, transitions, word, field);
    dot(state.as_slice(), beta.as_slice(), field)
}

} // verus!
