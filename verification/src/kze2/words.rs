//! Words over the alphabet `0..alphabet_size`, enumerated by length and then
//! lexicographically.
use crate::error::ExperimentError;
use crate::modular::pow;
use vstd::prelude::*;

verus! {

pub type LetterId = u8;

pub type Word = Vec<LetterId>;

/// The `i`-th word of length `m` in lexicographic order: the base-`k` digits
/// of `i`, most significant first.
pub open spec fn word_at(i: int, m: nat, k: int) -> Seq<u8> {
    Seq::new(m, |pos: int| ((i / pow(k, (m - 1 - pos) as nat)) % k) as u8)
}

/// All words of length `m`, in lexicographic order.
pub open spec fn words_of_len(m: nat, k: int) -> Seq<Seq<u8>> {
    Seq::new(pow(k, m) as nat, |i: int| word_at(i, m, k))
}

/// Over an empty alphabet the only word is the empty one.
proof fn lemma_empty_alphabet(max_len: nat)
    ensures
        words_upto_spec(max_len, 0) == seq![Seq::<u8>::empty()],
        count_upto(max_len, 0) == 1,
    decreases max_len,
{
    if max_len == 0 {
        assert(pow(0, 0) == 1);
        assert(word_at(0, 0, 0) =~= Seq::<u8>::empty());
        assert(words_of_len(0, 0) =~= seq![Seq::<u8>::empty()]);
    } else {
        lemma_empty_alphabet((max_len - 1) as nat);
        assert(pow(0, max_len) == 0 * pow(0, (max_len - 1) as nat));
        assert(words_of_len(max_len, 0) =~= Seq::<Seq<u8>>::empty());
        assert(words_upto_spec(max_len, 0) =~= words_upto_spec((max_len - 1) as nat, 0));
    }
}

/// All words of length at most `max_len`, shorter ones first.
pub open spec fn words_upto_spec(max_len: nat, k: int) -> Seq<Seq<u8>>
    decreases max_len,
{
    if max_len == 0 {
        words_of_len(0, k)
    } else {
        words_upto_spec((max_len - 1) as nat, k) + words_of_len(max_len, k)
    }
}

/// The number of words of length at most `max_len`.
pub open spec fn count_upto(max_len: nat, k: int) -> int
    decreases max_len,
{
    if max_len == 0 {
        1
    } else {
        count_upto((max_len - 1) as nat, k) + pow(k, max_len)
    }
}

/// The contents of a list of words.
pub open spec fn views(s: Seq<Vec<u8>>) -> Seq<Seq<u8>> {
    s.map_values(|w: Vec<u8>| w@)
}

pub proof fn lemma_pow_nonneg(k: int, m: nat)
    requires
        k >= 0,
    ensures
        pow(k, m) >= 0,
        k >= 1 ==> pow(k, m) >= 1,
    decreases m,
{
    if m > 0 {
        lemma_pow_nonneg(k, (m - 1) as nat);
        assert(k * pow(k, (m - 1) as nat) >= 0) by (nonlinear_arith)
            requires
                k >= 0,
                pow(k, (m - 1) as nat) >= 0,
        ;
        if k >= 1 {
            assert(k * pow(k, (m - 1) as nat) >= 1) by (nonlinear_arith)
                requires
                    k >= 1,
                    pow(k, (m - 1) as nat) >= 1,
            ;
        }
    }
}

pub proof fn lemma_pow_monotone(k: int, a: nat, b: nat)
    requires
        k >= 1,
        a <= b,
    ensures
        pow(k, a) <= pow(k, b),
    decreases b,
{
    if b > a {
        lemma_pow_monotone(k, a, (b - 1) as nat);
        lemma_pow_nonneg(k, (b - 1) as nat);
        assert(pow(k, (b - 1) as nat) <= k * pow(k, (b - 1) as nat)) by (nonlinear_arith)
            requires
                k >= 1,
                pow(k, (b - 1) as nat) >= 0,
        ;
    }
}

/// The words of length `m` starting with letter `a` are `a` followed by the
/// words of length `m - 1`.
proof fn lemma_word_at_split(a: int, j: int, m: nat, k: int)
    requires
        m >= 1,
        1 <= k <= 256,
        0 <= a < k,
        0 <= j < pow(k, (m - 1) as nat),
    ensures
        word_at(a * pow(k, (m - 1) as nat) + j, m, k) == seq![a as u8] + word_at(j, (m - 1) as nat, k),
{
    let big = pow(k, (m - 1) as nat);
    let i = a * big + j;
    let lhs = word_at(i, m, k);
    let rhs = seq![a as u8] + word_at(j, (m - 1) as nat, k);
    lemma_pow_nonneg(k, (m - 1) as nat);
    assert forall|pos: int| 0 <= pos < m implies lhs[pos] == rhs[pos] by {
        let e = (m - 1 - pos) as nat;
        let d = pow(k, e);
        lemma_pow_nonneg(k, e);
        if pos == 0 {
            vstd::arithmetic::div_mod::lemma_fundamental_div_mod_converse(i, big, a, j);
            vstd::arithmetic::div_mod::lemma_small_mod(a as nat, k as nat);
        } else {
            // big == k^pos * d
            crate::modular::lemma_pow_add(k, pos as nat, e);
            assert((pos as nat) + e == (m - 1) as nat);
            let kp = pow(k, pos as nat);
            lemma_pow_nonneg(k, pos as nat);
            assert(big == kp * d);
            // i / d == a * kp + j / d
            vstd::arithmetic::div_mod::lemma_fundamental_div_mod(j, d);
            let jq = j / d;
            let jr = j % d;
            vstd::arithmetic::div_mod::lemma_mod_bound(j, d);
            assert(i == (a * kp + jq) * d + jr) by (nonlinear_arith)
                requires
                    i == a * big + j,
                    big == kp * d,
                    j == d * jq + jr,
            ;
            vstd::arithmetic::div_mod::lemma_fundamental_div_mod_converse(i, d, a * kp + jq, jr);
            // (a * kp + jq) % k == jq % k since k divides kp
            crate::modular::lemma_pow_add(k, 1, (pos - 1) as nat);
            assert(kp == k * pow(k, (pos - 1) as nat));
            let rest = a * pow(k, (pos - 1) as nat);
            assert(a * kp == k * rest) by (nonlinear_arith)
                requires
                    kp == k * pow(k, (pos - 1) as nat),
                    rest == a * pow(k, (pos - 1) as nat),
            ;
            vstd::arithmetic::div_mod::lemma_mod_multiples_vanish(rest, jq, k);
            assert(k * rest + jq == jq + rest * k) by (nonlinear_arith);
            assert(rhs[pos] == word_at(j, (m - 1) as nat, k)[pos - 1]);
            assert(((m - 1) as nat - 1 - (pos - 1)) as nat == e);
        }
    }
    assert(lhs =~= rhs);
}

/// `a` comes strictly before `b` in lexicographic order: they agree up to a
/// position where `a` has the smaller letter.
pub open spec fn lex_less(a: Seq<u8>, b: Seq<u8>) -> bool {
    exists|p: int| 0 <= p < a.len() && p < b.len() && a.subrange(0, p) == b.subrange(0, p) && #[trigger] a[p] < b[p]
}

/// `a` comes strictly before `b` in the enumeration order: shorter first,
/// then lexicographically.
pub open spec fn word_before(a: Seq<u8>, b: Seq<u8>) -> bool {
    a.len() < b.len() || (a.len() == b.len() && lex_less(a, b))
}

/// A word over the letters `0..k`.
pub open spec fn letters_below(w: Seq<u8>, k: int) -> bool {
    forall|p: int| 0 <= p < w.len() ==> #[trigger] w[p] < k
}

/// The position of a word among the words of its length: its letters read as
/// base-`k` digits.
pub open spec fn word_index(w: Seq<u8>, k: int) -> int
    decreases w.len(),
{
    if w.len() == 0 {
        0
    } else {
        w[0] * pow(k, (w.len() - 1) as nat) + word_index(w.drop_first(), k)
    }
}

/// Splits an index below `k^m` into its leading letter and the rest.
proof fn lemma_index_split(i: int, m: nat, k: int) -> (r: (int, int))
    requires
        m >= 1,
        1 <= k,
        0 <= i < pow(k, m),
    ensures
        0 <= r.0 < k,
        0 <= r.1 < pow(k, (m - 1) as nat),
        i == r.0 * pow(k, (m - 1) as nat) + r.1,
{
    let big = pow(k, (m - 1) as nat);
    lemma_pow_nonneg(k, (m - 1) as nat);
    vstd::arithmetic::div_mod::lemma_fundamental_div_mod(i, big);
    vstd::arithmetic::div_mod::lemma_mod_bound(i, big);
    let a = i / big;
    let j = i % big;
    assert(0 <= a < k) by (nonlinear_arith)
        requires
            i == big * a + j,
            0 <= j < big,
            0 <= i < k * big,
            big >= 1,
    ;
    assert(i == a * big + j) by (nonlinear_arith)
        requires
            i == big * a + j,
    ;
    (a, j)
}

/// The words of one length come in strictly increasing lexicographic order.
pub proof fn lemma_word_at_increasing(i: int, j: int, m: nat, k: int)
    requires
        1 <= k <= 256,
        0 <= i < j < pow(k, m),
    ensures
        lex_less(word_at(i, m, k), word_at(j, m, k)),
    decreases m,
{
    if m == 0 {
        assert(pow(k, 0) == 1);
    } else {
        let big = pow(k, (m - 1) as nat);
        let (a, i2) = lemma_index_split(i, m, k);
        let (b, j2) = lemma_index_split(j, m, k);
        lemma_word_at_split(a, i2, m, k);
        lemma_word_at_split(b, j2, m, k);
        let wi = word_at(i, m, k);
        let wj = word_at(j, m, k);
        if a == b {
            assert(i2 < j2);
            lemma_word_at_increasing(i2, j2, (m - 1) as nat, k);
            let ti = word_at(i2, (m - 1) as nat, k);
            let tj = word_at(j2, (m - 1) as nat, k);
            let p = choose|p: int| 0 <= p < ti.len() && p < tj.len() && ti.subrange(0, p) == tj.subrange(0, p) && #[trigger] ti[p] < tj[p];
            assert(wi[p + 1] == ti[p]);
            assert(wj[p + 1] == tj[p]);
            assert(wi.subrange(0, p + 1) =~= seq![a as u8] + ti.subrange(0, p));
            assert(wj.subrange(0, p + 1) =~= seq![b as u8] + tj.subrange(0, p));
            assert(wi[p + 1] < wj[p + 1]);
        } else {
            assert(a < b) by (nonlinear_arith)
                requires
                    i == a * big + i2,
                    j == b * big + j2,
                    0 <= i2 < big,
                    0 <= j2 < big,
                    i < j,
                    a != b,
            ;
            assert(wi.subrange(0, 0) =~= wj.subrange(0, 0));
            assert(wi[0] < wj[0]);
        }
    }
}

/// Every word of length `m` over `0..k` is listed, at its base-`k` index.
pub proof fn lemma_word_at_index(w: Seq<u8>, k: int)
    requires
        1 <= k <= 256,
        letters_below(w, k),
    ensures
        0 <= word_index(w, k) < pow(k, w.len()),
        word_at(word_index(w, k), w.len(), k) == w,
    decreases w.len(),
{
    if w.len() == 0 {
        assert(word_at(0, 0, k) =~= w);
    } else {
        let t = w.drop_first();
        let m = w.len();
        assert(letters_below(t, k)) by {
            assert forall|p: int| 0 <= p < t.len() implies #[trigger] t[p] < k by {
                assert(t[p] == w[p + 1]);
            }
        }
        lemma_word_at_index(t, k);
        let big = pow(k, (m - 1) as nat);
        let a = w[0] as int;
        assert(w[0] < k);
        let j = word_index(t, k);
        assert(0 <= a * big + j < k * big) by (nonlinear_arith)
            requires
                0 <= a < k,
                0 <= j < big,
        ;
        lemma_word_at_split(a, j, m as nat, k);
        assert(w =~= seq![a as u8] + t);
    }
}

/// The length of the enumeration up to `max_len`, and the lengths of its words.
proof fn lemma_words_upto_shape(max_len: nat, k: int)
    requires
        1 <= k <= 256,
    ensures
        words_upto_spec(max_len, k).len() == count_upto(max_len, k),
        forall|i: int| 0 <= i < count_upto(max_len, k) ==> (#[trigger] words_upto_spec(max_len, k)[i]).len() <= max_len,
        max_len > 0 ==> forall|i: int|
            count_upto((max_len - 1) as nat, k) <= i < count_upto(max_len, k) ==> #[trigger] words_upto_spec(max_len, k)[i]
                == word_at(i - count_upto((max_len - 1) as nat, k), max_len, k),
        max_len > 0 ==> forall|i: int|
            0 <= i < count_upto((max_len - 1) as nat, k) ==> #[trigger] words_upto_spec(max_len, k)[i]
                == words_upto_spec((max_len - 1) as nat, k)[i],
    decreases max_len,
{
    lemma_pow_nonneg(k, max_len);
    if max_len == 0 {
        assert(pow(k, 0) == 1);
    } else {
        lemma_words_upto_shape((max_len - 1) as nat, k);
    }
}

/// The enumeration of `words_upto` lists the words over `0..k` of length at
/// most `max_len`: each of them somewhere, and every earlier entry strictly
/// before every later one (shorter first, then lexicographically), so no word
/// twice.
pub proof fn lemma_words_upto_order(max_len: nat, k: int)
    requires
        1 <= k <= 256,
    ensures
        forall|i: int, j: int|
            0 <= i < j < count_upto(max_len, k) ==> word_before(
                #[trigger] words_upto_spec(max_len, k)[i],
                #[trigger] words_upto_spec(max_len, k)[j],
            ),
        forall|w: Seq<u8>|
            w.len() <= max_len && letters_below(w, k) ==> exists|i: int|
                0 <= i < count_upto(max_len, k) && #[trigger] words_upto_spec(max_len, k)[i] == w,
    decreases max_len,
{
    lemma_words_upto_shape(max_len, k);
    if max_len == 0 {
        assert(pow(k, 0) == 1);
        assert forall|w: Seq<u8>| w.len() <= max_len && letters_below(w, k) implies exists|i: int|
            0 <= i < count_upto(max_len, k) && #[trigger] words_upto_spec(max_len, k)[i] == w by {
            assert(word_at(0, 0, k) =~= w);
            assert(words_upto_spec(max_len, k)[0] == w);
        }
    } else {
        let prev = (max_len - 1) as nat;
        let c = count_upto(prev, k);
        let sp = words_upto_spec(max_len, k);
        lemma_words_upto_order(prev, k);
        lemma_words_upto_shape(prev, k);
        assert forall|i: int, j: int| 0 <= i < j < count_upto(max_len, k) implies word_before(
            #[trigger] sp[i],
            #[trigger] sp[j],
        ) by {
            if j < c {
                assert(sp[i] == words_upto_spec(prev, k)[i]);
                assert(sp[j] == words_upto_spec(prev, k)[j]);
            } else if i < c {
                assert(sp[i] == words_upto_spec(prev, k)[i]);
                assert(sp[i].len() <= prev);
                assert(sp[j] == word_at(j - c, max_len, k));
            } else {
                lemma_word_at_increasing(i - c, j - c, max_len, k);
            }
        }
        assert forall|w: Seq<u8>| w.len() <= max_len && letters_below(w, k) implies exists|i: int|
            0 <= i < count_upto(max_len, k) && #[trigger] sp[i] == w by {
            if w.len() < max_len {
                let i = choose|i: int| 0 <= i < c && #[trigger] words_upto_spec(prev, k)[i] == w;
                assert(sp[i] == w);
            } else {
                lemma_word_at_index(w, k);
                let i = c + word_index(w, k);
                assert(sp[i] == w);
            }
        }
    }
}

/// Appends to `out` the extensions of `current` to length `len`, in
/// lexicographic order.
fn build_words(len: usize, alphabet_size: usize, current: &mut Word, out: &mut Vec<Word>, Ghost(depth): Ghost<nat>)
    requires
        depth == len - old(current)@.len(),
        1 <= alphabet_size <= 256,
        old(current).len() <= len,
        old(out).len() + pow(alphabet_size as int, (len - old(current).len()) as nat) <= usize::MAX,
    ensures
        final(current)@ == old(current)@,
        views(final(out)@) == views(old(out)@) + Seq::new(
            pow(alphabet_size as int, (len - old(current).len()) as nat) as nat,
            |i: int| old(current)@ + word_at(i, (len - old(current).len()) as nat, alphabet_size as int),
        ),
    decreases depth,
{
    let ghost k = alphabet_size as int;
    let ghost cur0 = current@;
    let ghost out0 = views(out@);
    let ghost m = (len - current.len()) as nat;
    if current.len() == len {
        let mut copy: Word = Vec::with_capacity(current.len());
        let mut t: usize = 0;
        while t < current.len()
            invariant
                t <= current.len(),
                copy@ == current@.subrange(0, t as int),
            decreases current.len() - t,
        {
            copy.push(current[t]);
            t += 1;
        }
        out.push(copy);
        proof {
            assert(copy@ =~= cur0);
            assert(word_at(0, 0, k) =~= Seq::<u8>::empty());
            assert(cur0 + word_at(0, 0, k) =~= cur0);
            assert(views(out@) =~= out0.push(cur0));
            assert(views(out@) =~= out0 + Seq::new(
                pow(k, 0) as nat,
                |i: int| cur0 + word_at(i, 0, k),
            ));
        }
        return;
    }
    let ghost big = pow(k, (m - 1) as nat);
    proof {
        lemma_pow_nonneg(k, (m - 1) as nat);
        assert(pow(k, m) == k * big);
    }
    let mut letter: usize = 0;
    while letter < alphabet_size
        invariant
            k == alphabet_size as int,
            1 <= k <= 256,
            m == len - cur0.len(),
            depth == m,
            m >= 1,
            big == pow(k, (m - 1) as nat),
            big >= 1,
            pow(k, m) == k * big,
            current@ == cur0,
            cur0.len() < len,
            out0.len() + k * big <= usize::MAX,
            letter <= alphabet_size,
            views(out@) == out0 + Seq::new(
                (letter * big) as nat,
                |i: int| cur0 + word_at(i, m, k),
            ),
        decreases alphabet_size - letter,
    {
        current.push(letter as LetterId);
        proof {
            assert(views(out@).len() == out@.len());
            assert(out@.len() + big <= usize::MAX) by (nonlinear_arith)
                requires
                    out@.len() == out0.len() + letter * big,
                    out0.len() + k * big <= usize::MAX,
                    letter < k,
                    big >= 1,
            ;
        }
        let ghost before = views(out@);
        let ghost cur1 = current@;
        build_words(len, alphabet_size, current, out, Ghost((depth - 1) as nat));
        current.pop();
        proof {
            let a = letter as int;
            assert(cur1 =~= cur0 + seq![a as u8]);
            assert(current@ =~= cur0);
            let f = |i: int| cur0 + word_at(i, m, k);
            let new_part = Seq::new(big as nat, |t: int| cur1 + word_at(t, (m - 1) as nat, k));
            assert(views(out@) == before + new_part);
            assert(before == out0 + Seq::new((letter * big) as nat, f));
            assert((letter + 1) * big == letter * big + big) by (nonlinear_arith);
            let goal = out0 + Seq::new(((letter + 1) * big) as nat, f);
            assert(views(out@).len() == goal.len());
            assert forall|q: int| 0 <= q < goal.len() implies #[trigger] views(out@)[q] == goal[q] by {
                if q >= out0.len() + letter * big {
                    let i = q - out0.len();
                    let j = i - letter * big;
                    assert(0 <= j < big);
                    assert(views(out@)[q] == new_part[j]);
                    lemma_word_at_split(a, j, m, k);
                    assert(a * big + j == i);
                    assert(goal[q] == f(i));
                    assert(cur1 + word_at(j, (m - 1) as nat, k) =~= cur0 + (seq![a as u8] + word_at(j, (m - 1) as nat, k)));
                }
            }
            assert(views(out@) =~= goal);
        }
        letter += 1;
    }
    proof {
        assert(views(out@) =~= out0 + Seq::new(
            pow(k, m) as nat,
            |i: int| cur0 + word_at(i, m, k),
        ));
    }
}

/// Enumerate words by length, then lexicographic letter id within each length.
pub fn words_upto(max_len: usize, alphabet_size: usize) -> (r: Vec<Word>)
    requires
        alphabet_size <= 256,
        count_upto(max_len as nat, alphabet_size as int) <= usize::MAX,
    ensures
        views(r@) == words_upto_spec(max_len as nat, alphabet_size as int),
        r.len() == count_upto(max_len as nat, alphabet_size as int),
{
    if alphabet_size == 0 {
        let mut out: Vec<Word> = Vec::new();
        out.push(Vec::new());
        proof {
            lemma_empty_alphabet(max_len as nat);
            assert(views(out@) =~= seq![Seq::<u8>::empty()]);
        }
        return out;
    }
    let ghost k = alphabet_size as int;
    let mut out: Vec<Word> = Vec::new();
    out.push(Vec::new());
    proof {
        assert(views(out@) =~= words_upto_spec(0, k)) by {
            assert(word_at(0, 0, k) =~= Seq::<u8>::empty());
        }
        lemma_count_upto_monotone(max_len as nat, k);
    }
    let mut len: usize = 1;
    while len <= max_len
        invariant
            k == alphabet_size as int,
            1 <= k <= 256,
            1 <= len <= max_len + 1,
            max_len < usize::MAX,
            count_upto(max_len as nat, k) <= usize::MAX,
            forall|a: nat| a <= max_len ==> #[trigger] count_upto(a, k) <= count_upto(max_len as nat, k),
            views(out@) == words_upto_spec((len - 1) as nat, k),
            out.len() == count_upto((len - 1) as nat, k),
        decreases max_len + 1 - len,
    {
        let mut current: Word = Vec::with_capacity(len);
        assert(count_upto(len as nat, k) == count_upto((len - 1) as nat, k) + pow(k, len as nat));
        let ghost before = views(out@);
        build_words(len, alphabet_size, &mut current, &mut out, Ghost(len as nat));
        proof {
            assert(views(out@).len() == out@.len());
            assert(before.len() == count_upto((len - 1) as nat, k));
            lemma_pow_nonneg(k, len as nat);
            assert(views(out@).len() == before.len() + pow(k, len as nat));
            assert(views(out@).len() == count_upto((len - 1) as nat, k) + pow(k, len as nat));
            assert(Seq::new(pow(k, len as nat) as nat, |i: int| Seq::<u8>::empty() + word_at(i, len as nat, k))
                =~= words_of_len(len as nat, k));
        }
        len += 1;
    }
    out
}

proof fn lemma_count_upto_monotone(max_len: nat, k: int)
    requires
        k >= 1,
    ensures
        forall|a: nat| a <= max_len ==> #[trigger] count_upto(a, k) <= count_upto(max_len, k),
        count_upto(max_len, k) >= max_len + 1,
    decreases max_len,
{
    if max_len > 0 {
        lemma_count_upto_monotone((max_len - 1) as nat, k);
        lemma_pow_nonneg(k, max_len);
    }
}

/// Folds `func` over the words of length `len` in lexicographic order.
pub fn for_each_word_len<S, F: Fn(S, Word) -> S>(
    len: usize,
    alphabet_size: usize,
    init: S,
    func: F,
) -> (r: S)
    requires
        alphabet_size <= 256,
        pow(alphabet_size as int, len as nat) <= usize::MAX,
        forall|s: S, w: Word| call_requires(func, (s, w)),
    ensures
        exists|states: Seq<S>, words: Seq<Word>|
            {
                &&& states.len() == pow(alphabet_size as int, len as nat) + 1
                &&& words.len() == pow(alphabet_size as int, len as nat)
                &&& states[0] == init
                &&& states.last() == r
                &&& forall|i: int|
                    0 <= i < pow(alphabet_size as int, len as nat) ==> (#[trigger] words[i])@
                        == word_at(i, len as nat, alphabet_size as int)
                &&& forall|i: int|
                    0 <= i < pow(alphabet_size as int, len as nat) ==> call_ensures(
                        func,
                        (#[trigger] states[i], words[i]),
                        states[i + 1],
                    )
            },
{
    let ghost k = alphabet_size as int;
    let ghost total = pow(k, len as nat);
    proof {
        lemma_pow_nonneg(k, len as nat);
    }
    if alphabet_size == 0 {
        if len == 0 {
            let w: Word = Vec::new();
            let ghost wv = w;
            let r = func(init, w);
            proof {
                assert(pow(0, 0) == 1);
                assert(wv@ =~= word_at(0, 0, 0));
                let states = seq![init, r];
                let words = seq![wv];
                assert(states[0] == init && states.last() == r);
                assert(call_ensures(func, (states[0], words[0]), states[1]));
                assert({
                    &&& states.len() == pow(alphabet_size as int, len as nat) + 1
                    &&& words.len() == pow(alphabet_size as int, len as nat)
                    &&& states[0] == init
                    &&& states.last() == r
                    &&& forall|i: int|
                        0 <= i < pow(alphabet_size as int, len as nat) ==> (#[trigger] words[i])@
                            == word_at(i, len as nat, alphabet_size as int)
                    &&& forall|i: int|
                        0 <= i < pow(alphabet_size as int, len as nat) ==> call_ensures(
                            func,
                            (#[trigger] states[i], words[i]),
                            states[i + 1],
                        )
                });
            }
            return r;
        } else {
            proof {
                assert(pow(0, len as nat) == 0 * pow(0, (len - 1) as nat));
                let states = seq![init];
                let words = Seq::<Word>::empty();
                assert(states[0] == init && states.last() == init);
                assert({
                    &&& states.len() == pow(alphabet_size as int, len as nat) + 1
                    &&& words.len() == pow(alphabet_size as int, len as nat)
                    &&& states[0] == init
                    &&& states.last() == init
                    &&& forall|i: int|
                        0 <= i < pow(alphabet_size as int, len as nat) ==> (#[trigger] words[i])@
                            == word_at(i, len as nat, alphabet_size as int)
                    &&& forall|i: int|
                        0 <= i < pow(alphabet_size as int, len as nat) ==> call_ensures(
                            func,
                            (#[trigger] states[i], words[i]),
                            states[i + 1],
                        )
                });
            }
            return init;
        }
    }
    let mut state = init;
    let ghost mut states: Seq<S> = seq![init];
    let ghost mut words: Seq<Word> = seq![];
    let total_exec = count_words_len(len, alphabet_size);
    let mut index: usize = 0;
    while index < total_exec
        invariant
            k == alphabet_size as int,
            1 <= k <= 256,
            total == pow(k, len as nat),
            total_exec == total,
            forall|s: S, w: Word| call_requires(func, (s, w)),
            index <= total,
            states.len() == index + 1,
            states[0] == init,
            states.last() == state,
            words.len() == index,
            forall|i: int| 0 <= i < index ==> (#[trigger] words[i])@ == word_at(i, len as nat, k),
            forall|i: int|
                0 <= i < index ==> call_ensures(
                    func,
                    (#[trigger] states[i], words[i]),
                    states[i + 1],
                ),
        decreases total - index,
    {
        let word = word_from_index(index, len, alphabet_size);
        let ghost prev = state;
        let ghost w = word;
        state = func(state, word);
        proof {
            states = states.push(state);
            words = words.push(w);
            assert(states[index as int] == prev);
        }
        index += 1;
    }
    state
}

/// `alphabet_size` to the power `len`.
fn count_words_len(len: usize, alphabet_size: usize) -> (r: usize)
    requires
        1 <= alphabet_size <= 256,
        pow(alphabet_size as int, len as nat) <= usize::MAX,
    ensures
        r == pow(alphabet_size as int, len as nat),
{
    let ghost k = alphabet_size as int;
    let mut total: usize = 1;
    let mut t: usize = 0;
    while t < len
        invariant
            k == alphabet_size as int,
            1 <= k <= 256,
            t <= len,
            total == pow(k, t as nat),
            pow(k, len as nat) <= usize::MAX,
        decreases len - t,
    {
        proof {
            lemma_pow_monotone(k, (t + 1) as nat, len as nat);
            assert(total * k == k * total) by (nonlinear_arith);
        }
        total = total * alphabet_size;
        t += 1;
    }
    total
}

/// The `index`-th word of length `len`.
pub fn word_from_index(index: usize, len: usize, alphabet_size: usize) -> (r: Word)
    requires
        1 <= alphabet_size <= 256,
    ensures
        r@ == word_at(index as int, len as nat, alphabet_size as int),
{
    let ghost k = alphabet_size as int;
    let mut buffer: Vec<LetterId> = Vec::with_capacity(len);
    let mut t: usize = 0;
    while t < len
        invariant
            t <= len,
            buffer.len() == t,
        decreases len - t,
    {
        buffer.push(0);
        t += 1;
    }
    let mut rem = index;
    let mut pos = len;
    proof {
        assert(index as int / pow(k, 0) == index as int);
    }
    while pos > 0
        invariant
            k == alphabet_size as int,
            1 <= k <= 256,
            pos <= len,
            buffer.len() == len,
            rem == index as int / pow(k, (len - pos) as nat),
            forall|q: int| pos <= q < len ==> #[trigger] buffer@[q] == word_at(index as int, len as nat, k)[q],
        decreases pos,
    {
        pos -= 1;
        let digit = rem % alphabet_size;
        proof {
            assert(word_at(index as int, len as nat, k)[pos as int] == ((index as int / pow(
                k,
                (len - 1 - pos) as nat,
            )) % k) as u8);
            assert((len - 1 - pos) as nat == (len - (pos + 1)) as nat);
            vstd::arithmetic::div_mod::lemma_mod_bound(rem as int, k);
        }
        buffer.set(pos, digit as u8);
        proof {
            lemma_pow_nonneg(k, (len - 1 - pos) as nat);
            vstd::arithmetic::div_mod::lemma_div_denominator(index as int, pow(k, (len - 1 - pos) as nat), k);
            assert(pow(k, (len - pos) as nat) == k * pow(k, (len - 1 - pos) as nat));
            assert(pow(k, (len - 1 - pos) as nat) * k == k * pow(k, (len - 1 - pos) as nat)) by (nonlinear_arith);
        }
        rem = rem / alphabet_size;
    }
    proof {
        assert(buffer@ =~= word_at(index as int, len as nat, k));
    }
    buffer
}

/// The number of words of length `len`, when it fits in a `u64`.
pub fn count_words_exact(len: usize, alphabet_size: usize) -> (r: Result<u64, ExperimentError>)
    ensures
        match r {
            Ok(n) => n == pow(alphabet_size as int, len as nat),
            Err(ExperimentError::InvalidConfig(msg)) => pow(alphabet_size as int, len as nat) > u64::MAX
                && msg@ == "holdout word count overflow"@,
        },
{
    let ghost k = alphabet_size as int;
    let mut total: u128 = 1;
    let mut t: usize = 0;
    while t < len
        invariant
            k == alphabet_size as int,
            t <= len,
            total == pow(k, t as nat),
        decreases len - t,
    {
        proof {
            assert(total * k == k * total) by (nonlinear_arith);
        }
        match total.checked_mul(alphabet_size as u128) {
            Some(v) => {
                total = v;
            },
            None => {
                proof {
                    assert(k >= 2) by (nonlinear_arith)
                        requires
                            total * k > u128::MAX,
                            total <= u128::MAX,
                            k >= 0,
                    ;
                    lemma_pow_monotone(k, (t + 1) as nat, len as nat);
                }
                return Err(ExperimentError::InvalidConfig("holdout word count overflow".to_string()));
            },
        }
        t += 1;
    }
    if total > u64::MAX as u128 {
        return Err(ExperimentError::InvalidConfig("holdout word count overflow".to_string()));
    }
    Ok(total as u64)
}

} // verus!
