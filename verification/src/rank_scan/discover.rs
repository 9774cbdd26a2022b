//! The alphabet and the repeated letter pairs that the symbols of the scanned
//! loop orders use.
use crate::error::ExperimentError;
use crate::rank_scan::screen::{is_repeated_pair, repeated_pair, word_view};
use crate::text::{lemma_str_lt_irrefl_asym, lemma_str_lt_total, lemma_str_lt_trans, str_eq, str_less, str_lt, u64_to_text};
use vstd::prelude::*;

verus! {

/// The letters of the symbols, sorted and each once, and (when asked for) the
/// pairs `(a, b)` of the full-length words `a b a b ... a b`, sorted and each
/// once.
#[derive(Clone, Debug)]
pub struct DiscoveryResult {
    pub letters: Vec<String>,
    pub pairs: Vec<(String, String)>,
}

/// The strings are in strictly increasing order.
pub open spec fn sorted_strings(v: Seq<String>) -> bool {
    forall|a: int, b: int| 0 <= a < b < v.len() ==> str_lt(#[trigger] v[a]@, #[trigger] v[b]@)
}

/// The order of pairs: by first string, then by second.
pub open spec fn pair_lt(x: (Seq<char>, Seq<char>), y: (Seq<char>, Seq<char>)) -> bool {
    str_lt(x.0, y.0) || (x.0 == y.0 && str_lt(x.1, y.1))
}

/// The pairs' views.
pub open spec fn pair_view(x: (String, String)) -> (Seq<char>, Seq<char>) {
    (x.0@, x.1@)
}

/// The pairs are in strictly increasing order.
pub open spec fn sorted_pairs(v: Seq<(String, String)>) -> bool {
    forall|a: int, b: int| 0 <= a < b < v.len() ==> pair_lt(pair_view(#[trigger] v[a]), pair_view(#[trigger] v[b]))
}

/// `x` is one of the strings.
pub open spec fn has_string(v: Seq<String>, x: Seq<char>) -> bool {
    exists|a: int| 0 <= a < v.len() && #[trigger] v[a]@ == x
}

/// `x` is one of the pairs.
pub open spec fn has_pair(v: Seq<(String, String)>, x: (Seq<char>, Seq<char>)) -> bool {
    exists|a: int| 0 <= a < v.len() && #[trigger] pair_view(v[a]) == x
}

/// `s` is a letter of one of the first `t` words.
pub open spec fn in_terms(terms: Seq<Vec<String>>, t: int, s: Seq<char>) -> bool {
    exists|u: int, k: int| 0 <= u < t && 0 <= k < terms[u]@.len() && #[trigger] terms[u]@[k]@ == s
}

/// `(a, b)` is the repeated pair of one of the first `t` words, of twice the
/// loop order's length.
pub open spec fn pair_in_terms(terms: Seq<Vec<String>>, t: int, loop_value: int, a: Seq<char>, b: Seq<char>) -> bool {
    exists|u: int| 0 <= u < t && #[trigger] full_pair(terms[u]@, loop_value, a, b)
}

/// `s` is a letter of some word of the symbols.
pub open spec fn seen_letter(words: Seq<Vec<Vec<String>>>, s: Seq<char>) -> bool {
    exists|l: int, t: int, k: int|
        0 <= l < words.len() && 0 <= t < words[l]@.len() && 0 <= k < words[l]@[t]@.len() && #[trigger] words[l]@[t]@[k]@ == s
}

/// The word has twice the loop order's length and is `a b a b ... a b`.
pub open spec fn full_pair(w: Seq<String>, loop_value: int, a: Seq<char>, b: Seq<char>) -> bool {
    &&& w.len() == 2 * loop_value
    &&& is_repeated_pair(word_view(w))
    &&& w[0]@ == a
    &&& w[1]@ == b
}

/// `(a, b)` is the repeated pair of a full-length word of some symbol.
pub open spec fn seen_pair(loops: Seq<usize>, words: Seq<Vec<Vec<String>>>, a: Seq<char>, b: Seq<char>) -> bool {
    exists|l: int, t: int| 0 <= l < words.len() && 0 <= t < words[l]@.len() && #[trigger] full_pair(words[l]@[t]@, loops[l] as int, a, b)
}

/// Adds `s` to a sorted list of distinct strings, where it is not yet.
fn insert_string(set: &mut Vec<String>, s: &String)
    requires
        sorted_strings(old(set)@),
    ensures
        sorted_strings(final(set)@),
        forall|x: Seq<char>| #[trigger] has_string(final(set)@, x) <==> (has_string(old(set)@, x) || x == s@),
{
    let n = set.len();
    let mut i: usize = 0;
    while i < n && str_less(set[i].as_str(), s.as_str())
        invariant
            n == set@.len(),
            i <= n,
            forall|a: int| 0 <= a < i ==> str_lt(#[trigger] set@[a]@, s@),
        decreases n - i,
    {
        i += 1;
    }
    if i < n && str_eq(set[i].as_str(), s.as_str()) {
        return;
    }
    let ghost s0 = set@;
    proof {
        if i < n {
            lemma_str_lt_total(set@[i as int]@, s@);
        }
    }
    set.insert(i, s.clone());
    proof {
        assert forall|a: int, b: int| 0 <= a < b < set@.len() implies str_lt(#[trigger] set@[a]@, #[trigger] set@[b]@) by {
            if b < i {
                assert(set@[a] == s0[a] && set@[b] == s0[b]);
            } else if b == i {
                assert(set@[a] == s0[a]);
            } else if a == i {
                assert(set@[b] == s0[b - 1]);
                if b - 1 > i {
                    assert(str_lt(s0[i as int]@, s0[b - 1]@));
                    lemma_str_lt_trans(s@, s0[i as int]@, s0[b - 1]@);
                }
            } else if a < i {
                assert(set@[a] == s0[a] && set@[b] == s0[b - 1]);
                if i < n {
                    assert(str_lt(s0[i as int]@, s0[b - 1]@) || b - 1 == i);
                    lemma_str_lt_trans(s0[a]@, s@, s0[i as int]@);
                    if b - 1 > i {
                        lemma_str_lt_trans(s0[a]@, s0[i as int]@, s0[b - 1]@);
                    }
                }
            } else {
                assert(set@[a] == s0[a - 1] && set@[b] == s0[b - 1]);
            }
        }
        assert forall|x: Seq<char>| #[trigger] has_string(set@, x) <==> (has_string(s0, x) || x == s@) by {
            if exists|a: int| 0 <= a < set@.len() && #[trigger] set@[a]@ == x {
                let a = choose|a: int| 0 <= a < set@.len() && #[trigger] set@[a]@ == x;
                if a < i {
                    assert(s0[a]@ == x);
                } else if a > i {
                    assert(s0[a - 1]@ == x);
                }
            }
            if exists|a: int| 0 <= a < s0.len() && #[trigger] s0[a]@ == x {
                let a = choose|a: int| 0 <= a < s0.len() && #[trigger] s0[a]@ == x;
                if a < i {
                    assert(set@[a]@ == x);
                } else {
                    assert(set@[a + 1]@ == x);
                }
            }
            if x == s@ {
                assert(set@[i as int]@ == x);
            }
        }
    }
}

/// Adds the pair to a sorted list of distinct pairs, where it is not yet.
fn insert_pair(set: &mut Vec<(String, String)>, s: (String, String))
    requires
        sorted_pairs(old(set)@),
    ensures
        sorted_pairs(final(set)@),
        forall|x: (Seq<char>, Seq<char>)| #[trigger] has_pair(final(set)@, x) <==> (has_pair(old(set)@, x) || x == pair_view(s)),
{
    let n = set.len();
    let mut i: usize = 0;
    while i < n && (str_less(set[i].0.as_str(), s.0.as_str()) || (str_eq(set[i].0.as_str(), s.0.as_str()) && str_less(
        set[i].1.as_str(),
        s.1.as_str(),
    )))
        invariant
            n == set@.len(),
            i <= n,
            forall|a: int| 0 <= a < i ==> pair_lt(pair_view(#[trigger] set@[a]), pair_view(s)),
        decreases n - i,
    {
        i += 1;
    }
    if i < n && str_eq(set[i].0.as_str(), s.0.as_str()) && str_eq(set[i].1.as_str(), s.1.as_str()) {
        proof {
            assert(pair_view(set@[i as int]) == pair_view(s));
        }
        return;
    }
    let ghost s0 = set@;
    let ghost sv = pair_view(s);
    proof {
        if i < n {
            let c = pair_view(set@[i as int]);
            lemma_str_lt_total(c.0, sv.0);
            lemma_str_lt_total(c.1, sv.1);
            assert(pair_lt(sv, c));
        }
        assert forall|x: (Seq<char>, Seq<char>), y: (Seq<char>, Seq<char>), z: (Seq<char>, Seq<char>)|
            pair_lt(x, y) && pair_lt(y, z) implies pair_lt(x, z) by {
            if str_lt(x.0, y.0) && str_lt(y.0, z.0) {
                lemma_str_lt_trans(x.0, y.0, z.0);
            }
            if x.0 == y.0 && y.0 == z.0 && str_lt(x.1, y.1) && str_lt(y.1, z.1) {
                lemma_str_lt_trans(x.1, y.1, z.1);
            }
        }
    }
    set.insert(i, s);
    proof {
        assert(pair_view(set@[i as int]) == sv);
        assert forall|a: int, b: int| 0 <= a < b < set@.len() implies pair_lt(pair_view(#[trigger] set@[a]), pair_view(#[trigger] set@[b])) by {
            if b < i {
                assert(set@[a] == s0[a] && set@[b] == s0[b]);
            } else if b == i {
                assert(set@[a] == s0[a]);
            } else if a == i {
                assert(set@[b] == s0[b - 1]);
                if b - 1 > i {
                    assert(pair_lt(pair_view(s0[i as int]), pair_view(s0[b - 1])));
                }
            } else if a < i {
                assert(set@[a] == s0[a] && set@[b] == s0[b - 1]);
                if b - 1 > i {
                    assert(pair_lt(pair_view(s0[i as int]), pair_view(s0[b - 1])));
                }
            } else {
                assert(set@[a] == s0[a - 1] && set@[b] == s0[b - 1]);
            }
        }
        assert forall|x: (Seq<char>, Seq<char>)| #[trigger] has_pair(set@, x) <==> (has_pair(s0, x) || x == sv) by {
            if exists|a: int| 0 <= a < set@.len() && #[trigger] pair_view(set@[a]) == x {
                let a = choose|a: int| 0 <= a < set@.len() && #[trigger] pair_view(set@[a]) == x;
                if a < i {
                    assert(pair_view(s0[a]) == x);
                } else if a > i {
                    assert(pair_view(s0[a - 1]) == x);
                }
            }
            if exists|a: int| 0 <= a < s0.len() && #[trigger] pair_view(s0[a]) == x {
                let a = choose|a: int| 0 <= a < s0.len() && #[trigger] pair_view(s0[a]) == x;
                if a < i {
                    assert(pair_view(set@[a]) == x);
                } else {
                    assert(pair_view(set@[a + 1]) == x);
                }
            }
        }
    }
}

/// The letters of the symbols of the loop orders `loops` (their words given
/// per loop order, `None` where the symbol's file is missing) and, when
/// `want_pairs`, the repeated pairs of their full-length words.
pub fn discover_letters_and_pairs(loops: &[usize], words_by_loop: &[Option<Vec<Vec<String>>>], want_pairs: bool) -> (r: Result<
    DiscoveryResult,
    ExperimentError,
>)
    requires
        words_by_loop@.len() == loops@.len(),
    ensures
        r is Err <==> exists|l: int| 0 <= l < loops@.len() && #[trigger] words_by_loop@[l] is None,
        r matches Ok(d) ==> {
            let words = words_by_loop@.map_values(|w: Option<Vec<Vec<String>>>| w->0);
            &&& sorted_strings(d.letters@)
            &&& forall|s: Seq<char>| #[trigger] has_string(d.letters@, s) <==> seen_letter(words, s)
            &&& sorted_pairs(d.pairs@)
            &&& forall|a: Seq<char>, b: Seq<char>| #[trigger] has_pair(d.pairs@, (a, b)) <==> (want_pairs && seen_pair(loops@, words, a, b))
        },
{
    let ghost words = words_by_loop@.map_values(|w: Option<Vec<Vec<String>>>| w->0);
    let mut letters: Vec<String> = Vec::new();
    let mut pairs: Vec<(String, String)> = Vec::new();
    let mut l: usize = 0;
    while l < loops.len()
        invariant
            words_by_loop@.len() == loops@.len(),
            words == words_by_loop@.map_values(|w: Option<Vec<Vec<String>>>| w->0),
            l <= loops@.len(),
            forall|q: int| 0 <= q < l ==> #[trigger] words_by_loop@[q] is Some,
            sorted_strings(letters@),
            sorted_pairs(pairs@),
            forall|s: Seq<char>| #[trigger] has_string(letters@, s) <==> seen_letter(words.subrange(0, l as int), s),
            forall|a: Seq<char>, b: Seq<char>| #[trigger] has_pair(pairs@, (a, b)) <==> (want_pairs && seen_pair(
                loops@,
                words.subrange(0, l as int),
                a,
                b,
            )),
        decreases loops@.len() - l,
    {
        let loop_value = loops[l];
        let terms = match &words_by_loop[l] {
            Some(t) => t,
            None => {
                let mut msg = String::from_str("missing loop file for L=");
                msg.append(u64_to_text(loop_value as u64).as_str());
                return Err(ExperimentError::InvalidConfig(msg));
            },
        };
        assert(words[l as int] == *terms);
        let mut t: usize = 0;
        while t < terms.len()
            invariant
                words_by_loop@.len() == loops@.len(),
                words == words_by_loop@.map_values(|w: Option<Vec<Vec<String>>>| w->0),
                l < loops@.len(),
                loop_value == loops@[l as int],
                words[l as int] == *terms,
                t <= terms@.len(),
                sorted_strings(letters@),
                sorted_pairs(pairs@),
                forall|s: Seq<char>| #[trigger] has_string(letters@, s) <==> (seen_letter(words.subrange(0, l as int), s) || in_terms(
                    terms@,
                    t as int,
                    s,
                )),
                forall|a: Seq<char>, b: Seq<char>| #[trigger] has_pair(pairs@, (a, b)) <==> (want_pairs && (seen_pair(
                    loops@,
                    words.subrange(0, l as int),
                    a,
                    b,
                ) || pair_in_terms(terms@, t as int, loop_value as int, a, b))),
            decreases terms@.len() - t,
        {
            let word = &terms[t];
            let mut k: usize = 0;
            while k < word.len()
                invariant
                    t < terms@.len(),
                    *word == terms@[t as int],
                    k <= word@.len(),
                    sorted_strings(letters@),
                    sorted_pairs(pairs@),
                    forall|a: Seq<char>, b: Seq<char>| #[trigger] has_pair(pairs@, (a, b)) <==> (want_pairs && (seen_pair(
                        loops@,
                        words.subrange(0, l as int),
                        a,
                        b,
                    ) || pair_in_terms(terms@, t as int, loop_value as int, a, b))),
                    forall|s: Seq<char>| #[trigger] has_string(letters@, s) <==> (seen_letter(words.subrange(0, l as int), s) || in_terms(
                        terms@,
                        t as int,
                        s,
                    ) || has_string(word@.subrange(0, k as int), s)),
                decreases word@.len() - k,
            {
                insert_string(&mut letters, &word[k]);
                proof {
                    let w1 = word@.subrange(0, k as int);
                    let w2 = word@.subrange(0, k + 1);
                    assert forall|s: Seq<char>| #[trigger] has_string(w2, s) <==> (has_string(w1, s) || s == word@[k as int]@) by {
                        if has_string(w2, s) {
                            let j = choose|j: int| 0 <= j < w2.len() && #[trigger] w2[j]@ == s;
                            if j < k {
                                assert(w1[j]@ == s);
                            }
                        }
                        if has_string(w1, s) {
                            let j = choose|j: int| 0 <= j < w1.len() && #[trigger] w1[j]@ == s;
                            assert(w2[j]@ == s);
                        }
                        if s == word@[k as int]@ {
                            assert(w2[k as int]@ == s);
                        }
                    }
                }
                k += 1;
            }
            if want_pairs && loop_value <= usize::MAX / 2 && word.len() == 2 * loop_value {
                match repeated_pair(word.as_slice()) {
                    Some(pair) => {
                        insert_pair(&mut pairs, pair);
                    },
                    None => {},
                }
            }
            proof {
                assert(word@.subrange(0, word@.len() as int) =~= word@);
                assert forall|s: Seq<char>| #[trigger] in_terms(terms@, t + 1, s) <==> (in_terms(terms@, t as int, s) || has_string(word@, s)) by {
                    if in_terms(terms@, t + 1, s) {
                        let (u, j) = choose|u: int, j: int| 0 <= u < t + 1 && 0 <= j < terms@[u]@.len() && #[trigger] terms@[u]@[j]@ == s;
                        if u == t {
                            assert(word@[j]@ == s);
                        }
                    }
                    if has_string(word@, s) {
                        let j = choose|j: int| 0 <= j < word@.len() && #[trigger] word@[j]@ == s;
                        assert(terms@[t as int]@[j]@ == s);
                    }
                }
                assert forall|a: Seq<char>, b: Seq<char>| #[trigger] pair_in_terms(terms@, t + 1, loop_value as int, a, b) <==> (pair_in_terms(
                    terms@,
                    t as int,
                    loop_value as int,
                    a,
                    b,
                ) || full_pair(word@, loop_value as int, a, b)) by {
                    if pair_in_terms(terms@, t + 1, loop_value as int, a, b) {
                        let u = choose|u: int| 0 <= u < t + 1 && #[trigger] full_pair(terms@[u]@, loop_value as int, a, b);
                        if u == t {
                        }
                    }
                    if full_pair(word@, loop_value as int, a, b) {
                        assert(full_pair(terms@[t as int]@, loop_value as int, a, b));
                    }
                }
            }
            t += 1;
        }
        proof {
            let w2 = words.subrange(0, l + 1);
            let w1 = words.subrange(0, l as int);
            assert forall|s: Seq<char>| #[trigger] seen_letter(w2, s) <==> (seen_letter(w1, s) || in_terms(terms@, terms@.len() as int, s)) by {
                if seen_letter(w2, s) {
                    let (q, u, k) = choose|q: int, u: int, k: int|
                        0 <= q < w2.len() && 0 <= u < w2[q]@.len() && 0 <= k < w2[q]@[u]@.len() && #[trigger] w2[q]@[u]@[k]@ == s;
                    if q < l {
                        assert(w1[q]@[u]@[k]@ == s);
                    } else {
                        assert(terms@[u]@[k]@ == s);
                    }
                }
                if seen_letter(w1, s) {
                    let (q, u, k) = choose|q: int, u: int, k: int|
                        0 <= q < w1.len() && 0 <= u < w1[q]@.len() && 0 <= k < w1[q]@[u]@.len() && #[trigger] w1[q]@[u]@[k]@ == s;
                    assert(w2[q]@[u]@[k]@ == s);
                }
                if in_terms(terms@, terms@.len() as int, s) {
                    let (u, k) = choose|u: int, k: int| 0 <= u < terms@.len() && 0 <= k < terms@[u]@.len() && #[trigger] terms@[u]@[k]@ == s;
                    assert(w2[l as int]@[u]@[k]@ == s);
                }
            }
            assert forall|a: Seq<char>, b: Seq<char>| #[trigger] seen_pair(loops@, w2, a, b) <==> (seen_pair(loops@, w1, a, b) || pair_in_terms(
                terms@,
                terms@.len() as int,
                loop_value as int,
                a,
                b,
            )) by {
                if seen_pair(loops@, w2, a, b) {
                    let (q, u) = choose|q: int, u: int| 0 <= q < w2.len() && 0 <= u < w2[q]@.len() && #[trigger] full_pair(w2[q]@[u]@, loops@[q] as int, a, b);
                    if q < l {
                        assert(full_pair(w1[q]@[u]@, loops@[q] as int, a, b));
                    } else {
                        assert(full_pair(terms@[u]@, loop_value as int, a, b));
                    }
                }
                if seen_pair(loops@, w1, a, b) {
                    let (q, u) = choose|q: int, u: int| 0 <= q < w1.len() && 0 <= u < w1[q]@.len() && #[trigger] full_pair(w1[q]@[u]@, loops@[q] as int, a, b);
                    assert(full_pair(w2[q]@[u]@, loops@[q] as int, a, b));
                }
                if pair_in_terms(terms@, terms@.len() as int, loop_value as int, a, b) {
                    let u = choose|u: int| 0 <= u < terms@.len() && #[trigger] full_pair(terms@[u]@, loop_value as int, a, b);
                    assert(full_pair(w2[l as int]@[u]@, loops@[l as int] as int, a, b));
                }
            }
        }
        l += 1;
    }
    proof {
        assert(words.subrange(0, loops@.len() as int) =~= words);
    }
    Ok(DiscoveryResult { letters, pairs })
}

} // verus!
