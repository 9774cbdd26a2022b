//! Families of word sequences whose coefficients are scanned for low Hankel rank.
use crate::text::{join_strings, lemma_strings_view_push, str_seq_join, strings_view};
use vstd::prelude::*;
use vstd::string::StringExecFns;

verus! {

#[derive(Clone, Copy, Debug, PartialEq, Eq, Structural)]
pub enum FamilyType {
    PowLast,
    Block2,
    Prefix,
    Suffix,
    PrefixSuffix,
}

/// The name of a family.
pub open spec fn family_name(f: FamilyType) -> Seq<char> {
    match f {
        FamilyType::PowLast => "pow-last"@,
        FamilyType::Block2 => "block2"@,
        FamilyType::Prefix => "prefix"@,
        FamilyType::Suffix => "suffix"@,
        FamilyType::PrefixSuffix => "prefix-suffix"@,
    }
}

impl FamilyType {
    pub fn as_str(self) -> (r: &'static str)
        ensures
            r@ == family_name(self),
    {
        match self {
            Self::PowLast => "pow-last",
            Self::Block2 => "block2",
            Self::Prefix => "prefix",
            Self::Suffix => "suffix",
            Self::PrefixSuffix => "prefix-suffix",
        }
    }
}

/// Where the words of a sequence come from.
#[derive(Clone, Debug)]
pub enum SequenceSource {
    ExactWords { words: Vec<Vec<String>> },
    Prefix { prefix: Vec<String> },
    Suffix { suffix: Vec<String> },
    PrefixSuffix { prefix: Vec<String>, suffix: Vec<String> },
}

/// A sequence of coefficients, one per loop order.
#[derive(Clone, Debug)]
pub struct SequenceSpec {
    pub family: FamilyType,
    pub params: Vec<String>,
    pub source: SequenceSource,
}

/// The letters of each word of a list, as character sequences.
pub open spec fn words_view(words: Seq<Vec<String>>) -> Seq<Seq<Seq<char>>> {
    words.map_values(|w: Vec<String>| strings_view(w@))
}

impl SequenceSpec {
    /// The parameters joined by commas.
    pub fn param_string(&self) -> (r: String)
        ensures
            r@ == str_seq_join(strings_view(self.params@), ","@),
    {
        join_strings(self.params.as_slice(), ",")
    }

    /// The key by which sequences are ordered: family name, then parameters.
    pub fn sort_key(&self) -> (r: (String, String))
        ensures
            r.0@ == family_name(self.family),
            r.1@ == str_seq_join(strings_view(self.params@), ","@),
    {
        (String::from_str(self.family.as_str()), self.param_string())
    }

    /// The word for loop number `loop_idx`, when the sequence lists its words.
    pub fn word_for_loop(&self, loop_idx: usize) -> (r: Option<&[String]>)
        ensures
            match self.source {
                SequenceSource::ExactWords { words } => if loop_idx < words.len() {
                    r matches Some(w) && w@ == words@[loop_idx as int]@
                } else {
                    r is None
                },
                _ => r is None,
            },
    {
        match &self.source {
            SequenceSource::ExactWords { words } => {
                if loop_idx < words.len() {
                    Some(words[loop_idx].as_slice())
                } else {
                    None
                }
            },
            _ => None,
        }
    }

    /// Prefix, suffix and prefix-suffix sequences are marginals.
    pub fn is_marginal(&self) -> (r: bool)
        ensures
            r == (self.family is Prefix || self.family is Suffix || self.family is PrefixSuffix),
    {
        match self.family {
            FamilyType::Prefix | FamilyType::Suffix | FamilyType::PrefixSuffix => true,
            _ => false,
        }
    }
}

/// `2 * loop_index`, saturating at the largest `usize`.
pub open spec fn word_len(loop_index: usize) -> int {
    if 2 * loop_index > usize::MAX {
        usize::MAX as int
    } else {
        2 * loop_index
    }
}

/// `x` repeated, then one `y`, with `2 * loop_index` letters in all.
pub open spec fn pow_last_word(x: Seq<char>, y: Seq<char>, loop_index: usize) -> Seq<Seq<char>> {
    let len = word_len(loop_index);
    Seq::new(len as nat, |k: int| if k < len - 1 { x } else { y })
}

/// `u v` repeated `loop_index` times.
pub open spec fn block2_word(u: Seq<char>, v: Seq<char>, loop_index: usize) -> Seq<Seq<char>> {
    Seq::new((2 * loop_index) as nat, |k: int| if k % 2 == 0 { u } else { v })
}

/// The pow-last word of `x` and `y` at a loop order `L >= 1` (with `2L`
/// fitting in `usize`) has `2L` letters: `x` at each of the first `2L - 1`
/// positions and `y` at the last; at loop order 0 it is empty.
pub proof fn law_pow_last_word(x: Seq<char>, y: Seq<char>, loop_index: usize)
    requires
        2 * loop_index <= usize::MAX,
    ensures
        pow_last_word(x, y, loop_index).len() == 2 * loop_index,
        loop_index > 0 ==> pow_last_word(x, y, loop_index)[2 * loop_index - 1] == y,
        forall|k: int| 0 <= k < 2 * loop_index - 1 ==> #[trigger] pow_last_word(x, y, loop_index)[k] == x,
{
}

/// The block-2 word of `u` and `v` at loop order `L` has `2L` letters: it
/// starts with `u`, holds `u` at every even position and `v` at every odd one.
pub proof fn law_block2_word(u: Seq<char>, v: Seq<char>, loop_index: usize)
    ensures
        block2_word(u, v, loop_index).len() == 2 * loop_index,
        loop_index > 0 ==> block2_word(u, v, loop_index)[0] == u && block2_word(u, v, loop_index)[1] == v,
        forall|k: int| 0 <= k < loop_index ==> #[trigger] block2_word(u, v, loop_index)[2 * k] == u && block2_word(u, v, loop_index)[2 * k + 1] == v,
{
    assert forall|k: int| 0 <= k < loop_index implies #[trigger] block2_word(u, v, loop_index)[2 * k] == u && block2_word(u, v, loop_index)[2 * k + 1] == v by {
        assert((2 * k) % 2 == 0);
        assert((2 * k + 1) % 2 == 1);
    }
}

/// The words of a sequence given by its words (none for another source).
pub open spec fn exact_words(s: SequenceSpec) -> Seq<Seq<Seq<char>>> {
    match s.source {
        SequenceSource::ExactWords { words } => words_view(words@),
        _ => Seq::empty(),
    }
}

/// Each sequence `generate_block2_pairs` gives for a pair `(u, v)` is given
/// by its words, and its word for loop order `L` is `u v u v ... u v`, of
/// length `2L`.
pub proof fn law_block2_pairs(pairs: Seq<(String, String)>, loops: Seq<usize>, specs: Seq<SequenceSpec>)
    requires
        specs.len() == pairs.len(),
        forall|i: int|
            0 <= i < pairs.len() ==> is_spec_of(
                #[trigger] specs[i],
                FamilyType::Block2,
                "u="@,
                pairs[i].0@,
                "v="@,
                pairs[i].1@,
                Seq::new(loops.len(), |t: int| block2_word(pairs[i].0@, pairs[i].1@, loops[t])),
            ),
    ensures
        forall|i: int| 0 <= i < pairs.len() ==> (#[trigger] specs[i]).source is ExactWords && exact_words(specs[i]).len() == loops.len(),
        forall|i: int, t: int| 0 <= i < pairs.len() && 0 <= t < loops.len() ==> (#[trigger] exact_words(specs[i])[t]).len() == 2 * loops[t],
        forall|i: int, t: int, k: int|
            0 <= i < pairs.len() && 0 <= t < loops.len() && 0 <= k < loops[t] ==> #[trigger] exact_words(specs[i])[t][2 * k] == pairs[i].0@
                && exact_words(specs[i])[t][2 * k + 1] == pairs[i].1@,
{
    assert forall|i: int, t: int, k: int|
        0 <= i < pairs.len() && 0 <= t < loops.len() && 0 <= k < loops[t] implies #[trigger] exact_words(specs[i])[t][2 * k] == pairs[i].0@
            && exact_words(specs[i])[t][2 * k + 1] == pairs[i].1@ by {
        assert(is_spec_of(specs[i], FamilyType::Block2, "u="@, pairs[i].0@, "v="@, pairs[i].1@, Seq::new(loops.len(), |t: int| block2_word(pairs[i].0@, pairs[i].1@, loops[t]))));
        law_block2_word(pairs[i].0@, pairs[i].1@, loops[t]);
    }
    assert forall|i: int, t: int| 0 <= i < pairs.len() && 0 <= t < loops.len() implies (#[trigger] exact_words(specs[i])[t]).len() == 2 * loops[t] by {
        assert(is_spec_of(specs[i], FamilyType::Block2, "u="@, pairs[i].0@, "v="@, pairs[i].1@, Seq::new(loops.len(), |t: int| block2_word(pairs[i].0@, pairs[i].1@, loops[t]))));
        law_block2_word(pairs[i].0@, pairs[i].1@, loops[t]);
    }
}

/// The sequence of family `f` with the two named parameters and these words.
pub open spec fn is_spec_of(
    s: SequenceSpec,
    f: FamilyType,
    k1: Seq<char>,
    a: Seq<char>,
    k2: Seq<char>,
    b: Seq<char>,
    words: Seq<Seq<Seq<char>>>,
) -> bool {
    &&& s.family == f
    &&& strings_view(s.params@) == seq![k1 + a, k2 + b]
    &&& s.source matches SequenceSource::ExactWords { words: ws } && words_view(ws@) == words
}

/// `2 * n`, saturating at the largest `usize`, as `2usize.saturating_mul(n)`.
fn saturating_double(n: usize) -> (r: usize)
    ensures
        r == word_len(n),
{
    if n > usize::MAX / 2 {
        usize::MAX
    } else {
        2 * n
    }
}

/// A string copy.
fn copy_string(s: &String) -> (r: String)
    ensures
        r@ == s@,
{
    s.clone()
}

/// `key` followed by `value`.
fn param(key: &str, value: &String) -> (r: String)
    ensures
        r@ == key@ + value@,
{
    let mut out = String::from_str(key);
    out.append(value.as_str());
    out
}

fn pow_last_words(x: &String, y: &String, loops: &[usize]) -> (r: Vec<Vec<String>>)
    ensures
        words_view(r@) == Seq::new(loops@.len(), |t: int| pow_last_word(x@, y@, loops@[t])),
{
    let mut words: Vec<Vec<String>> = Vec::with_capacity(loops.len());
    let mut t: usize = 0;
    while t < loops.len()
        invariant
            t <= loops@.len(),
            words_view(words@) == Seq::new(t as nat, |q: int| pow_last_word(x@, y@, loops@[q])),
        decreases loops@.len() - t,
    {
        let loop_index = loops[t];
        let len = saturating_double(loop_index);
        let mut word: Vec<String> = Vec::with_capacity(len);
        if len > 0 {
            let repeat = len - 1;
            let mut k: usize = 0;
            while k < repeat
                invariant
                    k <= repeat,
                    strings_view(word@) == Seq::new(k as nat, |q: int| x@),
                decreases repeat - k,
            {
                let ghost w0 = word@;
                let c = copy_string(x);
                word.push(c);
                proof {
                    lemma_strings_view_push(w0, c);
                    assert(strings_view(word@) =~= Seq::new((k + 1) as nat, |q: int| x@));
                }
                k += 1;
            }
            let ghost w0 = word@;
            let c = copy_string(y);
            word.push(c);
            proof {
                lemma_strings_view_push(w0, c);
            }
        }
        proof {
            assert(len == word_len(loop_index));
            assert(strings_view(word@) =~= pow_last_word(x@, y@, loop_index));
        }
        let ghost ws0 = words@;
        let ghost wd = word;
        words.push(word);
        proof {
            assert(words_view(ws0.push(wd)) =~= words_view(ws0).push(strings_view(wd@)));
            assert(words_view(words@) =~= Seq::new((t + 1) as nat, |q: int| pow_last_word(x@, y@, loops@[q])));
        }
        t += 1;
    }
    words
}

fn block2_words(u: &String, v: &String, loops: &[usize]) -> (r: Vec<Vec<String>>)
    ensures
        words_view(r@) == Seq::new(loops@.len(), |t: int| block2_word(u@, v@, loops@[t])),
{
    let mut words: Vec<Vec<String>> = Vec::with_capacity(loops.len());
    let mut t: usize = 0;
    while t < loops.len()
        invariant
            t <= loops@.len(),
            words_view(words@) == Seq::new(t as nat, |q: int| block2_word(u@, v@, loops@[q])),
        decreases loops@.len() - t,
    {
        let loop_index = loops[t];
        let len = saturating_double(loop_index);
        let mut word: Vec<String> = Vec::with_capacity(len);
        let mut k: usize = 0;
        while k < loop_index
            invariant
                k <= loop_index,
                strings_view(word@) == Seq::new((2 * k) as nat, |q: int| if q % 2 == 0 { u@ } else { v@ }),
            decreases loop_index - k,
        {
            let ghost w0 = word@;
            let cu = copy_string(u);
            word.push(cu);
            let ghost w1 = word@;
            let cv = copy_string(v);
            word.push(cv);
            proof {
                lemma_strings_view_push(w0, cu);
                lemma_strings_view_push(w1, cv);
                assert(strings_view(word@) =~= Seq::new((2 * (k + 1)) as nat, |q: int| if q % 2 == 0 { u@ } else { v@ }));
            }
            k += 1;
        }
        proof {
            assert(strings_view(word@) =~= block2_word(u@, v@, loop_index));
        }
        let ghost ws0 = words@;
        let ghost wd = word;
        words.push(word);
        proof {
            assert(words_view(ws0.push(wd)) =~= words_view(ws0).push(strings_view(wd@)));
            assert(words_view(words@) =~= Seq::new((t + 1) as nat, |q: int| block2_word(u@, v@, loops@[q])));
        }
        t += 1;
    }
    words
}

/// For each `x` of `x_set` and `y` of `y_set` (in that order), the sequence
/// whose word for loop `L` is `x^(2L-1) y`.
pub fn generate_pow_last(x_set: &[String], y_set: &[String], loops: &[usize]) -> (r: Vec<SequenceSpec>)
    requires
        x_set@.len() * y_set@.len() <= usize::MAX,
    ensures
        r.len() == x_set@.len() * y_set@.len(),
        forall|i: int, j: int|
            0 <= i < x_set@.len() && 0 <= j < y_set@.len() ==> is_spec_of(
                #[trigger] r@[i * y_set@.len() + j],
                FamilyType::PowLast,
                "x="@,
                x_set@[i]@,
                "y="@,
                y_set@[j]@,
                Seq::new(loops@.len(), |t: int| pow_last_word(x_set@[i]@, y_set@[j]@, loops@[t])),
            ),
{
    let mut out: Vec<SequenceSpec> = Vec::new();
    let ny = y_set.len();
    let mut i: usize = 0;
    while i < x_set.len()
        invariant
            ny == y_set@.len(),
            x_set@.len() * ny <= usize::MAX,
            i <= x_set@.len(),
            out.len() == i * ny,
            forall|a: int, b: int|
                0 <= a < i && 0 <= b < ny ==> is_spec_of(
                    #[trigger] out@[a * ny + b],
                    FamilyType::PowLast,
                    "x="@,
                    x_set@[a]@,
                    "y="@,
                    y_set@[b]@,
                    Seq::new(loops@.len(), |t: int| pow_last_word(x_set@[a]@, y_set@[b]@, loops@[t])),
                ),
        decreases x_set@.len() - i,
    {
        let mut j: usize = 0;
        while j < ny
            invariant
                ny == y_set@.len(),
                x_set@.len() * ny <= usize::MAX,
                i < x_set@.len(),
                j <= ny,
                out.len() == i * ny + j,
                forall|a: int, b: int|
                    (0 <= a < i && 0 <= b < ny) || (a == i && 0 <= b < j) ==> is_spec_of(
                        #[trigger] out@[a * ny + b],
                        FamilyType::PowLast,
                        "x="@,
                        x_set@[a]@,
                        "y="@,
                        y_set@[b]@,
                        Seq::new(loops@.len(), |t: int| pow_last_word(x_set@[a]@, y_set@[b]@, loops@[t])),
                    ),
            decreases ny - j,
        {
            proof {
                assert(i * ny + j < x_set@.len() * ny) by (nonlinear_arith)
                    requires
                        i < x_set@.len(),
                        j < ny,
                ;
            }
            let words = pow_last_words(&x_set[i], &y_set[j], loops);
            let params = vec![param("x=", &x_set[i]), param("y=", &y_set[j])];
            let spec = SequenceSpec {
                family: FamilyType::PowLast,
                params,
                source: SequenceSource::ExactWords { words },
            };
            proof {
                assert(strings_view(spec.params@) =~= seq!["x="@ + x_set@[i as int]@, "y="@ + y_set@[j as int]@]);
            }
            let ghost before = out@;
            out.push(spec);
            proof {
                assert forall|a: int, b: int|
                    (0 <= a < i && 0 <= b < ny) || (a == i && 0 <= b < j + 1) implies is_spec_of(
                        #[trigger] out@[a * ny + b],
                        FamilyType::PowLast,
                        "x="@,
                        x_set@[a]@,
                        "y="@,
                        y_set@[b]@,
                        Seq::new(loops@.len(), |t: int| pow_last_word(x_set@[a]@, y_set@[b]@, loops@[t])),
                    ) by {
                    if a < i {
                        assert(a * ny + b < i * ny) by (nonlinear_arith)
                            requires
                                a < i,
                                b < ny,
                        ;
                        assert(out@[a * ny + b] == before[a * ny + b]);
                    } else if b < j {
                        assert(out@[a * ny + b] == before[a * ny + b]);
                    } else {
                        assert(a * ny + b == i * ny + j);
                    }
                }
            }
            j += 1;
        }
        proof {
            assert((i + 1) * ny == i * ny + ny) by (nonlinear_arith);
        }
        i += 1;
    }
    out
}

/// For each ordered pair `(u, v)` of `pairs`, the sequence whose word for
/// loop `L` is `(u v)^L`.
pub fn generate_block2(pairs: &[String], loops: &[usize]) -> (r: Vec<SequenceSpec>)
    requires
        pairs@.len() * pairs@.len() <= usize::MAX,
    ensures
        r.len() == pairs@.len() * pairs@.len(),
        forall|i: int, j: int|
            0 <= i < pairs@.len() && 0 <= j < pairs@.len() ==> is_spec_of(
                #[trigger] r@[i * pairs@.len() + j],
                FamilyType::Block2,
                "u="@,
                pairs@[i]@,
                "v="@,
                pairs@[j]@,
                Seq::new(loops@.len(), |t: int| block2_word(pairs@[i]@, pairs@[j]@, loops@[t])),
            ),
{
    let mut out: Vec<SequenceSpec> = Vec::new();
    let n = pairs.len();
    let mut i: usize = 0;
    while i < n
        invariant
            n == pairs@.len(),
            n * n <= usize::MAX,
            i <= n,
            out.len() == i * n,
            forall|a: int, b: int|
                0 <= a < i && 0 <= b < n ==> is_spec_of(
                    #[trigger] out@[a * n + b],
                    FamilyType::Block2,
                    "u="@,
                    pairs@[a]@,
                    "v="@,
                    pairs@[b]@,
                    Seq::new(loops@.len(), |t: int| block2_word(pairs@[a]@, pairs@[b]@, loops@[t])),
                ),
        decreases n - i,
    {
        let mut j: usize = 0;
        while j < n
            invariant
                n == pairs@.len(),
                n * n <= usize::MAX,
                i < n,
                j <= n,
                out.len() == i * n + j,
                forall|a: int, b: int|
                    (0 <= a < i && 0 <= b < n) || (a == i && 0 <= b < j) ==> is_spec_of(
                        #[trigger] out@[a * n + b],
                        FamilyType::Block2,
                        "u="@,
                        pairs@[a]@,
                        "v="@,
                        pairs@[b]@,
                        Seq::new(loops@.len(), |t: int| block2_word(pairs@[a]@, pairs@[b]@, loops@[t])),
                    ),
            decreases n - j,
        {
            proof {
                assert(i * n + j < n * n) by (nonlinear_arith)
                    requires
                        i < n,
                        j < n,
                ;
            }
            let words = block2_words(&pairs[i], &pairs[j], loops);
            let params = vec![param("u=", &pairs[i]), param("v=", &pairs[j])];
            let spec = SequenceSpec {
                family: FamilyType::Block2,
                params,
                source: SequenceSource::ExactWords { words },
            };
            proof {
                assert(strings_view(spec.params@) =~= seq!["u="@ + pairs@[i as int]@, "v="@ + pairs@[j as int]@]);
            }
            let ghost before = out@;
            out.push(spec);
            proof {
                assert forall|a: int, b: int|
                    (0 <= a < i && 0 <= b < n) || (a == i && 0 <= b < j + 1) implies is_spec_of(
                        #[trigger] out@[a * n + b],
                        FamilyType::Block2,
                        "u="@,
                        pairs@[a]@,
                        "v="@,
                        pairs@[b]@,
                        Seq::new(loops@.len(), |t: int| block2_word(pairs@[a]@, pairs@[b]@, loops@[t])),
                    ) by {
                    if a < i {
                        assert(a * n + b < i * n) by (nonlinear_arith)
                            requires
                                a < i,
                                b < n,
                        ;
                        assert(out@[a * n + b] == before[a * n + b]);
                    } else if b < j {
                        assert(out@[a * n + b] == before[a * n + b]);
                    } else {
                        assert(a * n + b == i * n + j);
                    }
                }
            }
            j += 1;
        }
        proof {
            assert((i + 1) * n == i * n + n) by (nonlinear_arith);
        }
        i += 1;
    }
    out
}

/// For each listed pair `(u, v)`, the sequence whose word for loop `L` is `(u v)^L`.
pub fn generate_block2_pairs(pairs: &[(String, String)], loops: &[usize]) -> (r: Vec<SequenceSpec>)
    ensures
        r.len() == pairs@.len(),
        forall|i: int|
            0 <= i < pairs@.len() ==> is_spec_of(
                #[trigger] r@[i],
                FamilyType::Block2,
                "u="@,
                pairs@[i].0@,
                "v="@,
                pairs@[i].1@,
                Seq::new(loops@.len(), |t: int| block2_word(pairs@[i].0@, pairs@[i].1@, loops@[t])),
            ),
{
    let mut out: Vec<SequenceSpec> = Vec::new();
    let mut i: usize = 0;
    while i < pairs.len()
        invariant
            i <= pairs@.len(),
            out.len() == i,
            forall|a: int|
                0 <= a < i ==> is_spec_of(
                    #[trigger] out@[a],
                    FamilyType::Block2,
                    "u="@,
                    pairs@[a].0@,
                    "v="@,
                    pairs@[a].1@,
                    Seq::new(loops@.len(), |t: int| block2_word(pairs@[a].0@, pairs@[a].1@, loops@[t])),
                ),
        decreases pairs@.len() - i,
    {
        let (u, v) = &pairs[i];
        let words = block2_words(u, v, loops);
        let params = vec![param("u=", u), param("v=", v)];
        let spec = SequenceSpec {
            family: FamilyType::Block2,
            params,
            source: SequenceSource::ExactWords { words },
        };
        proof {
            assert(strings_view(spec.params@) =~= seq!["u="@ + u@, "v="@ + v@]);
        }
        out.push(spec);
        i += 1;
    }
    out
}

/// Two sequence descriptions that say the same: family, parameters and words.
pub open spec fn same_sequence(a: SequenceSpec, b: SequenceSpec) -> bool {
    &&& a.family == b.family
    &&& strings_view(a.params@) == strings_view(b.params@)
    &&& a.source matches SequenceSource::ExactWords { words: wa }
    &&& b.source matches SequenceSource::ExactWords { words: wb }
    &&& words_view(wa@) == words_view(wb@)
}

/// The block family over all ordered pairs of `letters` (`product`, as
/// `generate_block2` gives it) and over the same pairs listed one by one, row
/// by row (`listed`, as `generate_block2_pairs` gives it) are the same
/// sequences in the same order.
pub proof fn lemma_block2_product_is_listed(
    letters: Seq<String>,
    pairs: Seq<(String, String)>,
    loops: Seq<usize>,
    product: Seq<SequenceSpec>,
    listed: Seq<SequenceSpec>,
)
    requires
        pairs.len() == letters.len() * letters.len(),
        forall|i: int, j: int|
            0 <= i < letters.len() && 0 <= j < letters.len() ==> (#[trigger] pairs[i * letters.len() + j]).0@
                == letters[i]@ && pairs[i * letters.len() + j].1@ == letters[j]@,
        product.len() == letters.len() * letters.len(),
        forall|i: int, j: int|
            0 <= i < letters.len() && 0 <= j < letters.len() ==> is_spec_of(
                #[trigger] product[i * letters.len() + j],
                FamilyType::Block2,
                "u="@,
                letters[i]@,
                "v="@,
                letters[j]@,
                Seq::new(loops.len(), |t: int| block2_word(letters[i]@, letters[j]@, loops[t])),
            ),
        listed.len() == pairs.len(),
        forall|i: int|
            0 <= i < pairs.len() ==> is_spec_of(
                #[trigger] listed[i],
                FamilyType::Block2,
                "u="@,
                pairs[i].0@,
                "v="@,
                pairs[i].1@,
                Seq::new(loops.len(), |t: int| block2_word(pairs[i].0@, pairs[i].1@, loops[t])),
            ),
    ensures
        product.len() == listed.len(),
        forall|k: int| 0 <= k < product.len() ==> same_sequence(#[trigger] product[k], listed[k]),
{
    let n = letters.len() as int;
    assert forall|k: int| 0 <= k < product.len() implies same_sequence(#[trigger] product[k], listed[k]) by {
        vstd::arithmetic::div_mod::lemma_fundamental_div_mod(k, n);
        vstd::arithmetic::div_mod::lemma_mod_bound(k, n);
        let i = k / n;
        let j = k % n;
        assert(0 <= i < n) by (nonlinear_arith)
            requires
                k == n * i + j,
                0 <= j < n,
                0 <= k < n * n,
        ;
        assert(k == i * n + j) by (nonlinear_arith)
            requires
                k == n * i + j,
        ;
        assert(pairs[i * n + j].0@ == letters[i]@);
        assert(is_spec_of(product[i * n + j], FamilyType::Block2, "u="@, letters[i]@, "v="@, letters[j]@,
            Seq::new(loops.len(), |t: int| block2_word(letters[i]@, letters[j]@, loops[t]))));
        assert(is_spec_of(listed[k], FamilyType::Block2, "u="@, pairs[k].0@, "v="@, pairs[k].1@,
            Seq::new(loops.len(), |t: int| block2_word(pairs[k].0@, pairs[k].1@, loops[t]))));
        assert(Seq::new(loops.len(), |t: int| block2_word(letters[i]@, letters[j]@, loops[t])) =~= Seq::new(
            loops.len(),
            |t: int| block2_word(pairs[k].0@, pairs[k].1@, loops[t]),
        ));
    }
}

/// The letters written one after the other.
pub fn format_letters_compact(letters: &[String]) -> (r: String)
    ensures
        r@ == str_seq_join(strings_view(letters@), ""@),
{
    join_strings(letters, "")
}

} // verus!
