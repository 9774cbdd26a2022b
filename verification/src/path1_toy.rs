//! The first toy path: word-count predictions for the toy alphabet, the
//! seeds of its random coefficients, and its summary.
use crate::hankel_subblock::{format_usize_list, list_text};
use crate::ladder::{binom, lemma_binom_step, lemma_binom_symmetric, low_side};
use crate::modular::pow;
use crate::rank_scan::Rational;
use crate::text::decimal_digits;
use vstd::prelude::*;

verus! {

/// Which part of the toy path runs.
#[derive(Clone, Copy, Debug, PartialEq, Eq, Structural)]
pub enum Path1Mode {
    Oracle,
    Scaled,
}

/// The name of a mode.
pub open spec fn path1_mode_name(m: Path1Mode) -> Seq<char> {
    match m {
        Path1Mode::Oracle => "oracle"@,
        Path1Mode::Scaled => "scaled"@,
    }
}

impl Path1Mode {
    pub fn as_str(self) -> (r: &'static str)
        ensures
            r@ == path1_mode_name(self),
    {
        match self {
            Self::Oracle => "oracle",
            Self::Scaled => "scaled",
        }
    }
}

/// The settings of a toy run.
#[derive(Clone, Debug)]
pub struct Path1ToyConfig {
    pub mode: Path1Mode,
    pub out_dir: String,
    pub weights: Vec<usize>,
    pub loops: Vec<usize>,
    pub max_words: u64,
    pub max_alternations: usize,
    pub max_terms: Option<usize>,
    pub export_oracle_jsonl: bool,
    pub run_esymb: bool,
}

/// What a toy run did.
#[derive(Clone, Debug)]
pub struct Path1ToyReport {
    pub mode: Path1Mode,
    pub out_dir: String,
    pub weights: Vec<usize>,
    pub loops: Vec<usize>,
    pub ran_esymb: bool,
}

/// The number of words of a given weight over two letters, `2^weight`, below
/// weight 63.
pub fn predict_unconstrained_words(weight: usize) -> (r: Option<u64>)
    ensures
        weight >= 63 ==> r is None,
        weight < 63 ==> r == Some(pow(2, weight as nat) as u64),
{
    if weight >= 63 {
        return None;
    }
    let mut v: u64 = 1;
    let mut i: usize = 0;
    proof {
        crate::ladder::lemma_pow2_values();
    }
    while i < weight
        invariant
            weight < 63,
            i <= weight,
            v == pow(2, i as nat),
            pow(2, 63) == 0x8000_0000_0000_0000int,
        decreases weight - i,
    {
        proof {
            assert(pow(2, (i + 1) as nat) == 2 * pow(2, i as nat));
            crate::kze2::words::lemma_pow_monotone(2, (i + 1) as nat, 63);
            crate::kze2::words::lemma_pow_nonneg(2, i as nat);
        }
        v = v + v;
        i += 1;
    }
    Some(v)
}

/// The product formula for `C(n, k)` leaves `u128`, or a partial value leaves `u64`.
pub open spec fn binom_u64_fails(n: nat, k: nat) -> bool {
    let j = low_side(n, k);
    exists|i: nat|
        1 <= i <= j && (#[trigger] (i * binom((n - j + i) as nat, i)) > u128::MAX || binom((n - j + i) as nat, i) > u64::MAX)
}

/// `C(n, k)` in `u64` by the product formula, or none when a step overflows;
/// 0 for `k > n`.
pub fn binom_u64(n: usize, k: usize) -> (r: Option<u64>)
    ensures
        k > n ==> r == Some(0u64),
        k <= n ==> (r is None <==> binom_u64_fails(n as nat, k as nat)),
        r matches Some(v) ==> v == binom(n as nat, k as nat),
{
    if k > n {
        return Some(0);
    }
    let k2 = if k <= n - k { k } else { n - k };
    let ghost a: nat = (n - k2) as nat;
    let mut value: u128 = 1;
    let mut i: usize = 1;
    proof {
        assert(binom(a, 0) == 1);
    }
    while i <= k2
        invariant
            k <= n,
            k2 == low_side(n as nat, k as nat),
            a == n - k2,
            1 <= i <= k2 + 1,
            value == binom((a + i - 1) as nat, (i - 1) as nat),
            value <= u64::MAX,
            forall|t: nat|
                1 <= t < i ==> !(#[trigger] (t * binom((a + t) as nat, t)) > u128::MAX || binom((a + t) as nat, t) > u64::MAX),
        decreases k2 + 1 - i,
    {
        let numerator = (n - k2 + i) as u128;
        let ghost prev = binom((a + i - 1) as nat, (i - 1) as nat);
        let ghost next = binom((a + i) as nat, i as nat);
        proof {
            lemma_binom_step(a, i as nat);
            assert(value * numerator == i * next) by (nonlinear_arith)
                requires
                    value == prev,
                    numerator == a + i,
                    i * next == (a + i) * prev,
            ;
        }
        match value.checked_mul(numerator) {
            Some(v) => {
                proof {
                    assert(v as int / (i as int) == next) by {
                        vstd::arithmetic::div_mod::lemma_div_multiples_vanish(next as int, i as int);
                    }
                }
                value = v / (i as u128);
                if value > u64::MAX as u128 {
                    proof {
                        assert(((a + i) as nat) == ((n - k2 + i) as nat));
                    }
                    return None;
                }
                proof {
                    assert forall|t: nat|
                        1 <= t < i + 1 implies !(#[trigger] (t * binom((a + t) as nat, t)) > u128::MAX || binom((a + t) as nat, t)
                            > u64::MAX) by {
                        if t == i {
                            assert(binom((a + t) as nat, t) == next);
                        }
                    }
                }
            },
            None => {
                proof {
                    assert(((a + i) as nat) == ((n - k2 + i) as nat));
                }
                return None;
            },
        }
        i += 1;
    }
    proof {
        assert((a + k2) as nat == n);
        if k2 != k {
            lemma_binom_symmetric(n as nat, k as nat);
        }
        assert(!binom_u64_fails(n as nat, k as nat)) by {
            if binom_u64_fails(n as nat, k as nat) {
                let t = choose|t: nat|
                    1 <= t <= k2 && (#[trigger] (t * binom((n - k2 + t) as nat, t)) > u128::MAX || binom((n - k2 + t) as nat, t)
                        > u64::MAX);
                assert(((n - k2 + t) as nat) == ((a + t) as nat));
            }
        }
    }
    Some(value as u64)
}

/// `sum_{k <= upto} C(n, k)`.
pub open spec fn binom_prefix_sum(n: nat, upto: nat) -> int
    decreases upto,
{
    if upto == 0 {
        binom(n, 0) as int
    } else {
        binom_prefix_sum(n, (upto - 1) as nat) + binom(n, upto)
    }
}

/// The number of words of weight `w` over two letters with at most
/// `max_alternations` changes of letter: `2 * sum_{k <= min(a, w-1)} C(w-1, k)`;
/// 1 for weight 0; none when a step overflows `u64`.
pub fn predict_max_alternations_words(weight: usize, max_alternations: usize) -> (r: Option<u64>)
    ensures
        weight == 0 ==> r == Some(1u64),
        r matches Some(v) ==> weight > 0 ==> v == 2 * binom_prefix_sum(
            (weight - 1) as nat,
            (if max_alternations < weight - 1 { max_alternations } else { (weight - 1) as usize }) as nat,
        ),
{
    if weight == 0 {
        return Some(1);
    }
    let n = weight - 1;
    let max_k = if max_alternations < n { max_alternations } else { n };
    let mut sum: u64 = 0;
    let mut k: usize = 0;
    while k <= max_k
        invariant
            max_k <= n,
            n == weight - 1,
            k <= max_k + 1,
            k == 0 ==> sum == 0,
            k > 0 ==> sum == binom_prefix_sum(n as nat, (k - 1) as nat),
        decreases max_k + 1 - k,
    {
        let add = binom_u64(n, k)?;
        sum = match sum.checked_add(add) {
            Some(v) => v,
            None => {
                return None;
            },
        };
        k += 1;
    }
    sum.checked_mul(2)
}

/// The FNV-1a offset basis.
pub const FNV_OFFSET_BASIS: u64 = 0xcbf29ce484222325;

/// The FNV-1a prime.
pub const FNV_PRIME: u64 = 0x00000100000001b3;

/// One FNV-1a step: `(hash ^ byte) * FNV_PRIME` modulo `2^64`.
pub open spec fn fnv_step_spec(hash: u64, byte: u8) -> u64 {
    (((hash ^ (byte as u64)) as int * FNV_PRIME as int) % 0x1_0000_0000_0000_0000int) as u64
}

pub fn fnv1a_step(hash: u64, byte: u8) -> (r: u64)
    ensures
        r == fnv_step_spec(hash, byte),
{
    let out = hash ^ (byte as u64);
    out.wrapping_mul(FNV_PRIME)
}

/// The FNV-1a hash of `bytes` from `hash` on.
pub open spec fn fnv_fold(hash: u64, bytes: Seq<u8>) -> u64
    decreases bytes.len(),
{
    if bytes.len() == 0 {
        hash
    } else {
        fnv_step_spec(fnv_fold(hash, bytes.drop_last()), bytes.last())
    }
}

/// Hashes `bytes` into `hash`.
fn fnv_bytes(hash: u64, bytes: &[u8]) -> (r: u64)
    ensures
        r == fnv_fold(hash, bytes@),
{
    let mut h = hash;
    let mut i: usize = 0;
    while i < bytes.len()
        invariant
            i <= bytes@.len(),
            h == fnv_fold(hash, bytes@.subrange(0, i as int)),
        decreases bytes@.len() - i,
    {
        h = fnv1a_step(h, bytes[i]);
        proof {
            let q = bytes@.subrange(0, i + 1);
            assert(q.drop_last() =~= bytes@.subrange(0, i as int));
        }
        i += 1;
    }
    proof {
        assert(bytes@.subrange(0, bytes@.len() as int) =~= bytes@);
    }
    h
}

/// The eight little-endian bytes of `v`.
pub open spec fn le_bytes(v: u64) -> Seq<u8> {
    Seq::new(8, |i: int| ((v >> (8 * i) as u64) & 0xffu64) as u8)
}

fn le_bytes_exec(v: u64) -> (r: Vec<u8>)
    ensures
        r@ == le_bytes(v),
{
    let mut out: Vec<u8> = Vec::with_capacity(8);
    let mut i: u64 = 0;
    while i < 8
        invariant
            i <= 8,
            out@.len() == i,
            forall|t: int| 0 <= t < i ==> #[trigger] out@[t] == ((v >> (8 * t) as u64) & 0xffu64) as u8,
        decreases 8 - i,
    {
        out.push(((v >> (8 * i)) & 0xff) as u8);
        i += 1;
    }
    proof {
        assert(out@ =~= le_bytes(v));
    }
    out
}

/// The bytes of `"path1-toy"`.
pub open spec fn path1_tag() -> Seq<u8> {
    seq![112u8, 97u8, 116u8, 104u8, 49u8, 45u8, 116u8, 111u8, 121u8]
}

/// The bytes of a mode's name.
pub open spec fn mode_bytes(m: Path1Mode) -> Seq<u8> {
    match m {
        Path1Mode::Oracle => seq![111u8, 114u8, 97u8, 99u8, 108u8, 101u8],
        Path1Mode::Scaled => seq![115u8, 99u8, 97u8, 108u8, 101u8, 100u8],
    }
}

/// The seed of a toy run: the FNV-1a hash of `"path1-toy"`, the mode's name,
/// the weight and, when given, the alternation limit (both as eight
/// little-endian bytes).
pub fn seed_from_params(mode: Path1Mode, weight: usize, max_alternations: Option<usize>) -> (r: u64)
    ensures
        r == fnv_fold(
            FNV_OFFSET_BASIS,
            path1_tag() + mode_bytes(mode) + le_bytes(weight as u64) + match max_alternations {
                Some(v) => le_bytes(v as u64),
                None => Seq::<u8>::empty(),
            },
        ),
{
    let tag: Vec<u8> = vec![112, 97, 116, 104, 49, 45, 116, 111, 121];
    let name: Vec<u8> = match mode {
        Path1Mode::Oracle => vec![111, 114, 97, 99, 108, 101],
        Path1Mode::Scaled => vec![115, 99, 97, 108, 101, 100],
    };
    let mut bytes: Vec<u8> = Vec::new();
    bytes.append(&mut tag.clone());
    bytes.append(&mut name.clone());
    bytes.append(&mut le_bytes_exec(weight as u64));
    match max_alternations {
        Some(v) => bytes.append(&mut le_bytes_exec(v as u64)),
        None => {},
    }
    proof {
        assert(tag@ =~= path1_tag());
        assert(name@ =~= mode_bytes(mode));
    }
    let r = fnv_bytes(FNV_OFFSET_BASIS, bytes.as_slice());
    proof {
        match max_alternations {
            Some(v) => {
                assert(bytes@ =~= path1_tag() + mode_bytes(mode) + le_bytes(weight as u64) + le_bytes(v as u64));
            },
            None => {
                assert(bytes@ =~= path1_tag() + mode_bytes(mode) + le_bytes(weight as u64) + Seq::<u8>::empty());
            },
        }
    }
    r
}

/// The SplitMix64 generator.
#[derive(Clone, Copy, Debug)]
pub struct SplitMix64 {
    pub state: u64,
}

/// `(a * b)` modulo `2^64`.
pub open spec fn mul64(a: u64, b: u64) -> u64 {
    ((a as int * b as int) % 0x1_0000_0000_0000_0000int) as u64
}

/// The output of SplitMix64 for the (already advanced) state `z`.
pub open spec fn splitmix_mix(z: u64) -> u64 {
    let z1 = mul64(z ^ (z >> 30u64), 0xBF58476D1CE4E5B9u64);
    let z2 = mul64(z1 ^ (z1 >> 27u64), 0x94D049BB133111EBu64);
    z2 ^ (z2 >> 31u64)
}

impl SplitMix64 {
    pub fn new(seed: u64) -> (r: SplitMix64)
        ensures
            r.state == seed,
    {
        SplitMix64 { state: seed }
    }

    /// Advances the state by the golden-ratio increment and mixes it.
    pub fn next_u64(&mut self) -> (r: u64)
        ensures
            final(self).state == ((old(self).state as int + 0x9E3779B97F4A7C15int) % 0x1_0000_0000_0000_0000int) as u64,
            r == splitmix_mix(final(self).state),
    {
        let z = self.state.wrapping_add(0x9E3779B97F4A7C15);
        self.state = z;
        let z1 = (z ^ (z >> 30)).wrapping_mul(0xBF58476D1CE4E5B9);
        let z2 = (z1 ^ (z1 >> 27)).wrapping_mul(0x94D049BB133111EB);
        z2 ^ (z2 >> 31)
    }
}

/// A coefficient in `{-2, -1, 1, 2}` picked by the low two bits of a draw.
pub fn coeff_from_rng(rng: &mut SplitMix64) -> (r: Rational)
    ensures
        final(rng).state == ((old(rng).state as int + 0x9E3779B97F4A7C15int) % 0x1_0000_0000_0000_0000int) as u64,
        r.denom == 1,
        r.numer == match splitmix_mix(final(rng).state) & 3u64 {
            0u64 => -2i64,
            1u64 => -1i64,
            2u64 => 1i64,
            _ => 2i64,
        },
{
    let draw = rng.next_u64() & 3;
    match draw {
        0 => Rational { numer: -2, denom: 1 },
        1 => Rational { numer: -1, denom: 1 },
        2 => Rational { numer: 1, denom: 1 },
        _ => Rational { numer: 2, denom: 1 },
    }
}

/// The summary of a toy run.
pub fn render_summary(cfg: &Path1ToyConfig, report: &Path1ToyReport) -> (r: String)
    ensures
        r@.subrange(0, 13) == "# path1_toy\n\n"@,
{
    let mut out = String::from_str("# path1_toy\n\nmode = ");
    proof {
        reveal_strlit("# path1_toy\n\nmode = ");
        reveal_strlit("# path1_toy\n\n");
    }
    let ghost head = out@;
    out.append(cfg.mode.as_str());
    out.append("\n\n");
    match cfg.mode {
        Path1Mode::Oracle => {
            out.append("weights = ");
            out.append(format_usize_list(report.weights.as_slice()).as_str());
            out.append("\n\n## oracle_outputs\n- `oracle/basis_stats.csv`\n- `oracle/oracle_checks.csv`\n");
            if cfg.export_oracle_jsonl {
                out.append("- `oracle/symbols_jsonl/Esymb_L*.jsonl`\n");
            }
        },
        Path1Mode::Scaled => {
            out.append("loops = ");
            out.append(format_usize_list(report.loops.as_slice()).as_str());
            out.append("\n\nmax_alternations = ");
            out.append(crate::text::u64_to_text(cfg.max_alternations as u64).as_str());
            out.append("\n\n## scaled_outputs\n- `scaled/basis_stats.csv`\n- `scaled/loop_stats.csv`\n- `scaled/esymb_jsonl/Esymb_L*.jsonl`\n");
            if report.ran_esymb {
                out.append(
                    "- `scaled/esymb_rank_scan/summary.md`\n- `scaled/esymb_rank_scan/marginals_observables.csv`\n- `scaled/esymb_rank_scan/marginals_matrix_rank.csv`\n- `scaled/esymb_span_deps/span_deps.md`\n- `scaled/esymb_hankel_subblock/hankel_subblock.md`\n",
                );
            }
        },
    }
    proof {
        assert(head.subrange(0, 13) =~= "# path1_toy\n\n"@);
        assert(out@.subrange(0, 13) =~= head.subrange(0, 13));
    }
    out
}

} // verus!
