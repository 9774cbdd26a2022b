//! Small pieces of the rank-scan report: formulas, lists and optional counts.
use crate::rank_scan::normalize::{mode_name, NormalizeMode};
use crate::text::{decimal_digits, join_strings, str_seq_join, strings_view, u64_to_text};
use vstd::prelude::*;

verus! {

/// How the normalized sequence `d_L` is obtained from `c_L`.
pub open spec fn formula_text(mode: NormalizeMode) -> Seq<char> {
    match mode {
        NormalizeMode::Plain => "d_L = c_L"@,
        NormalizeMode::OddDoubleFactorial => "d_L = c_L / (2L-3)!!"@,
        NormalizeMode::EvenDoubleFactorial => "d_L = c_L / (2L-2)!!"@,
        NormalizeMode::FactorialLm1 => "d_L = c_L / (L-1)!"@,
        NormalizeMode::CentralBinomialLm1 => "d_L = c_L / C(2L-2, L-1)"@,
    }
}

/// The formula of a normalization.
pub fn normalize_formula(mode: NormalizeMode) -> (r: String)
    ensures
        r@ == formula_text(mode),
{
    match mode {
        NormalizeMode::Plain => String::from_str("d_L = c_L"),
        NormalizeMode::OddDoubleFactorial => String::from_str("d_L = c_L / (2L-3)!!"),
        NormalizeMode::EvenDoubleFactorial => String::from_str("d_L = c_L / (2L-2)!!"),
        NormalizeMode::FactorialLm1 => String::from_str("d_L = c_L / (L-1)!"),
        NormalizeMode::CentralBinomialLm1 => String::from_str("d_L = c_L / C(2L-2, L-1)"),
    }
}

/// `[a, b, ...]` of the given texts.
pub open spec fn bracket_list(items: Seq<Seq<char>>) -> Seq<char> {
    seq!['['] + str_seq_join(items, seq![',', ' ']) + seq![']']
}

/// A list of strings as `[a, b, ...]`.
pub fn format_string_list(values: &[String]) -> (r: String)
    ensures
        r@ == bracket_list(strings_view(values@)),
{
    let mut out = String::from_str("[");
    let inner = join_strings(values, ", ");
    out.append(inner.as_str());
    out.append("]");
    proof {
        reveal_strlit("[");
        reveal_strlit(", ");
        reveal_strlit("]");
        assert(", "@ =~= seq![',', ' ']);
        assert(out@ =~= bracket_list(strings_view(values@)));
    }
    out
}

/// The names of a list of normalizations as `[a, b, ...]`.
pub fn format_mode_list(values: &[NormalizeMode]) -> (r: String)
    ensures
        r@ == bracket_list(values@.map_values(|m: NormalizeMode| mode_name(m))),
{
    let mut names: Vec<String> = Vec::with_capacity(values.len());
    let mut i: usize = 0;
    while i < values.len()
        invariant
            i <= values@.len(),
            names@.len() == i,
            forall|t: int| 0 <= t < i ==> (#[trigger] names@[t])@ == mode_name(values@[t]),
        decreases values@.len() - i,
    {
        names.push(String::from_str(values[i].as_str()));
        i += 1;
    }
    let r = format_string_list(names.as_slice());
    proof {
        assert(strings_view(names@) =~= values@.map_values(|m: NormalizeMode| mode_name(m)));
    }
    r
}

/// A count, or `none`.
pub fn opt_usize(value: Option<usize>) -> (r: String)
    ensures
        r@ == match value {
            Some(v) => decimal_digits(v as nat),
            None => "none"@,
        },
{
    match value {
        Some(v) => u64_to_text(v as u64),
        None => String::from_str("none"),
    }
}

} // verus!
