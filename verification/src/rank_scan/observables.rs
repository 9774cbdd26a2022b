//! Marginal observables of the symbols: rows of the prefix-suffix rank table.
use crate::text::{decimal_digits, u64_to_text};
use vstd::prelude::*;

verus! {

/// The mod-`p` rank of one prefix-suffix matrix at one loop order.
#[derive(Clone, Copy, Debug)]
pub struct MatrixRankRow {
    pub loop_index: usize,
    pub prefix_len: usize,
    pub suffix_len: usize,
    pub nrows: usize,
    pub ncols: usize,
    pub rank_mod_p: usize,
}

/// What the collector of marginals gathers, and over which letters.
#[derive(Clone, Copy, Debug)]
pub struct MarginalCollectorConfig<'a> {
    pub loops: &'a [usize],
    pub letters: &'a [String],
    pub prefix_len: Option<usize>,
    pub suffix_len: Option<usize>,
    pub collect_prefix: bool,
    pub collect_suffix: bool,
    pub collect_pair: bool,
    pub only_observed: bool,
    pub alphabet_project: bool,
}

/// The header line of the rank table.
pub open spec fn rank_csv_header() -> Seq<char> {
    "loop,prefix_len,suffix_len,nrows,ncols,rank_mod_p\n"@
}

/// One line of the rank table.
pub open spec fn rank_csv_line(row: MatrixRankRow) -> Seq<char> {
    decimal_digits(row.loop_index as nat) + seq![','] + decimal_digits(row.prefix_len as nat) + seq![',']
        + decimal_digits(row.suffix_len as nat) + seq![','] + decimal_digits(row.nrows as nat) + seq![',']
        + decimal_digits(row.ncols as nat) + seq![','] + decimal_digits(row.rank_mod_p as nat) + seq!['\n']
}

/// The lines of the first `n` rows.
pub open spec fn rank_csv_body(rows: Seq<MatrixRankRow>) -> Seq<char>
    decreases rows.len(),
{
    if rows.len() == 0 {
        Seq::empty()
    } else {
        rank_csv_body(rows.drop_last()) + rank_csv_line(rows.last())
    }
}

/// The rank table as CSV: a header, then one line per row.
pub fn render_marginals_matrix_rank_csv(rows: &[MatrixRankRow]) -> (r: String)
    ensures
        r@ == rank_csv_header() + rank_csv_body(rows@),
{
    let mut out = String::from_str("loop,prefix_len,suffix_len,nrows,ncols,rank_mod_p\n");
    proof {
        reveal_strlit("loop,prefix_len,suffix_len,nrows,ncols,rank_mod_p\n");
    }
    let mut i: usize = 0;
    while i < rows.len()
        invariant
            i <= rows@.len(),
            out@ == rank_csv_header() + rank_csv_body(rows@.subrange(0, i as int)),
        decreases rows@.len() - i,
    {
        let row = rows[i];
        let ghost before = out@;
        let fields = [row.loop_index, row.prefix_len, row.suffix_len, row.nrows, row.ncols, row.rank_mod_p];
        let mut f: usize = 0;
        while f < 6
            invariant
                f <= 6,
                fields@ == seq![row.loop_index, row.prefix_len, row.suffix_len, row.nrows, row.ncols, row.rank_mod_p],
                out@ == before + field_prefix(fields@, f as int),
            decreases 6 - f,
        {
            let text = u64_to_text(fields[f] as u64);
            out.append(text.as_str());
            let sep = if f == 5 { "\n" } else { "," };
            proof {
                reveal_strlit("\n");
                reveal_strlit(",");
            }
            out.append(sep);
            proof {
                assert(out@ =~= before + field_prefix(fields@, f + 1));
            }
            f += 1;
        }
        proof {
            reveal_with_fuel(field_prefix, 7);
            assert(field_prefix(fields@, 6) =~= rank_csv_line(row));
            let s = rows@.subrange(0, i + 1);
            assert(s.drop_last() =~= rows@.subrange(0, i as int));
        }
        i += 1;
    }
    proof {
        assert(rows@.subrange(0, rows@.len() as int) =~= rows@);
    }
    out
}

/// The first `f` fields of a line, each followed by its separator.
pub open spec fn field_prefix(fields: Seq<usize>, f: int) -> Seq<char>
    decreases f,
{
    if f <= 0 {
        Seq::empty()
    } else {
        field_prefix(fields, f - 1) + decimal_digits(fields[f - 1] as nat) + if f == 6 {
            seq!['\n']
        } else {
            seq![',']
        }
    }
}

} // verus!
