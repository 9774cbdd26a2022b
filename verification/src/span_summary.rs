//! The summary of a span-dependency search: classes of proportional
//! observables and the Markdown report of all that was found.
use crate::hankel_subblock::{format_usize_list, list_text};
use crate::rank_scan::Rational;
use crate::span_deps::{
    coef_set_name, coeff_text, csv_table, filter_name, format_coeff, render_rows, rows_view, BasisKey,
    EsymbSpanDepsConfig, MaskHistogramRow, SpanStats, SparseRelation, SparseSearchStats,
};
use crate::text::{
    decimal_digits, i64_to_text, int_text, join_strings, push_char, str_less, str_lt, str_seq_join, strings_view,
    u64_to_text,
};
use vstd::prelude::*;

verus! {

/// An observable and its ratio to the representative of its class.
#[derive(Clone, Debug)]
pub struct EquivMember {
    pub id: String,
    pub ratio: Rational,
}

/// Observables of one family whose values are proportional.
#[derive(Clone, Debug)]
pub struct EquivClass {
    pub family: String,
    pub representative: String,
    pub members: Vec<EquivMember>,
}

/// The texts of the items, one after another.
pub open spec fn concat_texts<T>(items: Seq<T>, f: spec_fn(T) -> Seq<char>) -> Seq<char>
    decreases items.len(),
{
    if items.len() == 0 {
        Seq::empty()
    } else {
        concat_texts(items.drop_last(), f) + f(items.last())
    }
}

proof fn lemma_concat_take<T>(items: Seq<T>, f: spec_fn(T) -> Seq<char>, k: int)
    requires
        0 <= k < items.len(),
    ensures
        concat_texts(items.take(k + 1), f) == concat_texts(items.take(k), f) + f(items[k]),
{
    assert(items.take(k + 1).drop_last() =~= items.take(k));
}

/// The rows of the class table: one per member of each class.
pub open spec fn class_rows(classes: Seq<EquivClass>) -> Seq<Seq<Seq<char>>>
    decreases classes.len(),
{
    if classes.len() == 0 {
        Seq::empty()
    } else {
        class_rows(classes.drop_last()) + classes.last().members@.map_values(
            |m: EquivMember| seq![classes.last().family@, classes.last().representative@, m.id@, coeff_text(m.ratio)],
        )
    }
}

/// The classes as CSV: family, representative, member and ratio, one member
/// per row.
pub fn render_equiv_classes_csv(classes: &[EquivClass]) -> (r: String)
    ensures
        r@ == csv_table(seq!["family"@, "representative"@, "member"@, "ratio"@], class_rows(classes@)),
{
    let mut rows: Vec<Vec<String>> = Vec::new();
    let mut c: usize = 0;
    proof {
        assert(classes@.take(0) =~= Seq::<EquivClass>::empty());
    }
    while c < classes.len()
        invariant
            c <= classes@.len(),
            rows_view(rows@) == class_rows(classes@.take(c as int)),
        decreases classes@.len() - c,
    {
        let class = &classes[c];
        let ghost before = rows_view(rows@);
        let ghost added = class.members@.map_values(
            |m: EquivMember| seq![class.family@, class.representative@, m.id@, coeff_text(m.ratio)],
        );
        let mut k: usize = 0;
        proof {
            assert(rows_view(rows@) =~= before + added.take(0));
        }
        while k < class.members.len()
            invariant
                k <= class.members@.len(),
                added.len() == class.members@.len(),
                added == class.members@.map_values(
                    |m: EquivMember| seq![class.family@, class.representative@, m.id@, coeff_text(m.ratio)],
                ),
                rows_view(rows@) == before + added.take(k as int),
            decreases class.members@.len() - k,
        {
            let member = &class.members[k];
            let row = vec![class.family.clone(), class.representative.clone(), member.id.clone(), format_coeff(&member.ratio)];
            let ghost old_rows = rows@;
            rows.push(row);
            proof {
                assert(rows_view(rows@) =~= rows_view(old_rows).push(strings_view(row@)));
                assert(strings_view(row@) =~= added[k as int]);
                assert(added.take(k + 1) =~= added.take(k as int).push(added[k as int]));
            }
            k += 1;
        }
        proof {
            assert(added.take(class.members@.len() as int) =~= added);
            assert(classes@.take(c + 1).drop_last() =~= classes@.take(c as int));
        }
        c += 1;
    }
    proof {
        assert(classes@.take(classes@.len() as int) =~= classes@);
    }
    let header = vec![
        String::from_str("family"),
        String::from_str("representative"),
        String::from_str("member"),
        String::from_str("ratio"),
    ];
    proof {
        assert(strings_view(header@) =~= seq!["family"@, "representative"@, "member"@, "ratio"@]);
    }
    render_rows(&header, &rows)
}

/// What the Markdown summary reports.
pub struct SpanDepsMdContext<'a> {
    pub loops: &'a [usize],
    pub cfg: &'a EsymbSpanDepsConfig,
    pub stats: &'a [SpanStats],
    pub classes: &'a [EquivClass],
    pub relations: &'a [SparseRelation],
    pub search_stats: &'a [SparseSearchStats],
    pub basis_keys: &'a [BasisKey],
    pub mask_histogram: &'a [MaskHistogramRow],
    pub total_observables: usize,
    pub trivial_observables: usize,
}

/// `order` lists every statistic once, by family.
pub open spec fn is_family_order(stats: Seq<SpanStats>, order: Seq<usize>) -> bool {
    &&& order.len() == stats.len()
    &&& forall|t: int| 0 <= t < order.len() ==> #[trigger] order[t] < stats.len()
    &&& forall|s: int, t: int| 0 <= s < t < order.len() ==> #[trigger] order[s] != #[trigger] order[t]
    &&& forall|s: int, t: int|
        0 <= s < t < order.len() ==> !str_lt(stats[#[trigger] order[t] as int].family@, stats[#[trigger] order[s] as int].family@)
}

/// The places of the statistics, ordered by family.
fn family_order(stats: &[SpanStats]) -> (r: Vec<usize>)
    ensures
        is_family_order(stats@, r@),
{
    let n = stats.len();
    let mut order: Vec<usize> = Vec::new();
    let mut t: usize = 0;
    while t < n
        invariant
            n == stats@.len(),
            t <= n,
            order@.len() == t,
            forall|s: int| 0 <= s < t ==> #[trigger] order@[s] == s,
        decreases n - t,
    {
        order.push(t);
        t += 1;
    }
    let mut i: usize = 0;
    while i < n
        invariant
            n == stats@.len(),
            order@.len() == n,
            i <= n,
            forall|s: int| 0 <= s < n ==> #[trigger] order@[s] < n,
            forall|s: int, u: int| 0 <= s < u < n ==> #[trigger] order@[s] != #[trigger] order@[u],
            forall|a: int, b: int|
                0 <= a < i && a <= b < n ==> !str_lt(
                    stats@[#[trigger] order@[b] as int].family@,
                    stats@[#[trigger] order@[a] as int].family@,
                ),
        decreases n - i,
    {
        let mut m: usize = i;
        let mut k: usize = i + 1;
        proof {
            crate::text::lemma_str_lt_irrefl_asym(stats@[order@[i as int] as int].family@, stats@[order@[i as int] as int].family@);
        }
        while k < n
            invariant
                n == stats@.len(),
                order@.len() == n,
                forall|s: int| 0 <= s < n ==> #[trigger] order@[s] < n,
                i <= m < n,
                i < k <= n,
                forall|t: int|
                    i <= t < k ==> !str_lt(stats@[#[trigger] order@[t] as int].family@, stats@[order@[m as int] as int].family@),
            decreases n - k,
        {
            if str_less(stats[order[k]].family.as_str(), stats[order[m]].family.as_str()) {
                proof {
                    let fk = stats@[order@[k as int] as int].family@;
                    let fm = stats@[order@[m as int] as int].family@;
                    assert forall|t: int| i <= t < k + 1 implies !str_lt(stats@[#[trigger] order@[t] as int].family@, fk) by {
                        let ft = stats@[order@[t] as int].family@;
                        crate::text::lemma_str_lt_irrefl_asym(ft, fk);
                        if str_lt(ft, fk) {
                            crate::text::lemma_str_lt_trans(ft, fk, fm);
                        }
                    }
                }
                m = k;
            }
            k += 1;
        }
        let ghost before = order@;
        let oi = order[i];
        let om = order[m];
        order.set(i, om);
        order.set(m, oi);
        proof {
            assert forall|s: int, u: int| 0 <= s < u < n implies #[trigger] order@[s] != #[trigger] order@[u] by {
                let ps = if s == i { m as int } else if s == m { i as int } else { s };
                let pu = if u == i { m as int } else if u == m { i as int } else { u };
                assert(order@[s] == before[ps]);
                assert(order@[u] == before[pu]);
                if ps < pu {
                } else {
                    assert(before[pu] != before[ps]);
                }
            }
            assert forall|a: int, b: int| 0 <= a < i + 1 && a <= b < n implies !str_lt(
                stats@[#[trigger] order@[b] as int].family@,
                stats@[#[trigger] order@[a] as int].family@,
            ) by {
                let pb = if b == i { m as int } else if b == m { i as int } else { b };
                assert(order@[b] == before[pb]);
                if a < i {
                    assert(order@[a] == before[a]);
                } else {
                    assert(order@[a] == before[m as int]);
                }
            }
        }
        i += 1;
    }
    order
}

/// The head of the summary: the settings and the counts.
pub open spec fn md_head(
    loops: Seq<usize>,
    cfg: EsymbSpanDepsConfig,
    total: nat,
    trivial: nat,
) -> Seq<char> {
    "# esymb_span_deps\n\n"@ + "loops = "@ + list_text(loops.map_values(|v: usize| decimal_digits(v as nat)))
        + "\n\n"@ + "family = "@ + filter_name(cfg.family) + "\n\n"@ + "support_max = "@ + decimal_digits(
        cfg.support_max as nat,
    ) + "\n\n"@ + "coef_set = "@ + coef_set_name(cfg.coef_set) + "\n\n"@ + "top_k = "@ + decimal_digits(
        cfg.top_k as nat,
    ) + "\n\n"@ + "observables_total = "@ + decimal_digits(total) + "\n\n"@ + "observables_trivial = "@
        + decimal_digits(trivial) + "\n\n"@
}

/// A row of the family table.
pub open spec fn stats_row(st: SpanStats) -> Seq<char> {
    "| "@ + st.family@ + " | "@ + decimal_digits(st.total as nat) + " | "@ + decimal_digits(st.nonzero as nat)
        + " | "@ + decimal_digits(st.trivial as nat) + " | "@ + decimal_digits(st.rank as nat) + " | "@
        + decimal_digits(st.nullity as nat) + " |\n"@
}

/// The row of the family table for statistic `i`.
pub open spec fn stats_row_at(stats: Seq<SpanStats>) -> spec_fn(usize) -> Seq<char> {
    |i: usize| stats_row(stats[i as int])
}

/// The family table, in the given order.
pub open spec fn md_stats(stats: Seq<SpanStats>, order: Seq<usize>) -> Seq<char> {
    "## family_stats\n\n"@ + if stats.len() == 0 {
        "_none_\n\n"@
    } else {
        "| family | total | nonzero | trivial | rank | nullity |\n"@ + "| --- | --- | --- | --- | --- | --- |\n"@
            + concat_texts(order, stats_row_at(stats)) + seq!['\n']
    }
}

/// The density line of a statistic.
pub open spec fn density_row(st: SpanStats, density: Seq<char>) -> Seq<char> {
    "- "@ + st.family@ + ": "@ + decimal_digits(st.nonzero as nat) + "/"@ + decimal_digits(st.total as nat) + " ("@
        + density + ")\n"@
}

/// The density line for statistic `i`.
pub open spec fn density_row_at(stats: Seq<SpanStats>, densities: Seq<Seq<char>>) -> spec_fn(usize) -> Seq<char> {
    |i: usize| density_row(stats[i as int], densities[i as int])
}

/// The nonzero observables of all families.
pub open spec fn overall_nonzero(total: nat, trivial: nat) -> nat {
    if total >= trivial {
        (total - trivial) as nat
    } else {
        0
    }
}

/// The densities: overall, then by family in the given order.
pub open spec fn md_density(
    stats: Seq<SpanStats>,
    order: Seq<usize>,
    densities: Seq<Seq<char>>,
    overall: Seq<char>,
    total: nat,
    trivial: nat,
) -> Seq<char> {
    "## density\n\n"@ + "overall = "@ + decimal_digits(overall_nonzero(total, trivial)) + "/"@ + decimal_digits(total)
        + " ("@ + overall + ")\n\n"@ + if stats.len() == 0 {
        Seq::empty()
    } else {
        concat_texts(order, density_row_at(stats, densities)) + seq!['\n']
    }
}

/// The text of a member: its id and its ratio.
pub open spec fn member_text(m: EquivMember) -> Seq<char> {
    m.id@ + ":"@ + coeff_text(m.ratio)
}

/// The line of a class.
pub open spec fn class_line(c: EquivClass) -> Seq<char> {
    "- family="@ + c.family@ + " rep="@ + c.representative@ + " size="@ + decimal_digits(c.members@.len()) + " members=["@
        + str_seq_join(c.members@.map_values(|m: EquivMember| member_text(m)), ", "@) + "]\n"@
}

/// The line of each class.
pub open spec fn class_line_fn() -> spec_fn(EquivClass) -> Seq<char> {
    |c: EquivClass| class_line(c)
}

/// The smaller of two counts.
pub open spec fn min_nat(a: nat, b: nat) -> nat {
    if a < b {
        a
    } else {
        b
    }
}

/// The first `top_k` classes.
pub open spec fn md_classes(classes: Seq<EquivClass>, top_k: nat) -> Seq<char> {
    "## top_equiv_classes\n\n"@ + if classes.len() == 0 {
        "_none_\n\n"@
    } else {
        concat_texts(classes.take(min_nat(top_k, classes.len()) as int), class_line_fn()) + seq!['\n']
    }
}

/// The text of a term of a relation.
pub open spec fn relation_term_text(t: (i32, String)) -> Seq<char> {
    int_text(t.0 as int) + "*"@ + t.1@
}

/// The line of a relation.
pub open spec fn relation_line(r: SparseRelation) -> Seq<char> {
    "- "@ + r.family@ + ": "@ + str_seq_join(r.terms@.map_values(|t: (i32, String)| relation_term_text(t)), " + "@)
        + " = 0\n"@
}

/// The line of each relation.
pub open spec fn relation_line_fn() -> spec_fn(SparseRelation) -> Seq<char> {
    |r: SparseRelation| relation_line(r)
}

/// The first twenty relations.
pub open spec fn md_relations(relations: Seq<SparseRelation>) -> Seq<char> {
    "## sample_relations\n\n"@ + if relations.len() == 0 {
        "_none_\n"@
    } else {
        concat_texts(relations.take(min_nat(20, relations.len()) as int), relation_line_fn())
    }
}

/// The line of a basis key.
pub open spec fn key_line(k: BasisKey) -> Seq<char> {
    "- "@ + k.family@ + ": "@ + k.key@ + "\n"@
}

/// The line of each basis key.
pub open spec fn key_line_fn() -> spec_fn(BasisKey) -> Seq<char> {
    |k: BasisKey| key_line(k)
}

/// The count of basis keys and the first twenty of them.
pub open spec fn md_basis(keys: Seq<BasisKey>) -> Seq<char> {
    "\n## basis_keys\n\n"@ + if keys.len() == 0 {
        "_none_\n\n"@
    } else {
        "count = "@ + decimal_digits(keys.len()) + "\n\n"@ + concat_texts(
            keys.take(min_nat(20, keys.len()) as int),
            key_line_fn(),
        ) + seq!['\n']
    }
}

/// The line of a mask count.
pub open spec fn mask_line(m: MaskHistogramRow) -> Seq<char> {
    "- mask "@ + decimal_digits(m.bitmask as nat) + ": "@ + decimal_digits(m.count as nat) + "\n"@
}

/// The line of each mask count.
pub open spec fn mask_line_fn() -> spec_fn(MaskHistogramRow) -> Seq<char> {
    |m: MaskHistogramRow| mask_line(m)
}

/// The first ten mask counts.
pub open spec fn md_masks(rows: Seq<MaskHistogramRow>) -> Seq<char> {
    "## mask_histogram_summary\n\n"@ + if rows.len() == 0 {
        "_none_\n\n"@
    } else {
        concat_texts(rows.take(min_nat(10, rows.len()) as int), mask_line_fn()) + seq!['\n']
    }
}

/// The line of a search's statistics.
pub open spec fn search_line(s: SparseSearchStats) -> Seq<char> {
    "- family="@ + s.family@ + " attempts="@ + decimal_digits(s.attempts as nat) + " hits_mod_p="@ + decimal_digits(
        s.hits_mod_p as nat,
    ) + " verified="@ + decimal_digits(s.verified as nat) + "\n"@
}

/// The line of each search.
pub open spec fn search_line_fn() -> spec_fn(SparseSearchStats) -> Seq<char> {
    |s: SparseSearchStats| search_line(s)
}

/// The statistics of the searches.
pub open spec fn md_search(stats: Seq<SparseSearchStats>) -> Seq<char> {
    "## sparse_search_stats\n\n"@ + if stats.len() == 0 {
        "_none_\n"@
    } else {
        concat_texts(stats, search_line_fn())
    }
}

fn stats_row_text(st: &SpanStats) -> (r: String)
    ensures
        r@ == stats_row(*st),
{
    let mut s = String::from_str("| ");
    s.append(st.family.as_str());
    s.append(" | ");
    s.append(u64_to_text(st.total as u64).as_str());
    s.append(" | ");
    s.append(u64_to_text(st.nonzero as u64).as_str());
    s.append(" | ");
    s.append(u64_to_text(st.trivial as u64).as_str());
    s.append(" | ");
    s.append(u64_to_text(st.rank as u64).as_str());
    s.append(" | ");
    s.append(u64_to_text(st.nullity as u64).as_str());
    s.append(" |\n");
    proof {
        assert(s@ =~= stats_row(*st));
    }
    s
}

fn md_head_text(loops: &[usize], cfg: &EsymbSpanDepsConfig, total: usize, trivial: usize) -> (r: String)
    ensures
        r@ == md_head(loops@, *cfg, total as nat, trivial as nat),
{
    let mut out = String::from_str("# esymb_span_deps\n\n");
    out.append("loops = ");
    out.append(format_usize_list(loops).as_str());
    out.append("\n\n");
    out.append("family = ");
    out.append(cfg.family.as_str());
    out.append("\n\n");
    out.append("support_max = ");
    out.append(u64_to_text(cfg.support_max as u64).as_str());
    out.append("\n\n");
    out.append("coef_set = ");
    out.append(cfg.coef_set.as_str());
    out.append("\n\n");
    out.append("top_k = ");
    out.append(u64_to_text(cfg.top_k as u64).as_str());
    out.append("\n\n");
    out.append("observables_total = ");
    out.append(u64_to_text(total as u64).as_str());
    out.append("\n\n");
    out.append("observables_trivial = ");
    out.append(u64_to_text(trivial as u64).as_str());
    out.append("\n\n");
    proof {
        assert(out@ =~= md_head(loops@, *cfg, total as nat, trivial as nat));
    }
    out
}

fn md_stats_text(stats: &[SpanStats], order: &Vec<usize>) -> (r: String)
    requires
        is_family_order(stats@, order@),
    ensures
        r@ == md_stats(stats@, order@),
{
    let mut out = String::from_str("## family_stats\n\n");
    if stats.len() == 0 {
        out.append("_none_\n\n");
        return out;
    }
    out.append("| family | total | nonzero | trivial | rank | nullity |\n");
    out.append("| --- | --- | --- | --- | --- | --- |\n");
    let ghost head = out@;
    let mut k: usize = 0;
    while k < order.len()
        invariant
            is_family_order(stats@, order@),
            k <= order@.len(),
            out@ == head + concat_texts(order@.take(k as int), stats_row_at(stats@)),
        decreases order@.len() - k,
    {
        let line = stats_row_text(&stats[order[k]]);
        out.append(line.as_str());
        proof {
            lemma_concat_take(order@, stats_row_at(stats@), k as int);
        }
        k += 1;
    }
    push_char(&mut out, '\n');
    proof {
        assert(order@.take(order@.len() as int) =~= order@);
    }
    out
}

fn density_row_text(st: &SpanStats, density: &String) -> (r: String)
    ensures
        r@ == density_row(*st, density@),
{
    let mut s = String::from_str("- ");
    s.append(st.family.as_str());
    s.append(": ");
    s.append(u64_to_text(st.nonzero as u64).as_str());
    s.append("/");
    s.append(u64_to_text(st.total as u64).as_str());
    s.append(" (");
    s.append(density.as_str());
    s.append(")\n");
    proof {
        assert(s@ =~= density_row(*st, density@));
    }
    s
}

fn md_density_text(
    stats: &[SpanStats],
    order: &Vec<usize>,
    densities: &[String],
    overall: &str,
    total: usize,
    trivial: usize,
) -> (r: String)
    requires
        is_family_order(stats@, order@),
        densities@.len() == stats@.len(),
    ensures
        r@ == md_density(stats@, order@, strings_view(densities@), overall@, total as nat, trivial as nat),
{
    let nonzero = total.saturating_sub(trivial);
    let mut out = String::from_str("## density\n\n");
    out.append("overall = ");
    out.append(u64_to_text(nonzero as u64).as_str());
    out.append("/");
    out.append(u64_to_text(total as u64).as_str());
    out.append(" (");
    out.append(overall);
    out.append(")\n\n");
    proof {
        assert(nonzero == overall_nonzero(total as nat, trivial as nat));
    }
    if stats.len() == 0 {
        proof {
            assert(out@ =~= md_density(stats@, order@, strings_view(densities@), overall@, total as nat, trivial as nat));
        }
        return out;
    }
    let ghost head = out@;
    let ghost dv = strings_view(densities@);
    let mut k: usize = 0;
    while k < order.len()
        invariant
            is_family_order(stats@, order@),
            densities@.len() == stats@.len(),
            dv == strings_view(densities@),
            k <= order@.len(),
            out@ == head + concat_texts(order@.take(k as int), density_row_at(stats@, dv)),
        decreases order@.len() - k,
    {
        let i = order[k];
        let line = density_row_text(&stats[i], &densities[i]);
        out.append(line.as_str());
        proof {
            assert(dv[i as int] == densities@[i as int]@);
            lemma_concat_take(order@, density_row_at(stats@, dv), k as int);
        }
        k += 1;
    }
    push_char(&mut out, '\n');
    proof {
        assert(order@.take(order@.len() as int) =~= order@);
        assert(out@ =~= md_density(stats@, order@, dv, overall@, total as nat, trivial as nat));
    }
    out
}

fn class_line_text(c: &EquivClass) -> (r: String)
    ensures
        r@ == class_line(*c),
{
    let mut texts: Vec<String> = Vec::new();
    let mut k: usize = 0;
    while k < c.members.len()
        invariant
            k <= c.members@.len(),
            strings_view(texts@) == c.members@.take(k as int).map_values(|m: EquivMember| member_text(m)),
        decreases c.members@.len() - k,
    {
        let m = &c.members[k];
        let mut t = m.id.clone();
        t.append(":");
        t.append(format_coeff(&m.ratio).as_str());
        proof {
            crate::text::lemma_strings_view_push(texts@, t);
        }
        texts.push(t);
        proof {
            assert(c.members@.take(k + 1).map_values(|m: EquivMember| member_text(m)) =~= c.members@.take(
                k as int,
            ).map_values(|m: EquivMember| member_text(m)).push(member_text(c.members@[k as int])));
        }
        k += 1;
    }
    proof {
        assert(c.members@.take(c.members@.len() as int) =~= c.members@);
    }
    let mut s = String::from_str("- family=");
    s.append(c.family.as_str());
    s.append(" rep=");
    s.append(c.representative.as_str());
    s.append(" size=");
    s.append(u64_to_text(c.members.len() as u64).as_str());
    s.append(" members=[");
    s.append(join_strings(texts.as_slice(), ", ").as_str());
    s.append("]\n");
    proof {
        assert(s@ =~= class_line(*c));
    }
    s
}

fn md_classes_text(classes: &[EquivClass], top_k: usize) -> (r: String)
    ensures
        r@ == md_classes(classes@, top_k as nat),
{
    let mut out = String::from_str("## top_equiv_classes\n\n");
    if classes.len() == 0 {
        out.append("_none_\n\n");
        return out;
    }
    let limit = if top_k < classes.len() {
        top_k
    } else {
        classes.len()
    };
    let ghost items = classes@.take(limit as int);
    let ghost head = out@;
    let mut k: usize = 0;
    while k < limit
        invariant
            limit <= classes@.len(),
            items == classes@.take(limit as int),
            k <= limit,
            out@ == head + concat_texts(items.take(k as int), class_line_fn()),
        decreases limit - k,
    {
        let line = class_line_text(&classes[k]);
        out.append(line.as_str());
        proof {
            assert(items[k as int] == classes@[k as int]);
            lemma_concat_take(items, class_line_fn(), k as int);
        }
        k += 1;
    }
    push_char(&mut out, '\n');
    proof {
        assert(items.take(limit as int) =~= items);
    }
    out
}

fn relation_line_text(rel: &SparseRelation) -> (r: String)
    ensures
        r@ == relation_line(*rel),
{
    let mut texts: Vec<String> = Vec::new();
    let mut k: usize = 0;
    while k < rel.terms.len()
        invariant
            k <= rel.terms@.len(),
            strings_view(texts@) == rel.terms@.take(k as int).map_values(|t: (i32, String)| relation_term_text(t)),
        decreases rel.terms@.len() - k,
    {
        let term = &rel.terms[k];
        let mut t = i64_to_text(term.0 as i64);
        t.append("*");
        t.append(term.1.as_str());
        proof {
            crate::text::lemma_strings_view_push(texts@, t);
        }
        texts.push(t);
        proof {
            assert(rel.terms@.take(k + 1).map_values(|t: (i32, String)| relation_term_text(t)) =~= rel.terms@.take(
                k as int,
            ).map_values(|t: (i32, String)| relation_term_text(t)).push(relation_term_text(rel.terms@[k as int])));
        }
        k += 1;
    }
    proof {
        assert(rel.terms@.take(rel.terms@.len() as int) =~= rel.terms@);
    }
    let mut s = String::from_str("- ");
    s.append(rel.family.as_str());
    s.append(": ");
    s.append(join_strings(texts.as_slice(), " + ").as_str());
    s.append(" = 0\n");
    proof {
        assert(s@ =~= relation_line(*rel));
    }
    s
}

fn md_relations_text(relations: &[SparseRelation]) -> (r: String)
    ensures
        r@ == md_relations(relations@),
{
    let mut out = String::from_str("## sample_relations\n\n");
    if relations.len() == 0 {
        out.append("_none_\n");
        return out;
    }
    let limit: usize = if 20 < relations.len() {
        20
    } else {
        relations.len()
    };
    let ghost items = relations@.take(limit as int);
    let ghost head = out@;
    let mut k: usize = 0;
    while k < limit
        invariant
            limit <= relations@.len(),
            items == relations@.take(limit as int),
            k <= limit,
            out@ == head + concat_texts(items.take(k as int), relation_line_fn()),
        decreases limit - k,
    {
        let line = relation_line_text(&relations[k]);
        out.append(line.as_str());
        proof {
            assert(items[k as int] == relations@[k as int]);
            lemma_concat_take(items, relation_line_fn(), k as int);
        }
        k += 1;
    }
    proof {
        assert(items.take(limit as int) =~= items);
    }
    out
}

fn key_line_text(key: &BasisKey) -> (r: String)
    ensures
        r@ == key_line(*key),
{
    let mut s = String::from_str("- ");
    s.append(key.family.as_str());
    s.append(": ");
    s.append(key.key.as_str());
    s.append("\n");
    proof {
        assert(s@ =~= key_line(*key));
    }
    s
}

fn md_basis_text(keys: &[BasisKey]) -> (r: String)
    ensures
        r@ == md_basis(keys@),
{
    let mut out = String::from_str("\n## basis_keys\n\n");
    if keys.len() == 0 {
        out.append("_none_\n\n");
        return out;
    }
    out.append("count = ");
    out.append(u64_to_text(keys.len() as u64).as_str());
    out.append("\n\n");
    let limit: usize = if 20 < keys.len() {
        20
    } else {
        keys.len()
    };
    let ghost items = keys@.take(limit as int);
    let ghost head = out@;
    let mut k: usize = 0;
    while k < limit
        invariant
            limit <= keys@.len(),
            items == keys@.take(limit as int),
            k <= limit,
            out@ == head + concat_texts(items.take(k as int), key_line_fn()),
        decreases limit - k,
    {
        let line = key_line_text(&keys[k]);
        out.append(line.as_str());
        proof {
            assert(items[k as int] == keys@[k as int]);
            lemma_concat_take(items, key_line_fn(), k as int);
        }
        k += 1;
    }
    push_char(&mut out, '\n');
    proof {
        assert(items.take(limit as int) =~= items);
    }
    out
}

fn mask_line_text(row: &MaskHistogramRow) -> (r: String)
    ensures
        r@ == mask_line(*row),
{
    let mut s = String::from_str("- mask ");
    s.append(u64_to_text(row.bitmask).as_str());
    s.append(": ");
    s.append(u64_to_text(row.count as u64).as_str());
    s.append("\n");
    proof {
        assert(s@ =~= mask_line(*row));
    }
    s
}

fn md_masks_text(rows: &[MaskHistogramRow]) -> (r: String)
    ensures
        r@ == md_masks(rows@),
{
    let mut out = String::from_str("## mask_histogram_summary\n\n");
    if rows.len() == 0 {
        out.append("_none_\n\n");
        return out;
    }
    let limit: usize = if 10 < rows.len() {
        10
    } else {
        rows.len()
    };
    let ghost items = rows@.take(limit as int);
    let ghost head = out@;
    let mut k: usize = 0;
    while k < limit
        invariant
            limit <= rows@.len(),
            items == rows@.take(limit as int),
            k <= limit,
            out@ == head + concat_texts(items.take(k as int), mask_line_fn()),
        decreases limit - k,
    {
        let line = mask_line_text(&rows[k]);
        out.append(line.as_str());
        proof {
            assert(items[k as int] == rows@[k as int]);
            lemma_concat_take(items, mask_line_fn(), k as int);
        }
        k += 1;
    }
    push_char(&mut out, '\n');
    proof {
        assert(items.take(limit as int) =~= items);
    }
    out
}

fn search_line_text(st: &SparseSearchStats) -> (r: String)
    ensures
        r@ == search_line(*st),
{
    let mut s = String::from_str("- family=");
    s.append(st.family.as_str());
    s.append(" attempts=");
    s.append(u64_to_text(st.attempts as u64).as_str());
    s.append(" hits_mod_p=");
    s.append(u64_to_text(st.hits_mod_p as u64).as_str());
    s.append(" verified=");
    s.append(u64_to_text(st.verified as u64).as_str());
    s.append("\n");
    proof {
        assert(s@ =~= search_line(*st));
    }
    s
}

fn md_search_text(stats: &[SparseSearchStats]) -> (r: String)
    ensures
        r@ == md_search(stats@),
{
    let mut out = String::from_str("## sparse_search_stats\n\n");
    if stats.len() == 0 {
        out.append("_none_\n");
        return out;
    }
    let ghost head = out@;
    let mut k: usize = 0;
    while k < stats.len()
        invariant
            k <= stats@.len(),
            out@ == head + concat_texts(stats@.take(k as int), search_line_fn()),
        decreases stats@.len() - k,
    {
        let line = search_line_text(&stats[k]);
        out.append(line.as_str());
        proof {
            lemma_concat_take(stats@, search_line_fn(), k as int);
        }
        k += 1;
    }
    proof {
        assert(stats@.take(stats@.len() as int) =~= stats@);
    }
    out
}

/// The Markdown summary of a span-dependency search: the settings, the
/// family table and densities (families in order; `densities[i]` is the
/// density text of `ctx.stats[i]`, `overall_density` that of all
/// observables), the first `top_k` classes, the first twenty relations and
/// basis keys, the first ten mask counts, and the search statistics.
pub fn render_span_deps_md(ctx: &SpanDepsMdContext, densities: &[String], overall_density: &str) -> (r: String)
    requires
        densities@.len() == ctx.stats@.len(),
    ensures
        exists|order: Seq<usize>|
            #[trigger] is_family_order(ctx.stats@, order) && r@ == md_head(
                ctx.loops@,
                *ctx.cfg,
                ctx.total_observables as nat,
                ctx.trivial_observables as nat,
            ) + md_stats(ctx.stats@, order) + md_density(
                ctx.stats@,
                order,
                strings_view(densities@),
                overall_density@,
                ctx.total_observables as nat,
                ctx.trivial_observables as nat,
            ) + md_classes(ctx.classes@, ctx.cfg.top_k as nat) + md_relations(ctx.relations@) + md_basis(ctx.basis_keys@)
                + md_masks(ctx.mask_histogram@) + md_search(ctx.search_stats@),
{
    let order = family_order(ctx.stats);
    let mut out = md_head_text(ctx.loops, ctx.cfg, ctx.total_observables, ctx.trivial_observables);
    out.append(md_stats_text(ctx.stats, &order).as_str());
    out.append(
        md_density_text(
            ctx.stats,
            &order,
            densities,
            overall_density,
            ctx.total_observables,
            ctx.trivial_observables,
        ).as_str(),
    );
    out.append(md_classes_text(ctx.classes, ctx.cfg.top_k).as_str());
    out.append(md_relations_text(ctx.relations).as_str());
    out.append(md_basis_text(ctx.basis_keys).as_str());
    out.append(md_masks_text(ctx.mask_histogram).as_str());
    out.append(md_search_text(ctx.search_stats).as_str());
    out
}

} // verus!
