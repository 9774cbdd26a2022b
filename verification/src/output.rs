//! The outcome codes of the word-count experiments and the CSV tables that
//! report them.
use crate::text::{decimal_digits, i64_to_text, int_text, join_strings, push_char, str_seq_join, strings_view, u64_to_text};
use crate::topology::{Skeleton2Metrics, TopologyMetrics};
use vstd::prelude::*;
use vstd::string::StrSliceExecFns;

verus! {

/// Whether one weight was counted.
#[derive(Clone, Copy, Debug, PartialEq, Eq, Structural)]
pub enum Status {
    Done,
    Failed,
}

/// The name of a status.
pub open spec fn status_name(s: Status) -> Seq<char> {
    match s {
        Status::Done => "ok"@,
        Status::Failed => "err"@,
    }
}

impl Status {
    pub fn as_str(self) -> (r: &'static str)
        ensures
            r@ == status_name(self),
    {
        match self {
            Self::Done => "ok",
            Self::Failed => "err",
        }
    }
}

/// Why a weight could not be counted.
#[derive(Clone, Copy, Debug, PartialEq, Eq, Structural)]
pub enum ErrorCode {
    NotImplemented,
    Eval,
    InsufficientSamples,
    FuelExhausted,
    ConstraintBudgetExceeded,
    NonDeterministicOutput,
}

/// The name of an error code.
pub open spec fn error_code_name(c: ErrorCode) -> Seq<char> {
    match c {
        ErrorCode::NotImplemented => "NotImplemented"@,
        ErrorCode::Eval => "Eval"@,
        ErrorCode::InsufficientSamples => "InsufficientSamples"@,
        ErrorCode::FuelExhausted => "FuelExhausted"@,
        ErrorCode::ConstraintBudgetExceeded => "ConstraintBudgetExceeded"@,
        ErrorCode::NonDeterministicOutput => "NonDeterministicOutput"@,
    }
}

impl ErrorCode {
    pub fn as_str(self) -> (r: &'static str)
        ensures
            r@ == error_code_name(self),
    {
        match self {
            Self::NotImplemented => "NotImplemented",
            Self::Eval => "Eval",
            Self::InsufficientSamples => "InsufficientSamples",
            Self::FuelExhausted => "FuelExhausted",
            Self::ConstraintBudgetExceeded => "ConstraintBudgetExceeded",
            Self::NonDeterministicOutput => "NonDeterministicOutput",
        }
    }
}

/// The count of allowed words at one weight.
#[derive(Clone, Copy, Debug)]
pub struct CountSummary {
    pub weight: usize,
    pub n_words_allowed: usize,
    pub status: Status,
    pub error_code: Option<ErrorCode>,
}

/// The counts of an experiment over a range of weights.
#[derive(Clone, Debug)]
pub struct CountReport {
    pub name: String,
    pub weight_min: usize,
    pub weight_max: usize,
    pub summaries: Vec<CountSummary>,
}

/// The field needs quotes in CSV.
pub open spec fn needs_quotes(s: Seq<char>) -> bool {
    exists|i: int| 0 <= i < s.len() && (s[i] == ',' || s[i] == '"' || s[i] == '\n' || s[i] == '\r')
}

/// `s` with each quote doubled.
pub open spec fn double_quotes(s: Seq<char>) -> Seq<char>
    decreases s.len(),
{
    if s.len() == 0 {
        Seq::empty()
    } else if s.last() == '"' {
        double_quotes(s.drop_last()) + seq!['"', '"']
    } else {
        double_quotes(s.drop_last()).push(s.last())
    }
}

/// A CSV field: quoted, with doubled quotes, when it holds a comma, a quote or
/// a line break; as it is otherwise.
pub open spec fn csv_field(s: Seq<char>) -> Seq<char> {
    if needs_quotes(s) {
        seq!['"'] + double_quotes(s) + seq!['"']
    } else {
        s
    }
}

/// One field of a CSV record, quoted when it has to be.
pub fn escape_csv_field(value: &str) -> (r: String)
    ensures
        r@ == csv_field(value@),
{
    let n = value.unicode_len();
    let mut quote = false;
    let mut body = String::new();
    let mut i: usize = 0;
    while i < n
        invariant
            n == value@.len(),
            i <= n,
            quote == exists|t: int| 0 <= t < i && (value@[t] == ',' || value@[t] == '"' || value@[t] == '\n' || value@[t] == '\r'),
            body@ == double_quotes(value@.subrange(0, i as int)),
        decreases n - i,
    {
        let c = value.get_char(i);
        if c == ',' || c == '"' || c == '\n' || c == '\r' {
            quote = true;
        }
        if c == '"' {
            push_char(&mut body, '"');
        }
        push_char(&mut body, c);
        proof {
            let s = value@.subrange(0, i + 1);
            assert(s.drop_last() =~= value@.subrange(0, i as int));
            assert(s.last() == c);
            assert(body@ =~= double_quotes(s));
            if !quote {
                assert forall|t: int| 0 <= t < i + 1 implies !(value@[t] == ',' || value@[t] == '"' || value@[t] == '\n' || value@[t] == '\r') by {
                    if t < i {
                    }
                }
            }
        }
        i += 1;
    }
    proof {
        assert(value@.subrange(0, n as int) =~= value@);
    }
    if !quote {
        return value.to_string();
    }
    let mut out = String::new();
    push_char(&mut out, '"');
    out.append(body.as_str());
    push_char(&mut out, '"');
    proof {
        assert(out@ =~= seq!['"'] + double_quotes(value@) + seq!['"']);
    }
    out
}

/// One line `weight,count,status,code,code` of the count table.
pub open spec fn count_line(s: CountSummary) -> Seq<char> {
    let code = match s.error_code {
        Some(c) => csv_field(error_code_name(c)),
        None => Seq::empty(),
    };
    decimal_digits(s.weight as nat) + seq![','] + decimal_digits(s.n_words_allowed as nat) + seq![',']
        + csv_field(status_name(s.status)) + seq![','] + code + seq![','] + code + seq!['\n']
}

/// The lines of the count table, one per summary.
pub open spec fn count_lines(s: Seq<CountSummary>) -> Seq<char>
    decreases s.len(),
{
    if s.len() == 0 {
        Seq::empty()
    } else {
        count_lines(s.drop_last()) + count_line(s.last())
    }
}

fn count_line_text(s: CountSummary) -> (r: String)
    ensures
        r@ == count_line(s),
{
    let code = match s.error_code {
        Some(c) => escape_csv_field(c.as_str()),
        None => String::new(),
    };
    let w = u64_to_text(s.weight as u64);
    let c = u64_to_text(s.n_words_allowed as u64);
    let st = escape_csv_field(s.status.as_str());
    let mut out = String::new();
    out.append(w.as_str());
    push_char(&mut out, ',');
    out.append(c.as_str());
    push_char(&mut out, ',');
    out.append(st.as_str());
    push_char(&mut out, ',');
    out.append(code.as_str());
    push_char(&mut out, ',');
    out.append(code.as_str());
    push_char(&mut out, '\n');
    proof {
        assert(out@ =~= count_line(s));
    }
    out
}

/// The count table as CSV.
pub fn render_count_only(report: &CountReport) -> (r: String)
    ensures
        r@ == "weight,n_words_allowed,status,error_code,error\n"@ + count_lines(report.summaries@),
{
    let mut out = String::from_str("weight,n_words_allowed,status,error_code,error\n");
    let mut i: usize = 0;
    proof {
        assert(report.summaries@.subrange(0, 0) =~= Seq::<CountSummary>::empty());
        assert(out@ =~= "weight,n_words_allowed,status,error_code,error\n"@ + Seq::<char>::empty());
    }
    while i < report.summaries.len()
        invariant
            i <= report.summaries@.len(),
            out@ == "weight,n_words_allowed,status,error_code,error\n"@ + count_lines(report.summaries@.subrange(0, i as int)),
        decreases report.summaries@.len() - i,
    {
        let s = report.summaries[i];
        let ghost before = out@;
        let line = count_line_text(s);
        out.append(line.as_str());
        proof {
            let q = report.summaries@.subrange(0, i + 1);
            assert(q.drop_last() =~= report.summaries@.subrange(0, i as int));
            assert(q.last() == s);
            assert(out@ =~= before + count_line(s));
        }
        i += 1;
    }
    proof {
        assert(report.summaries@.subrange(0, report.summaries@.len() as int) =~= report.summaries@);
    }
    out
}

/// One `suffix,dir` line of the scan index.
pub open spec fn index_lines(rows: Seq<(String, String)>) -> Seq<char>
    decreases rows.len(),
{
    if rows.len() == 0 {
        Seq::empty()
    } else {
        index_lines(rows.drop_last()) + csv_field(rows.last().0@) + seq![','] + csv_field(rows.last().1@) + seq!['\n']
    }
}

/// The index of a cross-loop scan: one line per suffix and its directory.
pub fn render_cross_loop_scan_index(rows: &[(String, String)]) -> (r: String)
    ensures
        r@ == "suffix,dir\n"@ + index_lines(rows@),
{
    let mut out = String::from_str("suffix,dir\n");
    let mut i: usize = 0;
    proof {
        assert(out@ =~= "suffix,dir\n"@ + index_lines(rows@.subrange(0, 0)));
    }
    while i < rows.len()
        invariant
            i <= rows@.len(),
            out@ == "suffix,dir\n"@ + index_lines(rows@.subrange(0, i as int)),
        decreases rows@.len() - i,
    {
        let ghost before = out@;
        let a = escape_csv_field(rows[i].0.as_str());
        let b = escape_csv_field(rows[i].1.as_str());
        out.append(a.as_str());
        push_char(&mut out, ',');
        out.append(b.as_str());
        push_char(&mut out, '\n');
        proof {
            let q = rows@.subrange(0, i + 1);
            assert(q.drop_last() =~= rows@.subrange(0, i as int));
            assert(q.last() == rows@[i as int]);
            assert(out@ =~= before + csv_field(rows@[i as int].0@) + seq![','] + csv_field(rows@[i as int].1@) + seq!['\n']);
        }
        i += 1;
    }
    proof {
        assert(rows@.subrange(0, rows@.len() as int) =~= rows@);
    }
    out
}


/// The fields quoted where needed.
pub open spec fn csv_fields(fields: Seq<Seq<char>>) -> Seq<Seq<char>> {
    fields.map_values(|f: Seq<char>| csv_field(f))
}

/// A CSV record: the quoted fields joined by commas, then a line break.
pub open spec fn csv_record(fields: Seq<Seq<char>>) -> Seq<char> {
    str_seq_join(csv_fields(fields), seq![',']) + seq!['\n']
}

/// One CSV record of the given fields.
pub fn csv_record_text(fields: &Vec<String>) -> (r: String)
    ensures
        r@ == csv_record(strings_view(fields@)),
{
    let mut escaped: Vec<String> = Vec::with_capacity(fields.len());
    let mut i: usize = 0;
    while i < fields.len()
        invariant
            i <= fields@.len(),
            escaped@.len() == i,
            forall|t: int| 0 <= t < i ==> (#[trigger] escaped@[t])@ == csv_field(fields@[t]@),
        decreases fields@.len() - i,
    {
        escaped.push(escape_csv_field(fields[i].as_str()));
        i += 1;
    }
    let mut out = join_strings(escaped.as_slice(), ",");
    proof {
        reveal_strlit(",");
        assert(strings_view(escaped@) =~= csv_fields(strings_view(fields@)));
        assert(","@ =~= seq![',']);
    }
    push_char(&mut out, '\n');
    out
}


/// A CSV text built record by record.
pub struct CsvWriter {
    out: String,
}

impl CsvWriter {
    /// The text written so far.
    pub closed spec fn text(&self) -> Seq<char> {
        self.out@
    }

    /// A writer with nothing written.
    pub fn new() -> (r: Self)
        ensures
            r.text() == Seq::<char>::empty(),
    {
        CsvWriter { out: String::new() }
    }

    /// Writes one record of the given fields.
    pub fn push_record(&mut self, fields: &Vec<String>)
        ensures
            final(self).text() == old(self).text() + csv_record(strings_view(fields@)),
    {
        let line = csv_record_text(fields);
        self.out.append(line.as_str());
    }

    /// Writes `value` as it is.
    pub fn push_raw(&mut self, value: &str)
        ensures
            final(self).text() == old(self).text() + value@,
    {
        self.out.append(value);
    }

    /// The text written.
    pub fn into_string(self) -> (r: String)
        ensures
            r@ == self.text(),
    {
        self.out
    }
}

/// The variable names joined by commas (empty for none).
pub fn vars_csv(vars: &[String]) -> (r: String)
    ensures
        r@ == str_seq_join(strings_view(vars@), seq![',']),
{
    if vars.len() == 0 {
        return String::new();
    }
    let r = join_strings(vars, ",");
    proof {
        reveal_strlit(",");
        assert(","@ =~= seq![',']);
    }
    r
}

/// The lower-case hex digit of `d`.
pub open spec fn hex_digit(d: int) -> char {
    if d < 10 {
        (('0' as int) + d) as char
    } else {
        (('a' as int) + d - 10) as char
    }
}

/// How `escape_json_string` writes one character inside a JSON string.
pub open spec fn json_char(c: char) -> Seq<char> {
    if c == '"' {
        seq!['\\', '"']
    } else if c == '\\' {
        seq!['\\', '\\']
    } else if c == '\n' {
        seq!['\\', 'n']
    } else if c == '\r' {
        seq!['\\', 'r']
    } else if c == '\t' {
        seq!['\\', 't']
    } else if (c as int) < 0x20 {
        seq!['\\', 'u', '0', '0', hex_digit((c as int) / 16), hex_digit((c as int) % 16)]
    } else {
        seq![c]
    }
}

/// The characters of `s` escaped for a JSON string.
pub open spec fn json_escaped(s: Seq<char>) -> Seq<char>
    decreases s.len(),
{
    if s.len() == 0 {
        Seq::empty()
    } else {
        json_escaped(s.drop_last()) + json_char(s.last())
    }
}

fn hex_char(d: u32) -> (r: char)
    requires
        d < 16,
    ensures
        r == hex_digit(d as int),
{
    if d < 10 {
        (('0' as u8) + (d as u8)) as char
    } else {
        (('a' as u8) + (d as u8) - 10) as char
    }
}

/// `input` with quotes, backslashes and control characters escaped as JSON
/// writes them inside a string.
pub fn escape_json_string(input: &str) -> (r: String)
    ensures
        r@ == json_escaped(input@),
{
    let n = input.unicode_len();
    let mut out = String::new();
    let mut i: usize = 0;
    proof {
        assert(input@.subrange(0, 0) =~= Seq::<char>::empty());
    }
    while i < n
        invariant
            n == input@.len(),
            i <= n,
            out@ == json_escaped(input@.subrange(0, i as int)),
        decreases n - i,
    {
        let c = input.get_char(i);
        let ghost before = out@;
        if c == '"' {
            push_char(&mut out, '\\');
            push_char(&mut out, '"');
        } else if c == '\\' {
            push_char(&mut out, '\\');
            push_char(&mut out, '\\');
        } else if c == '\n' {
            push_char(&mut out, '\\');
            push_char(&mut out, 'n');
        } else if c == '\r' {
            push_char(&mut out, '\\');
            push_char(&mut out, 'r');
        } else if c == '\t' {
            push_char(&mut out, '\\');
            push_char(&mut out, 't');
        } else if (c as u32) < 0x20 {
            let code = c as u32;
            push_char(&mut out, '\\');
            push_char(&mut out, 'u');
            push_char(&mut out, '0');
            push_char(&mut out, '0');
            push_char(&mut out, hex_char(code / 16));
            push_char(&mut out, hex_char(code % 16));
        } else {
            push_char(&mut out, c);
        }
        proof {
            let q = input@.subrange(0, i + 1);
            assert(q.drop_last() =~= input@.subrange(0, i as int));
            assert(q.last() == c);
            assert(out@ =~= before + json_char(c));
        }
        i += 1;
    }
    proof {
        assert(input@.subrange(0, n as int) =~= input@);
    }
    out
}

/// The figures of a computed basis that the summaries report.
#[derive(Clone, Copy, Debug, PartialEq, Eq, Structural)]
pub struct BasisStats {
    pub dim: usize,
    pub rank: usize,
    pub ncols: usize,
    pub rows_attempted: usize,
    pub rows_inserted: usize,
    pub samples_used: usize,
    pub envs_total: usize,
    pub constraints_insufficient_samples: usize,
}

/// What became of one weight of an experiment: its counts, the metrics of
/// its letter graphs, and whether it was computed.
#[derive(Clone, Debug)]
pub struct WeightSummary {
    pub weight: usize,
    pub stats: BasisStats,
    pub n_words_allowed: usize,
    pub n_active_words: usize,
    pub topology: TopologyMetrics,
    pub skeleton2: Skeleton2Metrics,
    pub status: Status,
    pub error_code: Option<ErrorCode>,
}

/// The error code field of a summary (empty without one).
pub open spec fn code_field(code: Option<ErrorCode>) -> Seq<char> {
    match code {
        Some(c) => csv_field(error_code_name(c)),
        None => Seq::empty(),
    }
}

/// The fields of one line of the topology table.
pub open spec fn topology_fields(s: WeightSummary) -> Seq<Seq<char>> {
    let t = s.topology;
    seq![
        decimal_digits(s.weight as nat),
        decimal_digits(t.n_vertices as nat),
        decimal_digits(t.n_edges as nat),
        decimal_digits(t.n_active_words as nat),
        decimal_digits(t.weakly_connected_components as nat),
        decimal_digits(t.strongly_connected_components as nat),
        decimal_digits(t.density_num as nat),
        decimal_digits(t.density_den as nat),
        decimal_digits(t.max_out_degree as nat),
        decimal_digits(t.avg_out_degree_num as nat),
        decimal_digits(t.avg_out_degree_den as nat),
        csv_field(status_name(s.status)),
        code_field(s.error_code),
        code_field(s.error_code),
    ]
}

/// The fields of one line of the skeleton table.
pub open spec fn skeleton2_fields(s: WeightSummary) -> Seq<Seq<char>> {
    let m = s.skeleton2;
    seq![
        decimal_digits(s.weight as nat),
        csv_field(status_name(s.status)),
        code_field(s.error_code),
        code_field(s.error_code),
        decimal_digits(m.n_vertices as nat),
        decimal_digits(m.n_edges_undirected as nat),
        decimal_digits(m.triangles as nat),
        decimal_digits(m.clustering_num as nat),
        decimal_digits(m.clustering_den as nat),
        int_text(m.beta1_est as int),
        decimal_digits(m.triplets_supported_by_triangles_num as nat),
        decimal_digits(m.triplets_supported_by_triangles_den as nat),
    ]
}

/// Lines of comma-joined fields.
pub open spec fn joined_lines(rows: Seq<Seq<Seq<char>>>) -> Seq<char>
    decreases rows.len(),
{
    if rows.len() == 0 {
        Seq::empty()
    } else {
        joined_lines(rows.drop_last()) + str_seq_join(rows.last(), seq![',']) + seq!['\n']
    }
}

fn joined_line(fields: &Vec<String>) -> (r: String)
    ensures
        r@ == str_seq_join(strings_view(fields@), seq![',']) + seq!['\n'],
{
    let mut out = join_strings(fields.as_slice(), ",");
    proof {
        reveal_strlit(",");
        assert(","@ =~= seq![',']);
    }
    push_char(&mut out, '\n');
    out
}

fn code_text(code: Option<ErrorCode>) -> (r: String)
    ensures
        r@ == code_field(code),
{
    match code {
        Some(c) => escape_csv_field(c.as_str()),
        None => String::new(),
    }
}

/// The header of the topology table.
pub open spec fn topology_header() -> Seq<char> {
    "weight,n_vertices,n_edges,n_active_words,weakly_connected_components,strongly_connected_components,density_num,density_den,max_out_degree,avg_out_degree_num,avg_out_degree_den,status,error_code,error\n"@
}

/// The topology metrics of each weight as CSV.
pub fn render_topology_metrics(summaries: &[WeightSummary]) -> (r: String)
    ensures
        r@ == topology_header() + joined_lines(summaries@.map_values(|s: WeightSummary| topology_fields(s))),
{
    let mut out = String::from_str(
        "weight,n_vertices,n_edges,n_active_words,weakly_connected_components,strongly_connected_components,density_num,density_den,max_out_degree,avg_out_degree_num,avg_out_degree_den,status,error_code,error\n",
    );
    let ghost rows = summaries@.map_values(|s: WeightSummary| topology_fields(s));
    let mut i: usize = 0;
    proof {
        assert(rows.subrange(0, 0) =~= Seq::<Seq<Seq<char>>>::empty());
        assert(out@ =~= topology_header() + Seq::<char>::empty());
    }
    while i < summaries.len()
        invariant
            i <= summaries@.len(),
            rows == summaries@.map_values(|s: WeightSummary| topology_fields(s)),
            out@ == topology_header() + joined_lines(rows.subrange(0, i as int)),
        decreases summaries@.len() - i,
    {
        let s = &summaries[i];
        let t = &s.topology;
        let fields = vec![
            u64_to_text(s.weight as u64),
            u64_to_text(t.n_vertices as u64),
            u64_to_text(t.n_edges as u64),
            u64_to_text(t.n_active_words as u64),
            u64_to_text(t.weakly_connected_components as u64),
            u64_to_text(t.strongly_connected_components as u64),
            u64_to_text(t.density_num),
            u64_to_text(t.density_den),
            u64_to_text(t.max_out_degree as u64),
            u64_to_text(t.avg_out_degree_num),
            u64_to_text(t.avg_out_degree_den),
            escape_csv_field(s.status.as_str()),
            code_text(s.error_code),
            code_text(s.error_code),
        ];
        let line = joined_line(&fields);
        let ghost before = out@;
        out.append(line.as_str());
        proof {
            assert(strings_view(fields@) =~= topology_fields(summaries@[i as int]));
            let q = rows.subrange(0, i + 1);
            assert(q.drop_last() =~= rows.subrange(0, i as int));
            assert(out@ =~= before + str_seq_join(q.last(), seq![',']) + seq!['\n']);
        }
        i += 1;
    }
    proof {
        assert(rows.subrange(0, summaries@.len() as int) =~= rows);
    }
    out
}

/// The header of the skeleton table.
pub open spec fn skeleton2_header() -> Seq<char> {
    "weight,status,error_code,error,n_vertices,n_edges_undirected,triangles,clustering_num,clustering_den,beta1_est,triplets_supported_by_triangles_num,triplets_supported_by_triangles_den\n"@
}

/// The skeleton metrics of each weight as CSV.
pub fn render_skeleton2_metrics(summaries: &[WeightSummary]) -> (r: String)
    ensures
        r@ == skeleton2_header() + joined_lines(summaries@.map_values(|s: WeightSummary| skeleton2_fields(s))),
{
    let mut out = String::from_str(
        "weight,status,error_code,error,n_vertices,n_edges_undirected,triangles,clustering_num,clustering_den,beta1_est,triplets_supported_by_triangles_num,triplets_supported_by_triangles_den\n",
    );
    let ghost rows = summaries@.map_values(|s: WeightSummary| skeleton2_fields(s));
    let mut i: usize = 0;
    proof {
        assert(rows.subrange(0, 0) =~= Seq::<Seq<Seq<char>>>::empty());
        assert(out@ =~= skeleton2_header() + Seq::<char>::empty());
    }
    while i < summaries.len()
        invariant
            i <= summaries@.len(),
            rows == summaries@.map_values(|s: WeightSummary| skeleton2_fields(s)),
            out@ == skeleton2_header() + joined_lines(rows.subrange(0, i as int)),
        decreases summaries@.len() - i,
    {
        let s = &summaries[i];
        let m = &s.skeleton2;
        let fields = vec![
            u64_to_text(s.weight as u64),
            escape_csv_field(s.status.as_str()),
            code_text(s.error_code),
            code_text(s.error_code),
            u64_to_text(m.n_vertices as u64),
            u64_to_text(m.n_edges_undirected as u64),
            u64_to_text(m.triangles),
            u64_to_text(m.clustering_num),
            u64_to_text(m.clustering_den),
            i64_to_text(m.beta1_est),
            u64_to_text(m.triplets_supported_by_triangles_num),
            u64_to_text(m.triplets_supported_by_triangles_den),
        ];
        let line = joined_line(&fields);
        let ghost before = out@;
        out.append(line.as_str());
        proof {
            assert(strings_view(fields@) =~= skeleton2_fields(summaries@[i as int]));
            let q = rows.subrange(0, i + 1);
            assert(q.drop_last() =~= rows.subrange(0, i as int));
            assert(out@ =~= before + str_seq_join(q.last(), seq![',']) + seq!['\n']);
        }
        i += 1;
    }
    proof {
        assert(rows.subrange(0, summaries@.len() as int) =~= rows);
    }
    out
}

} // verus!
