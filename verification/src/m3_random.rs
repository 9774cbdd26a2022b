//! The random alphabet specifications of the M3 experiments: a seeded
//! generator, letter names, and the adjacency threshold.
use crate::text::{decimal_digits, int_text, push_char, u64_to_text};
use vstd::prelude::*;
use vstd::string::StrSliceExecFns;

verus! {

/// The multiplier of the generator.
pub const LCG_MUL: u64 = 6364136223846793005;

/// One step of the generator: `state * LCG_MUL + 1` modulo `2^64`.
pub open spec fn lcg_next_state(state: u64) -> u64 {
    ((state as int * LCG_MUL as int + 1) % 0x1_0000_0000_0000_0000int) as u64
}

/// A 64-bit linear congruential generator.
#[derive(Clone, Copy, Debug)]
pub struct Lcg {
    pub state: u64,
}

impl Lcg {
    /// A generator started at `seed`.
    pub fn new(seed: u64) -> (r: Lcg)
        ensures
            r.state == seed,
    {
        Lcg { state: seed }
    }

    /// Steps the generator and returns the high half of the new state.
    pub fn next_u32(&mut self) -> (r: u32)
        ensures
            final(self).state == lcg_next_state(old(self).state),
            r == final(self).state / 0x1_0000_0000,
    {
        let s = self.state.wrapping_mul(LCG_MUL).wrapping_add(1);
        proof {
            let a = self.state as int * LCG_MUL as int;
            let m = 0x1_0000_0000_0000_0000int;
            crate::modular::lemma_mod_ops(a, 1, m);
            assert(s == lcg_next_state(self.state));
        }
        self.state = s;
        proof {
            assert(s >> 32 == s / 0x1_0000_0000) by (bit_vector);
        }
        (s >> 32) as u32
    }

    /// A number in `low..=high` from the next draw: `low + draw mod span`.
    pub fn next_range(&mut self, low: i32, high: i32) -> (r: i32)
        requires
            low <= high,
            high - low + 1 <= i32::MAX,
        ensures
            final(self).state == lcg_next_state(old(self).state),
            r == low + (final(self).state as int / 0x1_0000_0000int) % (high - low + 1),
            low <= r <= high,
    {
        let span = (high - low + 1) as u32;
        let draw = self.next_u32();
        let off = draw % span;
        proof {
            vstd::arithmetic::div_mod::lemma_mod_bound(draw as int, span as int);
        }
        low + off as i32
    }
}

/// The draw below which an ordered pair of letters is allowed: `p * 2^32`.
pub fn threshold(p_num: u32, p_den: u32) -> (r: u64)
    requires
        p_den > 0,
    ensures
        r == (p_num as int * 0x1_0000_0000int) / p_den as int,
{
    let denom = p_den as u64;
    let scale: u64 = 0x1_0000_0000;
    proof {
        assert(p_num as int * 0x1_0000_0000int <= u64::MAX) by (nonlinear_arith)
            requires
                p_num <= u32::MAX,
        ;
    }
    (p_num as u64) * scale / denom
}

/// The number of decimal digits of `m - 1` (at least one): the width of the
/// letter names `l00`, `l01`, ... of an alphabet of `m` letters.
pub fn name_width(m: usize) -> (r: usize)
    ensures
        r == decimal_digits((if m > 0 { m - 1 } else { 0 }) as nat).len(),
{
    let max_idx = if m > 0 { m - 1 } else { 0 };
    let text = u64_to_text(max_idx as u64);
    text.unicode_len()
}

/// `s` padded on the left with zeros to `width` characters.
pub open spec fn zero_pad(s: Seq<char>, width: nat) -> Seq<char> {
    if s.len() >= width {
        s
    } else {
        Seq::new((width - s.len()) as nat, |i: int| '0') + s
    }
}

/// The name `l<idx>` with `idx` zero-padded to `width` digits.
pub fn format_name(idx: usize, width: usize) -> (r: String)
    ensures
        r@ == seq!['l'] + zero_pad(decimal_digits(idx as nat), width as nat),
{
    let digits = u64_to_text(idx as u64);
    let n = digits.unicode_len();
    let mut out = String::new();
    push_char(&mut out, 'l');
    let mut k: usize = n;
    while k < width
        invariant
            n == digits@.len(),
            n <= k <= width || (k == n && n >= width),
            out@ == seq!['l'] + Seq::new((k - n) as nat, |i: int| '0'),
        decreases width - k,
    {
        push_char(&mut out, '0');
        proof {
            assert(out@ =~= seq!['l'] + Seq::new((k + 1 - n) as nat, |i: int| '0'));
        }
        k += 1;
    }
    out.append(digits.as_str());
    proof {
        if n >= width {
            assert(Seq::new((k - n) as nat, |i: int| '0') =~= Seq::<char>::empty());
            assert(out@ =~= seq!['l'] + digits@);
        } else {
            assert(k == width);
            assert(out@ =~= seq!['l'] + (Seq::new((width - n) as nat, |i: int| '0') + digits@));
        }
    }
    out
}


/// The state after `n` steps of the generator from `s`.
pub open spec fn lcg_iter(s: u64, n: nat) -> u64
    decreases n,
{
    if n == 0 {
        s
    } else {
        lcg_next_state(lcg_iter(s, (n - 1) as nat))
    }
}

/// The draw a state gives: its high 32 bits.
pub open spec fn high_draw(state: u64) -> int {
    state as int / 0x1_0000_0000int
}

/// The letter that follows letter `a` cyclically.
pub open spec fn successor(m: int, a: int) -> int {
    (a + 1) % m
}

/// How many draws one row of the adjacency table takes: every entry but the
/// successor and the diagonal.
pub open spec fn draws_per_row(m: int) -> int {
    if m >= 2 {
        m - 2
    } else {
        0
    }
}

/// How many draws come before entry `b` of row `a`.
pub open spec fn draws_before(m: int, a: int, b: int) -> int {
    a * draws_per_row(m) + b - (if successor(m, a) < b {
        1int
    } else {
        0int
    }) - (if a < b {
        1int
    } else {
        0int
    })
}

/// Whether the table allows the ordered pair `(a, b)` when the draws start
/// from state `s0`: the successor always, the diagonal never, and any other
/// pair when its draw is below `thresh`.
pub open spec fn pair_allowed(m: int, thresh: u64, s0: u64, a: int, b: int) -> bool {
    b == successor(m, a) || (a != b && high_draw(lcg_iter(s0, (draws_before(m, a, b) + 1) as nat)) < thresh)
}

/// The adjacency table of an alphabet of `m` letters.
pub open spec fn pair_table(m: int, thresh: u64, s0: u64) -> Seq<Seq<bool>> {
    Seq::new(m as nat, |a: int| Seq::new(m as nat, |b: int| pair_allowed(m, thresh, s0, a, b)))
}

proof fn lemma_row_draws(m: int, a: int)
    requires
        m >= 2,
        0 <= a,
    ensures
        a * draws_per_row(m) + (m - 2) == (a + 1) * draws_per_row(m),
        a * draws_per_row(m) >= 0,
{
    assert(a * (m - 2) + (m - 2) == (a + 1) * (m - 2)) by (nonlinear_arith);
    assert(a * (m - 2) >= 0) by (nonlinear_arith)
        requires
            a >= 0,
            m >= 2,
    ;
}

/// The ordered pairs of letters an alphabet of `m` letters allows: each letter
/// to its successor (cyclically), and each other ordered pair of distinct
/// letters when its draw from `rng` (taken in row-major order) is below
/// `thresh`; as a row-major table.
pub fn choose_pairs(m: usize, thresh: u64, rng: &mut Lcg) -> (r: Vec<Vec<bool>>)
    requires
        m < usize::MAX,
    ensures
        r@.len() == m,
        forall|a: int| 0 <= a < m ==> (#[trigger] r@[a])@.len() == m,
        forall|a: int, b: int|
            0 <= a < m && 0 <= b < m ==> #[trigger] r@[a]@[b] == pair_allowed(m as int, thresh, old(rng).state, a, b),
        final(rng).state == lcg_iter(old(rng).state, (m * draws_per_row(m as int)) as nat),
        forall|a: int| 0 <= a < m ==> #[trigger] r@[a]@[(a + 1) % (m as int)],
        forall|a: int| 0 <= a < m && m > 1 ==> !(#[trigger] r@[a])@[a],
{
    let ghost s0 = rng.state;
    let ghost dpr = draws_per_row(m as int);
    let mut allowed: Vec<Vec<bool>> = Vec::with_capacity(m);
    let mut a: usize = 0;
    while a < m
        invariant
            m < usize::MAX,
            a <= m,
            dpr == draws_per_row(m as int),
            a * dpr >= 0,
            rng.state == lcg_iter(s0, (a * dpr) as nat),
            allowed@.len() == a,
            forall|t: int| 0 <= t < a ==> (#[trigger] allowed@[t])@.len() == m,
            forall|t: int, u: int|
                0 <= t < a && 0 <= u < m ==> #[trigger] allowed@[t]@[u] == pair_allowed(m as int, thresh, s0, t, u),
            forall|t: int| 0 <= t < a ==> #[trigger] allowed@[t]@[(t + 1) % (m as int)],
            forall|t: int| 0 <= t < a && m > 1 ==> !(#[trigger] allowed@[t])@[t],
        decreases m - a,
    {
        let next = (a + 1) % m;
        proof {
            if m > 1 {
                assert((a + 1) % (m as int) != a as int) by {
                    if a + 1 < m {
                        vstd::arithmetic::div_mod::lemma_small_mod((a + 1) as nat, m as nat);
                    } else {
                        vstd::arithmetic::div_mod::lemma_mod_self_0(m as int);
                    }
                }
            }
        }
        let mut row: Vec<bool> = Vec::with_capacity(m);
        let mut b: usize = 0;
        while b < m
            invariant
                a < m,
                next == (a + 1) % (m as int),
                next == successor(m as int, a as int),
                m > 1 ==> next != a,
                b <= m,
                dpr == draws_per_row(m as int),
                a * dpr >= 0,
                m > 1 ==> rng.state == lcg_iter(s0, draws_before(m as int, a as int, b as int) as nat),
                m > 1 ==> draws_before(m as int, a as int, b as int) >= a * dpr,
                m <= 1 ==> rng.state == lcg_iter(s0, (a * dpr) as nat),
                row@.len() == b,
                forall|t: int| 0 <= t < b ==> #[trigger] row@[t] == pair_allowed(m as int, thresh, s0, a as int, t),
                forall|t: int| 0 <= t < b && t == next ==> #[trigger] row@[t],
                forall|t: int| 0 <= t < b && t == a && m > 1 ==> !#[trigger] row@[t],
            decreases m - b,
        {
            if b == next {
                row.push(true);
            } else if a == b {
                row.push(false);
            } else {
                let draw = rng.next_u32() as u64;
                proof {
                    let d = draws_before(m as int, a as int, b as int);
                    assert(m > 1) by {
                        if m <= 1 {
                            assert(b == 0 && a == 0);
                            vstd::arithmetic::div_mod::lemma_mod_self_0(m as int);
                        }
                    }
                    assert(lcg_iter(s0, (d + 1) as nat) == lcg_next_state(lcg_iter(s0, d as nat)));
                    assert(draw == high_draw(rng.state));
                }
                row.push(draw < thresh);
            }
            b += 1;
        }
        proof {
            assert(row@[next as int]);
            if m > 1 {
                lemma_row_draws(m as int, a as int);
            } else {
                assert(dpr == 0);
                assert((a + 1) * dpr == 0) by (nonlinear_arith)
                    requires
                        dpr == 0,
                ;
            }
            assert((a + 1) * dpr >= 0) by (nonlinear_arith)
                requires
                    dpr >= 0,
                    a >= 0,
            ;
        }
        allowed.push(row);
        a += 1;
    }
    allowed
}

/// The name of letter `i` of an alphabet of `m` letters.
pub open spec fn letter_name(i: int, m: int) -> Seq<char> {
    seq!['l'] + zero_pad(decimal_digits(i as nat), decimal_digits((if m > 0 { m - 1 } else { 0 }) as nat).len())
}

/// The opening settings of a specification.
pub open spec fn header_text(id: Seq<char>, w: nat) -> Seq<char> {
    "[experiment]\n"@ + "id = \""@ + id + "\"\nout_dir = \"reports/m3/random/"@ + id + "\"\nw_min = "@ + decimal_digits(w)
        + "\nw_max = "@ + decimal_digits(w) + "\n\n[alphabet]\nvars = [\"x\", \"y\"]\n\n"@
}

/// The coefficient in `1..=9` that the `n`-th draw from `seed` gives.
pub open spec fn coefficient(seed: u64, n: nat) -> int {
    1 + high_draw(lcg_iter(seed, n)) % 9
}

/// One letter `1 + a x^2 + b y^2` of the alphabet.
pub open spec fn letter_text(name: Seq<char>, a: int, b: int) -> Seq<char> {
    "[[alphabet.letters]]\nname = \""@ + name + "\"\nexpr = \"(+ 1 (* "@ + int_text(a) + " (^ x 2)) (* "@ + int_text(b)
        + " (^ y 2)))\"\n\n"@
}

/// The first `k` letters, letter `j` taking draws `2j + 1` and `2j + 2`.
pub open spec fn letters_text(m: int, seed: u64, k: int) -> Seq<char>
    decreases k,
{
    if k <= 0 {
        Seq::empty()
    } else {
        letters_text(m, seed, k - 1) + letter_text(
            letter_name(k - 1, m),
            coefficient(seed, (2 * k - 1) as nat),
            coefficient(seed, (2 * k) as nat),
        )
    }
}

/// How many of the first `b` entries of row `a` the table allows.
pub open spec fn row_count(table: Seq<Seq<bool>>, a: int, b: int) -> nat
    decreases b,
{
    if b <= 0 {
        0
    } else {
        row_count(table, a, b - 1) + if table[a][b - 1] {
            1nat
        } else {
            0nat
        }
    }
}

/// How many entries of the first `a` rows the table allows.
pub open spec fn rows_count(table: Seq<Seq<bool>>, m: int, a: int) -> nat
    decreases a,
{
    if a <= 0 {
        0
    } else {
        rows_count(table, m, a - 1) + row_count(table, a - 1, m)
    }
}

/// The listing of pair number `idx` of `total`: four to a line, separated by
/// commas.
pub open spec fn pair_entry(na: Seq<char>, nb: Seq<char>, idx: int, total: int) -> Seq<char> {
    "  [\""@ + na + "\", \""@ + nb + "\"]"@ + (if idx + 1 != total {
        seq![',']
    } else {
        Seq::empty()
    }) + (if (idx + 1) % 4 == 0 || idx + 1 == total {
        seq!['\n']
    } else {
        seq![' ']
    })
}

/// The listings of the allowed pairs among the first `b` entries of row `a`.
pub open spec fn row_pairs_text(table: Seq<Seq<bool>>, m: int, a: int, b: int, total: int) -> Seq<char>
    decreases b,
{
    if b <= 0 {
        Seq::empty()
    } else {
        row_pairs_text(table, m, a, b - 1, total) + if table[a][b - 1] {
            pair_entry(letter_name(a, m), letter_name(b - 1, m), (rows_count(table, m, a) + row_count(table, a, b - 1)) as int, total)
        } else {
            Seq::empty()
        }
    }
}

/// The listings of the allowed pairs of the first `a` rows.
pub open spec fn pairs_text(table: Seq<Seq<bool>>, m: int, a: int, total: int) -> Seq<char>
    decreases a,
{
    if a <= 0 {
        Seq::empty()
    } else {
        pairs_text(table, m, a - 1, total) + row_pairs_text(table, m, a - 1, m, total)
    }
}

/// The specification text of one random alphabet of `m` letters with seed
/// `seed`: the letters take the first `2m` draws, the adjacency table the
/// draws after them.
pub open spec fn random_spec_text(m: int, w: nat, p_num: u32, p_den: u32, seed: u64, id: Seq<char>) -> Seq<char> {
    let thresh = ((p_num as int * 0x1_0000_0000int) / p_den as int) as u64;
    let table = pair_table(m, thresh, lcg_iter(seed, (2 * m) as nat));
    let total = rows_count(table, m, m) as int;
    header_text(id, w) + letters_text(m, seed, m) + "[constraints]\nadjacency_mode = \"allow\"\nadjacency_pairs = [\n"@
        + pairs_text(table, m, m, total) + "]\n\n[constraints.budget]\nmax_states = "@ + decimal_digits(m as nat)
        + "\n\n[pairs]\ncount_mode = \"active_word_positions\"\n"@
}

proof fn lemma_row_count_mono(table: Seq<Seq<bool>>, a: int, b1: int, b2: int)
    requires
        0 <= b1 <= b2,
    ensures
        row_count(table, a, b1) <= row_count(table, a, b2),
        row_count(table, a, b2) <= b2,
    decreases b2,
{
    if b2 > 0 {
        if b1 < b2 {
            lemma_row_count_mono(table, a, b1, b2 - 1);
        } else {
            lemma_row_count_mono(table, a, 0, b2 - 1);
        }
    }
}

proof fn lemma_rows_count_mono(table: Seq<Seq<bool>>, m: int, a1: int, a2: int)
    requires
        0 <= a1 <= a2,
    ensures
        rows_count(table, m, a1) <= rows_count(table, m, a2),
    decreases a2,
{
    if a2 > 0 && a1 < a2 {
        lemma_rows_count_mono(table, m, a1, a2 - 1);
    }
}

/// The specification text of one random alphabet: `m` letters `x`, `y`
/// quadrics with coefficients drawn from `1..=9`, the allowed adjacencies of
/// [`choose_pairs`], and the fixed experiment settings.
pub fn build_spec(m: usize, w: usize, p_num: u32, p_den: u32, seed: u64, id: &str) -> (r: String)
    requires
        p_den > 0,
        m < usize::MAX,
        m * m <= usize::MAX,
    ensures
        r@ == random_spec_text(m as int, w as nat, p_num, p_den, seed, id@),
{
    let mut rng = Lcg::new(seed);
    let width = name_width(m);
    let mut names: Vec<String> = Vec::with_capacity(m);
    let mut i: usize = 0;
    while i < m
        invariant
            i <= m,
            names@.len() == i,
            width == decimal_digits((if m > 0 { m - 1 } else { 0 }) as nat).len(),
            forall|t: int| 0 <= t < i ==> (#[trigger] names@[t])@ == letter_name(t, m as int),
        decreases m - i,
    {
        names.push(format_name(i, width));
        i += 1;
    }
    let mut out = String::from_str("[experiment]\n");
    out.append("id = \"");
    out.append(id);
    out.append("\"\nout_dir = \"reports/m3/random/");
    out.append(id);
    out.append("\"\nw_min = ");
    out.append(u64_to_text(w as u64).as_str());
    out.append("\nw_max = ");
    out.append(u64_to_text(w as u64).as_str());
    out.append("\n\n[alphabet]\nvars = [\"x\", \"y\"]\n\n");
    let ghost head = header_text(id@, w as nat);
    proof {
        assert(out@ =~= head);
        assert(out@ =~= head + letters_text(m as int, seed, 0));
    }
    let mut k: usize = 0;
    while k < m
        invariant
            k <= m,
            m < usize::MAX,
            names@.len() == m,
            forall|t: int| 0 <= t < m ==> (#[trigger] names@[t])@ == letter_name(t, m as int),
            rng.state == lcg_iter(seed, (2 * k) as nat),
            out@ == head + letters_text(m as int, seed, k as int),
        decreases m - k,
    {
        let a = rng.next_range(1, 9);
        let b = rng.next_range(1, 9);
        let mut piece = String::from_str("[[alphabet.letters]]\nname = \"");
        piece.append(names[k].as_str());
        piece.append("\"\nexpr = \"(+ 1 (* ");
        piece.append(crate::text::i64_to_text(a as i64).as_str());
        piece.append(" (^ x 2)) (* ");
        piece.append(crate::text::i64_to_text(b as i64).as_str());
        piece.append(" (^ y 2)))\"\n\n");
        proof {
            assert((2 * (k + 1) - 1) as nat == (2 * k + 1) as nat);
            assert(lcg_iter(seed, (2 * k + 1) as nat) == lcg_next_state(lcg_iter(seed, (2 * k) as nat)));
            assert(lcg_iter(seed, (2 * k + 2) as nat) == lcg_next_state(lcg_iter(seed, (2 * k + 1) as nat)));
            assert(a as int == coefficient(seed, (2 * k + 1) as nat));
            assert(b as int == coefficient(seed, (2 * k + 2) as nat));
            assert(piece@ =~= letter_text(
                letter_name(k as int, m as int),
                coefficient(seed, (2 * (k + 1) - 1) as nat),
                coefficient(seed, (2 * (k + 1)) as nat),
            ));
        }
        out.append(piece.as_str());
        proof {
            assert(out@ =~= head + letters_text(m as int, seed, k + 1));
        }
        k += 1;
    }
    let thresh = threshold(p_num, p_den);
    let ghost s0 = rng.state;
    let allowed = choose_pairs(m, thresh, &mut rng);
    let ghost table = pair_table(m as int, thresh, s0);
    proof {
        assert forall|x: int, y: int| 0 <= x < m && 0 <= y < m implies #[trigger] allowed@[x]@[y] == table[x][y] by {}
    }
    out.append("[constraints]\nadjacency_mode = \"allow\"\nadjacency_pairs = [\n");
    let ghost mid = out@;
    let mut total: usize = 0;
    let mut a: usize = 0;
    while a < m
        invariant
            a <= m,
            allowed@.len() == m,
            forall|t: int| 0 <= t < m ==> (#[trigger] allowed@[t])@.len() == m,
            forall|x: int, y: int| 0 <= x < m && 0 <= y < m ==> #[trigger] allowed@[x]@[y] == table[x][y],
            m * m <= usize::MAX,
            total <= a * m,
            total == rows_count(table, m as int, a as int),
        decreases m - a,
    {
        let mut b: usize = 0;
        while b < m
            invariant
                a < m,
                b <= m,
                m * m <= usize::MAX,
                allowed@.len() == m,
                forall|t: int| 0 <= t < m ==> (#[trigger] allowed@[t])@.len() == m,
                forall|x: int, y: int| 0 <= x < m && 0 <= y < m ==> #[trigger] allowed@[x]@[y] == table[x][y],
                total <= a * m + b,
                total == rows_count(table, m as int, a as int) + row_count(table, a as int, b as int),
            decreases m - b,
        {
            if allowed[a][b] {
                proof {
                    assert(a * m + b < m * m) by (nonlinear_arith)
                        requires
                            a < m,
                            b < m,
                    ;
                }
                total += 1;
            }
            b += 1;
        }
        proof {
            assert(a * m + m == (a + 1) * m) by (nonlinear_arith);
        }
        a += 1;
    }
    let mut idx: usize = 0;
    let mut a: usize = 0;
    proof {
        assert(out@ =~= mid + pairs_text(table, m as int, 0, total as int));
    }
    while a < m
        invariant
            a <= m,
            names@.len() == m,
            forall|t: int| 0 <= t < m ==> (#[trigger] names@[t])@ == letter_name(t, m as int),
            allowed@.len() == m,
            forall|t: int| 0 <= t < m ==> (#[trigger] allowed@[t])@.len() == m,
            forall|x: int, y: int| 0 <= x < m && 0 <= y < m ==> #[trigger] allowed@[x]@[y] == table[x][y],
            total == rows_count(table, m as int, m as int),
            idx == rows_count(table, m as int, a as int),
            out@ == mid + pairs_text(table, m as int, a as int, total as int),
        decreases m - a,
    {
        let mut b: usize = 0;
        let ghost row_start = out@;
        proof {
            assert(out@ =~= row_start + row_pairs_text(table, m as int, a as int, 0, total as int));
        }
        while b < m
            invariant
                a < m,
                b <= m,
                names@.len() == m,
                forall|t: int| 0 <= t < m ==> (#[trigger] names@[t])@ == letter_name(t, m as int),
                allowed@.len() == m,
                forall|t: int| 0 <= t < m ==> (#[trigger] allowed@[t])@.len() == m,
                forall|x: int, y: int| 0 <= x < m && 0 <= y < m ==> #[trigger] allowed@[x]@[y] == table[x][y],
                total == rows_count(table, m as int, m as int),
                idx == rows_count(table, m as int, a as int) + row_count(table, a as int, b as int),
                out@ == row_start + row_pairs_text(table, m as int, a as int, b as int, total as int),
            decreases m - b,
        {
            if allowed[a][b] {
                proof {
                    lemma_row_count_mono(table, a as int, b + 1, m as int);
                    lemma_rows_count_mono(table, m as int, a + 1, m as int);
                    assert(idx < total);
                }
                let mut piece = String::from_str("  [\"");
                piece.append(names[a].as_str());
                piece.append("\", \"");
                piece.append(names[b].as_str());
                piece.append("\"]");
                if idx + 1 != total {
                    push_char(&mut piece, ',');
                }
                if (idx + 1) % 4 == 0 || idx + 1 == total {
                    push_char(&mut piece, '\n');
                } else {
                    push_char(&mut piece, ' ');
                }
                proof {
                    assert(piece@ =~= pair_entry(
                        letter_name(a as int, m as int),
                        letter_name(b as int, m as int),
                        idx as int,
                        total as int,
                    ));
                }
                out.append(piece.as_str());
                idx += 1;
            }
            proof {
                assert(out@ =~= row_start + row_pairs_text(table, m as int, a as int, b + 1, total as int));
            }
            b += 1;
        }
        proof {
            assert(out@ =~= mid + pairs_text(table, m as int, a + 1, total as int));
        }
        a += 1;
    }
    out.append("]\n\n[constraints.budget]\nmax_states = ");
    out.append(u64_to_text(m as u64).as_str());
    out.append("\n\n[pairs]\ncount_mode = \"active_word_positions\"\n");
    proof {
        assert(s0 == lcg_iter(seed, (2 * m) as nat));
        assert(out@ =~= random_spec_text(m as int, w as nat, p_num, p_den, seed, id@));
    }
    out
}

} // verus!
