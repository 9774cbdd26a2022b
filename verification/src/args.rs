//! Lists of values given on the command line, and the labels under which
//! suffix sets are reported.
use crate::text::{
    decimal_digits, join_strings, parse_i64, parse_signed_spec, parse_unsigned_spec, parse_usize_opt, push_char, split_on,
    split_spec, str_eq, str_seq_join, strings_view, substring, trim, trim_spec, u64_to_text,
};
use vstd::prelude::*;
use vstd::string::StrSliceExecFns;

verus! {

/// An argument that starts with `--` is a flag.
pub open spec fn is_flag(s: Seq<char>) -> bool {
    s.len() >= 2 && s[0] == '-' && s[1] == '-'
}

/// Whether `s` starts with `--`.
pub fn starts_with_flag(s: &str) -> (r: bool)
    ensures
        r == is_flag(s@),
{
    s.unicode_len() >= 2 && s.get_char(0) == '-' && s.get_char(1) == '-'
}

/// The place of the first flag at or after `i`, or the end of the arguments:
/// where the values of a list stop.
pub open spec fn list_end(args: Seq<Seq<char>>, i: int) -> int
    decreases args.len() - i,
{
    if i >= args.len() || is_flag(args[i]) {
        i
    } else {
        list_end(args, i + 1)
    }
}

proof fn lemma_list_end_ge(args: Seq<Seq<char>>, i: int)
    ensures
        list_end(args, i) >= i,
    decreases args.len() - i,
{
    if i < args.len() && !is_flag(args[i]) {
        lemma_list_end_ge(args, i + 1);
    }
}

/// The pieces, trimmed, that are not empty once trimmed.
pub open spec fn nonempty_trimmed(parts: Seq<Seq<char>>) -> Seq<Seq<char>>
    decreases parts.len(),
{
    if parts.len() == 0 {
        Seq::empty()
    } else {
        let rest = nonempty_trimmed(parts.drop_last());
        let t = trim_spec(parts.last());
        if t.len() > 0 {
            rest.push(t)
        } else {
            rest
        }
    }
}

/// The values of one argument: its comma-separated pieces, trimmed, the empty
/// ones left out.
pub open spec fn arg_values(arg: Seq<char>) -> Seq<Seq<char>> {
    nonempty_trimmed(split_spec(arg, ','))
}

/// The values of arguments `i..j`, in order.
pub open spec fn list_values(args: Seq<Seq<char>>, i: int, j: int) -> Seq<Seq<char>>
    decreases j - i,
{
    if j <= i {
        Seq::empty()
    } else {
        list_values(args, i, j - 1) + arg_values(args[j - 1])
    }
}

/// The values of the list that starts at argument `i`.
pub open spec fn list_result(args: Seq<Seq<char>>, i: int) -> Seq<Seq<char>> {
    list_values(args, i, list_end(args, i))
}

/// The message for a list flag with no values after it.
pub open spec fn missing_values(flag: Seq<char>) -> Seq<char> {
    "missing values after "@ + flag
}

/// The message for a value that does not read as a number.
pub open spec fn invalid_value(flag: Seq<char>, value: Seq<char>) -> Seq<char> {
    "invalid "@ + flag + " value: "@ + value
}

fn missing_values_message(flag: &str) -> (r: String)
    ensures
        r@ == missing_values(flag@),
{
    let mut out = String::from_str("missing values after ");
    out.append(flag);
    out
}

fn invalid_message(flag: &str, what: &str, value: &str) -> (r: String)
    ensures
        r@ == "invalid "@ + flag@ + what@ + value@,
{
    let mut out = String::from_str("invalid ");
    out.append(flag);
    out.append(what);
    out.append(value);
    out
}

/// Appends the values of one argument to `out`.
fn push_arg_values(out: &mut Vec<String>, arg: &str)
    ensures
        strings_view(final(out)@) == strings_view(old(out)@) + arg_values(arg@),
{
    let parts = split_on(arg, ',');
    let ghost sp = strings_view(parts@);
    let ghost start = strings_view(out@);
    let mut k: usize = 0;
    proof {
        assert(sp.take(0) =~= Seq::<Seq<char>>::empty());
        assert(start + nonempty_trimmed(sp.take(0)) =~= start);
    }
    while k < parts.len()
        invariant
            k <= parts@.len(),
            sp == strings_view(parts@),
            sp == split_spec(arg@, ','),
            strings_view(out@) == start + nonempty_trimmed(sp.take(k as int)),
        decreases parts@.len() - k,
    {
        let t = trim(parts[k].as_str());
        proof {
            assert(sp.take(k + 1).drop_last() =~= sp.take(k as int));
            assert(sp.take(k + 1).last() == parts@[k as int]@);
        }
        if t.unicode_len() > 0 {
            proof {
                crate::text::lemma_strings_view_push(out@, t);
            }
            out.push(t);
            proof {
                assert(strings_view(out@) =~= start + nonempty_trimmed(sp.take(k + 1)));
            }
        }
        k += 1;
    }
    proof {
        assert(sp.take(parts@.len() as int) =~= sp);
    }
}

/// Reads the values after a list flag: the arguments from `*idx` up to the
/// next flag, each split at commas, trimmed, the empty pieces left out.
/// `*idx` moves past them; no values is an error.
pub fn parse_list(args: &[String], idx: &mut usize, flag: &str) -> (r: Result<Vec<String>, String>)
    ensures
        *final(idx) == list_end(strings_view(args@), *old(idx) as int),
        match r {
            Ok(out) => list_result(strings_view(args@), *old(idx) as int).len() > 0 && strings_view(out@) == list_result(
                strings_view(args@),
                *old(idx) as int,
            ),
            Err(e) => list_result(strings_view(args@), *old(idx) as int).len() == 0 && e@ == missing_values(flag@),
        },
{
    let ghost av = strings_view(args@);
    let ghost i0 = *idx as int;
    let mut i = *idx;
    let mut out: Vec<String> = Vec::new();
    proof {
        assert(strings_view(out@) =~= list_values(av, i0, i0));
    }
    while i < args.len() && !starts_with_flag(args[i].as_str())
        invariant
            av == strings_view(args@),
            i0 <= i,
            list_end(av, i as int) == list_end(av, i0),
            strings_view(out@) == list_values(av, i0, i as int),
        decreases args@.len() - i,
    {
        push_arg_values(&mut out, args[i].as_str());
        proof {
            assert(av[i as int] == args@[i as int]@);
        }
        i += 1;
    }
    *idx = i;
    if out.len() == 0 {
        return Err(missing_values_message(flag));
    }
    Ok(out)
}

/// The place of the first value at or after `k` that does not read as an
/// `i64`, or the number of values.
pub open spec fn first_bad_i64(vals: Seq<Seq<char>>, k: int) -> int
    decreases vals.len() - k,
{
    if k >= vals.len() {
        vals.len() as int
    } else if parse_signed_spec(vals[k]) is None {
        k
    } else {
        first_bad_i64(vals, k + 1)
    }
}

/// Reads a list of `i64` values after a flag, as [`parse_list`] splits them;
/// the first value that does not read as an `i64` is an error.
pub fn parse_i64_list(args: &[String], idx: &mut usize, flag: &str) -> (r: Result<Vec<i64>, String>)
    ensures
        *final(idx) == list_end(strings_view(args@), *old(idx) as int),
        ({
            let vals = list_result(strings_view(args@), *old(idx) as int);
            let bad = first_bad_i64(vals, 0);
            match r {
                Ok(out) => vals.len() > 0 && bad == vals.len() && out@.len() == vals.len() && forall|t: int|
                    0 <= t < vals.len() ==> parse_signed_spec(#[trigger] vals[t]) == Some(out@[t] as int),
                Err(e) => (vals.len() == 0 && e@ == missing_values(flag@)) || (vals.len() > 0 && 0 <= bad < vals.len()
                    && e@ == invalid_value(flag@, vals[bad])),
            }
        }),
        ({
            let vals = list_result(strings_view(args@), *old(idx) as int);
            vals.len() > 0 && first_bad_i64(vals, 0) == vals.len() ==> r is Ok
        }),
{
    let ghost av = strings_view(args@);
    let ghost i0 = *idx as int;
    let values = parse_list(args, idx, flag)?;
    let ghost vals = strings_view(values@);
    let mut out: Vec<i64> = Vec::with_capacity(values.len());
    let mut k: usize = 0;
    while k < values.len()
        invariant
            vals == strings_view(values@),
            av == strings_view(args@),
            i0 == *old(idx) as int,
            *idx == list_end(av, i0),
            vals == list_result(av, i0),
            vals.len() > 0,
            k <= vals.len(),
            out@.len() == k,
            first_bad_i64(vals, 0) == first_bad_i64(vals, k as int),
            forall|t: int| 0 <= t < k ==> parse_signed_spec(#[trigger] vals[t]) == Some(out@[t] as int),
        decreases vals.len() - k,
    {
        match parse_i64(values[k].as_str()) {
            Some(v) => {
                out.push(v);
            },
            None => {
                proof {
                    assert(vals[k as int] == values@[k as int]@);
                }
                return Err(invalid_message(flag, " value: ", values[k].as_str()));
            },
        }
        proof {
            assert(vals[k as int] == values@[k as int]@);
        }
        k += 1;
    }
    if out.len() == 0 {
        return Err(missing_values_message(flag));
    }
    Ok(out)
}

/// The first place at or after `i` where `s` holds `..`, or -1.
pub open spec fn range_sep(s: Seq<char>, i: int) -> int
    decreases s.len() - i,
{
    if i < 0 || i + 1 >= s.len() {
        -1
    } else if s[i] == '.' && s[i + 1] == '.' {
        i
    } else {
        range_sep(s, i + 1)
    }
}

/// The value of `s` as `usize`'s `parse` reads it.
pub open spec fn usize_value(s: Seq<char>) -> Option<int> {
    parse_unsigned_spec(s, usize::MAX as int)
}

/// What one value of a loop list stands for: the numbers `lo..=hi` of a range
/// `lo..hi` or of a single number, or the error it raises.
pub open spec fn loop_piece(flag: Seq<char>, p: Seq<char>) -> Result<(int, int), Seq<char>> {
    let d = range_sep(p, 0);
    if d >= 0 {
        let start = usize_value(trim_spec(p.subrange(0, d)));
        let end = usize_value(trim_spec(p.subrange(d + 2, p.len() as int)));
        if start is None {
            Err("invalid "@ + flag + " range start: "@ + p)
        } else if end is None {
            Err("invalid "@ + flag + " range end: "@ + p)
        } else if start->0 > end->0 {
            Err("invalid "@ + flag + " range: "@ + p)
        } else {
            Ok((start->0, end->0))
        }
    } else {
        match usize_value(p) {
            Some(v) => Ok((v, v)),
            None => Err(invalid_value(flag, p)),
        }
    }
}

/// The place of the first value at or after `k` that raises an error, or the
/// number of values.
pub open spec fn first_bad_piece(flag: Seq<char>, ps: Seq<Seq<char>>, k: int) -> int
    decreases ps.len() - k,
{
    if k >= ps.len() {
        ps.len() as int
    } else if loop_piece(flag, ps[k]) is Err {
        k
    } else {
        first_bad_piece(flag, ps, k + 1)
    }
}

/// Where reading a loop list from argument `i` stops: at the first flag, at
/// the end, or at the first argument with a value that raises an error.
pub open spec fn loop_stop(flag: Seq<char>, args: Seq<Seq<char>>, i: int) -> int
    decreases args.len() - i,
{
    if i >= args.len() || is_flag(args[i]) {
        i
    } else if first_bad_piece(flag, arg_values(args[i]), 0) < arg_values(args[i]).len() {
        i
    } else {
        loop_stop(flag, args, i + 1)
    }
}

/// Value `p` stands for a range that holds `n`.
pub open spec fn piece_covers(flag: Seq<char>, p: Seq<char>, n: int) -> bool {
    loop_piece(flag, p) matches Ok(range) && range.0 <= n <= range.1
}

/// Some value of `ps` stands for a range that holds `n`.
pub open spec fn covered(flag: Seq<char>, ps: Seq<Seq<char>>, n: int) -> bool {
    exists|k: int| 0 <= k < ps.len() && #[trigger] piece_covers(flag, ps[k], n)
}

proof fn lemma_covered_push(flag: Seq<char>, ps: Seq<Seq<char>>, p: Seq<char>, n: int)
    ensures
        covered(flag, ps.push(p), n) <==> (covered(flag, ps, n) || piece_covers(flag, p, n)),
{
    if covered(flag, ps, n) {
        let k = choose|k: int| 0 <= k < ps.len() && #[trigger] piece_covers(flag, ps[k], n);
        assert(ps.push(p)[k] == ps[k]);
    }
    if piece_covers(flag, p, n) {
        assert(ps.push(p)[ps.len() as int] == p);
    }
    if covered(flag, ps.push(p), n) {
        let k = choose|k: int| 0 <= k < ps.len() + 1 && #[trigger] piece_covers(flag, ps.push(p)[k], n);
        if k < ps.len() {
            assert(ps.push(p)[k] == ps[k]);
        }
    }
}

/// The values of `parts.take(k)` are a prefix of those of `parts`.
proof fn lemma_nonempty_prefix(parts: Seq<Seq<char>>, k: int)
    requires
        0 <= k <= parts.len(),
    ensures
        nonempty_trimmed(parts.take(k)).len() <= nonempty_trimmed(parts).len(),
        nonempty_trimmed(parts.take(k)) == nonempty_trimmed(parts).take(nonempty_trimmed(parts.take(k)).len() as int),
    decreases parts.len() - k,
{
    if k == parts.len() {
        assert(parts.take(k) =~= parts);
        assert(nonempty_trimmed(parts).take(nonempty_trimmed(parts).len() as int) =~= nonempty_trimmed(parts));
    } else {
        let d = parts.drop_last();
        assert(parts.take(k) =~= d.take(k));
        lemma_nonempty_prefix(d, k);
        let a = nonempty_trimmed(d.take(k));
        let b = nonempty_trimmed(d);
        let c = nonempty_trimmed(parts);
        assert(c == b || c == b.push(trim_spec(parts.last())));
        assert(c.take(a.len() as int) =~= b.take(a.len() as int));
    }
}

/// When the values before `q` raise no error and value `q` does, the first
/// error is at `q`.
proof fn lemma_first_bad_at(flag: Seq<char>, ps: Seq<Seq<char>>, k: int, q: int)
    requires
        0 <= k <= q < ps.len(),
        forall|t: int| k <= t < q ==> #[trigger] loop_piece(flag, ps[t]) is Ok,
        loop_piece(flag, ps[q]) is Err,
    ensures
        first_bad_piece(flag, ps, k) == q,
    decreases q - k,
{
    if k < q {
        lemma_first_bad_at(flag, ps, k + 1, q);
    }
}

/// When no value from `k` on raises an error, there is no first error.
proof fn lemma_first_bad_none(flag: Seq<char>, ps: Seq<Seq<char>>, k: int)
    requires
        0 <= k <= ps.len(),
        forall|t: int| k <= t < ps.len() ==> #[trigger] loop_piece(flag, ps[t]) is Ok,
    ensures
        first_bad_piece(flag, ps, k) == ps.len(),
    decreases ps.len() - k,
{
    if k < ps.len() {
        lemma_first_bad_none(flag, ps, k + 1);
    }
}

proof fn lemma_range_cover(
    flag: Seq<char>,
    base: Seq<Seq<char>>,
    t: Seq<char>,
    lo: usize,
    hi: usize,
    mid: Seq<usize>,
    out: Seq<usize>,
)
    requires
        loop_piece(flag, t) == Ok::<(int, int), Seq<char>>((lo as int, hi as int)),
        forall|n: usize| mid.contains(n) <==> (#[trigger] covered(flag, base, n as int) || (lo <= n < hi)),
        forall|y: usize| out.contains(y) <==> (mid.contains(y) || y == hi),
    ensures
        forall|n: usize| out.contains(n) <==> #[trigger] covered(flag, base.push(t), n as int),
{
    assert forall|n: usize| out.contains(n) <==> #[trigger] covered(flag, base.push(t), n as int) by {
        lemma_covered_push(flag, base, t, n as int);
        assert(mid.contains(n) <==> (covered(flag, base, n as int) || (lo <= n < hi)));
    }
}

/// Whether the numbers are in strictly increasing order.
pub open spec fn strictly_increasing(s: Seq<usize>) -> bool {
    forall|i: int, j: int| 0 <= i < j < s.len() ==> #[trigger] s[i] < #[trigger] s[j]
}

/// Puts `x` into the increasing list unless it is there.
fn insert_sorted(set: &mut Vec<usize>, x: usize)
    requires
        strictly_increasing(old(set)@),
    ensures
        strictly_increasing(final(set)@),
        forall|y: usize| final(set)@.contains(y) <==> (old(set)@.contains(y) || y == x),
{
    let ghost v0 = set@;
    let mut pos: usize = 0;
    while pos < set.len() && set[pos] < x
        invariant
            pos <= set@.len(),
            v0 == set@,
            forall|t: int| 0 <= t < pos ==> #[trigger] v0[t] < x,
        decreases set@.len() - pos,
    {
        pos += 1;
    }
    if pos < set.len() && set[pos] == x {
        return;
    }
    set.insert(pos, x);
    proof {
        let v1 = set@;
        assert forall|i: int, j: int| 0 <= i < j < v1.len() implies #[trigger] v1[i] < #[trigger] v1[j] by {
            if i < pos && j > pos {
                assert(v1[j] == v0[j - 1]);
                assert(v0[j - 1] >= v0[pos as int]);
            } else if i == pos && j > pos {
                assert(v1[j] == v0[j - 1]);
                assert(v0[j - 1] >= v0[pos as int]);
            } else if i > pos {
                assert(v1[i] == v0[i - 1]);
                assert(v1[j] == v0[j - 1]);
            }
        }
        assert forall|y: usize| v1.contains(y) <==> (v0.contains(y) || y == x) by {
            if v1.contains(y) {
                let i = choose|i: int| 0 <= i < v1.len() && v1[i] == y;
                if i < pos {
                    assert(v0[i] == y);
                } else if i > pos {
                    assert(v0[i - 1] == y);
                }
            }
            if v0.contains(y) {
                let i = choose|i: int| 0 <= i < v0.len() && v0[i] == y;
                if i < pos {
                    assert(v1[i] == y);
                } else {
                    assert(v1[i + 1] == y);
                }
            }
            if y == x {
                assert(v1[pos as int] == y);
            }
        }
    }
}

/// The first place of `..` in `s`.
fn find_range_sep(s: &str) -> (r: Option<usize>)
    ensures
        match r {
            Some(d) => range_sep(s@, 0) == d as int && d + 2 <= s@.len(),
            None => range_sep(s@, 0) < 0,
        },
{
    let n = s.unicode_len();
    let mut i: usize = 0;
    while i < n && i + 1 < n
        invariant
            n == s@.len(),
            i <= n,
            range_sep(s@, 0) == range_sep(s@, i as int),
        decreases n - i,
    {
        if s.get_char(i) == '.' && s.get_char(i + 1) == '.' {
            return Some(i);
        }
        i += 1;
    }
    None
}

/// Reads one value of a loop list.
fn read_loop_piece(p: &str, flag: &str) -> (r: Result<(usize, usize), String>)
    ensures
        match loop_piece(flag@, p@) {
            Ok(range) => r matches Ok(v) && v.0 as int == range.0 && v.1 as int == range.1,
            Err(e) => r matches Err(m) && m@ == e,
        },
{
    match find_range_sep(p) {
        Some(d) => {
            let n = p.unicode_len();
            let head = substring(p, 0, d);
            let tail = substring(p, d + 2, n);
            let start_text = trim(head.as_str());
            let end_text = trim(tail.as_str());
            let start = match parse_usize_opt(start_text.as_str()) {
                Some(v) => v,
                None => {
                    return Err(invalid_message(flag, " range start: ", p));
                },
            };
            let end = match parse_usize_opt(end_text.as_str()) {
                Some(v) => v,
                None => {
                    return Err(invalid_message(flag, " range end: ", p));
                },
            };
            if start > end {
                return Err(invalid_message(flag, " range: ", p));
            }
            Ok((start, end))
        },
        None => match parse_usize_opt(p) {
            Some(v) => Ok((v, v)),
            None => Err(invalid_message(flag, " value: ", p)),
        },
    }
}

/// Reads a list of loop numbers after a flag: values as [`parse_list`]
/// splits them, each a number or a range `a..b` of numbers (both ends
/// included). The numbers come back in increasing order, each once. The first
/// value that raises an error ends the reading, with `*idx` at its argument;
/// no values is an error too.
pub fn parse_loop_list(args: &[String], idx: &mut usize, flag: &str) -> (r: Result<Vec<usize>, String>)
    ensures
        ({
            let av = strings_view(args@);
            let i0 = *old(idx) as int;
            let stop = loop_stop(flag@, av, i0);
            let vals = list_values(av, i0, stop);
            if stop < list_end(av, i0) {
                let ps = arg_values(av[stop]);
                &&& *final(idx) == stop
                &&& r matches Err(e) && e@ == loop_piece(flag@, ps[first_bad_piece(flag@, ps, 0)])->Err_0
            } else {
                &&& *final(idx) == stop
                &&& vals.len() == 0 ==> (r matches Err(e) && e@ == missing_values(flag@))
                &&& vals.len() > 0 ==> (r matches Ok(out) && strictly_increasing(out@) && forall|n: usize|
                    out@.contains(n) <==> #[trigger] covered(flag@, vals, n as int))
            }
        }),
{
    let ghost av = strings_view(args@);
    let ghost i0 = *idx as int;
    let mut i = *idx;
    let mut out: Vec<usize> = Vec::new();
    let mut any = false;
    proof {
        assert(list_values(av, i0, i0) =~= Seq::<Seq<char>>::empty());
    }
    while i < args.len() && !starts_with_flag(args[i].as_str())
        invariant
            av == strings_view(args@),
            i0 == *old(idx) as int,
            i0 <= i,
            list_end(av, i as int) == list_end(av, i0),
            loop_stop(flag@, av, i as int) == loop_stop(flag@, av, i0),
            strictly_increasing(out@),
            forall|n: usize| out@.contains(n) <==> #[trigger] covered(flag@, list_values(av, i0, i as int), n as int),
            !any <==> list_values(av, i0, i as int).len() == 0,
        decreases args@.len() - i,
    {
        let parts = split_on(args[i].as_str(), ',');
        let ghost sp = strings_view(parts@);
        let ghost before = list_values(av, i0, i as int);
        proof {
            assert(av[i as int] == args@[i as int]@);
            assert(sp.take(0) =~= Seq::<Seq<char>>::empty());
            assert(before + nonempty_trimmed(sp.take(0)) =~= before);
        }
        let mut k: usize = 0;
        while k < parts.len()
            invariant
                k <= parts@.len(),
                sp == strings_view(parts@),
                sp == split_spec(av[i as int], ','),
                i < args@.len(),
                av == strings_view(args@),
                i0 == *old(idx) as int,
                loop_stop(flag@, av, i as int) == loop_stop(flag@, av, i0),
                !is_flag(av[i as int]),
                list_end(av, i as int) == list_end(av, i0),
                strictly_increasing(out@),
                forall|t: int|
                    0 <= t < nonempty_trimmed(sp.take(k as int)).len() ==> #[trigger] loop_piece(
                        flag@,
                        nonempty_trimmed(sp.take(k as int))[t],
                    ) is Ok,
                forall|n: usize|
                    out@.contains(n) <==> #[trigger] covered(flag@, before + nonempty_trimmed(sp.take(k as int)), n as int),
                !any <==> (before + nonempty_trimmed(sp.take(k as int))).len() == 0,
            decreases parts@.len() - k,
        {
            let t = trim(parts[k].as_str());
            let ghost pre = nonempty_trimmed(sp.take(k as int));
            proof {
                assert(sp.take(k + 1).drop_last() =~= sp.take(k as int));
                assert(sp.take(k + 1).last() == parts@[k as int]@);
            }
            if t.unicode_len() > 0 {
                let ghost post = pre.push(t@);
                proof {
                    assert(nonempty_trimmed(sp.take(k + 1)) == post);
                }
                match read_loop_piece(t.as_str(), flag) {
                    Err(e) => {
                        *idx = i;
                        proof {
                            let full = nonempty_trimmed(sp);
                            lemma_nonempty_prefix(sp, k + 1);
                            let pl = post.len() as int;
                            assert(post == full.take(pl));
                            assert(full.take(pl)[pre.len() as int] == full[pre.len() as int]);
                            assert(full[pre.len() as int] == t@);
                            assert forall|q: int| 0 <= q < pre.len() implies #[trigger] loop_piece(flag@, full[q]) is Ok by {
                                assert(full.take(pl)[q] == full[q]);
                                assert(post[q] == pre[q]);
                            }
                            lemma_first_bad_at(flag@, full, 0, pre.len() as int);
                            assert(loop_stop(flag@, av, i as int) == i);
                            lemma_list_end_ge(av, i + 1);
                            assert(list_end(av, i as int) > i);
                        }
                        return Err(e);
                    },
                    Ok((lo, hi)) => {
                        let ghost base = before + pre;
                        let mut v = lo;
                        while v < hi
                            invariant
                                lo <= v <= hi,
                                strictly_increasing(out@),
                                forall|n: usize| out@.contains(n) <==> (#[trigger] covered(flag@, base, n as int) || (lo <= n < v)),
                            decreases hi - v,
                        {
                            insert_sorted(&mut out, v);
                            v += 1;
                        }
                        let ghost mid_out = out@;
                        insert_sorted(&mut out, hi);
                        proof {
                            lemma_range_cover(flag@, base, t@, lo, hi, mid_out, out@);
                        }
                        any = true;
                        proof {
                            assert forall|q: int| 0 <= q < post.len() implies #[trigger] loop_piece(flag@, post[q]) is Ok by {
                                if q < pre.len() {
                                    assert(post[q] == pre[q]);
                                }
                            }
                            assert(before + post =~= base.push(t@));
                        }
                    },
                }
            } else {
                proof {
                    assert(nonempty_trimmed(sp.take(k + 1)) == pre);
                }
            }
            k += 1;
        }
        proof {
            assert(sp.take(parts@.len() as int) =~= sp);
            lemma_first_bad_none(flag@, nonempty_trimmed(sp), 0);
            assert(list_values(av, i0, i + 1) == before + arg_values(av[i as int]));
        }
        i += 1;
    }
    *idx = i;
    if !any {
        return Err(missing_values_message(flag));
    }
    Ok(out)
}

/// The message for a flag with no value after it.
pub open spec fn missing_value(flag: Seq<char>) -> Seq<char> {
    "missing value after "@ + flag
}

/// Takes the argument at `*idx` as the value of `flag` and moves past it.
pub fn next_arg(args: &[String], idx: &mut usize, flag: &str) -> (r: Result<String, String>)
    ensures
        *old(idx) >= args@.len() ==> *final(idx) == *old(idx) && (r matches Err(e) && e@ == missing_value(flag@)),
        *old(idx) < args@.len() ==> *final(idx) == *old(idx) + 1 && (r matches Ok(v) && v@ == args@[*old(idx) as int]@),
{
    if *idx >= args.len() {
        let mut msg = String::from_str("missing value after ");
        msg.append(flag);
        return Err(msg);
    }
    let value = args[*idx].clone();
    *idx += 1;
    Ok(value)
}

/// The names of a suffix set, separated by spaces.
pub fn format_suffix_names(names: &[String]) -> (r: String)
    ensures
        r@ == str_seq_join(strings_view(names@), " "@),
{
    join_strings(names, " ")
}

/// An ASCII letter or digit.
pub open spec fn is_ascii_alnum(c: char) -> bool {
    ('0' <= c && c <= '9') || ('a' <= c && c <= 'z') || ('A' <= c && c <= 'Z')
}

/// The character a label keeps for `c`: `c` itself when it is an ASCII letter
/// or digit, else `_`.
pub open spec fn label_char(c: char) -> char {
    if is_ascii_alnum(c) {
        c
    } else {
        '_'
    }
}

/// The label characters of `s`, each run of `_` written once.
pub open spec fn collapse_underscores(s: Seq<char>) -> Seq<char>
    decreases s.len(),
{
    if s.len() == 0 {
        Seq::empty()
    } else {
        let rest = collapse_underscores(s.drop_last());
        let c = label_char(s.last());
        if c == '_' && rest.len() > 0 && rest.last() == '_' {
            rest
        } else {
            rest.push(c)
        }
    }
}

/// `s` without its leading `_`.
pub open spec fn trim_front_underscores(s: Seq<char>) -> Seq<char>
    decreases s.len(),
{
    if s.len() > 0 && s[0] == '_' {
        trim_front_underscores(s.drop_first())
    } else {
        s
    }
}

/// `s` without its trailing `_`.
pub open spec fn trim_back_underscores(s: Seq<char>) -> Seq<char>
    decreases s.len(),
{
    if s.len() > 0 && s.last() == '_' {
        trim_back_underscores(s.drop_last())
    } else {
        s
    }
}

/// The label of a suffix set: its names joined by `_`, every other character
/// than an ASCII letter or digit made `_`, runs of `_` written once, and `_`
/// trimmed from both ends; `suffix` when nothing is left.
pub open spec fn suffix_label_text(names: Seq<Seq<char>>) -> Seq<char> {
    let t = trim_back_underscores(trim_front_underscores(collapse_underscores(str_seq_join(names, "_"@))));
    if t.len() == 0 {
        "suffix"@
    } else {
        t
    }
}

fn is_ascii_alphanumeric(c: char) -> (r: bool)
    ensures
        r == is_ascii_alnum(c),
{
    ('0' <= c && c <= '9') || ('a' <= c && c <= 'z') || ('A' <= c && c <= 'Z')
}

/// The label of a suffix set; see [`suffix_label_text`].
pub fn suffix_label(names: &[String]) -> (r: String)
    ensures
        r@ == suffix_label_text(strings_view(names@)),
{
    let joined = join_strings(names, "_");
    let n = joined.unicode_len();
    let mut out = String::new();
    let mut prev_underscore = false;
    let mut i: usize = 0;
    proof {
        assert(joined@.take(0) =~= Seq::<char>::empty());
    }
    while i < n
        invariant
            n == joined@.len(),
            i <= n,
            out@ == collapse_underscores(joined@.take(i as int)),
            prev_underscore == (out@.len() > 0 && out@.last() == '_'),
        decreases n - i,
    {
        let ch = joined.get_char(i);
        let mapped = if is_ascii_alphanumeric(ch) {
            ch
        } else {
            '_'
        };
        proof {
            assert(joined@.take(i + 1).drop_last() =~= joined@.take(i as int));
            assert(joined@.take(i + 1).last() == ch);
        }
        if !(mapped == '_' && prev_underscore) {
            push_char(&mut out, mapped);
            prev_underscore = mapped == '_';
        }
        i += 1;
    }
    proof {
        assert(joined@.take(n as int) =~= joined@);
    }
    let ghost c = out@;
    let m = out.unicode_len();
    let mut lo: usize = 0;
    proof {
        assert(c.subrange(0, m as int) =~= c);
    }
    while lo < m && out.get_char(lo) == '_'
        invariant
            m == c.len(),
            c == out@,
            lo <= m,
            trim_front_underscores(c) == trim_front_underscores(c.subrange(lo as int, m as int)),
        decreases m - lo,
    {
        proof {
            assert(c.subrange(lo as int, m as int).drop_first() =~= c.subrange(lo + 1, m as int));
        }
        lo += 1;
    }
    let ghost front = c.subrange(lo as int, m as int);
    proof {
        assert(trim_front_underscores(c) == front);
    }
    let mut hi: usize = m;
    while hi > lo && out.get_char(hi - 1) == '_'
        invariant
            m == c.len(),
            c == out@,
            lo <= hi <= m,
            front == c.subrange(lo as int, m as int),
            trim_back_underscores(front) == trim_back_underscores(c.subrange(lo as int, hi as int)),
        decreases hi - lo,
    {
        proof {
            assert(c.subrange(lo as int, hi as int).drop_last() =~= c.subrange(lo as int, hi - 1));
        }
        hi -= 1;
    }
    proof {
        assert(trim_back_underscores(front) == c.subrange(lo as int, hi as int));
    }
    if lo == hi {
        return String::from_str("suffix");
    }
    substring(out.as_str(), lo, hi)
}

/// Label `base` with the number `c` appended after a `_`.
pub open spec fn numbered_label(base: Seq<char>, c: nat) -> Seq<char> {
    base + "_"@ + decimal_digits(c)
}

/// `c` is the least positive number whose label after `base` is not in `used`.
pub open spec fn first_free_number(used: Seq<Seq<char>>, base: Seq<char>, c: nat) -> bool {
    &&& c >= 1
    &&& !used.contains(numbered_label(base, c))
    &&& forall|d: nat| 1 <= d < c ==> used.contains(#[trigger] numbered_label(base, d))
}

proof fn lemma_numbered_injective(base: Seq<char>, c: nat, d: nat)
    requires
        numbered_label(base, c) == numbered_label(base, d),
    ensures
        c == d,
{
    let k = base.len() + "_"@.len();
    assert(decimal_digits(c) =~= numbered_label(base, c).subrange(k as int, numbered_label(base, c).len() as int));
    assert(decimal_digits(d) =~= numbered_label(base, d).subrange(k as int, numbered_label(base, d).len() as int));
    crate::laws::law_decimal_round_trip(c, (c + d) as int);
    crate::laws::law_decimal_round_trip(d, (c + d) as int);
}

/// When `base` and its labels numbered `1..=c` are all in `used`, `used`
/// has more than `c` entries.
proof fn lemma_numbers_used(used: Seq<Seq<char>>, base: Seq<char>, c: nat)
    requires
        used.contains(base),
        forall|d: nat| 1 <= d <= c ==> used.contains(#[trigger] numbered_label(base, d)),
    ensures
        c < used.len(),
{
    let x = vstd::set_lib::set_int_range(0, (c + 1) as int);
    let f = |d: int|
        if d == 0 {
            base
        } else {
            numbered_label(base, d as nat)
        };
    vstd::set_lib::lemma_int_range(0, (c + 1) as int);
    assert(vstd::relations::injective_on(f, x)) by {
        assert forall|a: int, b: int| x.contains(a) && x.contains(b) && #[trigger] f(a) == #[trigger] f(b) implies a == b by {
            if a != 0 && b != 0 {
                lemma_numbered_injective(base, a as nat, b as nat);
            } else if a == 0 && b != 0 {
                assert(f(b).len() > base.len());
            } else if a != 0 && b == 0 {
                assert(f(a).len() > base.len());
            }
        }
    }
    let y = x.map(f);
    vstd::set_lib::lemma_map_size(x, y, f);
    assert(y.subset_of(used.to_set())) by {
        assert forall|v: Seq<char>| y.contains(v) implies used.to_set().contains(v) by {
            let a = choose|a: int| x.contains(a) && f(a) == v;
            if a != 0 {
                assert(used.contains(numbered_label(base, a as nat)));
            }
        }
    }
    vstd::set_lib::lemma_len_subset(y, used.to_set());
    used.lemma_cardinality_of_set();
}

fn contains_string(list: &Vec<String>, s: &str) -> (r: bool)
    ensures
        r == strings_view(list@).contains(s@),
{
    let mut i: usize = 0;
    while i < list.len()
        invariant
            i <= list@.len(),
            forall|t: int| 0 <= t < i ==> list@[t]@ != s@,
        decreases list@.len() - i,
    {
        if str_eq(list[i].as_str(), s) {
            proof {
                assert(strings_view(list@)[i as int] == s@);
            }
            return true;
        }
        i += 1;
    }
    proof {
        if strings_view(list@).contains(s@) {
            let t = choose|t: int| 0 <= t < strings_view(list@).len() && strings_view(list@)[t] == s@;
            assert(list@[t]@ == s@);
        }
    }
    false
}

/// A label for a suffix set that no earlier set took: its label, or, when
/// that is taken, the label with the least free number appended. The label
/// is added to `used`.
pub fn unique_suffix_label(names: &[String], used: &mut Vec<String>) -> (r: String)
    requires
        old(used)@.len() < usize::MAX,
    ensures
        strings_view(final(used)@) == strings_view(old(used)@).push(r@),
        !strings_view(old(used)@).contains(r@),
        !strings_view(old(used)@).contains(suffix_label_text(strings_view(names@))) ==> r@ == suffix_label_text(
            strings_view(names@),
        ),
        strings_view(old(used)@).contains(suffix_label_text(strings_view(names@))) ==> exists|c: nat|
            #[trigger] first_free_number(strings_view(old(used)@), suffix_label_text(strings_view(names@)), c) && r@
                == numbered_label(suffix_label_text(strings_view(names@)), c),
{
    let base = suffix_label(names);
    let ghost u = strings_view(used@);
    if !contains_string(used, base.as_str()) {
        proof {
            crate::text::lemma_strings_view_push(used@, base);
        }
        used.push(base.clone());
        return base;
    }
    let mut counter: usize = 1;
    loop
        invariant
            u == strings_view(used@),
            u == strings_view(old(used)@),
            base@ == suffix_label_text(strings_view(names@)),
            used@.len() < usize::MAX,
            u.contains(base@),
            1 <= counter <= u.len(),
            forall|d: nat| 1 <= d < counter ==> u.contains(#[trigger] numbered_label(base@, d)),
        decreases u.len() - counter,
    {
        let mut candidate = String::from_str(base.as_str());
        candidate.append("_");
        candidate.append(u64_to_text(counter as u64).as_str());
        proof {
            assert(candidate@ == numbered_label(base@, counter as nat));
        }
        if !contains_string(used, candidate.as_str()) {
            proof {
                crate::text::lemma_strings_view_push(used@, candidate);
                assert(first_free_number(u, base@, counter as nat));
            }
            used.push(candidate.clone());
            return candidate;
        }
        proof {
            lemma_numbers_used(u, base@, counter as nat);
        }
        counter = counter.saturating_add(1);
    }
}

} // verus!
