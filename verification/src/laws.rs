//! Properties that tie several parts of the library together: what the CSV
//! reader gives back of what the writer wrote, and what a channel lookup gives
//! back of the key map it searches.
use crate::hankel_subblock::csv_scan;
use crate::output::{csv_field, csv_fields, double_quotes, needs_quotes};
use crate::acceptors::{key_lt, keys_sorted, lemma_key_lt_order, letter_key, name_key, ChannelView};
use crate::text::{decimal_digits, decimal_value, is_decimal, is_digit, parse_unsigned_spec, str_seq_join, unsigned_body};
use vstd::prelude::*;

verus! {

/// Scanning plain characters inside a field appends them.
proof fn lemma_scan_plain(s: Seq<char>, i: int, x: Seq<char>, fields: Seq<Seq<char>>, cur: Seq<char>)
    requires
        0 <= i,
        i + x.len() <= s.len(),
        s.subrange(i, i + x.len()) == x,
        !needs_quotes(x),
    ensures
        csv_scan(s, i, false, fields, cur) == csv_scan(s, i + x.len(), false, fields, cur + x),
    decreases x.len(),
{
    if x.len() > 0 {
        let y = x.drop_last();
        assert(s.subrange(i, i + y.len()) == y) by {
            assert(s.subrange(i, i + y.len()) =~= s.subrange(i, i + x.len()).subrange(0, y.len() as int));
        }
        assert(!needs_quotes(y)) by {
            if needs_quotes(y) {
                let k = choose|k: int|
                    0 <= k < y.len() && (y[k] == ',' || y[k] == '"' || y[k] == '\n' || y[k] == '\r');
                assert(x[k] == y[k]);
            }
        }
        lemma_scan_plain(s, i, y, fields, cur);
        let j = i + y.len();
        let ch = x.last();
        assert(s[j] == s.subrange(i, i + x.len())[y.len() as int]);
        assert(s[j] == ch);
        assert(!(ch == ',' || ch == '"' || ch == '\n' || ch == '\r')) by {
            if ch == ',' || ch == '"' || ch == '\n' || ch == '\r' {
                assert(x[x.len() - 1] == ch);
            }
        }
        assert((cur + y).push(ch) =~= cur + x);
    }
}

/// Scanning a field's text with its quotes doubled, inside quotes, appends the
/// field.
proof fn lemma_scan_quoted(s: Seq<char>, i: int, x: Seq<char>, fields: Seq<Seq<char>>, cur: Seq<char>)
    requires
        0 <= i,
        i + double_quotes(x).len() <= s.len(),
        s.subrange(i, i + double_quotes(x).len()) == double_quotes(x),
    ensures
        csv_scan(s, i, true, fields, cur) == csv_scan(s, i + double_quotes(x).len(), true, fields, cur + x),
    decreases x.len(),
{
    if x.len() > 0 {
        let y = x.drop_last();
        let dy = double_quotes(y);
        let dx = double_quotes(x);
        let ch = x.last();
        assert(dx == if ch == '"' {
            dy + seq!['"', '"']
        } else {
            dy.push(ch)
        });
        assert(s.subrange(i, i + dy.len()) == dy) by {
            assert(s.subrange(i, i + dy.len()) =~= s.subrange(i, i + dx.len()).subrange(0, dy.len() as int));
            assert(dx.subrange(0, dy.len() as int) =~= dy);
        }
        lemma_scan_quoted(s, i, y, fields, cur);
        let j = i + dy.len();
        assert(s[j] == s.subrange(i, i + dx.len())[dy.len() as int]);
        if ch == '"' {
            assert(s[j] == '"');
            assert(s[j + 1] == s.subrange(i, i + dx.len())[dy.len() + 1int]);
            assert(s[j + 1] == '"');
        } else {
            assert(s[j] == ch);
        }
        assert((cur + y).push(ch) =~= cur + x);
    }
}

/// Scanning one written field from a field boundary ends at the next boundary
/// with the field read.
proof fn lemma_scan_field(s: Seq<char>, i: int, x: Seq<char>, fields: Seq<Seq<char>>)
    requires
        0 <= i,
        i + csv_field(x).len() <= s.len(),
        s.subrange(i, i + csv_field(x).len()) == csv_field(x),
        i + csv_field(x).len() == s.len() || s[i + csv_field(x).len()] == ',',
    ensures
        csv_scan(s, i, false, fields, Seq::empty()) == csv_scan(s, i + csv_field(x).len(), false, fields, x),
{
    let w = csv_field(x);
    if needs_quotes(x) {
        let d = double_quotes(x);
        assert(w == seq!['"'] + d + seq!['"']);
        assert(s[i] == w[0]);
        assert(s.subrange(i + 1, i + 1 + d.len()) == d) by {
            assert(s.subrange(i + 1, i + 1 + d.len()) =~= s.subrange(i, i + w.len()).subrange(1, 1 + d.len() as int));
            assert(w.subrange(1, 1 + d.len() as int) =~= d);
        }
        lemma_scan_quoted(s, i + 1, x, fields, Seq::empty());
        let j = i + 1 + d.len();
        assert(s[j] == s.subrange(i, i + w.len())[1int + d.len()]);
        assert(s[j] == '"');
        assert(Seq::<char>::empty() + x =~= x);
        if j + 1 < s.len() {
            assert(s[j + 1] == ',');
        }
    } else {
        assert(w == x);
        lemma_scan_plain(s, i, x, fields, Seq::empty());
        assert(Seq::<char>::empty() + x =~= x);
    }
}

proof fn lemma_scan_join(s: Seq<char>, f: Seq<Seq<char>>)
    requires
        f.len() > 0,
        str_seq_join(csv_fields(f), seq![',']).len() <= s.len(),
        s.subrange(0, str_seq_join(csv_fields(f), seq![',']).len() as int) == str_seq_join(csv_fields(f), seq![',']),
        str_seq_join(csv_fields(f), seq![',']).len() == s.len() || s[str_seq_join(csv_fields(f), seq![',']).len() as int]
            == ',',
    ensures
        csv_scan(s, 0, false, Seq::empty(), Seq::empty()) == csv_scan(
            s,
            str_seq_join(csv_fields(f), seq![',']).len() as int,
            false,
            f.drop_last(),
            f.last(),
        ),
    decreases f.len(),
{
    let j = str_seq_join(csv_fields(f), seq![',']);
    if f.len() == 1 {
        assert(csv_fields(f)[0] == csv_field(f[0]));
        assert(j == csv_field(f[0]));
        lemma_scan_field(s, 0, f[0], Seq::empty());
        assert(f.drop_last() =~= Seq::<Seq<char>>::empty());
    } else {
        let g = f.drop_last();
        let jg = str_seq_join(csv_fields(g), seq![',']);
        assert(csv_fields(f).drop_last() =~= csv_fields(g));
        assert(csv_fields(f).last() == csv_field(f.last()));
        assert(j == jg + seq![','] + csv_field(f.last()));
        assert(s.subrange(0, jg.len() as int) == jg) by {
            assert(s.subrange(0, jg.len() as int) =~= s.subrange(0, j.len() as int).subrange(0, jg.len() as int));
            assert(j.subrange(0, jg.len() as int) =~= jg);
        }
        assert(s[jg.len() as int] == s.subrange(0, j.len() as int)[jg.len() as int]);
        assert(s[jg.len() as int] == ',');
        lemma_scan_join(s, g);
        assert(g.drop_last().push(g.last()) =~= g);
        let k: int = jg.len() as int + 1;
        let w = csv_field(f.last());
        assert(s.subrange(k, k + w.len() as int) == w) by {
            assert(s.subrange(k, k + w.len() as int) =~= s.subrange(0, j.len() as int).subrange(k, k + w.len() as int));
            assert(j.subrange(k, k + w.len() as int) =~= w);
        }
        lemma_scan_field(s, k, f.last(), g);
    }
}

/// Reading back a CSV record gives its fields: the reader, on the line the
/// writer makes of a nonempty list of fields (without its line break), finds
/// exactly those fields.
pub proof fn law_csv_round_trip(fields: Seq<Seq<char>>)
    requires
        fields.len() > 0,
    ensures
        csv_scan(str_seq_join(csv_fields(fields), seq![',']), 0, false, Seq::empty(), Seq::empty()) == Some(fields),
{
    let line = str_seq_join(csv_fields(fields), seq![',']);
    assert(line.subrange(0, line.len() as int) =~= line);
    lemma_scan_join(line, fields);
    assert(fields.drop_last().push(fields.last()) =~= fields);
}


proof fn lemma_decimal_digits(n: nat)
    ensures
        is_decimal(decimal_digits(n)),
        decimal_value(decimal_digits(n)) == n,
        decimal_digits(n)[0] != '+',
    decreases n,
{
    if n >= 10 {
        lemma_decimal_digits(n / 10);
        let d = decimal_digits(n / 10);
        let e = d.push((('0' as int) + n % 10) as char);
        assert(e.drop_last() =~= d);
        assert forall|i: int| 0 <= i < e.len() implies is_digit(#[trigger] e[i]) by {
            if i < d.len() {
                assert(e[i] == d[i]);
            }
        }
        assert(e[0] == d[0]);
        assert(e.last() as int - '0' as int == n % 10);
        assert(decimal_value(e) == decimal_value(d) * 10 + (e.last() as int - '0' as int));
        assert((n / 10) * 10 + n % 10 == n) by (nonlinear_arith);
    } else {
        let e = decimal_digits(n);
        assert(e.drop_last() =~= Seq::<char>::empty());
        assert(decimal_value(e) == decimal_value(e.drop_last()) * 10 + (e.last() as int - '0' as int));
    }
}

/// Reading back a number that was written gives the number: the decimal
/// digits of `n` parse as `n` for every unsigned type whose maximum is at
/// least `n`.
pub proof fn law_decimal_round_trip(n: nat, max: int)
    requires
        n <= max,
    ensures
        parse_unsigned_spec(decimal_digits(n), max) == Some(n as int),
{
    lemma_decimal_digits(n);
    assert(unsigned_body(decimal_digits(n)) == decimal_digits(n));
}

/// A channel name resolves to the place that the key map gave every letter
/// whose channel is that name, or the number the name spells: the map's keys
/// are sorted without repeats, and a number and its decimal name have one key.
pub proof fn law_channel_lookup(
    keys: Seq<ChannelView>,
    channel: Option<ChannelView>,
    letter_place: int,
    name: Seq<char>,
    found: int,
)
    requires
        keys_sorted(keys),
        0 <= letter_place < keys.len(),
        keys[letter_place] == letter_key(channel),
        0 <= found < keys.len(),
        keys[found] == name_key(name),
        channel == Some(ChannelView::Named(name)) || (exists|v: u16|
            channel == Some(ChannelView::Numeric(v)) && name == decimal_digits(v as nat)),
    ensures
        found == letter_place,
{
    if channel != Some(ChannelView::Named(name)) {
        let v = choose|v: u16| channel == Some(ChannelView::Numeric(v)) && name == decimal_digits(v as nat);
        law_decimal_round_trip(v as nat, u16::MAX as int);
        assert(name_key(name) == ChannelView::Numeric(v));
    }
    if found != letter_place {
        lemma_key_lt_order(keys[found], keys[letter_place], keys[letter_place]);
        if found < letter_place {
            assert(key_lt(keys[found], keys[letter_place]));
        } else {
            assert(key_lt(keys[letter_place], keys[found]));
        }
    }
}

} // verus!
