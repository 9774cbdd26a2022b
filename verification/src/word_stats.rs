//! The counts of adjacent letter pairs and triplets in the active words of
//! a basis, as tables sorted by key.
use vstd::prelude::*;

verus! {

/// The order of letter pairs: by first letter, then second.
pub open spec fn pair_lt(a: (usize, usize), b: (usize, usize)) -> bool {
    a.0 < b.0 || (a.0 == b.0 && a.1 < b.1)
}

/// The order of letter triplets: lexicographic.
pub open spec fn triplet_lt(a: (usize, usize, usize), b: (usize, usize, usize)) -> bool {
    a.0 < b.0 || (a.0 == b.0 && (a.1 < b.1 || (a.1 == b.1 && a.2 < b.2)))
}

fn pair_less(a: (usize, usize), b: (usize, usize)) -> (r: bool)
    ensures
        r == pair_lt(a, b),
{
    a.0 < b.0 || (a.0 == b.0 && a.1 < b.1)
}

fn triplet_less(a: (usize, usize, usize), b: (usize, usize, usize)) -> (r: bool)
    ensures
        r == triplet_lt(a, b),
{
    a.0 < b.0 || (a.0 == b.0 && (a.1 < b.1 || (a.1 == b.1 && a.2 < b.2)))
}

/// The count a table gives `key` (0 when it has no entry for it).
pub open spec fn pair_entry(t: Seq<((usize, usize), u64)>, key: (usize, usize)) -> nat {
    if exists|i: int| 0 <= i < t.len() && t[i].0 == key {
        t[choose|i: int| 0 <= i < t.len() && t[i].0 == key].1 as nat
    } else {
        0
    }
}

/// The keys of the table increase strictly, and every count is positive.
pub open spec fn pair_table_ok(t: Seq<((usize, usize), u64)>) -> bool {
    &&& forall|i: int, j: int| 0 <= i < j < t.len() ==> pair_lt(#[trigger] t[i].0, #[trigger] t[j].0)
    &&& forall|i: int| 0 <= i < t.len() ==> #[trigger] t[i].1 > 0
}

/// The entry of a key that the table lists.
proof fn lemma_pair_entry_at(t: Seq<((usize, usize), u64)>, i: int)
    requires
        pair_table_ok(t),
        0 <= i < t.len(),
    ensures
        pair_entry(t, t[i].0) == t[i].1,
{
    let key = t[i].0;
    let c = choose|c: int| 0 <= c < t.len() && t[c].0 == key;
    if c < i {
        assert(pair_lt(t[c].0, t[i].0));
    } else if c > i {
        assert(pair_lt(t[i].0, t[c].0));
    }
}

/// Adds `amount` to the count of `key`, keeping the keys in order.
fn pair_bump(t: &mut Vec<((usize, usize), u64)>, key: (usize, usize), amount: u64, Ghost(m): Ghost<int>)
    requires
        pair_table_ok(old(t)@),
        amount >= 1,
        forall|i: int| 0 <= i < old(t)@.len() ==> #[trigger] old(t)@[i].1 <= m,
        0 <= m,
        m + amount <= u64::MAX,
    ensures
        pair_table_ok(final(t)@),
        forall|i: int| 0 <= i < final(t)@.len() ==> #[trigger] final(t)@[i].1 <= m + amount,
        pair_sum(final(t)@) == pair_sum(old(t)@) + amount,
        forall|k: (usize, usize)| #[trigger] pair_entry(final(t)@, k) == pair_entry(old(t)@, k) + if k == key {
            amount as nat
        } else {
            0nat
        },
{
    let ghost t0 = t@;
    let mut pos: usize = 0;
    while pos < t.len() && pair_less(t[pos].0, key)
        invariant
            t@ == t0,
            pos <= t@.len(),
            forall|i: int| 0 <= i < pos ==> pair_lt(#[trigger] t@[i].0, key),
        decreases t@.len() - pos,
    {
        pos += 1;
    }
    if pos < t.len() && (t[pos].0).0 == key.0 && (t[pos].0).1 == key.1 {
        let c = t[pos].1;
        t.set(pos, (key, c + amount));
        proof {
            lemma_pair_sum_update(t0, pos as int, (key, (c + amount) as u64));
            assert forall|i: int, j: int| 0 <= i < j < t@.len() implies pair_lt(#[trigger] t@[i].0, #[trigger] t@[j].0) by {
                assert(t@[i].0 == t0[i].0 && t@[j].0 == t0[j].0);
            }
            assert forall|k: (usize, usize)| #[trigger] pair_entry(t@, k) == pair_entry(t0, k) + if k == key {
                amount as nat
            } else {
                0nat
            } by {
                if k == key {
                    lemma_pair_entry_at(t@, pos as int);
                    lemma_pair_entry_at(t0, pos as int);
                } else if exists|i: int| 0 <= i < t0.len() && t0[i].0 == k {
                    let i = choose|i: int| 0 <= i < t0.len() && t0[i].0 == k;
                    lemma_pair_entry_at(t@, i);
                    lemma_pair_entry_at(t0, i);
                } else {
                    assert(!exists|i: int| 0 <= i < t@.len() && t@[i].0 == k) by {
                        if exists|i: int| 0 <= i < t@.len() && t@[i].0 == k {
                            let i = choose|i: int| 0 <= i < t@.len() && t@[i].0 == k;
                            assert(t0[i].0 == k);
                        }
                    }
                }
            }
        }
    } else {
        t.insert(pos, (key, amount));
        proof {
            t0.insert_ensures(pos as int, (key, amount));
            lemma_pair_sum_insert(t0, pos as int, (key, amount));
            assert forall|i: int, j: int| 0 <= i < j < t@.len() implies pair_lt(#[trigger] t@[i].0, #[trigger] t@[j].0) by {
                if j < pos {
                } else if j == pos {
                    assert(pair_lt(t0[i].0, key));
                } else if i < pos {
                    assert(t@[j] == t0[j - 1]);
                    assert(pair_lt(t0[i].0, key));
                    assert(pos <= j - 1);
                    if pos < j - 1 {
                        assert(pair_lt(t0[pos as int].0, t0[j - 1].0));
                    }
                    assert(!pair_lt(t0[pos as int].0, key) && t0[pos as int].0 != key);
                } else if i == pos {
                    assert(t@[j] == t0[j - 1]);
                    if pos < j - 1 {
                        assert(pair_lt(t0[pos as int].0, t0[j - 1].0));
                    }
                    assert(!pair_lt(t0[pos as int].0, key) && t0[pos as int].0 != key);
                } else {
                    assert(t@[i] == t0[i - 1] && t@[j] == t0[j - 1]);
                }
            }
            assert forall|i: int| 0 <= i < t@.len() implies #[trigger] t@[i].1 > 0 && t@[i].1 <= m + amount by {
                if i < pos {
                } else if i > pos {
                    assert(t@[i] == t0[i - 1]);
                }
            }
            assert forall|k: (usize, usize)| #[trigger] pair_entry(t@, k) == pair_entry(t0, k) + if k == key {
                amount as nat
            } else {
                0nat
            } by {
                if k == key {
                    lemma_pair_entry_at(t@, pos as int);
                    if exists|i: int| 0 <= i < t0.len() && t0[i].0 == k {
                        let i = choose|i: int| 0 <= i < t0.len() && t0[i].0 == k;
                        if i < pos {
                            assert(pair_lt(t0[i].0, key));
                        } else if i > pos {
                            assert(pair_lt(t0[pos as int].0, t0[i].0));
                        }
                    }
                } else if exists|i: int| 0 <= i < t0.len() && t0[i].0 == k {
                    let i = choose|i: int| 0 <= i < t0.len() && t0[i].0 == k;
                    lemma_pair_entry_at(t0, i);
                    if i < pos {
                        lemma_pair_entry_at(t@, i);
                    } else {
                        assert(t@[i + 1] == t0[i]);
                        lemma_pair_entry_at(t@, i + 1);
                    }
                } else {
                    assert(!exists|i: int| 0 <= i < t@.len() && t@[i].0 == k) by {
                        if exists|i: int| 0 <= i < t@.len() && t@[i].0 == k {
                            let i = choose|i: int| 0 <= i < t@.len() && t@[i].0 == k;
                            if i < pos {
                                assert(t0[i].0 == k);
                            } else if i > pos {
                                assert(t0[i - 1].0 == k);
                            }
                        }
                    }
                }
            }
        }
    }
}

/// The sum of the counts of a table.
pub open spec fn pair_sum(t: Seq<((usize, usize), u64)>) -> nat
    decreases t.len(),
{
    if t.len() == 0 {
        0
    } else {
        pair_sum(t.drop_last()) + t.last().1 as nat
    }
}

proof fn lemma_pair_sum_insert(t: Seq<((usize, usize), u64)>, p: int, x: ((usize, usize), u64))
    requires
        0 <= p <= t.len(),
    ensures
        pair_sum(t.insert(p, x)) == pair_sum(t) + x.1,
    decreases t.len(),
{
    if p == t.len() {
        assert(t.insert(p, x).drop_last() =~= t);
    } else {
        lemma_pair_sum_insert(t.drop_last(), p, x);
        assert(t.insert(p, x).drop_last() =~= t.drop_last().insert(p, x));
    }
}

proof fn lemma_pair_sum_update(t: Seq<((usize, usize), u64)>, p: int, x: ((usize, usize), u64))
    requires
        0 <= p < t.len(),
    ensures
        pair_sum(t.update(p, x)) == pair_sum(t) - t[p].1 + x.1,
    decreases t.len(),
{
    if p == t.len() - 1 {
        assert(t.update(p, x).drop_last() =~= t.drop_last());
    } else {
        lemma_pair_sum_update(t.drop_last(), p, x);
        assert(t.update(p, x).drop_last() =~= t.drop_last().update(p, x));
    }
}

/// The count a table gives `key` (0 when it has no entry for it).
pub open spec fn triplet_entry(t: Seq<((usize, usize, usize), u64)>, key: (usize, usize, usize)) -> nat {
    if exists|i: int| 0 <= i < t.len() && t[i].0 == key {
        t[choose|i: int| 0 <= i < t.len() && t[i].0 == key].1 as nat
    } else {
        0
    }
}

/// The keys of the table increase strictly, and every count is positive.
pub open spec fn triplet_table_ok(t: Seq<((usize, usize, usize), u64)>) -> bool {
    &&& forall|i: int, j: int| 0 <= i < j < t.len() ==> triplet_lt(#[trigger] t[i].0, #[trigger] t[j].0)
    &&& forall|i: int| 0 <= i < t.len() ==> #[trigger] t[i].1 > 0
}

/// The entry of a key that the table lists.
proof fn lemma_triplet_entry_at(t: Seq<((usize, usize, usize), u64)>, i: int)
    requires
        triplet_table_ok(t),
        0 <= i < t.len(),
    ensures
        triplet_entry(t, t[i].0) == t[i].1,
{
    let key = t[i].0;
    let c = choose|c: int| 0 <= c < t.len() && t[c].0 == key;
    if c < i {
        assert(triplet_lt(t[c].0, t[i].0));
    } else if c > i {
        assert(triplet_lt(t[i].0, t[c].0));
    }
}

/// Adds `amount` to the count of `key`, keeping the keys in order.
fn triplet_bump(t: &mut Vec<((usize, usize, usize), u64)>, key: (usize, usize, usize), amount: u64, Ghost(m): Ghost<int>)
    requires
        triplet_table_ok(old(t)@),
        amount >= 1,
        forall|i: int| 0 <= i < old(t)@.len() ==> #[trigger] old(t)@[i].1 <= m,
        0 <= m,
        m + amount <= u64::MAX,
    ensures
        triplet_table_ok(final(t)@),
        forall|i: int| 0 <= i < final(t)@.len() ==> #[trigger] final(t)@[i].1 <= m + amount,
        triplet_sum(final(t)@) == triplet_sum(old(t)@) + amount,
        forall|k: (usize, usize, usize)| #[trigger] triplet_entry(final(t)@, k) == triplet_entry(old(t)@, k) + if k == key {
            amount as nat
        } else {
            0nat
        },
{
    let ghost t0 = t@;
    let mut pos: usize = 0;
    while pos < t.len() && triplet_less(t[pos].0, key)
        invariant
            t@ == t0,
            pos <= t@.len(),
            forall|i: int| 0 <= i < pos ==> triplet_lt(#[trigger] t@[i].0, key),
        decreases t@.len() - pos,
    {
        pos += 1;
    }
    if pos < t.len() && (t[pos].0).0 == key.0 && (t[pos].0).1 == key.1 && (t[pos].0).2 == key.2 {
        let c = t[pos].1;
        t.set(pos, (key, c + amount));
        proof {
            lemma_triplet_sum_update(t0, pos as int, (key, (c + amount) as u64));
            assert forall|i: int, j: int| 0 <= i < j < t@.len() implies triplet_lt(#[trigger] t@[i].0, #[trigger] t@[j].0) by {
                assert(t@[i].0 == t0[i].0 && t@[j].0 == t0[j].0);
            }
            assert forall|k: (usize, usize, usize)| #[trigger] triplet_entry(t@, k) == triplet_entry(t0, k) + if k == key {
                amount as nat
            } else {
                0nat
            } by {
                if k == key {
                    lemma_triplet_entry_at(t@, pos as int);
                    lemma_triplet_entry_at(t0, pos as int);
                } else if exists|i: int| 0 <= i < t0.len() && t0[i].0 == k {
                    let i = choose|i: int| 0 <= i < t0.len() && t0[i].0 == k;
                    lemma_triplet_entry_at(t@, i);
                    lemma_triplet_entry_at(t0, i);
                } else {
                    assert(!exists|i: int| 0 <= i < t@.len() && t@[i].0 == k) by {
                        if exists|i: int| 0 <= i < t@.len() && t@[i].0 == k {
                            let i = choose|i: int| 0 <= i < t@.len() && t@[i].0 == k;
                            assert(t0[i].0 == k);
                        }
                    }
                }
            }
        }
    } else {
        t.insert(pos, (key, amount));
        proof {
            t0.insert_ensures(pos as int, (key, amount));
            lemma_triplet_sum_insert(t0, pos as int, (key, amount));
            assert forall|i: int, j: int| 0 <= i < j < t@.len() implies triplet_lt(#[trigger] t@[i].0, #[trigger] t@[j].0) by {
                if j < pos {
                } else if j == pos {
                    assert(triplet_lt(t0[i].0, key));
                } else if i < pos {
                    assert(t@[j] == t0[j - 1]);
                    assert(triplet_lt(t0[i].0, key));
                    assert(pos <= j - 1);
                    if pos < j - 1 {
                        assert(triplet_lt(t0[pos as int].0, t0[j - 1].0));
                    }
                    assert(!triplet_lt(t0[pos as int].0, key) && t0[pos as int].0 != key);
                } else if i == pos {
                    assert(t@[j] == t0[j - 1]);
                    if pos < j - 1 {
                        assert(triplet_lt(t0[pos as int].0, t0[j - 1].0));
                    }
                    assert(!triplet_lt(t0[pos as int].0, key) && t0[pos as int].0 != key);
                } else {
                    assert(t@[i] == t0[i - 1] && t@[j] == t0[j - 1]);
                }
            }
            assert forall|i: int| 0 <= i < t@.len() implies #[trigger] t@[i].1 > 0 && t@[i].1 <= m + amount by {
                if i < pos {
                } else if i > pos {
                    assert(t@[i] == t0[i - 1]);
                }
            }
            assert forall|k: (usize, usize, usize)| #[trigger] triplet_entry(t@, k) == triplet_entry(t0, k) + if k == key {
                amount as nat
            } else {
                0nat
            } by {
                if k == key {
                    lemma_triplet_entry_at(t@, pos as int);
                    if exists|i: int| 0 <= i < t0.len() && t0[i].0 == k {
                        let i = choose|i: int| 0 <= i < t0.len() && t0[i].0 == k;
                        if i < pos {
                            assert(triplet_lt(t0[i].0, key));
                        } else if i > pos {
                            assert(triplet_lt(t0[pos as int].0, t0[i].0));
                        }
                    }
                } else if exists|i: int| 0 <= i < t0.len() && t0[i].0 == k {
                    let i = choose|i: int| 0 <= i < t0.len() && t0[i].0 == k;
                    lemma_triplet_entry_at(t0, i);
                    if i < pos {
                        lemma_triplet_entry_at(t@, i);
                    } else {
                        assert(t@[i + 1] == t0[i]);
                        lemma_triplet_entry_at(t@, i + 1);
                    }
                } else {
                    assert(!exists|i: int| 0 <= i < t@.len() && t@[i].0 == k) by {
                        if exists|i: int| 0 <= i < t@.len() && t@[i].0 == k {
                            let i = choose|i: int| 0 <= i < t@.len() && t@[i].0 == k;
                            if i < pos {
                                assert(t0[i].0 == k);
                            } else if i > pos {
                                assert(t0[i - 1].0 == k);
                            }
                        }
                    }
                }
            }
        }
    }
}

/// The sum of the counts of a table.
pub open spec fn triplet_sum(t: Seq<((usize, usize, usize), u64)>) -> nat
    decreases t.len(),
{
    if t.len() == 0 {
        0
    } else {
        triplet_sum(t.drop_last()) + t.last().1 as nat
    }
}

proof fn lemma_triplet_sum_insert(t: Seq<((usize, usize, usize), u64)>, p: int, x: ((usize, usize, usize), u64))
    requires
        0 <= p <= t.len(),
    ensures
        triplet_sum(t.insert(p, x)) == triplet_sum(t) + x.1,
    decreases t.len(),
{
    if p == t.len() {
        assert(t.insert(p, x).drop_last() =~= t);
    } else {
        lemma_triplet_sum_insert(t.drop_last(), p, x);
        assert(t.insert(p, x).drop_last() =~= t.drop_last().insert(p, x));
    }
}

proof fn lemma_triplet_sum_update(t: Seq<((usize, usize, usize), u64)>, p: int, x: ((usize, usize, usize), u64))
    requires
        0 <= p < t.len(),
    ensures
        triplet_sum(t.update(p, x)) == triplet_sum(t) - t[p].1 + x.1,
    decreases t.len(),
{
    if p == t.len() - 1 {
        assert(t.update(p, x).drop_last() =~= t.drop_last());
    } else {
        lemma_triplet_sum_update(t.drop_last(), p, x);
        assert(t.update(p, x).drop_last() =~= t.drop_last().update(p, x));
    }
}

/// The windows at positions `0..n` of the word that hold `key`.
pub open spec fn pair_hits(w: Seq<usize>, key: (usize, usize), n: int) -> nat
    decreases n,
{
    if n <= 0 {
        0
    } else {
        pair_hits(w, key, n - 1) + if (w[n - 1], w[n]) == key {
            1nat
        } else {
            0nat
        }
    }
}

/// The number of window positions of a word.
pub open spec fn pair_slots_of(w: Seq<usize>) -> nat {
    if w.len() < 2 {
        0
    } else {
        (w.len() - (2 - 1)) as nat
    }
}

/// The windows of the word that hold `key`.
pub open spec fn word_pairs(w: Seq<usize>, key: (usize, usize)) -> nat {
    pair_hits(w, key, pair_slots_of(w) as int)
}

/// The windows holding `key` in the first `c` active words (a column past
/// the word list counts for nothing).
pub open spec fn active_pairs(words: Seq<Vec<usize>>, cols: Seq<usize>, key: (usize, usize), c: int) -> nat
    decreases c,
{
    if c <= 0 {
        0
    } else {
        active_pairs(words, cols, key, c - 1) + if cols[c - 1] < words.len() {
            word_pairs(words[cols[c - 1] as int]@, key)
        } else {
            0nat
        }
    }
}

/// The window positions of the first `c` active words.
pub open spec fn active_pair_slots(words: Seq<Vec<usize>>, cols: Seq<usize>, c: int) -> nat
    decreases c,
{
    if c <= 0 {
        0
    } else {
        active_pair_slots(words, cols, c - 1) + if cols[c - 1] < words.len() {
            pair_slots_of(words[cols[c - 1] as int]@)
        } else {
            0nat
        }
    }
}

proof fn lemma_active_pair_slots_mono(words: Seq<Vec<usize>>, cols: Seq<usize>, c: int, d: int)
    requires
        0 <= c <= d,
    ensures
        active_pair_slots(words, cols, c) <= active_pair_slots(words, cols, d),
    decreases d - c,
{
    if c < d {
        lemma_active_pair_slots_mono(words, cols, c, d - 1);
    }
}

/// The table of the windows of the active words: each key that occurs, with
/// the number of times it occurs, keys in increasing order.
pub fn pair_counts_from_words(words: &[Vec<usize>], active_cols: &[usize]) -> (r: Vec<((usize, usize), u64)>)
    requires
        active_pair_slots(words@, active_cols@, active_cols@.len() as int) <= u64::MAX,
    ensures
        pair_table_ok(r@),
        pair_sum(r@) == active_pair_slots(words@, active_cols@, active_cols@.len() as int),
        forall|k: (usize, usize)| #[trigger] pair_entry(r@, k) == active_pairs(words@, active_cols@, k, active_cols@.len() as int),
{
    let mut t: Vec<((usize, usize), u64)> = Vec::new();
    let ghost total = active_pair_slots(words@, active_cols@, active_cols@.len() as int);
    let mut c: usize = 0;
    while c < active_cols.len()
        invariant
            total == active_pair_slots(words@, active_cols@, active_cols@.len() as int),
            total <= u64::MAX,
            c <= active_cols@.len(),
            pair_table_ok(t@),
            pair_sum(t@) == active_pair_slots(words@, active_cols@, c as int),
            forall|i: int| 0 <= i < t@.len() ==> #[trigger] t@[i].1 <= active_pair_slots(words@, active_cols@, c as int),
            forall|k: (usize, usize)| #[trigger] pair_entry(t@, k) == active_pairs(words@, active_cols@, k, c as int),
        decreases active_cols@.len() - c,
    {
        proof {
            lemma_active_pair_slots_mono(words@, active_cols@, c as int + 1, active_cols@.len() as int);
        }
        let col = active_cols[c];
        if col < words.len() && words[col].len() >= 2 {
            let w = &words[col];
            let ghost base = active_pair_slots(words@, active_cols@, c as int);
            let n = w.len() - (2 - 1);
            let mut idx: usize = 0;
            while idx < n
                invariant
                    n == pair_slots_of(w@),
                    w@.len() >= 2,
                    base == active_pair_slots(words@, active_cols@, c as int),
                    base + n <= u64::MAX,
                    idx <= n,
                    pair_table_ok(t@),
                    pair_sum(t@) == base + idx,
                    forall|i: int| 0 <= i < t@.len() ==> #[trigger] t@[i].1 <= base + idx,
                    forall|k: (usize, usize)| #[trigger] pair_entry(t@, k) == active_pairs(words@, active_cols@, k, c as int) + pair_hits(w@, k, idx as int),
                decreases n - idx,
            {
                let key = (w[idx], w[idx + 1]);
                pair_bump(&mut t, key, 1, Ghost(base + idx));
                idx += 1;
            }
        }
        c += 1;
    }
    t
}

/// Adds the counts of `more` to those of `total`.
pub fn add_pair_table(total: &mut Vec<((usize, usize), u64)>, more: &Vec<((usize, usize), u64)>)
    requires
        pair_table_ok(old(total)@),
        pair_table_ok(more@),
        pair_sum(old(total)@) + pair_sum(more@) <= u64::MAX,
    ensures
        pair_table_ok(final(total)@),
        pair_sum(final(total)@) == pair_sum(old(total)@) + pair_sum(more@),
        forall|k: (usize, usize)| #[trigger] pair_entry(final(total)@, k) == pair_entry(old(total)@, k) + pair_entry(more@, k),
{
    let ghost t0 = total@;
    let mut j: usize = 0;
    proof {
        lemma_pair_counts_below_sum(t0);
        assert(more@.subrange(0, 0) =~= Seq::<((usize, usize), u64)>::empty());
    }
    while j < more.len()
        invariant
            pair_table_ok(more@),
            pair_table_ok(total@),
            j <= more@.len(),
            pair_sum(t0) + pair_sum(more@) <= u64::MAX,
            pair_sum(total@) == pair_sum(t0) + pair_sum(more@.subrange(0, j as int)),
            forall|i: int| 0 <= i < total@.len() ==> #[trigger] total@[i].1 <= pair_sum(total@),
            forall|k: (usize, usize)| #[trigger] pair_entry(total@, k) == pair_entry(t0, k) + pair_entry(more@.subrange(0, j as int), k),
        decreases more@.len() - j,
    {
        let (key, amount) = more[j];
        proof {
            let s0 = more@.subrange(0, j as int);
            let s1 = more@.subrange(0, j as int + 1);
            assert(s1.drop_last() =~= s0);
            lemma_pair_sum_prefix(more@, j as int + 1);
            lemma_pair_entry_prefix(more@, j as int);
        }
        pair_bump(total, key, amount, Ghost(pair_sum(total@) as int));
        proof {
            lemma_pair_counts_below_sum(total@);
        }
        j += 1;
    }
    proof {
        assert(more@.subrange(0, more@.len() as int) =~= more@);
    }
}

/// Each count is at most the sum of the counts.
proof fn lemma_pair_counts_below_sum(t: Seq<((usize, usize), u64)>)
    ensures
        forall|i: int| 0 <= i < t.len() ==> #[trigger] t[i].1 <= pair_sum(t),
    decreases t.len(),
{
    if t.len() > 0 {
        lemma_pair_counts_below_sum(t.drop_last());
        assert forall|i: int| 0 <= i < t.len() implies #[trigger] t[i].1 <= pair_sum(t) by {
            if i < t.len() - 1 {
                assert(t[i] == t.drop_last()[i]);
            }
        }
    }
}

/// The sum of a prefix is at most the sum of the whole table.
proof fn lemma_pair_sum_prefix(t: Seq<((usize, usize), u64)>, n: int)
    requires
        0 <= n <= t.len(),
    ensures
        pair_sum(t.subrange(0, n)) <= pair_sum(t),
    decreases t.len() - n,
{
    if n < t.len() {
        lemma_pair_sum_prefix(t, n + 1);
        assert(t.subrange(0, n + 1).drop_last() =~= t.subrange(0, n));
    } else {
        assert(t.subrange(0, n) =~= t);
    }
}

/// The entries of a one-longer prefix of a table.
proof fn lemma_pair_entry_prefix(t: Seq<((usize, usize), u64)>, j: int)
    requires
        pair_table_ok(t),
        0 <= j < t.len(),
    ensures
        forall|k: (usize, usize)| #[trigger] pair_entry(t.subrange(0, j + 1), k) == pair_entry(t.subrange(0, j), k) + if k == t[j].0 {
            t[j].1 as nat
        } else {
            0nat
        },
{
    let s0 = t.subrange(0, j);
    let s1 = t.subrange(0, j + 1);
    assert(pair_table_ok(s0));
    assert(pair_table_ok(s1));
    assert forall|k: (usize, usize)| #[trigger] pair_entry(s1, k) == pair_entry(s0, k) + if k == t[j].0 {
        t[j].1 as nat
    } else {
        0nat
    } by {
        if k == t[j].0 {
            lemma_pair_entry_at(s1, j);
            if exists|i: int| 0 <= i < s0.len() && s0[i].0 == k {
                let i = choose|i: int| 0 <= i < s0.len() && s0[i].0 == k;
                assert(pair_lt(s1[i].0, s1[j].0));
            }
        } else if exists|i: int| 0 <= i < s0.len() && s0[i].0 == k {
            let i = choose|i: int| 0 <= i < s0.len() && s0[i].0 == k;
            lemma_pair_entry_at(s0, i);
            lemma_pair_entry_at(s1, i);
        } else {
            assert(!exists|i: int| 0 <= i < s1.len() && s1[i].0 == k) by {
                if exists|i: int| 0 <= i < s1.len() && s1[i].0 == k {
                    let i = choose|i: int| 0 <= i < s1.len() && s1[i].0 == k;
                    assert(i < j);
                    assert(s0[i].0 == k);
                }
            }
        }
    }
}


/// The windows at positions `0..n` of the word that hold `key`.
pub open spec fn triplet_hits(w: Seq<usize>, key: (usize, usize, usize), n: int) -> nat
    decreases n,
{
    if n <= 0 {
        0
    } else {
        triplet_hits(w, key, n - 1) + if (w[n - 1], w[n], w[n + 1]) == key {
            1nat
        } else {
            0nat
        }
    }
}

/// The number of window positions of a word.
pub open spec fn triplet_slots_of(w: Seq<usize>) -> nat {
    if w.len() < 3 {
        0
    } else {
        (w.len() - (3 - 1)) as nat
    }
}

/// The windows of the word that hold `key`.
pub open spec fn word_triplets(w: Seq<usize>, key: (usize, usize, usize)) -> nat {
    triplet_hits(w, key, triplet_slots_of(w) as int)
}

/// The windows holding `key` in the first `c` active words (a column past
/// the word list counts for nothing).
pub open spec fn active_triplets(words: Seq<Vec<usize>>, cols: Seq<usize>, key: (usize, usize, usize), c: int) -> nat
    decreases c,
{
    if c <= 0 {
        0
    } else {
        active_triplets(words, cols, key, c - 1) + if cols[c - 1] < words.len() {
            word_triplets(words[cols[c - 1] as int]@, key)
        } else {
            0nat
        }
    }
}

/// The window positions of the first `c` active words.
pub open spec fn active_triplet_slots(words: Seq<Vec<usize>>, cols: Seq<usize>, c: int) -> nat
    decreases c,
{
    if c <= 0 {
        0
    } else {
        active_triplet_slots(words, cols, c - 1) + if cols[c - 1] < words.len() {
            triplet_slots_of(words[cols[c - 1] as int]@)
        } else {
            0nat
        }
    }
}

proof fn lemma_active_triplet_slots_mono(words: Seq<Vec<usize>>, cols: Seq<usize>, c: int, d: int)
    requires
        0 <= c <= d,
    ensures
        active_triplet_slots(words, cols, c) <= active_triplet_slots(words, cols, d),
    decreases d - c,
{
    if c < d {
        lemma_active_triplet_slots_mono(words, cols, c, d - 1);
    }
}

/// The table of the windows of the active words: each key that occurs, with
/// the number of times it occurs, keys in increasing order.
pub fn triplet_counts_from_words(words: &[Vec<usize>], active_cols: &[usize]) -> (r: Vec<((usize, usize, usize), u64)>)
    requires
        active_triplet_slots(words@, active_cols@, active_cols@.len() as int) <= u64::MAX,
    ensures
        triplet_table_ok(r@),
        triplet_sum(r@) == active_triplet_slots(words@, active_cols@, active_cols@.len() as int),
        forall|k: (usize, usize, usize)| #[trigger] triplet_entry(r@, k) == active_triplets(words@, active_cols@, k, active_cols@.len() as int),
{
    let mut t: Vec<((usize, usize, usize), u64)> = Vec::new();
    let ghost total = active_triplet_slots(words@, active_cols@, active_cols@.len() as int);
    let mut c: usize = 0;
    while c < active_cols.len()
        invariant
            total == active_triplet_slots(words@, active_cols@, active_cols@.len() as int),
            total <= u64::MAX,
            c <= active_cols@.len(),
            triplet_table_ok(t@),
            triplet_sum(t@) == active_triplet_slots(words@, active_cols@, c as int),
            forall|i: int| 0 <= i < t@.len() ==> #[trigger] t@[i].1 <= active_triplet_slots(words@, active_cols@, c as int),
            forall|k: (usize, usize, usize)| #[trigger] triplet_entry(t@, k) == active_triplets(words@, active_cols@, k, c as int),
        decreases active_cols@.len() - c,
    {
        proof {
            lemma_active_triplet_slots_mono(words@, active_cols@, c as int + 1, active_cols@.len() as int);
        }
        let col = active_cols[c];
        if col < words.len() && words[col].len() >= 3 {
            let w = &words[col];
            let ghost base = active_triplet_slots(words@, active_cols@, c as int);
            let n = w.len() - (3 - 1);
            let mut idx: usize = 0;
            while idx < n
                invariant
                    n == triplet_slots_of(w@),
                    w@.len() >= 3,
                    base == active_triplet_slots(words@, active_cols@, c as int),
                    base + n <= u64::MAX,
                    idx <= n,
                    triplet_table_ok(t@),
                    triplet_sum(t@) == base + idx,
                    forall|i: int| 0 <= i < t@.len() ==> #[trigger] t@[i].1 <= base + idx,
                    forall|k: (usize, usize, usize)| #[trigger] triplet_entry(t@, k) == active_triplets(words@, active_cols@, k, c as int) + triplet_hits(w@, k, idx as int),
                decreases n - idx,
            {
                assert(idx + 2 < w.len());
                let key = (w[idx], w[idx + 1], w[idx + 2]);
                triplet_bump(&mut t, key, 1, Ghost(base + idx));
                idx += 1;
            }
        }
        c += 1;
    }
    t
}

/// Adds the counts of `more` to those of `total`.
pub fn add_triplet_table(total: &mut Vec<((usize, usize, usize), u64)>, more: &Vec<((usize, usize, usize), u64)>)
    requires
        triplet_table_ok(old(total)@),
        triplet_table_ok(more@),
        triplet_sum(old(total)@) + triplet_sum(more@) <= u64::MAX,
    ensures
        triplet_table_ok(final(total)@),
        triplet_sum(final(total)@) == triplet_sum(old(total)@) + triplet_sum(more@),
        forall|k: (usize, usize, usize)| #[trigger] triplet_entry(final(total)@, k) == triplet_entry(old(total)@, k) + triplet_entry(more@, k),
{
    let ghost t0 = total@;
    let mut j: usize = 0;
    proof {
        lemma_triplet_counts_below_sum(t0);
        assert(more@.subrange(0, 0) =~= Seq::<((usize, usize, usize), u64)>::empty());
    }
    while j < more.len()
        invariant
            triplet_table_ok(more@),
            triplet_table_ok(total@),
            j <= more@.len(),
            triplet_sum(t0) + triplet_sum(more@) <= u64::MAX,
            triplet_sum(total@) == triplet_sum(t0) + triplet_sum(more@.subrange(0, j as int)),
            forall|i: int| 0 <= i < total@.len() ==> #[trigger] total@[i].1 <= triplet_sum(total@),
            forall|k: (usize, usize, usize)| #[trigger] triplet_entry(total@, k) == triplet_entry(t0, k) + triplet_entry(more@.subrange(0, j as int), k),
        decreases more@.len() - j,
    {
        let (key, amount) = more[j];
        proof {
            let s0 = more@.subrange(0, j as int);
            let s1 = more@.subrange(0, j as int + 1);
            assert(s1.drop_last() =~= s0);
            lemma_triplet_sum_prefix(more@, j as int + 1);
            lemma_triplet_entry_prefix(more@, j as int);
        }
        triplet_bump(total, key, amount, Ghost(triplet_sum(total@) as int));
        proof {
            lemma_triplet_counts_below_sum(total@);
        }
        j += 1;
    }
    proof {
        assert(more@.subrange(0, more@.len() as int) =~= more@);
    }
}

/// Each count is at most the sum of the counts.
proof fn lemma_triplet_counts_below_sum(t: Seq<((usize, usize, usize), u64)>)
    ensures
        forall|i: int| 0 <= i < t.len() ==> #[trigger] t[i].1 <= triplet_sum(t),
    decreases t.len(),
{
    if t.len() > 0 {
        lemma_triplet_counts_below_sum(t.drop_last());
        assert forall|i: int| 0 <= i < t.len() implies #[trigger] t[i].1 <= triplet_sum(t) by {
            if i < t.len() - 1 {
                assert(t[i] == t.drop_last()[i]);
            }
        }
    }
}

/// The sum of a prefix is at most the sum of the whole table.
proof fn lemma_triplet_sum_prefix(t: Seq<((usize, usize, usize), u64)>, n: int)
    requires
        0 <= n <= t.len(),
    ensures
        triplet_sum(t.subrange(0, n)) <= triplet_sum(t),
    decreases t.len() - n,
{
    if n < t.len() {
        lemma_triplet_sum_prefix(t, n + 1);
        assert(t.subrange(0, n + 1).drop_last() =~= t.subrange(0, n));
    } else {
        assert(t.subrange(0, n) =~= t);
    }
}

/// The entries of a one-longer prefix of a table.
proof fn lemma_triplet_entry_prefix(t: Seq<((usize, usize, usize), u64)>, j: int)
    requires
        triplet_table_ok(t),
        0 <= j < t.len(),
    ensures
        forall|k: (usize, usize, usize)| #[trigger] triplet_entry(t.subrange(0, j + 1), k) == triplet_entry(t.subrange(0, j), k) + if k == t[j].0 {
            t[j].1 as nat
        } else {
            0nat
        },
{
    let s0 = t.subrange(0, j);
    let s1 = t.subrange(0, j + 1);
    assert(triplet_table_ok(s0));
    assert(triplet_table_ok(s1));
    assert forall|k: (usize, usize, usize)| #[trigger] triplet_entry(s1, k) == triplet_entry(s0, k) + if k == t[j].0 {
        t[j].1 as nat
    } else {
        0nat
    } by {
        if k == t[j].0 {
            lemma_triplet_entry_at(s1, j);
            if exists|i: int| 0 <= i < s0.len() && s0[i].0 == k {
                let i = choose|i: int| 0 <= i < s0.len() && s0[i].0 == k;
                assert(triplet_lt(s1[i].0, s1[j].0));
            }
        } else if exists|i: int| 0 <= i < s0.len() && s0[i].0 == k {
            let i = choose|i: int| 0 <= i < s0.len() && s0[i].0 == k;
            lemma_triplet_entry_at(s0, i);
            lemma_triplet_entry_at(s1, i);
        } else {
            assert(!exists|i: int| 0 <= i < s1.len() && s1[i].0 == k) by {
                if exists|i: int| 0 <= i < s1.len() && s1[i].0 == k {
                    let i = choose|i: int| 0 <= i < s1.len() && s1[i].0 == k;
                    assert(i < j);
                    assert(s0[i].0 == k);
                }
            }
        }
    }
}

} // verus!
