//! The channels and letter names of the automaton acceptor specs, resolved
//! to indices.
use crate::error::ExperimentError;
use crate::text::{
    decimal_digits, lemma_str_lt_irrefl_asym, lemma_str_lt_total, lemma_str_lt_trans, parse_unsigned,
    parse_unsigned_spec, str_eq, str_less, str_lt, u64_to_text,
};
use vstd::prelude::*;
use vstd::string::StrSliceExecFns;

verus! {

/// One automaton acceptor, by its place in the list of its kind.
#[derive(Clone, Copy, Debug, PartialEq, Eq, Structural)]
pub enum AutomatonAcceptorRef {
    KGram(usize),
    Genealogical(usize),
    ChannelPairs(usize),
}

/// A letter's channel as a spec writes it: a number or a text.
#[derive(Clone, Debug)]
pub enum SpecChannel {
    Int(u16),
    Text(String),
}

/// What a channel or a channel key says.
pub enum ChannelView {
    Numeric(u16),
    Named(Seq<char>),
}

impl View for SpecChannel {
    type V = ChannelView;

    open spec fn view(&self) -> ChannelView {
        match self {
            SpecChannel::Int(v) => ChannelView::Numeric(*v),
            SpecChannel::Text(t) => ChannelView::Named(t@),
        }
    }
}

/// A channel as the acceptors tell channels apart: a number, or else a name.
#[derive(Clone, Debug)]
pub enum ChannelKey {
    Numeric(u16),
    Named(String),
}

impl View for ChannelKey {
    type V = ChannelView;

    open spec fn view(&self) -> ChannelView {
        match self {
            ChannelKey::Numeric(v) => ChannelView::Numeric(*v),
            ChannelKey::Named(t) => ChannelView::Named(t@),
        }
    }
}

/// The key of a channel name: the number it spells as a `u16`, else the name.
pub open spec fn name_key(s: Seq<char>) -> ChannelView {
    match parse_unsigned_spec(s, u16::MAX as int) {
        Some(v) => ChannelView::Numeric(v as u16),
        None => ChannelView::Named(s),
    }
}

/// The key of a channel as a spec writes it.
pub open spec fn spec_key(c: ChannelView) -> ChannelView {
    match c {
        ChannelView::Numeric(v) => ChannelView::Numeric(v),
        ChannelView::Named(s) => name_key(s),
    }
}

/// The order of channel keys: numbers by value, before all names; names in
/// the order of `str`.
pub open spec fn key_lt(a: ChannelView, b: ChannelView) -> bool {
    match (a, b) {
        (ChannelView::Numeric(x), ChannelView::Numeric(y)) => x < y,
        (ChannelView::Numeric(_), ChannelView::Named(_)) => true,
        (ChannelView::Named(_), ChannelView::Numeric(_)) => false,
        (ChannelView::Named(s), ChannelView::Named(t)) => str_lt(s, t),
    }
}

/// The order of channel keys is a strict total order.
pub proof fn lemma_key_lt_order(a: ChannelView, b: ChannelView, c: ChannelView)
    ensures
        !key_lt(a, a),
        !(key_lt(a, b) && key_lt(b, a)),
        key_lt(a, b) && key_lt(b, c) ==> key_lt(a, c),
        a == b || key_lt(a, b) || key_lt(b, a),
{
    match (a, b) {
        (ChannelView::Named(s), ChannelView::Named(t)) => {
            lemma_str_lt_irrefl_asym(s, t);
            lemma_str_lt_total(s, t);
        },
        _ => {},
    }
    match a {
        ChannelView::Named(s) => {
            lemma_str_lt_irrefl_asym(s, s);
        },
        _ => {},
    }
    match (a, b, c) {
        (ChannelView::Named(s), ChannelView::Named(t), ChannelView::Named(u)) => {
            if str_lt(s, t) && str_lt(t, u) {
                lemma_str_lt_trans(s, t, u);
            }
        },
        _ => {},
    }
}

/// Reads a channel number, as `str::parse::<u16>` does.
fn parse_u16(s: &str) -> (r: Option<u16>)
    ensures
        r is Some <==> parse_unsigned_spec(s@, u16::MAX as int) is Some,
        r matches Some(x) ==> parse_unsigned_spec(s@, u16::MAX as int) == Some(x as int),
{
    match parse_unsigned(s) {
        Some(v) => {
            if v <= 65535 {
                Some(v as u16)
            } else {
                None
            }
        },
        None => None,
    }
}

impl ChannelKey {
    /// The key of a channel as a spec writes it.
    pub fn from_spec(spec: &SpecChannel) -> (r: ChannelKey)
        ensures
            r@ == spec_key(spec@),
    {
        match spec {
            SpecChannel::Int(value) => ChannelKey::Numeric(*value),
            SpecChannel::Text(value) => ChannelKey::from_name(value.as_str()),
        }
    }

    /// The key of a channel name.
    pub fn from_name(name: &str) -> (r: ChannelKey)
        ensures
            r@ == name_key(name@),
    {
        match parse_u16(name) {
            Some(num) => ChannelKey::Numeric(num),
            None => ChannelKey::Named(name.to_string()),
        }
    }

    /// A copy of the key.
    pub fn copy_key(&self) -> (r: ChannelKey)
        ensures
            r@ == self@,
    {
        match self {
            ChannelKey::Numeric(v) => ChannelKey::Numeric(*v),
            ChannelKey::Named(s) => ChannelKey::Named(s.clone()),
        }
    }
}

/// Whether key `a` sorts before key `b`.
pub fn key_less(a: &ChannelKey, b: &ChannelKey) -> (r: bool)
    ensures
        r == key_lt(a@, b@),
{
    match (a, b) {
        (ChannelKey::Numeric(x), ChannelKey::Numeric(y)) => *x < *y,
        (ChannelKey::Numeric(_), ChannelKey::Named(_)) => true,
        (ChannelKey::Named(_), ChannelKey::Numeric(_)) => false,
        (ChannelKey::Named(s), ChannelKey::Named(t)) => str_less(s.as_str(), t.as_str()),
    }
}

/// Whether two keys say the same.
pub fn key_equal(a: &ChannelKey, b: &ChannelKey) -> (r: bool)
    ensures
        r == (a@ == b@),
{
    match (a, b) {
        (ChannelKey::Numeric(x), ChannelKey::Numeric(y)) => *x == *y,
        (ChannelKey::Named(s), ChannelKey::Named(t)) => str_eq(s.as_str(), t.as_str()),
        _ => false,
    }
}

/// The views of a list of keys.
pub open spec fn key_views(keys: Seq<ChannelKey>) -> Seq<ChannelView> {
    keys.map_values(|k: ChannelKey| k@)
}

/// Whether the keys are in strictly increasing order.
pub open spec fn keys_sorted(keys: Seq<ChannelView>) -> bool {
    forall|i: int, j: int| 0 <= i < j < keys.len() ==> key_lt(#[trigger] keys[i], #[trigger] keys[j])
}

/// Puts `key` into the sorted list of keys unless it is there.
fn insert_key(keys: &mut Vec<ChannelKey>, key: &ChannelKey)
    requires
        keys_sorted(key_views(old(keys)@)),
    ensures
        keys_sorted(key_views(final(keys)@)),
        forall|k: ChannelView| key_views(final(keys)@).contains(k) <==> (key_views(old(keys)@).contains(k) || k == key@),
{
    let ghost v0 = key_views(keys@);
    let mut pos: usize = 0;
    while pos < keys.len() && key_less(&keys[pos], key)
        invariant
            pos <= keys@.len(),
            v0 == key_views(keys@),
            forall|t: int| 0 <= t < pos ==> key_lt(#[trigger] v0[t], key@),
        decreases keys@.len() - pos,
    {
        pos += 1;
    }
    if pos < keys.len() && key_equal(&keys[pos], key) {
        proof {
            assert(v0[pos as int] == key@);
        }
        return;
    }
    proof {
        assert forall|t: int| pos <= t < v0.len() implies key_lt(key@, #[trigger] v0[t]) by {
            lemma_key_lt_order(key@, v0[pos as int], v0[t]);
            lemma_key_lt_order(v0[pos as int], key@, v0[t]);
            if t > pos {
                assert(key_lt(v0[pos as int], v0[t]));
            }
        }
    }
    keys.insert(pos, key.copy_key());
    proof {
        let v1 = key_views(keys@);
        assert(v1 =~= v0.insert(pos as int, key@));
        assert forall|i: int, j: int| 0 <= i < j < v1.len() implies key_lt(#[trigger] v1[i], #[trigger] v1[j]) by {
            if j < pos {
            } else if i < pos && j == pos {
            } else if i < pos {
                assert(v1[j] == v0[j - 1]);
                lemma_key_lt_order(v0[i], key@, v0[j - 1]);
                if i < j - 1 {
                    assert(key_lt(v0[i], v0[j - 1]));
                }
            } else if i == pos {
                assert(v1[j] == v0[j - 1]);
            } else {
                assert(v1[i] == v0[i - 1]);
                assert(v1[j] == v0[j - 1]);
            }
        }
        assert forall|k: ChannelView| v1.contains(k) <==> (v0.contains(k) || k == key@) by {
            if v1.contains(k) {
                let i = choose|i: int| 0 <= i < v1.len() && v1[i] == k;
                if i < pos {
                    assert(v0[i] == k);
                } else if i > pos {
                    assert(v0[i - 1] == k);
                }
            }
            if v0.contains(k) {
                let i = choose|i: int| 0 <= i < v0.len() && v0[i] == k;
                if i < pos {
                    assert(v1[i] == k);
                } else {
                    assert(v1[i + 1] == k);
                }
            }
            if k == key@ {
                assert(v1[pos as int] == k);
            }
        }
    }
}

/// The place of `key` in the list, if it is there.
fn find_key(keys: &Vec<ChannelKey>, key: &ChannelKey) -> (r: Option<usize>)
    ensures
        r matches Some(p) ==> p < keys@.len() && keys@[p as int]@ == key@,
        r is None <==> !key_views(keys@).contains(key@),
{
    let mut p: usize = 0;
    while p < keys.len()
        invariant
            p <= keys@.len(),
            forall|t: int| 0 <= t < p ==> (#[trigger] keys@[t])@ != key@,
        decreases keys@.len() - p,
    {
        if key_equal(&keys[p], key) {
            proof {
                assert(key_views(keys@)[p as int] == key@);
            }
            return Some(p);
        }
        p += 1;
    }
    proof {
        if key_views(keys@).contains(key@) {
            let t = choose|t: int| 0 <= t < key_views(keys@).len() && key_views(keys@)[t] == key@;
            assert(keys@[t]@ == key@);
        }
    }
    None
}

/// The views of a list of optional channels.
pub open spec fn channel_views(chs: Seq<Option<SpecChannel>>) -> Seq<Option<ChannelView>> {
    chs.map_values(|c: Option<SpecChannel>| match c {
        Some(x) => Some(x@),
        None => None,
    })
}

/// Whether a letter lacks a channel, or has an empty text for one.
pub open spec fn channel_missing(c: Option<ChannelView>) -> bool {
    match c {
        None => true,
        Some(ChannelView::Named(s)) => s.len() == 0,
        Some(ChannelView::Numeric(_)) => false,
    }
}

/// The key of a letter's channel.
pub open spec fn letter_key(c: Option<ChannelView>) -> ChannelView {
    match c {
        Some(v) => spec_key(v),
        None => ChannelView::Named(Seq::empty()),
    }
}

/// The distinct channel keys of the letters in increasing order, and for each
/// letter the place of its key in that list. An error names the first letter
/// without a channel or with an empty one.
pub fn build_channel_key_map(letter_channels: &[Option<SpecChannel>]) -> (r: Result<
    (Vec<ChannelKey>, Vec<usize>),
    ExperimentError,
>)
    ensures
        r is Err <==> exists|i: int|
            0 <= i < letter_channels@.len() && channel_missing(#[trigger] channel_views(letter_channels@)[i]),
        r matches Ok((keys, idx)) ==> {
            let chs = channel_views(letter_channels@);
            &&& keys_sorted(key_views(keys@))
            &&& idx@.len() == chs.len()
            &&& forall|i: int| 0 <= i < chs.len() ==> #[trigger] idx@[i] < keys@.len() && keys@[idx@[i] as int]@ == letter_key(chs[i])
            &&& forall|t: int| 0 <= t < keys@.len() ==> exists|i: int| 0 <= i < chs.len() && #[trigger] keys@[t]@ == letter_key(chs[i])
        },
{
    let ghost chs = channel_views(letter_channels@);
    let mut per_letter: Vec<ChannelKey> = Vec::with_capacity(letter_channels.len());
    let mut keys: Vec<ChannelKey> = Vec::new();
    let mut i: usize = 0;
    while i < letter_channels.len()
        invariant
            chs == channel_views(letter_channels@),
            i <= chs.len(),
            per_letter@.len() == i,
            forall|t: int| 0 <= t < i ==> !channel_missing(#[trigger] chs[t]),
            forall|t: int| 0 <= t < i ==> (#[trigger] per_letter@[t])@ == letter_key(chs[t]),
            keys_sorted(key_views(keys@)),
            forall|k: ChannelView| key_views(keys@).contains(k) <==> exists|t: int| 0 <= t < i && k == letter_key(#[trigger] chs[t]),
        decreases chs.len() - i,
    {
        let value = match &letter_channels[i] {
            None => {
                return Err(
                    ExperimentError::InvalidConfig(
                        "InvalidSpecMissingChannel: missing channel on letter".to_string(),
                    ),
                );
            },
            Some(v) => v,
        };
        proof {
            assert(chs[i as int] == Some(value@));
        }
        match value {
            SpecChannel::Text(text) => {
                if text.as_str().unicode_len() == 0 {
                    return Err(
                        ExperimentError::InvalidConfig(
                            "InvalidSpecMissingChannel: empty channel on letter".to_string(),
                        ),
                    );
                }
            },
            _ => {},
        }
        let key = ChannelKey::from_spec(value);
        let ghost k0 = key_views(keys@);
        insert_key(&mut keys, &key);
        per_letter.push(key);
        proof {
            assert forall|k: ChannelView| key_views(keys@).contains(k) <==> exists|t: int|
                0 <= t < i + 1 && k == letter_key(#[trigger] chs[t]) by {
                if key_views(keys@).contains(k) {
                    if k0.contains(k) {
                        let t = choose|t: int| 0 <= t < i && k == letter_key(#[trigger] chs[t]);
                        assert(0 <= t < i + 1 && k == letter_key(chs[t]));
                    } else {
                        assert(k == letter_key(chs[i as int]));
                    }
                }
                if exists|t: int| 0 <= t < i + 1 && k == letter_key(#[trigger] chs[t]) {
                    let t = choose|t: int| 0 <= t < i + 1 && k == letter_key(#[trigger] chs[t]);
                    if t < i {
                        assert(k0.contains(k));
                    }
                }
            }
        }
        i += 1;
    }
    let mut idx: Vec<usize> = Vec::with_capacity(per_letter.len());
    let mut j: usize = 0;
    while j < per_letter.len()
        invariant
            chs == channel_views(letter_channels@),
            per_letter@.len() == chs.len(),
            forall|t: int| 0 <= t < chs.len() ==> (#[trigger] per_letter@[t])@ == letter_key(chs[t]),
            forall|k: ChannelView| key_views(keys@).contains(k) <==> exists|t: int|
                0 <= t < chs.len() && k == letter_key(#[trigger] chs[t]),
            j <= chs.len(),
            idx@.len() == j,
            forall|t: int| 0 <= t < j ==> #[trigger] idx@[t] < keys@.len() && keys@[idx@[t] as int]@ == letter_key(chs[t]),
        decreases chs.len() - j,
    {
        proof {
            assert(key_views(keys@).contains(letter_key(chs[j as int])));
        }
        match find_key(&keys, &per_letter[j]) {
            Some(p) => idx.push(p),
            None => {
                return Err(
                    ExperimentError::InvalidConfig("InvalidSpecMissingChannel: channel map missing".to_string()),
                );
            },
        }
        j += 1;
    }
    proof {
        assert forall|t: int| 0 <= t < keys@.len() implies exists|i: int| 0 <= i < chs.len() && #[trigger] keys@[t]@ == letter_key(
            chs[i],
        ) by {
            assert(key_views(keys@)[t] == keys@[t]@);
            assert(key_views(keys@).contains(keys@[t]@));
        }
    }
    Ok((keys, idx))
}

/// Whether a letter's channel gives no number: it lacks one, or its text is
/// no `u16`.
pub open spec fn channel_number(c: Option<ChannelView>) -> Option<u16> {
    match c {
        None => None,
        Some(ChannelView::Numeric(v)) => Some(v),
        Some(ChannelView::Named(s)) => match parse_unsigned_spec(s, u16::MAX as int) {
            Some(v) => Some(v as u16),
            None => None,
        },
    }
}

/// Whether the numbers are in strictly increasing order.
pub open spec fn u16_sorted(s: Seq<u16>) -> bool {
    forall|i: int, j: int| 0 <= i < j < s.len() ==> #[trigger] s[i] < #[trigger] s[j]
}

/// Puts `x` into the sorted list unless it is there.
fn insert_u16(set: &mut Vec<u16>, x: u16)
    requires
        u16_sorted(old(set)@),
    ensures
        u16_sorted(final(set)@),
        forall|y: u16| final(set)@.contains(y) <==> (old(set)@.contains(y) || y == x),
{
    let ghost v0 = set@;
    let mut pos: usize = 0;
    while pos < set.len() && set[pos] < x
        invariant
            pos <= set@.len(),
            v0 == set@,
            forall|t: int| 0 <= t < pos ==> #[trigger] v0[t] < x,
        decreases set@.len() - pos,
    {
        pos += 1;
    }
    if pos < set.len() && set[pos] == x {
        return;
    }
    set.insert(pos, x);
    proof {
        let v1 = set@;
        assert forall|i: int, j: int| 0 <= i < j < v1.len() implies #[trigger] v1[i] < #[trigger] v1[j] by {
            if i < pos && j > pos {
                assert(v1[j] == v0[j - 1]);
                assert(v0[j - 1] >= v0[pos as int]);
            } else if i == pos && j > pos {
                assert(v1[j] == v0[j - 1]);
                assert(v0[j - 1] >= v0[pos as int]);
            } else if i > pos {
                assert(v1[i] == v0[i - 1]);
                assert(v1[j] == v0[j - 1]);
            }
        }
        assert forall|y: u16| v1.contains(y) <==> (v0.contains(y) || y == x) by {
            if v1.contains(y) {
                let i = choose|i: int| 0 <= i < v1.len() && v1[i] == y;
                if i < pos {
                    assert(v0[i] == y);
                } else if i > pos {
                    assert(v0[i - 1] == y);
                }
            }
            if v0.contains(y) {
                let i = choose|i: int| 0 <= i < v0.len() && v0[i] == y;
                if i < pos {
                    assert(v1[i] == y);
                } else {
                    assert(v1[i + 1] == y);
                }
            }
            if y == x {
                assert(v1[pos as int] == y);
            }
        }
    }
}

/// `code`, then `": "`, then `what`, then the letter's place.
pub open spec fn letter_message(code: Seq<char>, what: Seq<char>, idx: int) -> Seq<char> {
    code + ": "@ + what + decimal_digits(idx as nat)
}

fn letter_error(code: &str, what: &str, idx: usize) -> (r: ExperimentError)
    ensures
        r matches ExperimentError::InvalidConfig(m) && m@ == letter_message(code@, what@, idx as int),
{
    let mut msg = String::new();
    msg.append(code);
    msg.append(": ");
    let digits = u64_to_text(idx as u64);
    msg.append(what);
    msg.append(digits.as_str());
    proof {
        reveal_strlit(": ");
    }
    ExperimentError::InvalidConfig(msg)
}

/// The channel number of each letter and the set of them in increasing
/// order. An error names the first letter without a channel
/// (`missing_code`) or whose text is no `u16` (`non_numeric_code`).
pub fn build_channel_u16_map(letter_channels: &[Option<SpecChannel>], missing_code: &str, non_numeric_code: &str) -> (r:
    Result<(Vec<u16>, Vec<u16>), ExperimentError>)
    ensures
        r is Err <==> exists|i: int|
            0 <= i < letter_channels@.len() && #[trigger] channel_number(channel_views(letter_channels@)[i]) is None,
        r matches Err(ExperimentError::InvalidConfig(m)) ==> exists|i: int|
            0 <= i < letter_channels@.len() && (forall|t: int|
                0 <= t < i ==> #[trigger] channel_number(channel_views(letter_channels@)[t]) is Some) && channel_number(
                channel_views(letter_channels@)[i],
            ) is None && m@ == (if channel_views(letter_channels@)[i] is None {
                letter_message(missing_code@, "missing channel on letter "@, i)
            } else {
                letter_message(non_numeric_code@, "non-numeric channel on letter "@, i)
            }),
        r matches Ok((per_letter, ids)) ==> {
            let chs = channel_views(letter_channels@);
            &&& per_letter@.len() == chs.len()
            &&& forall|i: int| 0 <= i < chs.len() ==> channel_number(#[trigger] chs[i]) == Some(per_letter@[i])
            &&& u16_sorted(ids@)
            &&& forall|y: u16| ids@.contains(y) <==> per_letter@.contains(y)
        },
{
    let ghost chs = channel_views(letter_channels@);
    let mut ids: Vec<u16> = Vec::new();
    let mut per_letter: Vec<u16> = Vec::with_capacity(letter_channels.len());
    let mut i: usize = 0;
    while i < letter_channels.len()
        invariant
            chs == channel_views(letter_channels@),
            i <= chs.len(),
            per_letter@.len() == i,
            forall|t: int| 0 <= t < i ==> channel_number(#[trigger] chs[t]) == Some(per_letter@[t]),
            u16_sorted(ids@),
            forall|y: u16| ids@.contains(y) <==> per_letter@.contains(y),
        decreases chs.len() - i,
    {
        let id = match &letter_channels[i] {
            None => {
                proof {
                    reveal_strlit("missing channel on letter ");
                    assert(chs[i as int] is None);
                    assert(channel_number(chs[i as int]) is None);
                }
                return Err(letter_error(missing_code, "missing channel on letter ", i));
            },
            Some(SpecChannel::Int(value)) => {
                proof {
                    assert(chs[i as int] == Some(ChannelView::Numeric(*value)));
                }
                *value
            },
            Some(SpecChannel::Text(text)) => match parse_u16(text.as_str()) {
                Some(v) => {
                    proof {
                        assert(chs[i as int] == Some(ChannelView::Named(text@)));
                    }
                    v
                },
                None => {
                    proof {
                        reveal_strlit("non-numeric channel on letter ");
                        assert(chs[i as int] == Some(ChannelView::Named(text@)));
                        assert(channel_number(chs[i as int]) is None);
                    }
                    return Err(letter_error(non_numeric_code, "non-numeric channel on letter ", i));
                },
            },
        };
        let ghost p0 = per_letter@;
        insert_u16(&mut ids, id);
        per_letter.push(id);
        proof {
            assert forall|y: u16| ids@.contains(y) <==> per_letter@.contains(y) by {
                if p0.contains(y) {
                    let t = choose|t: int| 0 <= t < p0.len() && p0[t] == y;
                    assert(per_letter@[t] == y);
                }
                if per_letter@.contains(y) {
                    let t = choose|t: int| 0 <= t < per_letter@.len() && per_letter@[t] == y;
                    if t < i {
                        assert(p0[t] == y);
                    }
                }
                if y == id {
                    assert(per_letter@[i as int] == y);
                }
            }
        }
        i += 1;
    }
    Ok((per_letter, ids))
}

/// `code`, `": "` and the name.
pub open spec fn name_message(code: Seq<char>, name: Seq<char>) -> Seq<char> {
    code + ": "@ + name
}

fn name_error(code: &str, name: &str) -> (r: ExperimentError)
    ensures
        r matches ExperimentError::InvalidConfig(m) && m@ == name_message(code@, name@),
{
    let mut msg = String::new();
    msg.append(code);
    msg.append(": ");
    msg.append(name);
    proof {
        reveal_strlit(": ");
    }
    ExperimentError::InvalidConfig(msg)
}

/// The place of the channel `name` in the sorted key list; an error without a
/// key list, or (`unknown_code: name`) when the name's key is not in it.
pub fn resolve_channel_name(name: &str, channel_map: Option<&Vec<ChannelKey>>, unknown_code: &str) -> (r: Result<
    usize,
    ExperimentError,
>)
    ensures
        channel_map is None ==> r is Err,
        channel_map matches Some(keys) ==> {
            &&& (r is Ok <==> key_views(keys@).contains(name_key(name@)))
            &&& (r matches Ok(p) ==> p < keys@.len() && keys@[p as int]@ == name_key(name@))
            &&& (r matches Err(ExperimentError::InvalidConfig(m)) ==> m@ == name_message(unknown_code@, name@))
        },
{
    let keys = match channel_map {
        None => {
            return Err(
                ExperimentError::InvalidConfig("InvalidSpecMissingChannel: channel map missing".to_string()),
            );
        },
        Some(k) => k,
    };
    let key = ChannelKey::from_name(name);
    match find_key(keys, &key) {
        Some(p) => Ok(p),
        None => Err(name_error(unknown_code, name)),
    }
}

/// Whether the table maps `name` to `value` at its first entry for `name`.
pub open spec fn first_entry(table: Seq<(String, usize)>, name: Seq<char>, i: int) -> bool {
    0 <= i < table.len() && table[i].0@ == name && forall|t: int| 0 <= t < i ==> (#[trigger] table[t]).0@ != name
}

/// The index the table gives the letter `name` (its first entry for it); an
/// error (`unknown_code: name`) when it has none.
pub fn resolve_letter_name(name: &str, name_to_idx: &[(String, usize)], unknown_code: &str) -> (r: Result<
    usize,
    ExperimentError,
>)
    ensures
        r is Ok <==> exists|i: int| 0 <= i < name_to_idx@.len() && (#[trigger] name_to_idx@[i]).0@ == name@,
        r matches Ok(v) ==> exists|i: int| first_entry(name_to_idx@, name@, i) && name_to_idx@[i].1 == v,
        r matches Err(ExperimentError::InvalidConfig(m)) ==> m@ == name_message(unknown_code@, name@),
{
    let mut i: usize = 0;
    while i < name_to_idx.len()
        invariant
            i <= name_to_idx@.len(),
            forall|t: int| 0 <= t < i ==> (#[trigger] name_to_idx@[t]).0@ != name@,
        decreases name_to_idx@.len() - i,
    {
        if str_eq(name_to_idx[i].0.as_str(), name) {
            proof {
                assert(first_entry(name_to_idx@, name@, i as int));
            }
            return Ok(name_to_idx[i].1);
        }
        i += 1;
    }
    Err(name_error(unknown_code, name))
}

/// A rule of a genealogical acceptor as a spec writes it: once `if_seen` has
/// been seen, the names in `forbid` may not follow.
#[derive(Clone, Debug)]
pub struct SpecRule {
    pub if_seen: String,
    pub forbid: Vec<String>,
}

/// One automaton acceptor as a spec writes it.
#[derive(Clone, Debug)]
pub enum SpecAutomatonAcceptor {
    Genealogical { seen: Option<String>, rules: Vec<SpecRule> },
    KGram { k: usize, mode: String, triplets: Vec<(String, String, String)> },
    ChannelPairs { mode: String, symmetric: Option<bool>, pairs: Vec<(u16, u16)> },
}

/// The automaton part of a spec.
#[derive(Clone, Debug)]
pub struct SpecAutomaton {
    pub acceptors: Option<Vec<SpecAutomatonAcceptor>>,
}

/// The constraints of a spec, as far as the automaton acceptors go.
#[derive(Clone, Debug)]
pub struct SpecConstraints {
    pub automaton: Option<SpecAutomaton>,
}

/// Whether a k-gram or channel-pair list names what is allowed or forbidden.
#[derive(Clone, Copy, Debug, PartialEq, Eq, Structural)]
pub enum ListMode {
    Allowed,
    Forbidden,
}

/// The arguments of a genealogical acceptor: each letter's key, the number
/// of keys, and the rules as key indices (forbidden keys increasing).
#[derive(Clone, Debug)]
pub struct GenealogicalPlan {
    pub letter_to_key: Vec<usize>,
    pub key_count: usize,
    pub rules: Vec<(usize, Vec<usize>)>,
}

/// The arguments of a k-gram acceptor: its mode and the letter triplets.
#[derive(Clone, Debug)]
pub struct KGramPlan {
    pub mode: ListMode,
    pub ids: Vec<(usize, usize, usize)>,
}

/// The arguments of a channel-pairs acceptor.
#[derive(Clone, Debug)]
pub struct ChannelPairsPlan {
    pub letter_to_channel: Vec<u16>,
    pub mode: ListMode,
    pub symmetric: bool,
    pub pairs: Vec<(u16, u16)>,
}

/// The acceptors of a spec's automaton, by kind, and the order in which they
/// are applied.
#[derive(Clone, Debug)]
pub struct AutomatonPlan {
    pub genealogical: Vec<GenealogicalPlan>,
    pub kgrams: Vec<KGramPlan>,
    pub channel_pairs: Vec<ChannelPairsPlan>,
    pub order: Vec<AutomatonAcceptorRef>,
}

/// The acceptor specs of a spec (none without an automaton or a list).
pub open spec fn acceptor_specs(spec: SpecConstraints) -> Seq<SpecAutomatonAcceptor> {
    match spec.automaton {
        Some(a) => match a.acceptors {
            Some(l) => l@,
            None => Seq::empty(),
        },
        None => Seq::empty(),
    }
}

/// The kind of a reference: 0 for k-gram, 1 genealogical, 2 channel pairs.
pub open spec fn ref_kind(r: AutomatonAcceptorRef) -> int {
    match r {
        AutomatonAcceptorRef::KGram(_) => 0,
        AutomatonAcceptorRef::Genealogical(_) => 1,
        AutomatonAcceptorRef::ChannelPairs(_) => 2,
    }
}

/// The number of references of a kind.
pub open spec fn kind_count(order: Seq<AutomatonAcceptorRef>, kind: int) -> nat
    decreases order.len(),
{
    if order.len() == 0 {
        0
    } else {
        kind_count(order.drop_last(), kind) + if ref_kind(order.last()) == kind {
            1nat
        } else {
            0nat
        }
    }
}

/// The order of the acceptors a list of specs yields: one reference per spec,
/// in the specs' order, numbered from 0 within each kind; a genealogical spec
/// without rules yields none.
pub open spec fn planned_order(specs: Seq<SpecAutomatonAcceptor>) -> Seq<AutomatonAcceptorRef>
    decreases specs.len(),
{
    if specs.len() == 0 {
        Seq::empty()
    } else {
        let prev = planned_order(specs.drop_last());
        match specs.last() {
            SpecAutomatonAcceptor::Genealogical { rules, .. } => if rules@.len() == 0 {
                prev
            } else {
                prev.push(AutomatonAcceptorRef::Genealogical(kind_count(prev, 1) as usize))
            },
            SpecAutomatonAcceptor::KGram { .. } => prev.push(AutomatonAcceptorRef::KGram(kind_count(prev, 0) as usize)),
            SpecAutomatonAcceptor::ChannelPairs { .. } => prev.push(
                AutomatonAcceptorRef::ChannelPairs(kind_count(prev, 2) as usize),
            ),
        }
    }
}

/// Some letter of the table is named `name`.
pub open spec fn letter_known(table: Seq<(String, usize)>, name: Seq<char>) -> bool {
    exists|i: int| 0 <= i < table.len() && (#[trigger] table[i]).0@ == name
}

/// Some letter's channel has the key of `name`.
pub open spec fn channel_known(chs: Seq<Option<ChannelView>>, name: Seq<char>) -> bool {
    exists|i: int| 0 <= i < chs.len() && letter_key(#[trigger] chs[i]) == name_key(name)
}

/// Some letter's channel is the number `v`.
pub open spec fn channel_number_known(chs: Seq<Option<ChannelView>>, v: u16) -> bool {
    exists|i: int| 0 <= i < chs.len() && #[trigger] channel_number(chs[i]) == Some(v)
}

/// The genealogical mode a spec names: by channel unless it says otherwise.
pub open spec fn seen_mode(seen: Option<String>) -> Seq<char> {
    match seen {
        Some(m) => m@,
        None => "channel"@,
    }
}

/// A name of a rule is unknown in the rule's mode.
pub open spec fn rule_name_unknown(letter_mode: bool, table: Seq<(String, usize)>, chs: Seq<Option<ChannelView>>, name: Seq<char>) -> bool {
    if letter_mode {
        !letter_known(table, name)
    } else {
        !channel_known(chs, name)
    }
}

/// The index the table gives a letter name: that of its first entry for it.
pub open spec fn letter_value(table: Seq<(String, usize)>, name: Seq<char>) -> usize {
    table[choose|i: int| first_entry(table, name, i)].1
}

/// What a name of a rule stands for: in letter mode the letter's index, else
/// the key of the channel it names.
pub open spec fn name_target(letter_mode: bool, table: Seq<(String, usize)>, name: Seq<char>) -> (usize, ChannelView) {
    if letter_mode {
        (letter_value(table, name), ChannelView::Named(Seq::empty()))
    } else {
        (0, name_key(name))
    }
}

/// What makes a genealogical rule unusable on its own: an unknown name, or
/// two forbidden names that stand for the same letter or channel.
pub open spec fn rule_refused(letter_mode: bool, table: Seq<(String, usize)>, chs: Seq<Option<ChannelView>>, rule: SpecRule) -> bool {
    ||| rule_name_unknown(letter_mode, table, chs, rule.if_seen@)
    ||| (exists|f: int| 0 <= f < rule.forbid@.len() && rule_name_unknown(letter_mode, table, chs, (#[trigger] rule.forbid@[f])@))
    ||| (exists|f: int, g: int|
        0 <= f < g < rule.forbid@.len() && name_target(letter_mode, table, (#[trigger] rule.forbid@[f])@) == name_target(
            letter_mode,
            table,
            (#[trigger] rule.forbid@[g])@,
        ))
}

/// The name stands for what some forbidden name in `b` stands for.
pub open spec fn name_covered(letter_mode: bool, table: Seq<(String, usize)>, name: Seq<char>, b: Seq<String>) -> bool {
    exists|g: int| 0 <= g < b.len() && name_target(letter_mode, table, name) == name_target(letter_mode, table, (#[trigger] b[g])@)
}

/// Each forbidden name of `a` stands for what some forbidden name of `b`
/// stands for.
pub open spec fn forbid_covered(letter_mode: bool, table: Seq<(String, usize)>, a: Seq<String>, b: Seq<String>) -> bool {
    forall|f: int| 0 <= f < a.len() ==> #[trigger] name_covered(letter_mode, table, a[f]@, b)
}

/// Two rules that say the same: the same `if_seen`, and as many forbidden
/// names, each of `a`'s standing for what one of `b`'s stands for.
pub open spec fn same_rule(letter_mode: bool, table: Seq<(String, usize)>, a: SpecRule, b: SpecRule) -> bool {
    &&& name_target(letter_mode, table, a.if_seen@) == name_target(letter_mode, table, b.if_seen@)
    &&& a.forbid@.len() == b.forbid@.len()
    &&& forbid_covered(letter_mode, table, a.forbid@, b.forbid@)
}

/// Some rule of the list is refused.
pub open spec fn some_rule_refused(letter_mode: bool, table: Seq<(String, usize)>, chs: Seq<Option<ChannelView>>, rules: Seq<SpecRule>) -> bool {
    exists|j: int| 0 <= j < rules.len() && rule_refused(letter_mode, table, chs, #[trigger] rules[j])
}

/// Some rule of the list is given twice.
pub open spec fn rule_repeated(letter_mode: bool, table: Seq<(String, usize)>, rules: Seq<SpecRule>) -> bool {
    exists|j: int, l: int| 0 <= j < l < rules.len() && same_rule(letter_mode, table, #[trigger] rules[j], #[trigger] rules[l])
}

/// Every letter of the triplets is known to the table.
pub open spec fn triplets_known(table: Seq<(String, usize)>, triplets: Seq<(String, String, String)>) -> bool {
    forall|t: int|
        0 <= t < triplets.len() ==> letter_known(table, (#[trigger] triplets[t]).0@) && letter_known(table, triplets[t].1@)
            && letter_known(table, triplets[t].2@)
}

/// Every channel of the pairs is some letter's channel number.
pub open spec fn pairs_known(chs: Seq<Option<ChannelView>>, pairs: Seq<(u16, u16)>) -> bool {
    forall|t: int| 0 <= t < pairs.len() ==> channel_number_known(chs, (#[trigger] pairs[t]).0) && channel_number_known(chs, pairs[t].1)
}

/// Every letter has a channel number.
pub open spec fn all_numbered(chs: Seq<Option<ChannelView>>) -> bool {
    forall|i: int| 0 <= i < chs.len() ==> #[trigger] channel_number(chs[i]) is Some
}

/// Some letter lacks a channel.
pub open spec fn some_channel_missing(chs: Seq<Option<ChannelView>>) -> bool {
    exists|i: int| 0 <= i < chs.len() && channel_missing(#[trigger] chs[i])
}

/// The list mode a spec names, if it names one.
pub open spec fn mode_of(mode: Seq<char>) -> Option<ListMode> {
    if mode == "allowed"@ {
        Some(ListMode::Allowed)
    } else if mode == "forbidden"@ {
        Some(ListMode::Forbidden)
    } else {
        None
    }
}

/// An acceptor spec that the plan refuses. A k-gram spec: a length other
/// than 3, an unknown mode, an empty allow list, or an unknown letter in a
/// triplet. A genealogical spec: a mode other than `channel` and `letter`, in
/// channel mode a letter without a channel, a rule with an unknown name or a
/// name forbidden twice, or a rule given twice. A channel-pairs spec: an
/// unknown mode, an empty allow list, a letter without a channel number, or
/// a pair naming a channel no letter has.
#[verifier::opaque]
pub open spec fn acceptor_refused(a: SpecAutomatonAcceptor, table: Seq<(String, usize)>, chs: Seq<Option<ChannelView>>) -> bool {
    match a {
        SpecAutomatonAcceptor::KGram { k, mode, triplets } => {
            ||| k != 3
            ||| mode_of(mode@) is None
            ||| (mode_of(mode@) == Some(ListMode::Allowed) && triplets@.len() == 0)
            ||| !triplets_known(table, triplets@)
        },
        SpecAutomatonAcceptor::Genealogical { seen, rules } => {
            let letter_mode = seen_mode(seen) == "letter"@;
            ||| (seen_mode(seen) != "letter"@ && seen_mode(seen) != "channel"@)
            ||| (!letter_mode && some_channel_missing(chs))
            ||| some_rule_refused(letter_mode, table, chs, rules@)
            ||| rule_repeated(letter_mode, table, rules@)
        },
        SpecAutomatonAcceptor::ChannelPairs { mode, pairs, .. } => {
            ||| mode_of(mode@) is None
            ||| (mode_of(mode@) == Some(ListMode::Allowed) && pairs@.len() == 0)
            ||| !all_numbered(chs)
            ||| !pairs_known(chs, pairs@)
        },
    }
}

/// The plan holds, at the place the order gives the acceptor that follows
/// `prev`, the arguments its spec `a` asks for: for a k-gram spec its mode and
/// the letter indices of its triplets; for a channel-pairs spec each letter's
/// channel number, its mode, symmetry and pairs; for a genealogical spec with
/// rules one resolved rule per rule.
#[verifier::opaque]
pub open spec fn plan_entry_of(
    gs: Seq<GenealogicalPlan>,
    ks: Seq<KGramPlan>,
    cs: Seq<ChannelPairsPlan>,
    a: SpecAutomatonAcceptor,
    prev: Seq<AutomatonAcceptorRef>,
    table: Seq<(String, usize)>,
    chs: Seq<Option<ChannelView>>,
) -> bool {
    match a {
        SpecAutomatonAcceptor::KGram { mode, triplets, .. } => {
            let e = ks[kind_count(prev, 0) as int];
            &&& kind_count(prev, 0) < ks.len()
            &&& Some(e.mode) == mode_of(mode@)
            &&& e.ids@.len() == triplets@.len()
            &&& forall|t: int|
                0 <= t < triplets@.len() ==> #[trigger] e.ids@[t] == (
                    letter_value(table, triplets@[t].0@),
                    letter_value(table, triplets@[t].1@),
                    letter_value(table, triplets@[t].2@),
                )
        },
        SpecAutomatonAcceptor::ChannelPairs { mode, symmetric, pairs } => {
            let e = cs[kind_count(prev, 2) as int];
            &&& kind_count(prev, 2) < cs.len()
            &&& Some(e.mode) == mode_of(mode@)
            &&& e.symmetric == (symmetric == Some(true))
            &&& e.pairs@ == pairs@
            &&& e.letter_to_channel@.len() == chs.len()
            &&& forall|i: int| 0 <= i < chs.len() ==> Some(#[trigger] e.letter_to_channel@[i]) == channel_number(chs[i])
        },
        SpecAutomatonAcceptor::Genealogical { rules, .. } => rules@.len() > 0 ==> {
            &&& kind_count(prev, 1) < gs.len()
            &&& gs[kind_count(prev, 1) as int].rules@.len() == rules@.len()
        },
    }
}

/// An entry of the plan stays when the lists only grow.
proof fn lemma_entry_kept(
    gs: Seq<GenealogicalPlan>,
    ks: Seq<KGramPlan>,
    cs: Seq<ChannelPairsPlan>,
    gs2: Seq<GenealogicalPlan>,
    ks2: Seq<KGramPlan>,
    cs2: Seq<ChannelPairsPlan>,
    a: SpecAutomatonAcceptor,
    prev: Seq<AutomatonAcceptorRef>,
    table: Seq<(String, usize)>,
    chs: Seq<Option<ChannelView>>,
)
    requires
        plan_entry_of(gs, ks, cs, a, prev, table, chs),
        gs.len() <= gs2.len() && forall|x: int| 0 <= x < gs.len() ==> #[trigger] gs2[x] == gs[x],
        ks.len() <= ks2.len() && forall|x: int| 0 <= x < ks.len() ==> #[trigger] ks2[x] == ks[x],
        cs.len() <= cs2.len() && forall|x: int| 0 <= x < cs.len() ==> #[trigger] cs2[x] == cs[x],
    ensures
        plan_entry_of(gs2, ks2, cs2, a, prev, table, chs),
{
    reveal(plan_entry_of);
    match a {
        SpecAutomatonAcceptor::KGram { .. } => {
            assert(ks2[kind_count(prev, 0) as int] == ks[kind_count(prev, 0) as int]);
        },
        SpecAutomatonAcceptor::ChannelPairs { .. } => {
            assert(cs2[kind_count(prev, 2) as int] == cs[kind_count(prev, 2) as int]);
        },
        SpecAutomatonAcceptor::Genealogical { rules, .. } => {
            if rules@.len() > 0 {
                assert(gs2[kind_count(prev, 1) as int] == gs[kind_count(prev, 1) as int]);
            }
        },
    }
}

/// A genealogical spec with a refused rule is refused.
proof fn lemma_rule_refused(seen: Option<String>, rules: Vec<SpecRule>, table: Seq<(String, usize)>, chs: Seq<Option<ChannelView>>, j: int)
    requires
        0 <= j < rules@.len(),
        rule_refused(seen_mode(seen) == "letter"@, table, chs, rules@[j]),
    ensures
        acceptor_refused(SpecAutomatonAcceptor::Genealogical { seen, rules }, table, chs),
{
    reveal(acceptor_refused);
    assert(some_rule_refused(seen_mode(seen) == "letter"@, table, chs, rules@));
}

/// A genealogical spec with a rule given twice is refused.
proof fn lemma_duplicate_refused(
    seen: Option<String>,
    rules: Vec<SpecRule>,
    table: Seq<(String, usize)>,
    chs: Seq<Option<ChannelView>>,
    j: int,
    l: int,
)
    requires
        0 <= j < l < rules@.len(),
        same_rule(seen_mode(seen) == "letter"@, table, rules@[j], rules@[l]),
    ensures
        acceptor_refused(SpecAutomatonAcceptor::Genealogical { seen, rules }, table, chs),
{
    reveal(acceptor_refused);
    assert(rule_repeated(seen_mode(seen) == "letter"@, table, rules@));
}

/// The entries of the first `i` specs stay when the lists only grow.
proof fn lemma_entries_kept(
    gs: Seq<GenealogicalPlan>,
    ks: Seq<KGramPlan>,
    cs: Seq<ChannelPairsPlan>,
    gs2: Seq<GenealogicalPlan>,
    ks2: Seq<KGramPlan>,
    cs2: Seq<ChannelPairsPlan>,
    specs: Seq<SpecAutomatonAcceptor>,
    i: int,
    table: Seq<(String, usize)>,
    chs: Seq<Option<ChannelView>>,
)
    requires
        0 <= i <= specs.len(),
        forall|t: int| 0 <= t < i ==> plan_entry_of(gs, ks, cs, #[trigger] specs[t], planned_order(specs.subrange(0, t)), table, chs),
        gs.len() <= gs2.len() && forall|x: int| 0 <= x < gs.len() ==> #[trigger] gs2[x] == gs[x],
        ks.len() <= ks2.len() && forall|x: int| 0 <= x < ks.len() ==> #[trigger] ks2[x] == ks[x],
        cs.len() <= cs2.len() && forall|x: int| 0 <= x < cs.len() ==> #[trigger] cs2[x] == cs[x],
    ensures
        forall|t: int| 0 <= t < i ==> plan_entry_of(gs2, ks2, cs2, #[trigger] specs[t], planned_order(specs.subrange(0, t)), table, chs),
{
    assert forall|t: int| 0 <= t < i implies plan_entry_of(gs2, ks2, cs2, #[trigger] specs[t], planned_order(specs.subrange(0, t)), table, chs) by {
        lemma_entry_kept(gs, ks, cs, gs2, ks2, cs2, specs[t], planned_order(specs.subrange(0, t)), table, chs);
    }
}

/// The error of an acceptor spec.
fn spec_error(msg: &str) -> (r: ExperimentError) {
    ExperimentError::InvalidConfig(msg.to_string())
}

/// Whether `x` occurs in `v`.
fn contains_usize(v: &Vec<usize>, x: usize) -> (r: bool)
    ensures
        r == v@.contains(x),
{
    let mut i: usize = 0;
    while i < v.len()
        invariant
            i <= v@.len(),
            forall|t: int| 0 <= t < i ==> v@[t] != x,
        decreases v@.len() - i,
    {
        if v[i] == x {
            proof {
                assert(v@[i as int] == x);
            }
            return true;
        }
        i += 1;
    }
    false
}

/// `v` in increasing order, without repeats.
fn sorted_set(v: &Vec<usize>) -> (r: Vec<usize>)
    ensures
        forall|a: int, b: int| 0 <= a < b < r@.len() ==> #[trigger] r@[a] < #[trigger] r@[b],
        forall|x: usize| r@.contains(x) <==> v@.contains(x),
{
    let mut out: Vec<usize> = Vec::new();
    let mut i: usize = 0;
    while i < v.len()
        invariant
            i <= v@.len(),
            forall|a: int, b: int| 0 <= a < b < out@.len() ==> #[trigger] out@[a] < #[trigger] out@[b],
            forall|x: usize| out@.contains(x) <==> v@.subrange(0, i as int).contains(x),
        decreases v@.len() - i,
    {
        let x = v[i];
        let ghost before = out@;
        let mut pos: usize = 0;
        while pos < out.len() && out[pos] < x
            invariant
                pos <= out@.len(),
                forall|t: int| 0 <= t < pos ==> out@[t] < x,
            decreases out@.len() - pos,
        {
            pos += 1;
        }
        let ghost mut inserted = false;
        if pos < out.len() && out[pos] == x {
        } else {
            out.insert(pos, x);
            proof {
                inserted = true;
            }
            proof {
                assert forall|a: int, b: int| 0 <= a < b < out@.len() implies #[trigger] out@[a] < #[trigger] out@[b] by {
                    if b < pos {
                        assert(out@[a] == before[a] && out@[b] == before[b]);
                    } else if b == pos {
                        assert(out@[a] == before[a]);
                    } else if a < pos {
                        assert(out@[a] == before[a] && out@[b] == before[b - 1]);
                        if pos < before.len() {
                            assert(before[pos as int] > x);
                            assert(before[a] < x);
                        }
                        assert(before[a] < before[b - 1] || a == b - 1 || before[a] < x);
                    } else if a == pos {
                        assert(out@[b] == before[b - 1]);
                        assert(before[pos as int] > x);
                        assert(pos == b - 1 || before[pos as int] < before[b - 1]);
                    } else {
                        assert(out@[a] == before[a - 1] && out@[b] == before[b - 1]);
                    }
                }
            }
        }
        proof {
            assert(inserted ==> out@ == before.insert(pos as int, x));
            if inserted {
                before.insert_ensures(pos as int, x);
            }
            assert(!inserted ==> out@ == before && pos < before.len() && before[pos as int] == x);
            let sub = v@.subrange(0, i as int + 1);
            assert(sub =~= v@.subrange(0, i as int).push(x));
            assert forall|y: usize| out@.contains(y) <==> sub.contains(y) by {
                if out@.contains(y) {
                    let t = choose|t: int| 0 <= t < out@.len() && out@[t] == y;
                    if y != x {
                        if t < pos {
                            assert(before[t] == y);
                        } else if out@.len() == before.len() {
                            assert(before[t] == y);
                        } else {
                            assert(t > pos);
                            assert(before[t - 1] == y);
                        }
                        assert(before.contains(y));
                        let w = choose|w: int| 0 <= w < i && v@.subrange(0, i as int)[w] == y;
                        assert(sub[w] == y);
                    } else {
                        assert(sub[i as int] == x);
                    }
                }
                if sub.contains(y) {
                    if y == x {
                        assert(out@[pos as int] == x);
                    } else {
                        assert(v@.subrange(0, i as int).contains(y));
                        assert(before.contains(y));
                        let t = choose|t: int| 0 <= t < before.len() && before[t] == y;
                        if !inserted {
                            assert(out@[t] == y);
                        } else if t < pos {
                            assert(before.insert(pos as int, x)[t] == before[t]);
                            assert(out@[t] == y);
                        } else {
                            assert(before.insert(pos as int, x)[t + 1] == before[t]);
                            assert(out@[t + 1] == y);
                        }
                    }
                }
            }
        }
        i += 1;
    }
    proof {
        assert(v@.subrange(0, v@.len() as int) =~= v@);
    }
    out
}


/// `v` is what `name` resolves to: in letter mode the index of the table's
/// first entry for it, else the place of its channel key in the key list.
pub open spec fn resolves_to(letter_mode: bool, table: Seq<(String, usize)>, keys: Seq<ChannelView>, name: Seq<char>, v: usize) -> bool {
    if letter_mode {
        exists|i: int| first_entry(table, name, i) && table[i].1 == v
    } else {
        v < keys.len() && keys[v as int] == name_key(name)
    }
}

/// Two resolved names agree exactly when the names stand for the same thing.
proof fn lemma_target_eq(
    letter_mode: bool,
    table: Seq<(String, usize)>,
    keys: Seq<ChannelView>,
    a: Seq<char>,
    b: Seq<char>,
    v: usize,
    w: usize,
)
    requires
        keys_sorted(keys),
        resolves_to(letter_mode, table, keys, a, v),
        resolves_to(letter_mode, table, keys, b, w),
    ensures
        (v == w) <==> (name_target(letter_mode, table, a) == name_target(letter_mode, table, b)),
{
    if letter_mode {
        lemma_letter_value(table, a, v);
        lemma_letter_value(table, b, w);
    } else {
        if v < w {
            lemma_key_lt_order(keys[v as int], keys[w as int], keys[w as int]);
        } else if w < v {
            lemma_key_lt_order(keys[w as int], keys[v as int], keys[v as int]);
        }
    }
}

/// A letter name resolves to the index of its first entry.
proof fn lemma_letter_value(table: Seq<(String, usize)>, name: Seq<char>, v: usize)
    requires
        exists|i: int| first_entry(table, name, i) && table[i].1 == v,
    ensures
        letter_value(table, name) == v,
{
    let i = choose|i: int| first_entry(table, name, i) && table[i].1 == v;
    let c = choose|i: int| first_entry(table, name, i);
    if c < i {
        assert(table[c].0@ == name);
    } else if i < c {
        assert(table[i].0@ == name);
    }
}

/// For resolved forbidden lists, each value of `va` occurring in `vb` is the
/// same as `a` being covered by `b`.
proof fn lemma_covered_values(
    letter_mode: bool,
    table: Seq<(String, usize)>,
    kv: Seq<ChannelView>,
    a: Seq<String>,
    b: Seq<String>,
    va: Seq<usize>,
    vb: Seq<usize>,
)
    requires
        keys_sorted(kv),
        va.len() == a.len(),
        vb.len() == b.len(),
        forall|k: int| 0 <= k < a.len() ==> resolves_to(letter_mode, table, kv, (#[trigger] a[k])@, va[k]),
        forall|k: int| 0 <= k < b.len() ==> resolves_to(letter_mode, table, kv, (#[trigger] b[k])@, vb[k]),
    ensures
        forbid_covered(letter_mode, table, a, b) <==> forall|k: int| 0 <= k < va.len() ==> vb.contains(#[trigger] va[k]),
{
    if forbid_covered(letter_mode, table, a, b) {
        assert forall|k: int| 0 <= k < va.len() implies vb.contains(#[trigger] va[k]) by {
            assert(name_covered(letter_mode, table, a[k]@, b));
            let g = choose|g: int|
                0 <= g < b.len() && name_target(letter_mode, table, a[k]@) == name_target(letter_mode, table, (#[trigger] b[g])@);
            lemma_target_eq(letter_mode, table, kv, a[k]@, b[g]@, va[k], vb[g]);
            assert(vb[g] == va[k]);
        }
    }
    if forall|k: int| 0 <= k < va.len() ==> vb.contains(#[trigger] va[k]) {
        assert forall|f: int| 0 <= f < a.len() implies #[trigger] name_covered(letter_mode, table, a[f]@, b) by {
            assert(vb.contains(va[f]));
            let g = choose|g: int| 0 <= g < vb.len() && vb[g] == va[f];
            lemma_target_eq(letter_mode, table, kv, a[f]@, b[g]@, va[f], vb[g]);
            assert(0 <= g < b.len() && name_target(letter_mode, table, a[f]@) == name_target(letter_mode, table, b[g]@));
        }
    }
}

/// The key list holds exactly the keys of the letters' channels.
pub open spec fn keys_of_letters(keys: Seq<ChannelView>, chs: Seq<Option<ChannelView>>) -> bool {
    &&& keys_sorted(keys)
    &&& forall|k: ChannelView| keys.contains(k) <==> exists|i: int| 0 <= i < chs.len() && letter_key(#[trigger] chs[i]) == k
}

/// What a rule's name resolves to, in the rule's mode.
fn resolve_rule_name(
    name: &str,
    letter_mode: bool,
    name_to_idx: &[(String, usize)],
    keys: &Vec<ChannelKey>,
    Ghost(chs): Ghost<Seq<Option<ChannelView>>>,
) -> (r: Result<usize, ExperimentError>)
    requires
        letter_mode || keys_of_letters(key_views(keys@), chs),
    ensures
        r is Ok <==> !rule_name_unknown(letter_mode, name_to_idx@, chs, name@),
        r matches Ok(v) ==> resolves_to(letter_mode, name_to_idx@, key_views(keys@), name@, v),
{
    if letter_mode {
        resolve_letter_name(name, name_to_idx, "InvalidSpecUnknownLetter")
    } else {
        let r = resolve_channel_name(name, Some(keys), "InvalidSpecUnknownChannel");
        proof {
            let kv = key_views(keys@);
            if channel_known(chs, name@) {
                let i = choose|i: int| 0 <= i < chs.len() && letter_key(#[trigger] chs[i]) == name_key(name@);
                assert(kv.contains(name_key(name@)));
            }
            if kv.contains(name_key(name@)) {
                assert(exists|i: int| 0 <= i < chs.len() && letter_key(#[trigger] chs[i]) == name_key(name@));
            }
            if r is Ok {
                let p = r->Ok_0;
                assert(kv[p as int] == keys@[p as int]@);
            }
        }
        r
    }
}

/// Whether the two lists hold the same values (each without repeats).
fn same_values(a: &Vec<usize>, b: &Vec<usize>) -> (r: bool)
    ensures
        r == (a@.len() == b@.len() && forall|k: int| 0 <= k < a@.len() ==> b@.contains(#[trigger] a@[k])),
{
    if a.len() != b.len() {
        return false;
    }
    let mut k: usize = 0;
    while k < a.len()
        invariant
            k <= a@.len(),
            forall|t: int| 0 <= t < k ==> b@.contains(#[trigger] a@[t]),
        decreases a@.len() - k,
    {
        if !contains_usize(b, a[k]) {
            return false;
        }
        k += 1;
    }
    true
}

/// A rule's names resolved: its `if_seen` and each forbidden name, in order.
/// An error for an unknown name or a name forbidden twice.
fn map_rule(
    rule: &SpecRule,
    letter_mode: bool,
    name_to_idx: &[(String, usize)],
    keys: &Vec<ChannelKey>,
    Ghost(chs): Ghost<Seq<Option<ChannelView>>>,
) -> (r: Result<(usize, Vec<usize>), ExperimentError>)
    requires
        letter_mode || keys_of_letters(key_views(keys@), chs),
        keys_sorted(key_views(keys@)),
    ensures
        r is Err <==> rule_refused(letter_mode, name_to_idx@, chs, *rule),
        r matches Ok((a, f)) ==> resolves_to(letter_mode, name_to_idx@, key_views(keys@), rule.if_seen@, a) && f@.len()
            == rule.forbid@.len() && (forall|k: int|
            0 <= k < f@.len() ==> resolves_to(letter_mode, name_to_idx@, key_views(keys@), (#[trigger] rule.forbid@[k])@, f@[k]))
            && (forall|k: int, l: int| 0 <= k < l < f@.len() ==> #[trigger] f@[k] != #[trigger] f@[l]),
{
    let ghost kv = key_views(keys@);
    let if_seen = match resolve_rule_name(rule.if_seen.as_str(), letter_mode, name_to_idx, keys, Ghost(chs)) {
        Ok(v) => v,
        Err(e) => {
            return Err(e);
        },
    };
    let mut forbid: Vec<usize> = Vec::new();
    let mut k: usize = 0;
    while k < rule.forbid.len()
        invariant
            letter_mode || keys_of_letters(kv, chs),
            kv == key_views(keys@),
            keys_sorted(kv),
            k <= rule.forbid@.len(),
            forbid@.len() == k,
            forall|t: int| 0 <= t < k ==> resolves_to(letter_mode, name_to_idx@, kv, (#[trigger] rule.forbid@[t])@, forbid@[t]),
            forall|t: int| 0 <= t < k ==> !rule_name_unknown(letter_mode, name_to_idx@, chs, (#[trigger] rule.forbid@[t])@),
        decreases rule.forbid@.len() - k,
    {
        let v = match resolve_rule_name(rule.forbid[k].as_str(), letter_mode, name_to_idx, keys, Ghost(chs)) {
            Ok(v) => v,
            Err(e) => {
                proof {
                    assert(rule_name_unknown(letter_mode, name_to_idx@, chs, rule.forbid@[k as int]@));
                }
                return Err(e);
            },
        };
        forbid.push(v);
        k += 1;
    }
    let mut a: usize = 0;
    while a < forbid.len()
        invariant
            kv == key_views(keys@),
            keys_sorted(kv),
            forbid@.len() == rule.forbid@.len(),
            forall|t: int| 0 <= t < forbid@.len() ==> resolves_to(letter_mode, name_to_idx@, kv, (#[trigger] rule.forbid@[t])@, forbid@[t]),
            a <= forbid@.len(),
            forall|t: int, l: int| 0 <= t < a && t < l < forbid@.len() ==> #[trigger] forbid@[t] != #[trigger] forbid@[l],
        decreases forbid@.len() - a,
    {
        let mut b: usize = a + 1;
        while b < forbid.len()
            invariant
                kv == key_views(keys@),
                keys_sorted(kv),
                forbid@.len() == rule.forbid@.len(),
                forall|t: int| 0 <= t < forbid@.len() ==> resolves_to(letter_mode, name_to_idx@, kv, (#[trigger] rule.forbid@[t])@, forbid@[t]),
                a < b <= forbid@.len(),
                forall|l: int| a < l < b ==> forbid@[a as int] != #[trigger] forbid@[l],
            decreases forbid@.len() - b,
        {
            if forbid[a] == forbid[b] {
                proof {
                    lemma_target_eq(letter_mode, name_to_idx@, kv, rule.forbid@[a as int]@, rule.forbid@[b as int]@, forbid@[a as int], forbid@[b as int]);
                    assert(name_target(letter_mode, name_to_idx@, rule.forbid@[a as int]@) == name_target(letter_mode, name_to_idx@, rule.forbid@[b as int]@));
                }
                return Err(spec_error("InvalidSpecDuplicateForbid"));
            }
            b += 1;
        }
        a += 1;
    }
    proof {
        assert forall|f: int, g: int| 0 <= f < g < rule.forbid@.len() implies name_target(
            letter_mode,
            name_to_idx@,
            (#[trigger] rule.forbid@[f])@,
        ) != name_target(letter_mode, name_to_idx@, (#[trigger] rule.forbid@[g])@) by {
            lemma_target_eq(letter_mode, name_to_idx@, kv, rule.forbid@[f]@, rule.forbid@[g]@, forbid@[f], forbid@[g]);
        }
        assert(!rule_refused(letter_mode, name_to_idx@, chs, *rule));
    }
    Ok((if_seen, forbid))
}


/// Whether `x` occurs in `v`.
fn contains_u16(v: &Vec<u16>, x: u16) -> (r: bool)
    ensures
        r == v@.contains(x),
{
    let mut i: usize = 0;
    while i < v.len()
        invariant
            i <= v@.len(),
            forall|t: int| 0 <= t < i ==> v@[t] != x,
        decreases v@.len() - i,
    {
        if v[i] == x {
            proof {
                assert(v@[i as int] == x);
            }
            return true;
        }
        i += 1;
    }
    false
}

/// The mode a list names.
fn list_mode(mode: &str) -> (r: Option<ListMode>)
    ensures
        r == mode_of(mode@),
{
    if str_eq(mode, "allowed") {
        Some(ListMode::Allowed)
    } else if str_eq(mode, "forbidden") {
        Some(ListMode::Forbidden)
    } else {
        None
    }
}

/// The plan of a genealogical spec with at least one rule.
fn plan_genealogical(
    seen: &Option<String>,
    rules: &Vec<SpecRule>,
    name_to_idx: &[(String, usize)],
    letter_channels: &[Option<SpecChannel>],
) -> (r: Result<Option<GenealogicalPlan>, ExperimentError>)
    ensures
        r matches Ok(o) ==> (o is None <==> rules@.len() == 0),
        r is Ok <==> !acceptor_refused(
            SpecAutomatonAcceptor::Genealogical { seen: *seen, rules: *rules },
            name_to_idx@,
            channel_views(letter_channels@),
        ),
        r matches Ok(Some(g)) ==> g.rules@.len() == rules@.len() && forall|j: int| 0 <= j < g.rules@.len() ==> forall|a: int, b: int|
            0 <= a < b < (#[trigger] g.rules@[j]).1@.len() ==> g.rules@[j].1@[a] < g.rules@[j].1@[b],
{
    let ghost chs = channel_views(letter_channels@);
    proof {
        reveal(acceptor_refused);
    }
    let mode: &str = match seen {
        Some(m) => m.as_str(),
        None => "channel",
    };
    proof {
        reveal_strlit("channel");
        reveal_strlit("letter");
        assert("channel"@[0] != "letter"@[0]);
        assert("channel"@ != "letter"@);
    }
    let letter_mode = if str_eq(mode, "channel") {
        false
    } else if str_eq(mode, "letter") {
        true
    } else {
        return Err(spec_error("InvalidSpecUnknownGenealogicalMode"));
    };
    assert(letter_mode == (seen_mode(*seen) == "letter"@));
    let mut keys: Vec<ChannelKey> = Vec::new();
    let mut letter_to_key: Vec<usize> = Vec::new();
    let key_count: usize;
    if letter_mode {
        let mut t: usize = 0;
        while t < name_to_idx.len()
            invariant
                t <= name_to_idx@.len(),
            decreases name_to_idx@.len() - t,
        {
            letter_to_key.push(t);
            t += 1;
        }
        key_count = name_to_idx.len();
    } else {
        let (k, idx) = match build_channel_key_map(letter_channels) {
            Ok(x) => x,
            Err(e) => {
                return Err(e);
            },
        };
        proof {
            let kv = key_views(k@);
            assert forall|c: ChannelView| kv.contains(c) <==> exists|i: int| 0 <= i < chs.len() && letter_key(#[trigger] chs[i]) == c by {
                if kv.contains(c) {
                    let t = choose|t: int| 0 <= t < kv.len() && kv[t] == c;
                    assert(k@[t]@ == c);
                }
                if exists|i: int| 0 <= i < chs.len() && letter_key(#[trigger] chs[i]) == c {
                    let i = choose|i: int| 0 <= i < chs.len() && letter_key(#[trigger] chs[i]) == c;
                    assert(kv[idx@[i] as int] == c);
                }
            }
        }
        key_count = k.len();
        keys = k;
        letter_to_key = idx;
    }
    if rules.len() == 0 {
        return Ok(None);
    }
    let ghost kv = key_views(keys@);
    let mut mapped: Vec<(usize, Vec<usize>)> = Vec::new();
    let mut seen_rules: Vec<(usize, Vec<usize>)> = Vec::new();
    let mut j: usize = 0;
    while j < rules.len()
        invariant
            kv == key_views(keys@),
            keys_sorted(kv),
            letter_mode || keys_of_letters(kv, chs),
            chs == channel_views(letter_channels@),
            j <= rules@.len(),
            seen_rules@.len() == j,
            mapped@.len() == j,
            forall|q: int| 0 <= q < j ==> resolves_to(letter_mode, name_to_idx@, kv, (#[trigger] rules@[q]).if_seen@, seen_rules@[q].0)
                && seen_rules@[q].1@.len() == rules@[q].forbid@.len() && forall|k: int|
                0 <= k < seen_rules@[q].1@.len() ==> resolves_to(
                    letter_mode,
                    name_to_idx@,
                    kv,
                    (#[trigger] rules@[q].forbid@[k])@,
                    seen_rules@[q].1@[k],
                ),
            forall|q: int| 0 <= q < j ==> !rule_refused(letter_mode, name_to_idx@, chs, #[trigger] rules@[q]),
            forall|q: int, l: int| 0 <= q < l < j ==> !same_rule(letter_mode, name_to_idx@, #[trigger] rules@[q], #[trigger] rules@[l]),
            letter_mode == (seen_mode(*seen) == "letter"@),
            seen_mode(*seen) == "letter"@ || seen_mode(*seen) == "channel"@,
            !letter_mode ==> !some_channel_missing(chs),
            forall|q: int| 0 <= q < j ==> forall|a: int, b: int|
                0 <= a < b < (#[trigger] mapped@[q]).1@.len() ==> mapped@[q].1@[a] < mapped@[q].1@[b],
        decreases rules@.len() - j,
    {
        let (if_seen, forbid) = match map_rule(&rules[j], letter_mode, name_to_idx, &keys, Ghost(chs)) {
            Ok(x) => x,
            Err(e) => {
                proof {
                    assert(rule_refused(letter_mode, name_to_idx@, chs, rules@[j as int]));
                    lemma_rule_refused(*seen, *rules, name_to_idx@, chs, j as int);
                }
                return Err(e);
            },
        };
        let mut q: usize = 0;
        while q < seen_rules.len()
            invariant
                kv == key_views(keys@),
                keys_sorted(kv),
                q <= seen_rules@.len(),
                seen_rules@.len() == j,
                j < rules@.len(),
                resolves_to(letter_mode, name_to_idx@, kv, rules@[j as int].if_seen@, if_seen),
                forbid@.len() == rules@[j as int].forbid@.len(),
                forall|k: int| 0 <= k < forbid@.len() ==> resolves_to(letter_mode, name_to_idx@, kv, (#[trigger] rules@[j as int].forbid@[k])@, forbid@[k]),
                forall|t: int| 0 <= t < j ==> resolves_to(letter_mode, name_to_idx@, kv, (#[trigger] rules@[t]).if_seen@, seen_rules@[t].0)
                    && seen_rules@[t].1@.len() == rules@[t].forbid@.len() && forall|k: int|
                    0 <= k < seen_rules@[t].1@.len() ==> resolves_to(
                        letter_mode,
                        name_to_idx@,
                        kv,
                        (#[trigger] rules@[t].forbid@[k])@,
                        seen_rules@[t].1@[k],
                    ),
                forall|t: int| 0 <= t < q ==> !same_rule(letter_mode, name_to_idx@, #[trigger] rules@[t], rules@[j as int]),
                letter_mode == (seen_mode(*seen) == "letter"@),
                chs == channel_views(letter_channels@),
            decreases seen_rules@.len() - q,
        {
            let ghost rq = rules@[q as int];
            let ghost rj = rules@[j as int];
            let ghost sq = seen_rules@[q as int];
            proof {
                lemma_target_eq(letter_mode, name_to_idx@, kv, rq.if_seen@, rj.if_seen@, sq.0, if_seen);
                lemma_covered_values(letter_mode, name_to_idx@, kv, rq.forbid@, rj.forbid@, sq.1@, forbid@);
            }
            if seen_rules[q].0 == if_seen && same_values(&seen_rules[q].1, &forbid) {
                proof {
                    assert(same_rule(letter_mode, name_to_idx@, rq, rj));
                    lemma_duplicate_refused(*seen, *rules, name_to_idx@, chs, q as int, j as int);
                }
                return Err(spec_error("InvalidSpecDuplicateRule"));
            }
            q += 1;
        }
        let sorted = sorted_set(&forbid);
        let ghost s0 = seen_rules@;
        let ghost m0 = mapped@;
        seen_rules.push((if_seen, forbid));
        mapped.push((if_seen, sorted));
        proof {
            assert forall|t: int| 0 <= t < j + 1 implies resolves_to(letter_mode, name_to_idx@, kv, (#[trigger] rules@[t]).if_seen@, seen_rules@[t].0)
                && seen_rules@[t].1@.len() == rules@[t].forbid@.len() && forall|k: int|
                0 <= k < seen_rules@[t].1@.len() ==> resolves_to(
                    letter_mode,
                    name_to_idx@,
                    kv,
                    (#[trigger] rules@[t].forbid@[k])@,
                    seen_rules@[t].1@[k],
                ) by {
                if t < j {
                    assert(seen_rules@[t] == s0[t]);
                }
            }
            assert forall|q: int, l: int| 0 <= q < l < j + 1 implies !same_rule(
                letter_mode,
                name_to_idx@,
                #[trigger] rules@[q],
                #[trigger] rules@[l],
            ) by {
                if l < j {
                } else {
                    assert(!same_rule(letter_mode, name_to_idx@, rules@[q], rules@[j as int]));
                }
            }
            assert forall|q: int| 0 <= q < j + 1 implies forall|a: int, b: int|
                0 <= a < b < (#[trigger] mapped@[q]).1@.len() ==> mapped@[q].1@[a] < mapped@[q].1@[b] by {
                if q < j {
                    assert(mapped@[q] == m0[q]);
                }
            }
        }
        j += 1;
    }
    Ok(Some(GenealogicalPlan { letter_to_key, key_count, rules: mapped }))
}

/// The plan of a k-gram spec.
fn plan_kgram(k: usize, mode: &str, triplets: &Vec<(String, String, String)>, name_to_idx: &[(String, usize)]) -> (r: Result<
    KGramPlan,
    ExperimentError,
>)
    ensures
        r is Ok <==> (k == 3 && mode_of(mode@) is Some && !(mode_of(mode@) == Some(ListMode::Allowed) && triplets@.len() == 0)
            && triplets_known(name_to_idx@, triplets@)),
        r matches Ok(p) ==> Some(p.mode) == mode_of(mode@) && p.ids@.len() == triplets@.len() && forall|t: int|
            0 <= t < triplets@.len() ==> #[trigger] p.ids@[t] == (
                letter_value(name_to_idx@, triplets@[t].0@),
                letter_value(name_to_idx@, triplets@[t].1@),
                letter_value(name_to_idx@, triplets@[t].2@),
            ),
{
    if k != 3 {
        let mut msg = String::from_str("kgram acceptor requires k=3 (got ");
        msg.append(u64_to_text(k as u64).as_str());
        msg.append(")");
        return Err(ExperimentError::InvalidConfig(msg));
    }
    let mode = match list_mode(mode) {
        Some(m) => m,
        None => {
            return Err(spec_error("unknown kgram mode"));
        },
    };
    if mode == ListMode::Allowed && triplets.len() == 0 {
        return Err(spec_error("InvalidSpecEmptyAllowList: kgram mode=allowed requires non-empty triplets"));
    }
    let mut ids: Vec<(usize, usize, usize)> = Vec::with_capacity(triplets.len());
    let mut t: usize = 0;
    while t < triplets.len()
        invariant
            t <= triplets@.len(),
            ids@.len() == t,
            forall|u: int|
                0 <= u < t ==> letter_known(name_to_idx@, (#[trigger] triplets@[u]).0@) && letter_known(
                    name_to_idx@,
                    triplets@[u].1@,
                ) && letter_known(name_to_idx@, triplets@[u].2@),
            forall|u: int|
                0 <= u < t ==> #[trigger] ids@[u] == (
                    letter_value(name_to_idx@, triplets@[u].0@),
                    letter_value(name_to_idx@, triplets@[u].1@),
                    letter_value(name_to_idx@, triplets@[u].2@),
                ),
        decreases triplets@.len() - t,
    {
        let a = resolve_letter_name(triplets[t].0.as_str(), name_to_idx, "kgram triplet references unknown letter")?;
        let b = resolve_letter_name(triplets[t].1.as_str(), name_to_idx, "kgram triplet references unknown letter")?;
        let c = resolve_letter_name(triplets[t].2.as_str(), name_to_idx, "kgram triplet references unknown letter")?;
        proof {
            lemma_letter_value(name_to_idx@, triplets@[t as int].0@, a);
            lemma_letter_value(name_to_idx@, triplets@[t as int].1@, b);
            lemma_letter_value(name_to_idx@, triplets@[t as int].2@, c);
        }
        ids.push((a, b, c));
        t += 1;
    }
    Ok(KGramPlan { mode, ids })
}

/// The plan of a channel-pairs spec.
fn plan_channel_pairs(mode: &str, symmetric: Option<bool>, pairs: &Vec<(u16, u16)>, letter_channels: &[Option<SpecChannel>]) -> (r:
    Result<ChannelPairsPlan, ExperimentError>)
    ensures
        r is Ok <==> (mode_of(mode@) is Some && !(mode_of(mode@) == Some(ListMode::Allowed) && pairs@.len() == 0)
            && all_numbered(channel_views(letter_channels@)) && pairs_known(channel_views(letter_channels@), pairs@)),
        r matches Ok(p) ==> Some(p.mode) == mode_of(mode@) && p.symmetric == (symmetric == Some(true)) && p.pairs@ == pairs@
            && p.letter_to_channel@.len() == letter_channels@.len() && forall|i: int|
            0 <= i < letter_channels@.len() ==> Some(#[trigger] p.letter_to_channel@[i]) == channel_number(
                channel_views(letter_channels@)[i],
            ),
{
    let ghost chs = channel_views(letter_channels@);
    let mode = match list_mode(mode) {
        Some(m) => m,
        None => {
            return Err(spec_error("unknown channel_pairs mode"));
        },
    };
    if mode == ListMode::Allowed && pairs.len() == 0 {
        return Err(spec_error("InvalidSpecEmptyAllowList: channel_pairs mode=allowed requires non-empty pairs"));
    }
    let (per_letter, ids) = build_channel_u16_map(letter_channels, "InvalidSpecMissingChannel", "InvalidSpecNonNumericChannel")?;
    let mut t: usize = 0;
    while t < pairs.len()
        invariant
            t <= pairs@.len(),
            chs == channel_views(letter_channels@),
            per_letter@.len() == chs.len(),
            forall|i: int| 0 <= i < chs.len() ==> channel_number(#[trigger] chs[i]) == Some(per_letter@[i]),
            forall|y: u16| ids@.contains(y) <==> per_letter@.contains(y),
            forall|u: int|
                0 <= u < t ==> channel_number_known(chs, (#[trigger] pairs@[u]).0) && channel_number_known(chs, pairs@[u].1),
        decreases pairs@.len() - t,
    {
        let (x, y) = pairs[t];
        if !contains_u16(&ids, x) || !contains_u16(&ids, y) {
            proof {
                if channel_number_known(chs, x) {
                    let i = choose|i: int| 0 <= i < chs.len() && #[trigger] channel_number(chs[i]) == Some(x);
                    assert(per_letter@[i] == x);
                    assert(per_letter@.contains(x));
                }
                if channel_number_known(chs, y) {
                    let i = choose|i: int| 0 <= i < chs.len() && #[trigger] channel_number(chs[i]) == Some(y);
                    assert(per_letter@[i] == y);
                    assert(per_letter@.contains(y));
                }
                assert(!channel_number_known(chs, pairs@[t as int].0) || !channel_number_known(chs, pairs@[t as int].1));
            }
            return Err(spec_error("InvalidSpecUnknownChannel"));
        }
        proof {
            let ix = choose|i: int| 0 <= i < per_letter@.len() && per_letter@[i] == x;
            assert(channel_number(chs[ix]) == Some(x));
            let iy = choose|i: int| 0 <= i < per_letter@.len() && per_letter@[i] == y;
            assert(channel_number(chs[iy]) == Some(y));
        }
        t += 1;
    }
    let symmetric = match symmetric {
        Some(b) => b,
        None => false,
    };
    let mut copied: Vec<(u16, u16)> = Vec::with_capacity(pairs.len());
    let mut t: usize = 0;
    while t < pairs.len()
        invariant
            t <= pairs@.len(),
            copied@ == pairs@.subrange(0, t as int),
        decreases pairs@.len() - t,
    {
        copied.push(pairs[t]);
        t += 1;
    }
    proof {
        assert(pairs@.subrange(0, pairs@.len() as int) =~= pairs@);
    }
    Ok(ChannelPairsPlan { letter_to_channel: per_letter, mode, symmetric, pairs: copied })
}

/// The plan of one acceptor spec, of its kind.
enum OnePlan {
    Genealogical(GenealogicalPlan),
    KGram(KGramPlan),
    ChannelPairs(ChannelPairsPlan),
}

/// The plan of one acceptor spec holds the arguments the spec asks for.
spec fn one_plan_of(o: OnePlan, a: SpecAutomatonAcceptor, table: Seq<(String, usize)>, chs: Seq<Option<ChannelView>>) -> bool {
    match (o, a) {
        (OnePlan::KGram(e), SpecAutomatonAcceptor::KGram { mode, triplets, .. }) => {
            &&& Some(e.mode) == mode_of(mode@)
            &&& e.ids@.len() == triplets@.len()
            &&& forall|t: int|
                0 <= t < triplets@.len() ==> #[trigger] e.ids@[t] == (
                    letter_value(table, triplets@[t].0@),
                    letter_value(table, triplets@[t].1@),
                    letter_value(table, triplets@[t].2@),
                )
        },
        (OnePlan::ChannelPairs(e), SpecAutomatonAcceptor::ChannelPairs { mode, symmetric, pairs }) => {
            &&& Some(e.mode) == mode_of(mode@)
            &&& e.symmetric == (symmetric == Some(true))
            &&& e.pairs@ == pairs@
            &&& e.letter_to_channel@.len() == chs.len()
            &&& forall|i: int| 0 <= i < chs.len() ==> Some(#[trigger] e.letter_to_channel@[i]) == channel_number(chs[i])
        },
        (OnePlan::Genealogical(e), SpecAutomatonAcceptor::Genealogical { rules, .. }) => rules@.len() > 0
            && e.rules@.len() == rules@.len(),
        _ => false,
    }
}

/// The plan of one acceptor spec: none for a genealogical spec without
/// rules, an error exactly when the spec is refused.
fn plan_one(a: &SpecAutomatonAcceptor, name_to_idx: &[(String, usize)], letter_channels: &[Option<SpecChannel>]) -> (r: Result<
    Option<OnePlan>,
    ExperimentError,
>)
    ensures
        r is Ok <==> !acceptor_refused(*a, name_to_idx@, channel_views(letter_channels@)),
        r matches Ok(o) ==> (o is None <==> (a matches SpecAutomatonAcceptor::Genealogical { rules, .. } && rules@.len() == 0)),
        r matches Ok(Some(o)) ==> one_plan_of(o, *a, name_to_idx@, channel_views(letter_channels@)),
{
    let ghost chs = channel_views(letter_channels@);
    match a {
        SpecAutomatonAcceptor::Genealogical { seen, rules } => {
            match plan_genealogical(seen, rules, name_to_idx, letter_channels) {
                Ok(Some(p)) => Ok(Some(OnePlan::Genealogical(p))),
                Ok(None) => Ok(None),
                Err(e) => Err(e),
            }
        },
        SpecAutomatonAcceptor::KGram { k, mode, triplets } => {
            proof {
                assert(acceptor_refused(*a, name_to_idx@, chs) <==> !(k == 3 && mode_of(mode@) is Some && !(mode_of(mode@)
                    == Some(ListMode::Allowed) && triplets@.len() == 0) && triplets_known(name_to_idx@, triplets@))) by {
                    reveal(acceptor_refused);
                }
            }
            match plan_kgram(*k, mode.as_str(), triplets, name_to_idx) {
                Ok(p) => Ok(Some(OnePlan::KGram(p))),
                Err(e) => Err(e),
            }
        },
        SpecAutomatonAcceptor::ChannelPairs { mode, symmetric, pairs } => {
            proof {
                assert(acceptor_refused(*a, name_to_idx@, chs) <==> !(mode_of(mode@) is Some && !(mode_of(mode@) == Some(
                    ListMode::Allowed,
                ) && pairs@.len() == 0) && all_numbered(chs) && pairs_known(chs, pairs@))) by {
                    reveal(acceptor_refused);
                }
            }
            match plan_channel_pairs(mode.as_str(), *symmetric, pairs, letter_channels) {
                Ok(p) => Ok(Some(OnePlan::ChannelPairs(p))),
                Err(e) => Err(e),
            }
        },
    }
}

/// A spec planned as `o`, put at the end of its kind's list, has its entry
/// there.
proof fn lemma_entry_new(
    gs: Seq<GenealogicalPlan>,
    ks: Seq<KGramPlan>,
    cs: Seq<ChannelPairsPlan>,
    o: Option<OnePlan>,
    a: SpecAutomatonAcceptor,
    prev: Seq<AutomatonAcceptorRef>,
    table: Seq<(String, usize)>,
    chs: Seq<Option<ChannelView>>,
)
    requires
        o is None ==> (a matches SpecAutomatonAcceptor::Genealogical { rules, .. } && rules@.len() == 0),
        o matches Some(x) ==> one_plan_of(x, a, table, chs),
        o matches Some(OnePlan::KGram(e)) ==> kind_count(prev, 0) < ks.len() && ks[kind_count(prev, 0) as int] == e,
        o matches Some(OnePlan::ChannelPairs(e)) ==> kind_count(prev, 2) < cs.len() && cs[kind_count(prev, 2) as int] == e,
        o matches Some(OnePlan::Genealogical(e)) ==> kind_count(prev, 1) < gs.len() && gs[kind_count(prev, 1) as int] == e,
    ensures
        plan_entry_of(gs, ks, cs, a, prev, table, chs),
{
    reveal(plan_entry_of);
}

/// The acceptors a spec's automaton asks for, as the arguments of their
/// constructors, and the order in which they apply. Without an automaton the
/// plan is empty; each acceptor spec adds one reference to the order, in
/// turn, numbered from 0 within its kind (a genealogical spec without rules
/// adds none), and its arguments to its kind's list. The plan is refused
/// exactly when one of the specs is.
#[verifier::spinoff_prover]
#[verifier::rlimit(60)]
pub fn build_automaton_acceptors(
    spec: &SpecConstraints,
    name_to_idx: &[(String, usize)],
    letter_channels: &[Option<SpecChannel>],
) -> (r: Result<AutomatonPlan, ExperimentError>)
    ensures
        spec.automaton is None ==> (r matches Ok(p) && p.genealogical@.len() == 0 && p.kgrams@.len() == 0
            && p.channel_pairs@.len() == 0 && p.order@.len() == 0),
        r matches Ok(p) ==> p.order@ == planned_order(acceptor_specs(*spec)) && p.kgrams@.len() == kind_count(p.order@, 0)
            && p.genealogical@.len() == kind_count(p.order@, 1) && p.channel_pairs@.len() == kind_count(p.order@, 2),
        r is Ok <==> forall|i: int|
            0 <= i < acceptor_specs(*spec).len() ==> !acceptor_refused(
                #[trigger] acceptor_specs(*spec)[i],
                name_to_idx@,
                channel_views(letter_channels@),
            ),
        r matches Ok(p) ==> forall|i: int|
            0 <= i < acceptor_specs(*spec).len() ==> plan_entry_of(
                p.genealogical@,
                p.kgrams@,
                p.channel_pairs@,
                #[trigger] acceptor_specs(*spec)[i],
                planned_order(acceptor_specs(*spec).subrange(0, i)),
                name_to_idx@,
                channel_views(letter_channels@),
            ),
{
    let ghost chs = channel_views(letter_channels@);
    let automaton = match &spec.automaton {
        None => {
            return Ok(AutomatonPlan { genealogical: Vec::new(), kgrams: Vec::new(), channel_pairs: Vec::new(), order: Vec::new() });
        },
        Some(a) => a,
    };
    let none: Vec<SpecAutomatonAcceptor> = Vec::new();
    let acceptors: &Vec<SpecAutomatonAcceptor> = match &automaton.acceptors {
        Some(l) => l,
        None => &none,
    };
    let ghost specs = acceptor_specs(*spec);
    assert(acceptors@ == specs);
    let mut genealogical: Vec<GenealogicalPlan> = Vec::new();
    let mut kgrams: Vec<KGramPlan> = Vec::new();
    let mut channel_pairs: Vec<ChannelPairsPlan> = Vec::new();
    let mut order: Vec<AutomatonAcceptorRef> = Vec::new();
    let mut i: usize = 0;
    proof {
        assert(specs.subrange(0, 0) =~= Seq::<SpecAutomatonAcceptor>::empty());
    }
    while i < acceptors.len()
        invariant
            acceptors@ == specs,
            specs == acceptor_specs(*spec),
            spec.automaton is Some,
            chs == channel_views(letter_channels@),
            i <= specs.len(),
            order@ == planned_order(specs.subrange(0, i as int)),
            kgrams@.len() == kind_count(order@, 0),
            genealogical@.len() == kind_count(order@, 1),
            channel_pairs@.len() == kind_count(order@, 2),
            forall|t: int| 0 <= t < i ==> !acceptor_refused(#[trigger] specs[t], name_to_idx@, chs),
            forall|t: int|
                0 <= t < i ==> plan_entry_of(
                    genealogical@,
                    kgrams@,
                    channel_pairs@,
                    #[trigger] specs[t],
                    planned_order(specs.subrange(0, t)),
                    name_to_idx@,
                    chs,
                ),
        decreases specs.len() - i,
    {
        let ghost prev = order@;
        let ghost g0 = genealogical@;
        let ghost k0 = kgrams@;
        let ghost c0 = channel_pairs@;
        proof {
            assert(specs.subrange(0, i as int + 1).drop_last() =~= specs.subrange(0, i as int));
        }
        let one = match plan_one(&acceptors[i], name_to_idx, letter_channels) {
            Ok(o) => o,
            Err(e) => {
                proof {
                    assert(acceptor_refused(specs[i as int], name_to_idx@, chs));
                }
                return Err(e);
            },
        };
        let ghost og = one;
        match one {
            None => {},
            Some(OnePlan::Genealogical(plan)) => {
                let idx = genealogical.len();
                genealogical.push(plan);
                order.push(AutomatonAcceptorRef::Genealogical(idx));
            },
            Some(OnePlan::KGram(plan)) => {
                let idx = kgrams.len();
                kgrams.push(plan);
                order.push(AutomatonAcceptorRef::KGram(idx));
            },
            Some(OnePlan::ChannelPairs(plan)) => {
                let idx = channel_pairs.len();
                channel_pairs.push(plan);
                order.push(AutomatonAcceptorRef::ChannelPairs(idx));
            },
        }
        proof {
            if og is Some {
                assert(order@.drop_last() =~= prev);
            } else {
                assert(order@ == prev);
            }
            lemma_entries_kept(g0, k0, c0, genealogical@, kgrams@, channel_pairs@, specs, i as int, name_to_idx@, chs);
            lemma_entry_new(genealogical@, kgrams@, channel_pairs@, og, specs[i as int], prev, name_to_idx@, chs);
        }
        i += 1;
    }
    proof {
        assert(specs.subrange(0, specs.len() as int) =~= specs);
        assert forall|t: int| 0 <= t < specs.len() implies !acceptor_refused(#[trigger] specs[t], name_to_idx@, chs) by {}
    }
    Ok(AutomatonPlan { genealogical, kgrams, channel_pairs, order })
}

} // verus!
