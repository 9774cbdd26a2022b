//! The letter graphs of a basis of integrable words: which letter follows
//! which, how the graph hangs together, and how many triangles it closes.
use vstd::prelude::*;

verus! {

/// Whether every entry of every adjacency list names a vertex.
pub open spec fn adjacency_ok(adj: Seq<Vec<usize>>) -> bool {
    forall|a: int, j: int| 0 <= a < adj.len() && 0 <= j < adj[a]@.len() ==> #[trigger] adj[a]@[j] < adj.len()
}

/// Whether `s` holds every vertex that an edge leads to from a vertex of `s`.
pub open spec fn closed_under(adj: Seq<Vec<usize>>, s: Set<int>) -> bool {
    forall|a: int, j: int|
        #![trigger s.contains(a), adj[a]@[j]]
        s.contains(a) && 0 <= a < adj.len() && 0 <= j < adj[a]@.len() ==> s.contains(adj[a]@[j] as int)
}

/// Whether a path of edges leads from `a` to `b`: `b` lies in every set that
/// holds `a` and is closed under the edges.
pub open spec fn reaches(adj: Seq<Vec<usize>>, a: int, b: int) -> bool {
    forall|s: Set<int>| #[trigger] closed_under(adj, s) && s.contains(a) ==> s.contains(b)
}

/// Whether no vertex below `v` reaches `v`: `v` is the first vertex of what
/// it can be reached from.
pub open spec fn is_first_reached(adj: Seq<Vec<usize>>, v: int) -> bool {
    forall|u: int| 0 <= u < v ==> !#[trigger] reaches(adj, u, v)
}

/// How many of the vertices below `k` no lower vertex reaches. For a
/// symmetric adjacency these are the least vertices of the connected
/// components.
pub open spec fn first_reached_count(adj: Seq<Vec<usize>>, k: int) -> nat
    decreases k,
{
    if k <= 0 {
        0
    } else {
        first_reached_count(adj, k - 1) + if is_first_reached(adj, k - 1) {
            1nat
        } else {
            0nat
        }
    }
}

/// One more edge at the end of a path.
pub proof fn lemma_reaches_step(adj: Seq<Vec<usize>>, a: int, b: int, j: int)
    requires
        reaches(adj, a, b),
        0 <= b < adj.len(),
        0 <= j < adj[b]@.len(),
    ensures
        reaches(adj, a, adj[b]@[j] as int),
{
    assert forall|s: Set<int>| #[trigger] closed_under(adj, s) && s.contains(a) implies s.contains(adj[b]@[j] as int) by {
        assert(s.contains(b));
    }
}

/// How many entries of `s` are `false`.
pub open spec fn count_false(s: Seq<bool>) -> nat
    decreases s.len(),
{
    if s.len() == 0 {
        0
    } else {
        count_false(s.drop_last()) + if s.last() {
            0nat
        } else {
            1nat
        }
    }
}

proof fn lemma_count_false_all(s: Seq<bool>)
    requires
        forall|t: int| 0 <= t < s.len() ==> !#[trigger] s[t],
    ensures
        count_false(s) == s.len(),
    decreases s.len(),
{
    if s.len() > 0 {
        lemma_count_false_all(s.drop_last());
    }
}

proof fn lemma_count_false_set(s: Seq<bool>, i: int)
    requires
        0 <= i < s.len(),
        !s[i],
    ensures
        count_false(s.update(i, true)) + 1 == count_false(s),
    decreases s.len(),
{
    if i == s.len() - 1 {
        assert(s.update(i, true).drop_last() =~= s.drop_last());
    } else {
        assert(s.update(i, true).drop_last() =~= s.drop_last().update(i, true));
        lemma_count_false_set(s.drop_last(), i);
    }
}

/// The vertices marked in `visited`.
pub open spec fn marked(visited: Seq<bool>) -> Set<int> {
    Set::new(|i: int| 0 <= i < visited.len() && visited[i])
}

/// The number of vertices that no lower vertex reaches, by depth-first search
/// from each vertex not yet seen. For a symmetric adjacency (an undirected
/// graph) this is the number of connected components.
pub fn connected_components_undirected(adj: &[Vec<usize>]) -> (r: usize)
    requires
        adjacency_ok(adj@),
    ensures
        r == first_reached_count(adj@, adj@.len() as int),
        r <= adj@.len(),
{
    let n = adj.len();
    if n == 0 {
        return 0;
    }
    let mut visited: Vec<bool> = Vec::with_capacity(n);
    let mut i: usize = 0;
    while i < n
        invariant
            i <= n,
            visited@.len() == i,
            forall|t: int| 0 <= t < i ==> !#[trigger] visited@[t],
        decreases n - i,
    {
        visited.push(false);
        i += 1;
    }
    proof {
        assert forall|a: int, j: int|
            #![trigger marked(visited@).contains(a), adj@[a]@[j]]
            marked(visited@).contains(a) && 0 <= a < adj@.len() && 0 <= j < adj@[a]@.len() implies marked(
                visited@,
            ).contains(adj@[a]@[j] as int) by {
            assert(visited@[a]);
        }
    }
    let mut count: usize = 0;
    let mut v: usize = 0;
    while v < n
        invariant
            n == adj@.len(),
            adjacency_ok(adj@),
            v <= n,
            visited@.len() == n,
            count <= v,
            count == first_reached_count(adj@, v as int),
            closed_under(adj@, marked(visited@)),
            forall|x: int| 0 <= x < n ==> (#[trigger] visited@[x] <==> exists|u: int| 0 <= u < v && reaches(adj@, u, x)),
        decreases n - v,
    {
        if visited[v] {
            proof {
                let u = choose|u: int| 0 <= u < v && reaches(adj@, u, v as int);
                assert(!is_first_reached(adj@, v as int));
                assert forall|x: int| 0 <= x < n implies (#[trigger] visited@[x] <==> exists|u: int|
                    0 <= u < v + 1 && reaches(adj@, u, x)) by {
                    if exists|u: int| 0 <= u < v + 1 && reaches(adj@, u, x) {
                        let w = choose|w: int| 0 <= w < v + 1 && reaches(adj@, w, x);
                        if w == v {
                            assert(marked(visited@).contains(v as int));
                            assert(marked(visited@).contains(x));
                        } else {
                            assert(visited@[x]);
                        }
                    }
                    if visited@[x] {
                        let w = choose|w: int| 0 <= w < v && reaches(adj@, w, x);
                        assert(0 <= w < v + 1 && reaches(adj@, w, x));
                    }
                }
            }
            v += 1;
            continue;
        }
        proof {
            assert forall|u: int| 0 <= u < v implies !#[trigger] reaches(adj@, u, v as int) by {
                if reaches(adj@, u, v as int) {
                    assert(exists|w: int| 0 <= w < v && reaches(adj@, w, v as int));
                }
            }
            assert(is_first_reached(adj@, v as int));
        }
        count += 1;
        let ghost before = visited@;
        let mut stack: Vec<usize> = Vec::new();
        proof {
            lemma_count_false_set(visited@, v as int);
        }
        visited.set(v, true);
        stack.push(v);
        proof {
            assert(reaches(adj@, v as int, v as int));
            assert(stack@[0] == v);
            assert forall|x: int, j: int|
                #![trigger visited@[x], adj@[x]@[j]]
                0 <= x < n && visited@[x] && !stack@.contains(x as usize) && 0 <= j < adj@[x]@.len()
                    implies visited@[adj@[x]@[j] as int] by {
                if x == v {
                    assert(stack@.contains(v));
                } else {
                    assert(before[x]);
                    assert(marked(before).contains(x));
                    assert(marked(before).contains(adj@[x]@[j] as int));
                }
            }
        }
        while stack.len() > 0
            invariant
                n == adj@.len(),
                adjacency_ok(adj@),
                v < n,
                visited@.len() == n,
                visited@[v as int],
                closed_under(adj@, marked(before)),
                before.len() == n,
                forall|x: int| 0 <= x < n && before[x] ==> #[trigger] visited@[x],
                forall|x: int| 0 <= x < n && visited@[x] && !before[x] ==> #[trigger] reaches(adj@, v as int, x),
                forall|t: int|
                    0 <= t < stack@.len() ==> #[trigger] stack@[t] < n && visited@[stack@[t] as int] && reaches(
                        adj@,
                        v as int,
                        stack@[t] as int,
                    ),
                forall|x: int, j: int|
                    #![trigger visited@[x], adj@[x]@[j]]
                    0 <= x < n && visited@[x] && !stack@.contains(x as usize) && 0 <= j < adj@[x]@.len()
                        ==> visited@[adj@[x]@[j] as int],
            decreases 2 * count_false(visited@) + stack@.len(),
        {
            let ghost m0 = 2 * count_false(visited@) + stack@.len();
            let ghost s0 = stack@;
            let node = stack.pop().unwrap();
            proof {
                assert(stack@ =~= s0.drop_last());
                assert(node == s0[s0.len() - 1]);
                assert(reaches(adj@, v as int, node as int));
                assert forall|x: int, k: int|
                    #![trigger visited@[x], adj@[x]@[k]]
                    0 <= x < n && x != node && visited@[x] && !stack@.contains(x as usize) && 0 <= k < adj@[x]@.len()
                        implies visited@[adj@[x]@[k] as int] by {
                    if s0.contains(x as usize) {
                        let t = choose|t: int| 0 <= t < s0.len() && s0[t] == x as usize;
                        assert(t != s0.len() - 1);
                        assert(stack@[t] == x as usize);
                    }
                }
            }
            let nbrs = &adj[node];
            let mut j: usize = 0;
            while j < nbrs.len()
                invariant
                    n == adj@.len(),
                    adjacency_ok(adj@),
                    v < n,
                    node < n,
                    nbrs@ == adj@[node as int]@,
                    j <= nbrs@.len(),
                    visited@.len() == n,
                    visited@[v as int],
                    visited@[node as int],
                    reaches(adj@, v as int, node as int),
                    before.len() == n,
                    forall|x: int| 0 <= x < n && before[x] ==> #[trigger] visited@[x],
                    forall|x: int| 0 <= x < n && visited@[x] && !before[x] ==> #[trigger] reaches(adj@, v as int, x),
                    forall|t: int|
                        0 <= t < stack@.len() ==> #[trigger] stack@[t] < n && visited@[stack@[t] as int] && reaches(
                            adj@,
                            v as int,
                            stack@[t] as int,
                        ),
                    forall|x: int, k: int|
                        #![trigger visited@[x], adj@[x]@[k]]
                        0 <= x < n && x != node && visited@[x] && !stack@.contains(x as usize) && 0 <= k < adj@[x]@.len()
                            ==> visited@[adj@[x]@[k] as int],
                    forall|k: int| 0 <= k < j ==> #[trigger] visited@[adj@[node as int]@[k] as int],
                    2 * count_false(visited@) + stack@.len() < m0,
                decreases nbrs@.len() - j,
            {
                let next = nbrs[j];
                proof {
                    assert(adj@[node as int]@[j as int] == next);
                }
                if !visited[next] {
                    let ghost vis0 = visited@;
                    let ghost st0 = stack@;
                    proof {
                        lemma_count_false_set(visited@, next as int);
                        lemma_reaches_step(adj@, v as int, node as int, j as int);
                    }
                    visited.set(next, true);
                    stack.push(next);
                    proof {
                        assert forall|x: int, k: int|
                            #![trigger visited@[x], adj@[x]@[k]]
                            0 <= x < n && x != node && visited@[x] && !stack@.contains(x as usize) && 0 <= k < adj@[x]@.len()
                                implies visited@[adj@[x]@[k] as int] by {
                            if x != next {
                                assert(vis0[x]);
                                if st0.contains(x as usize) {
                                    let t = choose|t: int| 0 <= t < st0.len() && st0[t] == x as usize;
                                    assert(stack@[t] == x as usize);
                                }
                                assert(vis0[adj@[x]@[k] as int]);
                            } else {
                                assert(stack@[stack@.len() - 1] == next);
                            }
                        }
                    }
                }
                j += 1;
            }
            proof {
                assert forall|x: int, k: int|
                    #![trigger visited@[x], adj@[x]@[k]]
                    0 <= x < n && visited@[x] && !stack@.contains(x as usize) && 0 <= k < adj@[x]@.len()
                        implies visited@[adj@[x]@[k] as int] by {
                    if x == node {
                        assert(visited@[adj@[node as int]@[k] as int]);
                    }
                }
            }
        }
        proof {
            assert forall|a: int, j: int|
                #![trigger marked(visited@).contains(a), adj@[a]@[j]]
                marked(visited@).contains(a) && 0 <= a < adj@.len() && 0 <= j < adj@[a]@.len() implies marked(
                    visited@,
                ).contains(adj@[a]@[j] as int) by {
                assert(visited@[a]);
                assert(!stack@.contains(a as usize));
                assert(visited@[adj@[a]@[j] as int]);
            }
            assert(closed_under(adj@, marked(visited@)));
            assert forall|x: int| 0 <= x < n implies (#[trigger] visited@[x] <==> exists|u: int|
                0 <= u < v + 1 && reaches(adj@, u, x)) by {
                if exists|u: int| 0 <= u < v + 1 && reaches(adj@, u, x) {
                    let w = choose|w: int| 0 <= w < v + 1 && reaches(adj@, w, x);
                    if w == v {
                        assert(marked(visited@).contains(v as int));
                        assert(marked(visited@).contains(x));
                    } else {
                        assert(before[x]);
                    }
                }
                if visited@[x] {
                    if before[x] {
                        let w = choose|w: int| 0 <= w < v && reaches(adj@, w, x);
                        assert(0 <= w < v + 1 && reaches(adj@, w, x));
                    } else {
                        assert(reaches(adj@, v as int, x));
                    }
                }
            }
        }
        v += 1;
    }
    count
}


/// A set of vertices below a fixed bound, one flag per vertex.
#[derive(Clone, Debug)]
struct BitSet {
    bits: Vec<bool>,
}

/// How many of the first `m` places are set in both `a` and `b`.
pub open spec fn both_count(a: Seq<bool>, b: Seq<bool>, m: int) -> nat
    decreases m,
{
    if m <= 0 {
        0
    } else {
        both_count(a, b, m - 1) + if a[m - 1] && b[m - 1] {
            1nat
        } else {
            0nat
        }
    }
}

proof fn lemma_both_count_bound(a: Seq<bool>, b: Seq<bool>, m: int)
    requires
        m >= 0,
    ensures
        both_count(a, b, m) <= m,
    decreases m,
{
    if m > 0 {
        lemma_both_count_bound(a, b, m - 1);
    }
}

impl BitSet {
    spec fn view(&self) -> Seq<bool> {
        self.bits@
    }

    fn new(len: usize) -> (r: Self)
        ensures
            r.view().len() == len,
            forall|i: int| 0 <= i < len ==> !#[trigger] r.view()[i],
    {
        let mut bits: Vec<bool> = Vec::with_capacity(len);
        let mut i: usize = 0;
        while i < len
            invariant
                i <= len,
                bits@.len() == i,
                forall|t: int| 0 <= t < i ==> !#[trigger] bits@[t],
            decreases len - i,
        {
            bits.push(false);
            i += 1;
        }
        BitSet { bits }
    }

    fn set(&mut self, idx: usize)
        ensures
            final(self).view() == if idx < old(self).view().len() {
                old(self).view().update(idx as int, true)
            } else {
                old(self).view()
            },
    {
        if idx < self.bits.len() {
            self.bits.set(idx, true);
        }
    }

    fn contains(&self, idx: usize) -> (r: bool)
        ensures
            r == (idx < self.view().len() && self.view()[idx as int]),
    {
        idx < self.bits.len() && self.bits[idx]
    }

    fn intersection_count(&self, other: &Self) -> (r: u64)
        ensures
            r == both_count(
                self.view(),
                other.view(),
                if self.view().len() < other.view().len() {
                    self.view().len() as int
                } else {
                    other.view().len() as int
                },
            ),
    {
        let m = if self.bits.len() < other.bits.len() { self.bits.len() } else { other.bits.len() };
        let mut count: u64 = 0;
        let mut i: usize = 0;
        while i < m
            invariant
                m <= self.bits@.len(),
                m <= other.bits@.len(),
                i <= m,
                count == both_count(self.bits@, other.bits@, i as int),
            decreases m - i,
        {
            proof {
                lemma_both_count_bound(self.bits@, other.bits@, i as int);
            }
            if self.bits[i] && other.bits[i] {
                count += 1;
            }
            i += 1;
        }
        count
    }
}

/// Whether a key of the pair table joins `u` and `v`: it names two different
/// vertices below `n`, `u` and `v` in either order.
pub open spec fn joins(key: (usize, usize), n: int, u: int, v: int) -> bool {
    key.0 < n && key.1 < n && key.0 != key.1 && ((key.0 == u && key.1 == v) || (key.0 == v && key.1 == u))
}

/// Whether `u` and `v` are neighbours in the undirected simple graph of the
/// pair table: some key of the table joins them.
pub open spec fn linked(pairs: Seq<((usize, usize), u64)>, n: int, u: int, v: int) -> bool {
    exists|i: int| 0 <= i < pairs.len() && joins(#[trigger] pairs[i].0, n, u, v)
}

/// The neighbours of `u` among the vertices below `hi`.
pub open spec fn degree(pairs: Seq<((usize, usize), u64)>, n: int, u: int, hi: int) -> nat
    decreases hi,
{
    if hi <= 0 {
        0
    } else {
        degree(pairs, n, u, hi - 1) + if linked(pairs, n, u, hi - 1) {
            1nat
        } else {
            0nat
        }
    }
}

/// The neighbours `v` of `u` with `u < v < hi`.
pub open spec fn upper_degree(pairs: Seq<((usize, usize), u64)>, n: int, u: int, hi: int) -> nat
    decreases hi,
{
    if hi <= 0 {
        0
    } else {
        upper_degree(pairs, n, u, hi - 1) + if u < hi - 1 && linked(pairs, n, u, hi - 1) {
            1nat
        } else {
            0nat
        }
    }
}

/// The edges `{u, v}` with `u < hi` (each counted once, from its lower end).
pub open spec fn edges_below(pairs: Seq<((usize, usize), u64)>, n: int, hi: int) -> nat
    decreases hi,
{
    if hi <= 0 {
        0
    } else {
        edges_below(pairs, n, hi - 1) + upper_degree(pairs, n, hi - 1, n)
    }
}

/// The common neighbours `w` of `u` and `v` with `v < w < hi`.
pub open spec fn common_above(pairs: Seq<((usize, usize), u64)>, n: int, u: int, v: int, hi: int) -> nat
    decreases hi,
{
    if hi <= 0 {
        0
    } else {
        common_above(pairs, n, u, v, hi - 1) + if v < hi - 1 && linked(pairs, n, u, hi - 1) && linked(
            pairs,
            n,
            v,
            hi - 1,
        ) {
            1nat
        } else {
            0nat
        }
    }
}

/// The triangles `u < v < w` whose middle vertex lies below `hi`.
pub open spec fn triangles_at(pairs: Seq<((usize, usize), u64)>, n: int, u: int, hi: int) -> nat
    decreases hi,
{
    if hi <= 0 {
        0
    } else {
        triangles_at(pairs, n, u, hi - 1) + if u < hi - 1 && linked(pairs, n, u, hi - 1) {
            common_above(pairs, n, u, hi - 1, n)
        } else {
            0nat
        }
    }
}

/// The triangles `u < v < w` of the graph with `u < hi`.
pub open spec fn triangles_below(pairs: Seq<((usize, usize), u64)>, n: int, hi: int) -> nat
    decreases hi,
{
    if hi <= 0 {
        0
    } else {
        triangles_below(pairs, n, hi - 1) + triangles_at(pairs, n, hi - 1, n)
    }
}

/// `d * (d - 1) / 2`: the pairs among `d` neighbours.
pub open spec fn choose2(d: nat) -> nat {
    (d * (d - 1) / 2) as nat
}

/// The wedges (paths of two edges) centred below `hi`.
pub open spec fn wedges_below(pairs: Seq<((usize, usize), u64)>, n: int, hi: int) -> nat
    decreases hi,
{
    if hi <= 0 {
        0
    } else {
        wedges_below(pairs, n, hi - 1) + choose2(degree(pairs, n, hi - 1, n))
    }
}

/// Whether `s` holds every neighbour of each of its vertices.
pub open spec fn closed_links(pairs: Seq<((usize, usize), u64)>, n: int, s: Set<int>) -> bool {
    forall|a: int, b: int| #![trigger s.contains(a), s.contains(b)] s.contains(a) && linked(pairs, n, a, b) ==> s.contains(b)
}

/// Whether `a` and `b` lie in one connected component: `b` lies in every set
/// that holds `a` and all neighbours of its vertices.
pub open spec fn connected(pairs: Seq<((usize, usize), u64)>, n: int, a: int, b: int) -> bool {
    forall|s: Set<int>| #[trigger] closed_links(pairs, n, s) && s.contains(a) ==> s.contains(b)
}

/// Whether `v` is the least vertex of its connected component.
pub open spec fn least_of_component(pairs: Seq<((usize, usize), u64)>, n: int, v: int) -> bool {
    forall|u: int| 0 <= u < v ==> !#[trigger] connected(pairs, n, u, v)
}

/// The connected components whose least vertex lies below `k`.
pub open spec fn components_below(pairs: Seq<((usize, usize), u64)>, n: int, k: int) -> nat
    decreases k,
{
    if k <= 0 {
        0
    } else {
        components_below(pairs, n, k - 1) + if least_of_component(pairs, n, k - 1) {
            1nat
        } else {
            0nat
        }
    }
}

/// Whether the adjacency lists hold exactly the neighbours of each vertex.
pub open spec fn lists_links(adj: Seq<Vec<usize>>, pairs: Seq<((usize, usize), u64)>, n: int) -> bool {
    &&& adj.len() == n
    &&& forall|a: int, j: int| 0 <= a < n && 0 <= j < adj[a]@.len() ==> #[trigger] linked(pairs, n, a, adj[a]@[j] as int)
    &&& forall|a: int, b: int| #![trigger linked(pairs, n, a, b)] 0 <= a < n && linked(pairs, n, a, b) ==> adj[a]@.contains(b as usize)
}

proof fn lemma_linked_bounds(pairs: Seq<((usize, usize), u64)>, n: int, a: int, b: int)
    requires
        linked(pairs, n, a, b),
    ensures
        0 <= a < n,
        0 <= b < n,
        a != b,
        linked(pairs, n, b, a),
{
    let i = choose|i: int| 0 <= i < pairs.len() && joins(#[trigger] pairs[i].0, n, a, b);
    assert(joins(pairs[i].0, n, b, a));
}

proof fn lemma_lists_count(adj: Seq<Vec<usize>>, pairs: Seq<((usize, usize), u64)>, n: int, k: int)
    requires
        lists_links(adj, pairs, n),
        0 <= k <= n,
    ensures
        first_reached_count(adj, k) == components_below(pairs, n, k),
    decreases k,
{
    if k > 0 {
        lemma_lists_count(adj, pairs, n, k - 1);
        assert forall|s: Set<int>| closed_under(adj, s) == closed_links(pairs, n, s) by {
            if closed_under(adj, s) {
                assert forall|a: int, b: int| #![trigger s.contains(a), s.contains(b)] s.contains(a) && linked(
                    pairs,
                    n,
                    a,
                    b,
                ) implies s.contains(b) by {
                    lemma_linked_bounds(pairs, n, a, b);
                    assert(adj[a]@.contains(b as usize));
                    let j = choose|j: int| 0 <= j < adj[a]@.len() && adj[a]@[j] == b as usize;
                    assert(s.contains(adj[a]@[j] as int));
                }
            }
            if closed_links(pairs, n, s) {
                assert forall|a: int, j: int|
                    #![trigger s.contains(a), adj[a]@[j]]
                    s.contains(a) && 0 <= a < adj.len() && 0 <= j < adj[a]@.len() implies s.contains(adj[a]@[j] as int) by {
                    assert(linked(pairs, n, a, adj[a]@[j] as int));
                }
            }
        }
        assert forall|u: int| #![trigger reaches(adj, u, k - 1)] #![trigger connected(pairs, n, u, k - 1)] 0 <= u < k - 1 implies reaches(adj, u, k - 1) == connected(pairs, n, u, k - 1) by {
            if reaches(adj, u, k - 1) {
                assert forall|s: Set<int>| #[trigger] closed_links(pairs, n, s) && s.contains(u) implies s.contains(k - 1) by {
                    assert(closed_under(adj, s));
                }
            }
            if connected(pairs, n, u, k - 1) {
                assert forall|s: Set<int>| #[trigger] closed_under(adj, s) && s.contains(u) implies s.contains(k - 1) by {
                    assert(closed_links(pairs, n, s));
                }
            }
        }
        assert(is_first_reached(adj, k - 1) == least_of_component(pairs, n, k - 1));
    }
}

/// Counts of the undirected letter graph of a basis and of its triangles.
#[derive(Clone, Debug, PartialEq, Eq, Structural)]
pub struct Skeleton2Metrics {
    pub n_vertices: usize,
    pub n_edges_undirected: usize,
    pub triangles: u64,
    pub clustering_num: u64,
    pub clustering_den: u64,
    pub beta1_est: i64,
    pub triplets_supported_by_triangles_num: u64,
    pub triplets_supported_by_triangles_den: u64,
}

/// The sum of the counts of the first `k` triplets.
pub open spec fn triplet_total(triplets: Seq<((usize, usize, usize), u64)>, k: int) -> nat
    decreases k,
{
    if k <= 0 {
        0
    } else {
        triplet_total(triplets, k - 1) + triplets[k - 1].1 as nat
    }
}

/// Whether a triplet names three different vertices, each two of them linked.
pub open spec fn on_triangle(pairs: Seq<((usize, usize), u64)>, n: int, key: (usize, usize, usize)) -> bool {
    &&& key.0 < n && key.1 < n && key.2 < n
    &&& key.0 != key.1 && key.0 != key.2 && key.1 != key.2
    &&& linked(pairs, n, key.0 as int, key.1 as int)
    &&& linked(pairs, n, key.0 as int, key.2 as int)
    &&& linked(pairs, n, key.1 as int, key.2 as int)
}

/// The sum of the counts of those of the first `k` triplets that lie on a triangle.
pub open spec fn supported_total(
    pairs: Seq<((usize, usize), u64)>,
    n: int,
    triplets: Seq<((usize, usize, usize), u64)>,
    k: int,
) -> nat
    decreases k,
{
    if k <= 0 {
        0
    } else {
        supported_total(pairs, n, triplets, k - 1) + if on_triangle(pairs, n, triplets[k - 1].0) {
            triplets[k - 1].1 as nat
        } else {
            0nat
        }
    }
}

proof fn lemma_supported_le(
    pairs: Seq<((usize, usize), u64)>,
    n: int,
    triplets: Seq<((usize, usize, usize), u64)>,
    k: int,
)
    requires
        0 <= k <= triplets.len(),
    ensures
        supported_total(pairs, n, triplets, k) <= triplet_total(triplets, k),
        forall|j: int| 0 <= j <= k ==> #[trigger] triplet_total(triplets, j) <= triplet_total(triplets, k),
    decreases k,
{
    if k > 0 {
        lemma_supported_le(pairs, n, triplets, k - 1);
    }
}


proof fn lemma_common_above(
    pairs: Seq<((usize, usize), u64)>,
    n: int,
    u: int,
    v: int,
    hu: Seq<bool>,
    hv: Seq<bool>,
    m: int,
)
    requires
        0 <= m <= n,
        u < v,
        hu.len() == n,
        hv.len() == n,
        forall|x: int| 0 <= x < n ==> #[trigger] hu[x] == (u < x && linked(pairs, n, u, x)),
        forall|x: int| 0 <= x < n ==> #[trigger] hv[x] == (v < x && linked(pairs, n, v, x)),
    ensures
        both_count(hu, hv, m) == common_above(pairs, n, u, v, m),
        common_above(pairs, n, u, v, m) <= m,
    decreases m,
{
    if m > 0 {
        lemma_common_above(pairs, n, u, v, hu, hv, m - 1);
        assert(hu[m - 1] == (u < m - 1 && linked(pairs, n, u, m - 1)));
        assert(hv[m - 1] == (v < m - 1 && linked(pairs, n, v, m - 1)));
    }
}

proof fn lemma_degree_bounds(pairs: Seq<((usize, usize), u64)>, n: int, u: int, hi: int)
    requires
        hi >= 0,
    ensures
        degree(pairs, n, u, hi) <= hi,
        upper_degree(pairs, n, u, hi) <= hi,
    decreases hi,
{
    if hi > 0 {
        lemma_degree_bounds(pairs, n, u, hi - 1);
    }
}

proof fn lemma_edges_bound(pairs: Seq<((usize, usize), u64)>, n: int, hi: int)
    requires
        0 <= hi,
        0 <= n,
    ensures
        edges_below(pairs, n, hi) <= hi * n,
    decreases hi,
{
    if hi > 0 {
        lemma_edges_bound(pairs, n, hi - 1);
        lemma_degree_bounds(pairs, n, hi - 1, n);
        assert((hi - 1) * n + n == hi * n) by (nonlinear_arith);
    }
}

/// The most vertices the metrics take: the adjacency sets hold `n * n` flags.
pub const SKELETON_MAX_VERTICES: usize = 1048576;

/// The undirected letter graph of the pair table (an edge `{u, v}` wherever
/// `(u, v)` or `(v, u)` is a key, self-loops and letters at or past
/// `n_vertices` left out), counted: its edges, its triangles, the clustering
/// ratio `3 * triangles / wedges` (saturating; `0/0` without wedges), the
/// cycle rank estimate `edges - vertices + components`, and the share of the
/// triplet counts that falls on triangles.
pub fn compute_skeleton2_metrics(
    n_vertices: usize,
    pair_counts: &[((usize, usize), u64)],
    triplet_counts: &[((usize, usize, usize), u64)],
) -> (r: Skeleton2Metrics)
    requires
        n_vertices <= SKELETON_MAX_VERTICES,
        triplet_total(triplet_counts@, triplet_counts@.len() as int) <= u64::MAX,
    ensures
        r.n_vertices == n_vertices,
        r.n_edges_undirected == edges_below(pair_counts@, n_vertices as int, n_vertices as int),
        r.triangles == triangles_below(pair_counts@, n_vertices as int, n_vertices as int),
        wedges_below(pair_counts@, n_vertices as int, n_vertices as int) == 0 ==> r.clustering_num == 0
            && r.clustering_den == 0,
        wedges_below(pair_counts@, n_vertices as int, n_vertices as int) > 0 ==> r.clustering_den == wedges_below(
            pair_counts@,
            n_vertices as int,
            n_vertices as int,
        ) && r.clustering_num == (if 3 * r.triangles <= u64::MAX {
            3 * r.triangles
        } else {
            u64::MAX as int
        }),
        r.beta1_est == edges_below(pair_counts@, n_vertices as int, n_vertices as int) - n_vertices + components_below(
            pair_counts@,
            n_vertices as int,
            n_vertices as int,
        ),
        r.triplets_supported_by_triangles_den == triplet_total(triplet_counts@, triplet_counts@.len() as int),
        r.triplets_supported_by_triangles_num == supported_total(
            pair_counts@,
            n_vertices as int,
            triplet_counts@,
            triplet_counts@.len() as int,
        ),
{
    let n = n_vertices;
    let ghost pairs = pair_counts@;
    let mut adj_bits: Vec<BitSet> = Vec::with_capacity(n);
    let mut u: usize = 0;
    while u < n
        invariant
            u <= n,
            adj_bits@.len() == u,
            forall|t: int| 0 <= t < u ==> (#[trigger] adj_bits@[t]).view().len() == n,
            forall|t: int, w: int| #![trigger adj_bits@[t].view()[w]] 0 <= t < u && 0 <= w < n ==> !adj_bits@[t].view()[w],
        decreases n - u,
    {
        adj_bits.push(BitSet::new(n));
        u += 1;
    }
    let mut i: usize = 0;
    while i < pair_counts.len()
        invariant
            pairs == pair_counts@,
            i <= pairs.len(),
            adj_bits@.len() == n,
            forall|t: int| 0 <= t < n ==> (#[trigger] adj_bits@[t]).view().len() == n,
            forall|a: int, b: int|
                #![trigger adj_bits@[a].view()[b]]
                 0 <= a < n && 0 <= b < n ==> (adj_bits@[a].view()[b] <==> exists|q: int|
                    0 <= q < i && joins(#[trigger] pairs[q].0, n as int, a, b)),
        decreases pairs.len() - i,
    {
        let a = pair_counts[i].0.0;
        let b = pair_counts[i].0.1;
        let ghost old_bits = adj_bits@;
        if a < n && b < n && a != b {
            adj_bits[a].set(b);
            adj_bits[b].set(a);
        }
        proof {
            assert forall|x: int, y: int|
                #![trigger adj_bits@[x].view()[y]]
                0 <= x < n && 0 <= y < n implies (adj_bits@[x].view()[y] <==> exists|q: int|
                    0 <= q < i + 1 && joins(#[trigger] pairs[q].0, n as int, x, y)) by {
                assert(old_bits[x].view()[y] <==> exists|q: int| 0 <= q < i && joins(#[trigger] pairs[q].0, n as int, x, y));
                if adj_bits@[x].view()[y] {
                    if old_bits[x].view()[y] {
                        let q = choose|q: int| 0 <= q < i && joins(#[trigger] pairs[q].0, n as int, x, y);
                        assert(0 <= q < i + 1 && joins(pairs[q].0, n as int, x, y));
                    } else {
                        assert(joins(pairs[i as int].0, n as int, x, y));
                    }
                }
                if exists|q: int| 0 <= q < i + 1 && joins(#[trigger] pairs[q].0, n as int, x, y) {
                    let q = choose|q: int| 0 <= q < i + 1 && joins(#[trigger] pairs[q].0, n as int, x, y);
                    if q < i {
                        assert(old_bits[x].view()[y]);
                    }
                }
            }
        }
        i += 1;
    }
    proof {
        assert forall|a: int, b: int| #![trigger adj_bits@[a].view()[b]] 0 <= a < n && 0 <= b < n implies adj_bits@[a].view()[b] == linked(
            pairs,
            n as int,
            a,
            b,
        ) by {
            if linked(pairs, n as int, a, b) {
                let q = choose|q: int| 0 <= q < pairs.len() && joins(#[trigger] pairs[q].0, n as int, a, b);
                assert(0 <= q < pairs.len() && joins(pairs[q].0, n as int, a, b));
            }
        }
    }
    let mut adj_list: Vec<Vec<usize>> = Vec::with_capacity(n);
    let mut neighbors_hi: Vec<BitSet> = Vec::with_capacity(n);
    u = 0;
    while u < n
        invariant
            pairs == pair_counts@,
            u <= n,
            adj_bits@.len() == n,
            forall|t: int| 0 <= t < n ==> (#[trigger] adj_bits@[t]).view().len() == n,
            forall|a: int, b: int|
                #![trigger adj_bits@[a].view()[b]]
                 0 <= a < n && 0 <= b < n ==> adj_bits@[a].view()[b] == linked(pairs, n as int, a, b),
            adj_list@.len() == u,
            neighbors_hi@.len() == u,
            forall|a: int| 0 <= a < u ==> (#[trigger] adj_list@[a])@.len() == degree(pairs, n as int, a, n as int),
            forall|a: int, j: int|
                0 <= a < u && 0 <= j < adj_list@[a]@.len() ==> #[trigger] adj_list@[a]@[j] < n && linked(
                    pairs,
                    n as int,
                    a,
                    adj_list@[a]@[j] as int,
                ),
            forall|a: int, b: int|
                #![trigger linked(pairs, n as int, a, b), adj_list@[a]]
                0 <= a < u && linked(pairs, n as int, a, b) ==> adj_list@[a]@.contains(b as usize),
            forall|a: int| 0 <= a < u ==> (#[trigger] neighbors_hi@[a]).view().len() == n,
            forall|a: int, x: int|
                #![trigger neighbors_hi@[a].view()[x]]
                 0 <= a < u && 0 <= x < n ==> neighbors_hi@[a].view()[x] == (a < x && linked(
                    pairs,
                    n as int,
                    a,
                    x,
                )),
        decreases n - u,
    {
        let mut row: Vec<usize> = Vec::new();
        let mut hi_u = BitSet::new(n);
        let mut w: usize = 0;
        while w < n
            invariant
                pairs == pair_counts@,
                u < n,
                w <= n,
                adj_bits@.len() == n,
                forall|t: int| 0 <= t < n ==> (#[trigger] adj_bits@[t]).view().len() == n,
                forall|a: int, b: int|
                    #![trigger adj_bits@[a].view()[b]]
                     0 <= a < n && 0 <= b < n ==> adj_bits@[a].view()[b] == linked(pairs, n as int, a, b),
                row@.len() == degree(pairs, n as int, u as int, w as int),
                forall|j: int| 0 <= j < row@.len() ==> #[trigger] row@[j] < w && linked(pairs, n as int, u as int, row@[j] as int),
                forall|b: int| 0 <= b < w && linked(pairs, n as int, u as int, b) ==> #[trigger] row@.contains(b as usize),
                hi_u.view().len() == n,
                forall|x: int| 0 <= x < n ==> #[trigger] hi_u.view()[x] == (x < w && u < x && linked(pairs, n as int, u as int, x)),
            decreases n - w,
        {
            let ghost row0 = row@;
            if adj_bits[u].contains(w) {
                row.push(w);
                if u < w {
                    hi_u.set(w);
                }
                proof {
                    assert forall|b: int| 0 <= b < w + 1 && linked(pairs, n as int, u as int, b) implies #[trigger] row@.contains(
                        b as usize,
                    ) by {
                        if b < w {
                            assert(row0.contains(b as usize));
                            let j = choose|j: int| 0 <= j < row0.len() && row0[j] == b as usize;
                            assert(row@[j] == b as usize);
                        } else {
                            assert(row@[row@.len() - 1] == w);
                        }
                    }
                }
            } else {
                proof {
                    assert forall|b: int| 0 <= b < w + 1 && linked(pairs, n as int, u as int, b) implies #[trigger] row@.contains(
                        b as usize,
                    ) by {
                        if b == w {
                            assert(adj_bits@[u as int].view()[w as int]);
                        }
                    }
                }
            }
            w += 1;
        }
        let ghost lists0 = adj_list@;
        adj_list.push(row);
        neighbors_hi.push(hi_u);
        proof {
            assert forall|a: int, b: int|
                #![trigger linked(pairs, n as int, a, b), adj_list@[a]]
                0 <= a < u + 1 && linked(pairs, n as int, a, b) implies adj_list@[a]@.contains(b as usize) by {
                if a < u {
                    assert(lists0[a] == adj_list@[a]);
                } else {
                    lemma_linked_bounds(pairs, n as int, a, b);
                }
            }
        }
        u += 1;
    }
    proof {
        assert(lists_links(adj_list@, pairs, n as int));
    }
    let mut edges: Vec<(usize, usize)> = Vec::new();
    let mut triangles: u64 = 0;
    u = 0;
    while u < n
        invariant
            pairs == pair_counts@,
            u <= n,
            n <= SKELETON_MAX_VERTICES,
            adj_bits@.len() == n,
            forall|t: int| 0 <= t < n ==> (#[trigger] adj_bits@[t]).view().len() == n,
            forall|a: int, b: int|
                #![trigger adj_bits@[a].view()[b]]
                 0 <= a < n && 0 <= b < n ==> adj_bits@[a].view()[b] == linked(pairs, n as int, a, b),
            neighbors_hi@.len() == n,
            forall|a: int| 0 <= a < n ==> (#[trigger] neighbors_hi@[a]).view().len() == n,
            forall|a: int, x: int|
                #![trigger neighbors_hi@[a].view()[x]]
                 0 <= a < n && 0 <= x < n ==> neighbors_hi@[a].view()[x] == (a < x && linked(
                    pairs,
                    n as int,
                    a,
                    x,
                )),
            edges@.len() == edges_below(pairs, n as int, u as int),
            triangles == triangles_below(pairs, n as int, u as int),
            triangles <= u * n * n,
        decreases n - u,
    {
        let mut v: usize = 0;
        while v < n
            invariant
                pairs == pair_counts@,
                u < n,
                v <= n,
                n <= SKELETON_MAX_VERTICES,
                adj_bits@.len() == n,
                forall|t: int| 0 <= t < n ==> (#[trigger] adj_bits@[t]).view().len() == n,
                forall|a: int, b: int|
                    #![trigger adj_bits@[a].view()[b]]
                     0 <= a < n && 0 <= b < n ==> adj_bits@[a].view()[b] == linked(pairs, n as int, a, b),
                neighbors_hi@.len() == n,
                forall|a: int| 0 <= a < n ==> (#[trigger] neighbors_hi@[a]).view().len() == n,
                forall|a: int, x: int|
                    #![trigger neighbors_hi@[a].view()[x]]
                     0 <= a < n && 0 <= x < n ==> neighbors_hi@[a].view()[x] == (a < x && linked(
                        pairs,
                        n as int,
                        a,
                        x,
                    )),
                edges@.len() == edges_below(pairs, n as int, u as int) + upper_degree(pairs, n as int, u as int, v as int),
                triangles == triangles_below(pairs, n as int, u as int) + triangles_at(pairs, n as int, u as int, v as int),
                triangles <= u * n * n + v * n,
            decreases n - v,
        {
            if u < v && adj_bits[u].contains(v) {
                edges.push((u, v));
                let c = neighbors_hi[u].intersection_count(&neighbors_hi[v]);
                proof {
                    lemma_common_above(
                        pairs,
                        n as int,
                        u as int,
                        v as int,
                        neighbors_hi@[u as int].view(),
                        neighbors_hi@[v as int].view(),
                        n as int,
                    );
                    assert(u * n * n + v * n + n <= n * n * n) by (nonlinear_arith)
                        requires
                            u < n,
                            v < n,
                    ;
                    assert(n * n * n <= SKELETON_MAX_VERTICES * SKELETON_MAX_VERTICES * SKELETON_MAX_VERTICES) by (nonlinear_arith)
                        requires
                            n <= SKELETON_MAX_VERTICES,
                    ;
                }
                triangles = triangles + c;
            }
            proof {
                assert(u * n * n + v * n + n == u * n * n + (v + 1) * n) by (nonlinear_arith);
            }
            v += 1;
        }
        proof {
            assert(u * n * n + n * n == (u + 1) * n * n) by (nonlinear_arith);
        }
        u += 1;
    }
    let n_edges_undirected = edges.len();
    let mut clustering_den: u64 = 0;
    let mut t: usize = 0;
    while t < n
        invariant
            pairs == pair_counts@,
            t <= n,
            n <= SKELETON_MAX_VERTICES,
            adj_list@.len() == n,
            forall|a: int| 0 <= a < n ==> (#[trigger] adj_list@[a])@.len() == degree(pairs, n as int, a, n as int),
            clustering_den == wedges_below(pairs, n as int, t as int),
            clustering_den <= t * n * n,
        decreases n - t,
    {
        let deg = adj_list[t].len() as u64;
        proof {
            lemma_degree_bounds(pairs, n as int, t as int, n as int);
            assert(deg * deg <= n * n) by (nonlinear_arith)
                requires
                    deg <= n,
            ;
            assert(t * n * n + n * n <= n * n * n) by (nonlinear_arith)
                requires
                    t < n,
            ;
            assert(n * n * n <= SKELETON_MAX_VERTICES * SKELETON_MAX_VERTICES * SKELETON_MAX_VERTICES) by (nonlinear_arith)
                requires
                    n <= SKELETON_MAX_VERTICES,
            ;
        }
        if deg >= 2 {
            proof {
                assert(deg * (deg - 1) <= deg * deg) by (nonlinear_arith)
                    requires
                        deg >= 2,
                ;
            }
            clustering_den = clustering_den + deg * (deg - 1) / 2;
        } else {
            proof {
                assert(choose2(deg as nat) == 0) by (nonlinear_arith)
                    requires
                        deg < 2,
                ;
            }
        }
        proof {
            assert(t * n * n + n * n == (t + 1) * n * n) by (nonlinear_arith);
        }
        t += 1;
    }
    let (clustering_num, clustering_den) = if clustering_den == 0 {
        (0u64, 0u64)
    } else {
        let num = match triangles.checked_mul(3) {
            Some(x) => x,
            None => u64::MAX,
        };
        (num, clustering_den)
    };
    let components = connected_components_undirected(&adj_list);
    proof {
        lemma_lists_count(adj_list@, pairs, n as int, n as int);
        lemma_edges_bound(pairs, n as int, n as int);
        assert(n * n <= SKELETON_MAX_VERTICES * SKELETON_MAX_VERTICES) by (nonlinear_arith)
            requires
                n <= SKELETON_MAX_VERTICES,
        ;
    }
    let beta1_est = n_edges_undirected as i64 - n as i64 + components as i64;
    let ghost trips = triplet_counts@;
    proof {
        lemma_supported_le(pairs, n as int, trips, trips.len() as int);
    }
    let mut den: u64 = 0;
    let mut k: usize = 0;
    while k < triplet_counts.len()
        invariant
            trips == triplet_counts@,
            k <= trips.len(),
            den == triplet_total(trips, k as int),
            triplet_total(trips, trips.len() as int) <= u64::MAX,
            forall|j: int| 0 <= j <= trips.len() ==> #[trigger] triplet_total(trips, j) <= triplet_total(trips, trips.len() as int),
        decreases trips.len() - k,
    {
        proof {
            assert(triplet_total(trips, k + 1) <= triplet_total(trips, trips.len() as int));
        }
        den = den + triplet_counts[k].1;
        k += 1;
    }
    let mut num: u64 = 0;
    if den > 0 {
        k = 0;
        while k < triplet_counts.len()
            invariant
                pairs == pair_counts@,
                trips == triplet_counts@,
                k <= trips.len(),
                adj_bits@.len() == n,
                forall|t: int| 0 <= t < n ==> (#[trigger] adj_bits@[t]).view().len() == n,
                forall|a: int, b: int|
                    #![trigger adj_bits@[a].view()[b]]
                     0 <= a < n && 0 <= b < n ==> adj_bits@[a].view()[b] == linked(pairs, n as int, a, b),
                num == supported_total(pairs, n as int, trips, k as int),
                triplet_total(trips, trips.len() as int) <= u64::MAX,
                forall|j: int| 0 <= j <= trips.len() ==> #[trigger] triplet_total(trips, j) <= triplet_total(trips, trips.len() as int),
            decreases trips.len() - k,
        {
            let (a, b, c) = triplet_counts[k].0;
            let count = triplet_counts[k].1;
            proof {
                lemma_supported_le(pairs, n as int, trips, k + 1);
                assert(triplet_total(trips, k + 1) <= triplet_total(trips, trips.len() as int));
            }
            if a < n && b < n && c < n && a != b && a != c && b != c {
                if adj_bits[a].contains(b) && adj_bits[a].contains(c) && adj_bits[b].contains(c) {
                    num = num + count;
                }
            }
            k += 1;
        }
    } else {
        proof {
            assert(supported_total(pairs, n as int, trips, trips.len() as int) == 0);
        }
    }
    Skeleton2Metrics {
        n_vertices,
        n_edges_undirected,
        triangles,
        clustering_num,
        clustering_den,
        beta1_est,
        triplets_supported_by_triangles_num: num,
        triplets_supported_by_triangles_den: den,
    }
}


/// Whether no key occurs twice in the table, as in a map.
pub open spec fn keys_distinct<K>(table: Seq<(K, u64)>) -> bool {
    forall|i: int, j: int| 0 <= i < j < table.len() ==> (#[trigger] table[i]).0 != (#[trigger] table[j]).0
}

/// The keys among the first `k` whose letters both lie below `n`: the
/// directed edges of the letter graph.
pub open spec fn directed_edges(pairs: Seq<((usize, usize), u64)>, n: int, k: int) -> nat
    decreases k,
{
    if k <= 0 {
        0
    } else {
        directed_edges(pairs, n, k - 1) + if pairs[k - 1].0.0 < n && pairs[k - 1].0.1 < n {
            1nat
        } else {
            0nat
        }
    }
}

/// The directed edges out of `a` among the first `k` keys.
pub open spec fn out_degree(pairs: Seq<((usize, usize), u64)>, n: int, a: int, k: int) -> nat
    decreases k,
{
    if k <= 0 {
        0
    } else {
        out_degree(pairs, n, a, k - 1) + if pairs[k - 1].0.0 == a && pairs[k - 1].0.1 < n {
            1nat
        } else {
            0nat
        }
    }
}

/// The largest out-degree of the vertices below `hi` (0 for none).
pub open spec fn max_out_degree_below(pairs: Seq<((usize, usize), u64)>, n: int, hi: int) -> nat
    decreases hi,
{
    if hi <= 0 {
        0
    } else {
        let m = max_out_degree_below(pairs, n, hi - 1);
        let d = out_degree(pairs, n, hi - 1, pairs.len() as int);
        if d > m {
            d
        } else {
            m
        }
    }
}

/// Counts of the directed letter graph of a basis: its edges, how it hangs
/// together, its largest out-degree, and its density and mean out-degree as
/// fractions.
#[derive(Clone, Debug, PartialEq, Eq, Structural)]
pub struct TopologyMetrics {
    pub n_vertices: usize,
    pub n_edges: usize,
    pub n_active_words: usize,
    pub weakly_connected_components: usize,
    pub strongly_connected_components: usize,
    pub max_out_degree: usize,
    pub density_num: u64,
    pub density_den: u64,
    pub avg_out_degree_num: u64,
    pub avg_out_degree_den: u64,
}

/// The number of connected components of the letter graph with its edge
/// directions forgotten (the weakly connected components), by depth-first
/// search.
pub fn weakly_connected_components(n_vertices: usize, pair_counts: &[((usize, usize), u64)]) -> (r: usize)
    ensures
        r == components_below(pair_counts@, n_vertices as int, n_vertices as int),
        r <= n_vertices,
{
    let n = n_vertices;
    let ghost pairs = pair_counts@;
    let mut adj: Vec<Vec<usize>> = Vec::with_capacity(n);
    let mut u: usize = 0;
    while u < n
        invariant
            u <= n,
            adj@.len() == u,
            forall|t: int| 0 <= t < u ==> (#[trigger] adj@[t])@.len() == 0,
        decreases n - u,
    {
        adj.push(Vec::new());
        u += 1;
    }
    let mut i: usize = 0;
    while i < pair_counts.len()
        invariant
            pairs == pair_counts@,
            i <= pairs.len(),
            adj@.len() == n,
            forall|a: int, j: int|
                0 <= a < n && 0 <= j < adj@[a]@.len() ==> #[trigger] linked(pairs, n as int, a, adj@[a]@[j] as int),
            forall|q: int, a: int, b: int|
                #![trigger joins(pairs[q].0, n as int, a, b), adj@[a]]
                0 <= q < i && 0 <= a < n && joins(pairs[q].0, n as int, a, b) ==> adj@[a]@.contains(b as usize),
        decreases pairs.len() - i,
    {
        let a = pair_counts[i].0.0;
        let b = pair_counts[i].0.1;
        let ghost adj0 = adj@;
        if a < n && b < n && a != b {
            proof {
                assert(joins(pairs[i as int].0, n as int, a as int, b as int));
                assert(joins(pairs[i as int].0, n as int, b as int, a as int));
            }
            adj[a].push(b);
            adj[b].push(a);
            proof {
                assert forall|x: int, j: int|
                    0 <= x < n && 0 <= j < adj@[x]@.len() implies #[trigger] linked(pairs, n as int, x, adj@[x]@[j] as int) by {
                    if x != a && x != b {
                        assert(adj@[x] == adj0[x]);
                    } else if x == a && j < adj0[x]@.len() {
                        assert(adj@[x]@[j] == adj0[x]@[j]);
                    } else if x == b && j < adj0[x]@.len() {
                        assert(adj@[x]@[j] == adj0[x]@[j]);
                    }
                }
                assert forall|q: int, x: int, y: int|
                    #![trigger joins(pairs[q].0, n as int, x, y), adj@[x]]
                    0 <= q < i + 1 && 0 <= x < n && joins(pairs[q].0, n as int, x, y) implies adj@[x]@.contains(y as usize) by {
                    if q < i {
                        assert(adj0[x]@.contains(y as usize));
                        let j = choose|j: int| 0 <= j < adj0[x]@.len() && adj0[x]@[j] == y as usize;
                        assert(adj@[x]@[j] == y as usize);
                    } else if x == a {
                        assert(adj@[x]@[adj@[x]@.len() - 1] == b);
                    } else {
                        assert(adj@[x]@[adj@[x]@.len() - 1] == a);
                    }
                }
            }
        } else {
            proof {
                assert forall|q: int, x: int, y: int|
                    #![trigger joins(pairs[q].0, n as int, x, y), adj@[x]]
                    0 <= q < i + 1 && 0 <= x < n && joins(pairs[q].0, n as int, x, y) implies adj@[x]@.contains(y as usize) by {
                    if q == i {
                        assert(!joins(pairs[q].0, n as int, x, y));
                    }
                }
            }
        }
        i += 1;
    }
    proof {
        assert forall|a: int, b: int|
            #![trigger linked(pairs, n as int, a, b)]
            0 <= a < n && linked(pairs, n as int, a, b) implies adj@[a]@.contains(b as usize) by {
            let q = choose|q: int| 0 <= q < pairs.len() && joins(#[trigger] pairs[q].0, n as int, a, b);
            assert(joins(pairs[q].0, n as int, a, b));
        }
        assert forall|a: int, j: int| 0 <= a < adj@.len() && 0 <= j < adj@[a]@.len() implies #[trigger] adj@[a]@[j]
            < adj@.len() by {
            lemma_linked_bounds(pairs, n as int, a, adj@[a]@[j] as int);
        }
        assert(lists_links(adj@, pairs, n as int));
        lemma_lists_count(adj@, pairs, n as int, n as int);
    }
    connected_components_undirected(&adj)
}


/// The sum of `len + 2` over the unmarked vertices below `k`, `len` the length
/// of the vertex's adjacency list: what a depth-first search still has ahead.
pub open spec fn unvisited_weight(adj: Seq<Vec<usize>>, visited: Seq<bool>, k: int) -> nat
    decreases k,
{
    if k <= 0 {
        0
    } else {
        unvisited_weight(adj, visited, k - 1) + if visited[k - 1] {
            0nat
        } else {
            (adj[k - 1]@.len() + 2) as nat
        }
    }
}

proof fn lemma_unvisited_weight_set(adj: Seq<Vec<usize>>, visited: Seq<bool>, i: int, k: int)
    requires
        0 <= i < visited.len(),
        !visited[i],
        0 <= k <= visited.len(),
    ensures
        i < k ==> unvisited_weight(adj, visited.update(i, true), k) + adj[i]@.len() + 2 == unvisited_weight(
            adj,
            visited,
            k,
        ),
        i >= k ==> unvisited_weight(adj, visited.update(i, true), k) == unvisited_weight(adj, visited, k),
    decreases k,
{
    if k > 0 {
        lemma_unvisited_weight_set(adj, visited, i, k - 1);
    }
}

/// The sum over the frames `(node, idx)` of a search stack of the edges of
/// `node` still to follow, plus one.
pub open spec fn stack_weight(adj: Seq<Vec<usize>>, stack: Seq<(usize, usize)>) -> int
    decreases stack.len(),
{
    if stack.len() == 0 {
        0
    } else {
        stack_weight(adj, stack.drop_last()) + adj[stack.last().0 as int]@.len() - stack.last().1 + 1
    }
}

proof fn lemma_stack_weight_nonneg(adj: Seq<Vec<usize>>, stack: Seq<(usize, usize)>)
    requires
        forall|t: int| 0 <= t < stack.len() ==> (#[trigger] stack[t]).1 <= adj[stack[t].0 as int]@.len(),
    ensures
        stack_weight(adj, stack) >= 0,
    decreases stack.len(),
{
    if stack.len() > 0 {
        lemma_stack_weight_nonneg(adj, stack.drop_last());
        assert(stack[stack.len() - 1].1 <= adj[stack[stack.len() - 1].0 as int]@.len());
    }
}

/// The number of strongly connected components of the directed graph `adj`
/// (with `rev` its reverse), by Kosaraju's two passes of depth-first search:
/// the first lists the vertices in the order their searches finish, the second
/// searches the reverse graph from the last finished vertex down.
pub fn strongly_connected_components(n_vertices: usize, adj: &[Vec<usize>], rev: &[Vec<usize>]) -> (r: usize)
    requires
        adj@.len() == n_vertices,
        rev@.len() == n_vertices,
        adjacency_ok(adj@),
        adjacency_ok(rev@),
    ensures
        r <= n_vertices,
        n_vertices > 0 ==> r >= 1,
{
    let n = n_vertices;
    if n == 0 {
        return 0;
    }
    let mut visited: Vec<bool> = Vec::with_capacity(n);
    let mut i: usize = 0;
    while i < n
        invariant
            i <= n,
            visited@.len() == i,
            forall|t: int| 0 <= t < i ==> !#[trigger] visited@[t],
        decreases n - i,
    {
        visited.push(false);
        i += 1;
    }
    let mut order: Vec<usize> = Vec::with_capacity(n);
    let mut v: usize = 0;
    while v < n
        invariant
            n == adj@.len(),
            adjacency_ok(adj@),
            v <= n,
            visited@.len() == n,
            forall|t: int| 0 <= t < order@.len() ==> #[trigger] order@[t] < n,
            v > 0 ==> order@.len() > 0,
            order@.len() == 0 ==> forall|t: int| 0 <= t < n ==> !#[trigger] visited@[t],
        decreases n - v,
    {
        if visited[v] {
            v += 1;
            continue;
        }
        let ghost order0 = order@.len();
        let mut stack: Vec<(usize, usize)> = Vec::new();
        proof {
            lemma_unvisited_weight_set(adj@, visited@, v as int, n as int);
        }
        visited.set(v, true);
        stack.push((v, 0));
        proof {
            assert(stack@.drop_last() =~= Seq::<(usize, usize)>::empty());
            lemma_stack_weight_nonneg(adj@, stack@);
        }
        while stack.len() > 0
            invariant
                n == adj@.len(),
                adjacency_ok(adj@),
                v < n,
                visited@.len() == n,
                forall|t: int| 0 <= t < order@.len() ==> #[trigger] order@[t] < n,
                forall|t: int| 0 <= t < stack@.len() ==> (#[trigger] stack@[t]).0 < n && stack@[t].1 <= adj@[stack@[t].0 as int]@.len(),
                order@.len() >= order0,
                stack@.len() == 0 ==> order@.len() > order0,
            decreases unvisited_weight(adj@, visited@, n as int) + stack_weight(adj@, stack@),
        {
            let ghost w0 = unvisited_weight(adj@, visited@, n as int) + stack_weight(adj@, stack@);
            let ghost s0 = stack@;
            let (node, idx) = stack.pop().unwrap();
            proof {
                assert(stack@ =~= s0.drop_last());
                assert(s0.last() == (node, idx));
                assert(stack_weight(adj@, s0) == stack_weight(adj@, s0.drop_last()) + adj@[node as int]@.len() - idx + 1);
            }
            if idx < adj[node].len() {
                stack.push((node, idx + 1));
                proof {
                    assert(stack@.drop_last() =~= s0.drop_last());
                    assert(stack_weight(adj@, stack@) == stack_weight(adj@, s0.drop_last()) + adj@[node as int]@.len() - idx);
                    assert(unvisited_weight(adj@, visited@, n as int) + stack_weight(adj@, stack@) < w0);
                }
                let next = adj[node][idx];
                proof {
                    assert(next < n);
                }
                if !visited[next] {
                    let ghost s1 = stack@;
                    let ghost u1 = unvisited_weight(adj@, visited@, n as int);
                    proof {
                        lemma_unvisited_weight_set(adj@, visited@, next as int, n as int);
                    }
                    visited.set(next, true);
                    stack.push((next, 0));
                    proof {
                        assert(stack@.drop_last() =~= s1);
                        assert(stack_weight(adj@, stack@) == stack_weight(adj@, s1) + adj@[next as int]@.len() + 1);
                        assert(unvisited_weight(adj@, visited@, n as int) + adj@[next as int]@.len() + 2 == u1);
                    }
                }
            } else {
                order.push(node);
            }
            proof {
                assert(unvisited_weight(adj@, visited@, n as int) + stack_weight(adj@, stack@) < w0);
                lemma_stack_weight_nonneg(adj@, stack@);
            }
        }
        v += 1;
    }
    let mut marks: Vec<bool> = Vec::with_capacity(n);
    i = 0;
    while i < n
        invariant
            i <= n,
            marks@.len() == i,
            forall|t: int| 0 <= t < i ==> !#[trigger] marks@[t],
        decreases n - i,
    {
        marks.push(false);
        i += 1;
    }
    proof {
        lemma_count_false_all(marks@);
    }
    let mut count: usize = 0;
    let mut k: usize = order.len();
    while k > 0
        invariant
            n == rev@.len(),
            adjacency_ok(rev@),
            k <= order@.len(),
            marks@.len() == n,
            forall|t: int| 0 <= t < order@.len() ==> #[trigger] order@[t] < n,
            order@.len() > 0,
            count <= n - count_false(marks@),
            count_false(marks@) <= n,
            k < order@.len() ==> count >= 1,
            count == 0 ==> forall|t: int| 0 <= t < n ==> !#[trigger] marks@[t],
        decreases k,
    {
        k -= 1;
        let v = order[k];
        if marks[v] {
            continue;
        }
        proof {
            lemma_count_false_set(marks@, v as int);
        }
        count += 1;
        let mut stack: Vec<usize> = Vec::new();
        marks.set(v, true);
        stack.push(v);
        while stack.len() > 0
            invariant
                n == rev@.len(),
                adjacency_ok(rev@),
                marks@.len() == n,
                forall|t: int| 0 <= t < stack@.len() ==> #[trigger] stack@[t] < n,
                count <= n - count_false(marks@),
                count_false(marks@) <= n,
                count >= 1,
            decreases 2 * count_false(marks@) + stack@.len(),
        {
            let node = stack.pop().unwrap();
            let nbrs = &rev[node];
            let ghost m0 = 2 * count_false(marks@) + stack@.len();
            let mut j: usize = 0;
            while j < nbrs.len()
                invariant
                    n == rev@.len(),
                    adjacency_ok(rev@),
                    node < n,
                    nbrs@ == rev@[node as int]@,
                    j <= nbrs@.len(),
                    marks@.len() == n,
                    forall|t: int| 0 <= t < stack@.len() ==> #[trigger] stack@[t] < n,
                    count <= n - count_false(marks@),
                    count_false(marks@) <= n,
                    count >= 1,
                    2 * count_false(marks@) + stack@.len() <= m0,
                decreases nbrs@.len() - j,
            {
                let next = nbrs[j];
                if !marks[next] {
                    proof {
                        lemma_count_false_set(marks@, next as int);
                    }
                    marks.set(next, true);
                    stack.push(next);
                }
                j += 1;
            }
        }
    }
    count
}


/// The metrics of the directed letter graph whose edges are the keys of the
/// pair table with both letters below `n_vertices`.
pub fn compute_topology_metrics(
    n_vertices: usize,
    pair_counts: &[((usize, usize), u64)],
    n_active_words: usize,
) -> (r: TopologyMetrics)
    requires
        keys_distinct(pair_counts@),
        n_vertices * n_vertices <= u64::MAX,
    ensures
        r.n_vertices == n_vertices,
        r.n_active_words == n_active_words,
        r.n_edges == directed_edges(pair_counts@, n_vertices as int, pair_counts@.len() as int),
        r.weakly_connected_components == components_below(pair_counts@, n_vertices as int, n_vertices as int),
        r.strongly_connected_components <= n_vertices,
        n_vertices > 0 ==> r.strongly_connected_components >= 1,
        r.max_out_degree == max_out_degree_below(pair_counts@, n_vertices as int, n_vertices as int),
        r.density_num == r.n_edges,
        r.density_den == if n_vertices == 0 {
            1
        } else {
            n_vertices * n_vertices
        },
        r.avg_out_degree_num == r.n_edges,
        r.avg_out_degree_den == if n_vertices == 0 {
            1
        } else {
            n_vertices as int
        },
{
    let n = n_vertices;
    let ghost pairs = pair_counts@;
    let mut adj: Vec<Vec<usize>> = Vec::with_capacity(n);
    let mut rev: Vec<Vec<usize>> = Vec::with_capacity(n);
    let mut u: usize = 0;
    while u < n
        invariant
            u <= n,
            adj@.len() == u,
            rev@.len() == u,
            forall|t: int| 0 <= t < u ==> (#[trigger] adj@[t])@.len() == 0,
            forall|t: int| 0 <= t < u ==> (#[trigger] rev@[t])@.len() == 0,
        decreases n - u,
    {
        adj.push(Vec::new());
        rev.push(Vec::new());
        u += 1;
    }
    let mut n_edges: usize = 0;
    let mut i: usize = 0;
    while i < pair_counts.len()
        invariant
            pairs == pair_counts@,
            i <= pairs.len(),
            adj@.len() == n,
            rev@.len() == n,
            adjacency_ok(adj@),
            adjacency_ok(rev@),
            n_edges == directed_edges(pairs, n as int, i as int),
            n_edges <= i,
            forall|a: int| 0 <= a < n ==> (#[trigger] adj@[a])@.len() == out_degree(pairs, n as int, a, i as int),
        decreases pairs.len() - i,
    {
        let a = pair_counts[i].0.0;
        let b = pair_counts[i].0.1;
        if a < n && b < n {
            let ghost adj0 = adj@;
            let ghost rev0 = rev@;
            adj[a].push(b);
            rev[b].push(a);
            n_edges += 1;
            proof {
                assert forall|x: int, j: int| 0 <= x < adj@.len() && 0 <= j < adj@[x]@.len() implies #[trigger] adj@[x]@[j]
                    < adj@.len() by {
                    if x != a || j < adj0[x]@.len() {
                        assert(adj@[x]@[j] == adj0[x]@[j]);
                    }
                }
                assert forall|x: int, j: int| 0 <= x < rev@.len() && 0 <= j < rev@[x]@.len() implies #[trigger] rev@[x]@[j]
                    < rev@.len() by {
                    if x != b || j < rev0[x]@.len() {
                        assert(rev@[x]@[j] == rev0[x]@[j]);
                    }
                }
                assert forall|x: int| 0 <= x < n implies (#[trigger] adj@[x])@.len() == out_degree(pairs, n as int, x, i + 1) by {
                    if x != a {
                        assert(adj@[x] == adj0[x]);
                    }
                }
            }
        }
        i += 1;
    }
    let weakly_connected_components = weakly_connected_components(n, pair_counts);
    let strongly_connected_components = strongly_connected_components(n, &adj, &rev);
    let mut max_out_degree: usize = 0;
    u = 0;
    while u < n
        invariant
            pairs == pair_counts@,
            u <= n,
            adj@.len() == n,
            forall|a: int| 0 <= a < n ==> (#[trigger] adj@[a])@.len() == out_degree(pairs, n as int, a, pairs.len() as int),
            max_out_degree == max_out_degree_below(pairs, n as int, u as int),
        decreases n - u,
    {
        if adj[u].len() > max_out_degree {
            max_out_degree = adj[u].len();
        }
        u += 1;
    }
    let avg_out_degree_num = n_edges as u64;
    let avg_out_degree_den: u64 = if n == 0 {
        1
    } else {
        n as u64
    };
    let density_num = n_edges as u64;
    let density_den: u64 = if n == 0 {
        1
    } else {
        (n as u64) * (n as u64)
    };
    TopologyMetrics {
        n_vertices,
        n_edges,
        n_active_words,
        weakly_connected_components,
        strongly_connected_components,
        max_out_degree,
        density_num,
        density_den,
        avg_out_degree_num,
        avg_out_degree_den,
    }
}

} // verus!
