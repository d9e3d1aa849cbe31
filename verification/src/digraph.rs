//! Directed graphs over node indices `0..n`, given as predecessor lists:
//! Kahn's topological ordering with a deterministic smallest-index
//! tie-break, reachability, and the set of nodes that lie on a cycle.
//!
//! An edge `j → i` means node `i` reads node `j` (`j` is in `preds[i]`), so a
//! topological order lists every node after all of its predecessors.

use vstd::prelude::*;

verus! {

/// The adjacency lists as sequences.
pub open spec fn lists_view(v: Seq<Vec<usize>>) -> Seq<Seq<usize>> {
    v.map_values(|x: Vec<usize>| x@)
}

/// Number of nodes.
pub open spec fn nodes(preds: Seq<Seq<usize>>) -> int {
    preds.len() as int
}

/// The edge `j → i`: node `i` reads node `j`.
pub open spec fn edge(preds: Seq<Seq<usize>>, j: int, i: int) -> bool {
    0 <= i < preds.len() && 0 <= j < preds.len() && preds[i].contains(j as usize)
}

/// Well-formed predecessor lists (every entry a node, no entry twice) with
/// matching successor lists.
pub open spec fn graph_wf(preds: Seq<Seq<usize>>, succ: Seq<Seq<usize>>) -> bool {
    &&& preds.len() == succ.len()
    &&& forall|i: int, k: int|
        0 <= i < preds.len() && 0 <= k < preds[i].len() ==> #[trigger] preds[i][k] < preds.len()
    &&& forall|i: int| 0 <= i < preds.len() ==> (#[trigger] preds[i]).no_duplicates()
    &&& forall|j: int, k: int|
        0 <= j < succ.len() && 0 <= k < succ[j].len() ==> #[trigger] succ[j][k] < succ.len()
    &&& forall|j: int| 0 <= j < succ.len() ==> (#[trigger] succ[j]).no_duplicates()
    &&& forall|i: int, j: int| #[trigger] edge(preds, j, i) <==> #[trigger] succ_has(succ, j, i)
}

/// `i` is listed among the successors of `j`.
pub open spec fn succ_has(succ: Seq<Seq<usize>>, j: int, i: int) -> bool {
    0 <= i < succ.len() && 0 <= j < succ.len() && succ[j].contains(i as usize)
}

/// Every listed node comes after all of its predecessors.
pub open spec fn listed_after_preds(preds: Seq<Seq<usize>>, order: Seq<usize>) -> bool {
    forall|t: int, q: int|
        0 <= t < order.len() && 0 <= q < preds[order[t] as int].len() ==> order.take(t).contains(
            #[trigger] preds[order[t] as int][q],
        )
}

/// `p` is a walk along edges (at least one node).
pub open spec fn is_path(preds: Seq<Seq<usize>>, p: Seq<int>) -> bool {
    &&& p.len() >= 1
    &&& forall|k: int| 0 <= k < p.len() ==> 0 <= #[trigger] p[k] < preds.len()
    &&& forall|k: int| 0 <= k < p.len() - 1 ==> edge(preds, #[trigger] p[k], p[k + 1])
}

/// `b` is reachable from `a` along zero or more edges.
pub open spec fn reaches(preds: Seq<Seq<usize>>, a: int, b: int) -> bool {
    exists|p: Seq<int>| is_path(preds, p) && p[0] == a && p.last() == b
}

/// Node `v` lies on a cycle: a walk of at least one edge leads from `v` back
/// to `v`.
pub open spec fn on_cycle(preds: Seq<Seq<usize>>, v: int) -> bool {
    exists|p: Seq<int>| is_path(preds, p) && p.len() >= 2 && p[0] == v && p.last() == v
}

/// Node `v` is reachable from an excluded node or from a node on a cycle.
pub open spec fn blocked(preds: Seq<Seq<usize>>, excluded: Seq<bool>, v: int) -> bool {
    exists|u: int| 0 <= u < preds.len() && (excluded[u] || on_cycle(preds, u)) && reaches(preds, u, v)
}

/// Node `v` may come next after `prefix`: it is not excluded, not yet listed,
/// and every predecessor is already listed.
pub open spec fn eligible(
    preds: Seq<Seq<usize>>,
    excluded: Seq<bool>,
    prefix: Seq<usize>,
    v: int,
) -> bool {
    &&& 0 <= v < preds.len()
    &&& !excluded[v]
    &&& !prefix.contains(v as usize)
    &&& forall|k: int| 0 <= k < preds[v].len() ==> prefix.contains(#[trigger] preds[v][k])
}

/// `order` is the smallest-index-first Kahn order of the nodes not reachable
/// from an excluded node or a cycle: every entry is, at its position, the
/// smallest eligible node, and when the order ends no node is eligible.
pub open spec fn is_kahn_order(preds: Seq<Seq<usize>>, excluded: Seq<bool>, order: Seq<usize>) -> bool {
    &&& forall|k: int| 0 <= k < order.len() ==> eligible(preds, excluded, order.take(k), #[trigger] order[k] as int)
    &&& forall|k: int, v: int|
        #![trigger eligible(preds, excluded, order.take(k), v)]
        0 <= k < order.len() && eligible(preds, excluded, order.take(k), v) ==> order[k] <= v
    &&& forall|v: int| !eligible(preds, excluded, order, v)
}

/// A duplicate-free list of integers in `0..n` has at most `n` entries, and
/// exactly `n` only when it lists all of them.
pub proof fn lemma_pigeonhole_int(t: Seq<int>, n: int)
    requires
        t.no_duplicates(),
        n >= 0,
        forall|k: int| 0 <= k < t.len() ==> 0 <= #[trigger] t[k] < n,
    ensures
        t.len() <= n,
        t.len() == n ==> forall|v: int| 0 <= v < n ==> #[trigger] t.contains(v),
        (forall|v: int| 0 <= v < n ==> #[trigger] t.contains(v)) ==> t.len() == n,
{
    t.unique_seq_to_set();
    let r = vstd::set_lib::set_int_range(0, n);
    vstd::set_lib::lemma_int_range(0, n);
    assert(t.to_set().subset_of(r)) by {
        assert forall|x: int| t.to_set().contains(x) implies r.contains(x) by {
            assert(t.contains(x));
            let k = choose|k: int| 0 <= k < t.len() && t[k] == x;
        }
    }
    vstd::set_lib::lemma_len_subset(t.to_set(), r);
    if forall|v: int| 0 <= v < n ==> #[trigger] t.contains(v) {
        assert(r.subset_of(t.to_set())) by {
            assert forall|x: int| r.contains(x) implies t.to_set().contains(x) by {
                assert(t.contains(x));
            }
        }
        vstd::set_lib::lemma_len_subset(r, t.to_set());
    }
    if t.len() == n {
        vstd::set_lib::lemma_subset_equality(t.to_set(), r);
        assert forall|v: int| 0 <= v < n implies #[trigger] t.contains(v) by {
            assert(r.contains(v));
            assert(t.to_set().contains(v));
        }
    }
}

/// A duplicate-free list of nodes below `n` has at most `n` entries, and
/// exactly `n` only when it lists every node.
pub proof fn lemma_pigeonhole(s: Seq<usize>, n: nat)
    requires
        s.no_duplicates(),
        forall|k: int| 0 <= k < s.len() ==> #[trigger] s[k] < n,
    ensures
        s.len() <= n,
        s.len() == n ==> forall|v: usize| v < n ==> s.contains(v),
        n <= usize::MAX + 1 && (forall|v: usize| v < n ==> s.contains(v)) ==> s.len() == n,
{
    let t = s.map_values(|x: usize| x as int);
    assert forall|a: int, b: int| 0 <= a < t.len() && 0 <= b < t.len() && a != b implies t[a] != t[b] by {
        assert(s[a] != s[b]);
    }
    assert forall|k: int| 0 <= k < t.len() implies 0 <= #[trigger] t[k] < n by {
        assert(t[k] == s[k] as int);
    }
    lemma_pigeonhole_int(t, n as int);
    if n <= usize::MAX + 1 && (forall|v: usize| v < n ==> s.contains(v)) {
        assert forall|v: int| 0 <= v < n implies #[trigger] t.contains(v) by {
            assert(s.contains(v as usize));
            let k = choose|k: int| 0 <= k < s.len() && s[k] == v as usize;
            assert(t[k] == v);
        }
    }
    if s.len() == n {
        assert forall|v: usize| v < n implies s.contains(v) by {
            assert(t.contains(v as int));
            let k = choose|k: int| 0 <= k < t.len() && t[k] == v as int;
            assert(s[k] == v);
        }
    }
}

/// A walk longer than the number of nodes visits some node twice.
proof fn lemma_long_path_repeats(preds: Seq<Seq<usize>>, p: Seq<int>) -> (ab: (int, int))
    requires
        is_path(preds, p),
        p.len() > preds.len(),
    ensures
        0 <= ab.0 < ab.1 < p.len(),
        p[ab.0] == p[ab.1],
{
    if p.no_duplicates() {
        lemma_pigeonhole_int(p, preds.len() as int);
        assert(false);
        (0, 0)
    } else {
        let (a, b) = choose|a: int, b: int| 0 <= a < p.len() && 0 <= b < p.len() && a != b && p[a] == p[b];
        if a < b {
            (a, b)
        } else {
            (b, a)
        }
    }
}

/// A sub-walk of a walk is a walk.
proof fn lemma_subpath(preds: Seq<Seq<usize>>, p: Seq<int>, a: int, b: int)
    requires
        is_path(preds, p),
        0 <= a < b <= p.len(),
    ensures
        is_path(preds, p.subrange(a, b)),
{
    let q = p.subrange(a, b);
    assert forall|k: int| 0 <= k < q.len() - 1 implies edge(preds, #[trigger] q[k], q[k + 1]) by {
        assert(q[k] == p[a + k] && q[k + 1] == p[a + k + 1]);
    }
}

/// Walking backwards from a node that is stuck (it and every node on the way
/// has an unlisted predecessor) either reaches an excluded node or goes on
/// for as long as asked.
proof fn lemma_walk_back(
    preds: Seq<Seq<usize>>,
    excluded: Seq<bool>,
    done: Seq<bool>,
    v: int,
    k: nat,
) -> (p: Seq<int>)
    requires
        excluded.len() == preds.len(),
        done.len() == preds.len(),
        0 <= v < preds.len(),
        !done[v],
        forall|x: int|
            0 <= x < preds.len() && !done[x] && !excluded[x] ==> exists|q: int|
                0 <= q < preds[x].len() && !done[#[trigger] preds[x][q] as int],
        forall|i: int, q: int|
            0 <= i < preds.len() && 0 <= q < preds[i].len() ==> #[trigger] preds[i][q] < preds.len(),
    ensures
        is_path(preds, p),
        p.last() == v,
        excluded[p[0]] || p.len() == k + 1,
    decreases k,
{
    if excluded[v] || k == 0 {
        seq![v]
    } else {
        let q = choose|q: int| 0 <= q < preds[v].len() && !done[#[trigger] preds[v][q] as int];
        let j = preds[v][q] as int;
        assert(preds[v].contains(j as usize));
        let w = lemma_walk_back(preds, excluded, done, j, (k - 1) as nat);
        let p = w.push(v);
        assert forall|t: int| 0 <= t < p.len() - 1 implies edge(preds, #[trigger] p[t], p[t + 1]) by {
            if t < w.len() - 1 {
                assert(p[t] == w[t] && p[t + 1] == w[t + 1]);
            } else {
                assert(p[t] == j && p[t + 1] == v);
            }
        }
        assert(p[0] == w[0]);
        p
    }
}

/// Every node that a stuck Kahn run leaves out is reachable from an excluded
/// node or from a node on a cycle.
pub proof fn lemma_stuck_nodes(preds: Seq<Seq<usize>>, excluded: Seq<bool>, done: Seq<bool>, v: int)
    requires
        excluded.len() == preds.len(),
        done.len() == preds.len(),
        0 <= v < preds.len(),
        !done[v],
        forall|x: int|
            0 <= x < preds.len() && !done[x] && !excluded[x] ==> exists|q: int|
                0 <= q < preds[x].len() && !done[#[trigger] preds[x][q] as int],
        forall|i: int, q: int|
            0 <= i < preds.len() && 0 <= q < preds[i].len() ==> #[trigger] preds[i][q] < preds.len(),
    ensures
        exists|u: int| 0 <= u < preds.len() && (excluded[u] || on_cycle(preds, u)) && reaches(preds, u, v),
{
    let p = lemma_walk_back(preds, excluded, done, v, preds.len() as nat);
    if excluded[p[0]] {
        assert(reaches(preds, p[0], v));
    } else {
        let (a, b) = lemma_long_path_repeats(preds, p);
        let u = p[a];
        lemma_subpath(preds, p, a, b + 1);
        assert(on_cycle(preds, u)) by {
            let c = p.subrange(a, b + 1);
            assert(c[0] == u && c.last() == u && c.len() >= 2);
        }
        lemma_subpath(preds, p, a, p.len() as int);
        assert(reaches(preds, u, v)) by {
            let c = p.subrange(a, p.len() as int);
            assert(c[0] == u && c.last() == v);
        }
    }
}

/// Positions strictly increase along a walk in an order that lists every node
/// after its predecessors.
proof fn lemma_positions_increase(preds: Seq<Seq<usize>>, order: Seq<usize>, p: Seq<int>, k: int) -> (t: int)
    requires
        preds.len() <= usize::MAX,
        is_path(preds, p),
        order.no_duplicates(),
        listed_after_preds(preds, order),
        order.contains(p.last() as usize),
        0 <= k < p.len(),
    ensures
        0 <= t < order.len(),
        order[t] == p[k] as usize,
        forall|t3: int| 0 <= t3 < order.len() && order[t3] == p.last() as usize ==> t + (p.len() - 1 - k) <= t3,
    decreases p.len() - k,
{
    if k == p.len() - 1 {
        let t = choose|t: int| 0 <= t < order.len() && order[t] == p.last() as usize;
        assert forall|t3: int| 0 <= t3 < order.len() && order[t3] == p.last() as usize implies t <= t3 by {
            if t3 != t {
                assert(order[t3] == order[t]);
            }
        }
        t
    } else {
        let t1 = lemma_positions_increase(preds, order, p, k + 1);
        assert(edge(preds, p[k], p[k + 1]));
        let q = choose|q: int| 0 <= q < preds[p[k + 1]].len() && #[trigger] preds[p[k + 1]][q] == p[k] as usize;
        assert(preds[order[t1] as int][q] == p[k] as usize);
        assert(order.take(t1).contains(preds[order[t1] as int][q]));
        let t2 = choose|t2: int| 0 <= t2 < order.take(t1).len() && order.take(t1)[t2] == preds[order[t1] as int][q];
        assert(order[t2] == order.take(t1)[t2]);
        t2
    }
}

/// No node on a cycle, and no node reachable from an excluded node, appears
/// in an order that lists every node after its predecessors and omits the
/// excluded ones.
proof fn lemma_listed_not_downstream(
    preds: Seq<Seq<usize>>,
    excluded: Seq<bool>,
    order: Seq<usize>,
    u: int,
    v: int,
)
    requires
        preds.len() <= usize::MAX,
        excluded.len() == preds.len(),
        order.no_duplicates(),
        forall|t: int| 0 <= t < order.len() ==> !excluded[#[trigger] order[t] as int],
        listed_after_preds(preds, order),
        0 <= u < preds.len(),
        excluded[u] || on_cycle(preds, u),
        reaches(preds, u, v),
    ensures
        !order.contains(v as usize),
{
    if order.contains(v as usize) {
        let p = choose|p: Seq<int>| is_path(preds, p) && p[0] == u && p.last() == v;
        let t = lemma_positions_increase(preds, order, p, 0);
        if excluded[u] {
            assert(!excluded[order[t] as int]);
        } else {
            let c = choose|c: Seq<int>| is_path(preds, c) && c.len() >= 2 && c[0] == u && c.last() == u;
            let t0 = lemma_positions_increase(preds, order, c, 0);
            assert(order[t0] == u as usize);
            assert(t0 + (c.len() - 1) <= t0);
        }
    }
}

/// Index of `x` in a list known to hold it.
proof fn lemma_index_of(s: Seq<usize>, x: usize) -> (k: int)
    requires
        s.contains(x),
    ensures
        0 <= k < s.len(),
        s[k] == x,
{
    choose|k: int| 0 <= k < s.len() && s[k] == x
}

/// How many entries of `s` are not yet listed.
pub open spec fn count_pending(s: Seq<usize>, done: Seq<bool>) -> nat
    decreases s.len(),
{
    if s.len() == 0 {
        0
    } else {
        count_pending(s.drop_last(), done) + (if done[s.last() as int] {
            0nat
        } else {
            1nat
        })
    }
}

proof fn lemma_count_pending_zero(s: Seq<usize>, done: Seq<bool>)
    requires
        forall|k: int| 0 <= k < s.len() ==> #[trigger] s[k] < done.len(),
    ensures
        count_pending(s, done) == 0 <==> forall|k: int| 0 <= k < s.len() ==> done[#[trigger] s[k] as int],
    decreases s.len(),
{
    if s.len() > 0 {
        let t = s.drop_last();
        assert forall|k: int| 0 <= k < t.len() implies #[trigger] t[k] < done.len() by {
            assert(t[k] == s[k]);
        }
        lemma_count_pending_zero(t, done);
        if forall|k: int| 0 <= k < s.len() ==> done[#[trigger] s[k] as int] {
            assert forall|k: int| 0 <= k < t.len() implies done[#[trigger] t[k] as int] by {
                assert(t[k] == s[k]);
            }
            assert(done[s[s.len() - 1] as int]);
        }
        if count_pending(s, done) == 0 {
            assert forall|k: int| 0 <= k < s.len() implies done[#[trigger] s[k] as int] by {
                if k < s.len() - 1 {
                    assert(t[k] == s[k]);
                }
            }
        }
    }
}

proof fn lemma_count_pending_mark(s: Seq<usize>, done: Seq<bool>, u: usize)
    requires
        s.no_duplicates(),
        forall|k: int| 0 <= k < s.len() ==> #[trigger] s[k] < done.len(),
        u < done.len(),
        !done[u as int],
    ensures
        count_pending(s, done.update(u as int, true)) == count_pending(s, done) - (if s.contains(u) {
            1int
        } else {
            0int
        }),
    decreases s.len(),
{
    if s.len() > 0 {
        let t = s.drop_last();
        assert forall|k: int| 0 <= k < t.len() implies #[trigger] t[k] < done.len() by {
            assert(t[k] == s[k]);
        }
        lemma_count_pending_mark(t, done, u);
        if s.last() == u {
            assert(!t.contains(u)) by {
                if t.contains(u) {
                    let k = choose|k: int| 0 <= k < t.len() && t[k] == u;
                    assert(s[k] == s[s.len() - 1]);
                }
            }
        } else {
            assert(s.contains(u) == t.contains(u)) by {
                if s.contains(u) {
                    let k = choose|k: int| 0 <= k < s.len() && s[k] == u;
                    assert(k < s.len() - 1);
                    assert(t[k] == u);
                }
                if t.contains(u) {
                    let k = choose|k: int| 0 <= k < t.len() && t[k] == u;
                    assert(s[k] == u);
                }
            }
        }
    }
}

/// Whether `x` is in the sorted-descending `ready` list.
fn ready_insert(ready: &mut Vec<usize>, x: usize)
    requires
        forall|a: int, b: int| 0 <= a < b < old(ready)@.len() ==> old(ready)@[a] > old(ready)@[b],
        !old(ready)@.contains(x),
    ensures
        forall|a: int, b: int| 0 <= a < b < final(ready)@.len() ==> final(ready)@[a] > final(ready)@[b],
        forall|y: usize| final(ready)@.contains(y) <==> (old(ready)@.contains(y) || y == x),
{
    let mut i: usize = 0;
    while i < ready.len() && ready[i] > x
        invariant
            i <= ready@.len(),
            forall|a: int| 0 <= a < i ==> ready@[a] > x,
        decreases ready@.len() - i,
    {
        i = i + 1;
    }
    let ghost before = ready@;
    proof {
        if i < before.len() {
            assert(before[i as int] != x);
        }
    }
    ready.insert(i, x);
    assert forall|y: usize| ready@.contains(y) <==> (before.contains(y) || y == x) by {
        if ready@.contains(y) {
            let k = choose|k: int| 0 <= k < ready@.len() && ready@[k] == y;
            if k < i {
                assert(before[k] == y);
            } else if k > i {
                assert(before[k - 1] == y);
            }
        }
        if before.contains(y) {
            let k = choose|k: int| 0 <= k < before.len() && before[k] == y;
            if k < i {
                assert(ready@[k] == y);
            } else {
                assert(ready@[k + 1] == y);
            }
        }
        if y == x {
            assert(ready@[i as int] == x);
        }
    }
}

/// Kahn's algorithm with a smallest-index-first tie-break: lists the nodes
/// that are not excluded and not reachable from an excluded node or a cycle,
/// each after all of its predecessors.
pub fn kahn_order(preds: &Vec<Vec<usize>>, succ: &Vec<Vec<usize>>, excluded: &Vec<bool>) -> (order: Vec<usize>)
    requires
        graph_wf(lists_view(preds@), lists_view(succ@)),
        excluded@.len() == preds@.len(),
    ensures
        ({
            let g = lists_view(preds@);
            &&& order@.no_duplicates()
            &&& forall|k: int| 0 <= k < order@.len() ==> #[trigger] order@[k] < g.len() && !excluded@[order@[k] as int]
            &&& is_kahn_order(g, excluded@, order@)
            &&& listed_after_preds(g, order@)
            &&& forall|v: usize|
                v < g.len() ==> (#[trigger] order@.contains(v) <==> !blocked(g, excluded@, v as int))
        }),
{
    let ghost g = lists_view(preds@);
    let ghost gs = lists_view(succ@);
    let n = preds.len();
    let mut order: Vec<usize> = Vec::new();
    let mut done: Vec<bool> = Vec::new();
    let mut indeg: Vec<usize> = Vec::new();
    let mut i: usize = 0;
    while i < n
        invariant
            n == preds@.len(),
            i <= n,
            done@.len() == i,
            indeg@.len() == i,
            forall|x: int| 0 <= x < i ==> !done@[x],
            forall|x: int| 0 <= x < i ==> indeg@[x] == g[x].len(),
            g == lists_view(preds@),
        decreases n - i,
    {
        done.push(false);
        indeg.push(preds[i].len());
        assert(g[i as int] == preds@[i as int]@);
        i = i + 1;
    }
    proof {
        assert forall|x: int| 0 <= x < n implies indeg@[x] == count_pending(g[x], done@) by {
            lemma_count_pending_all(g[x], done@);
        }
    }
    // Ready nodes, largest index first so the smallest pops off the end.
    let mut ready: Vec<usize> = Vec::new();
    let mut v: usize = n;
    while v > 0
        invariant
            n == preds@.len() == done@.len() == indeg@.len() == excluded@.len(),
            v <= n,
            forall|a: int, b: int| 0 <= a < b < ready@.len() ==> ready@[a] > ready@[b],
            forall|y: usize| ready@.contains(y) <==> (v <= y < n && indeg@[y as int] == 0 && !excluded@[y as int]),
        decreases v,
    {
        v = v - 1;
        if indeg[v] == 0 && !excluded[v] {
            let ghost old_ready = ready@;
            assert(!old_ready.contains(v));
            ready.push(v);
            assert(ready@ == old_ready.push(v));
            assert forall|y: usize| ready@.contains(y) <==> (v <= y < n && indeg@[y as int] == 0 && !excluded@[y as int]) by {
                if ready@.contains(y) {
                    let k = choose|k: int| 0 <= k < ready@.len() && ready@[k] == y;
                    if k < old_ready.len() {
                        assert(old_ready[k] == y);
                        assert(old_ready.contains(y));
                    }
                }
                if v <= y < n && indeg@[y as int] == 0 && !excluded@[y as int] {
                    if y == v {
                        assert(ready@[old_ready.len() as int] == y);
                    } else {
                        assert(old_ready.contains(y));
                        let k = choose|k: int| 0 <= k < old_ready.len() && old_ready[k] == y;
                        assert(ready@[k] == y);
                    }
                }
            }
            assert forall|a: int, b: int| 0 <= a < b < ready@.len() implies ready@[a] > ready@[b] by {
                if b == ready@.len() - 1 {
                    assert(ready@[a] == old_ready[a]);
                    assert(old_ready.contains(ready@[a]));
                }
            }
        } else {
            assert forall|y: usize| ready@.contains(y) <==> (v <= y < n && indeg@[y as int] == 0 && !excluded@[y as int]) by {
            }
        }
    }
    assert(order@ =~= Seq::<usize>::empty());
    while ready.len() > 0
        invariant
            n == preds@.len() == succ@.len() == done@.len() == indeg@.len() == excluded@.len(),
            g == lists_view(preds@),
            gs == lists_view(succ@),
            graph_wf(g, gs),
            forall|y: int| 0 <= y < n ==> (done@[y] <==> order@.contains(y as usize)),
            forall|y: int| 0 <= y < n ==> #[trigger] indeg@[y] == count_pending(g[y], done@),
            forall|a: int, b: int| 0 <= a < b < ready@.len() ==> ready@[a] > ready@[b],
            forall|y: usize| ready@.contains(y) <==> (y < n && !done@[y as int] && !excluded@[y as int] && indeg@[y as int] == 0),
            order@.no_duplicates(),
            forall|k: int| 0 <= k < order@.len() ==> #[trigger] order@[k] < n && !excluded@[order@[k] as int],
            forall|k: int| 0 <= k < order@.len() ==> eligible(g, excluded@, order@.take(k), #[trigger] order@[k] as int),
            forall|k: int, w: int|
                #![trigger eligible(g, excluded@, order@.take(k), w)]
                0 <= k < order@.len() && eligible(g, excluded@, order@.take(k), w) ==> order@[k] <= w,
        decreases n - order@.len(),
    {
        let ghost old_ready = ready@;
        let u = ready.pop().unwrap();
        let ghost prev = order@;
        let ghost prev_done = done@;
        proof {
            assert(g.len() == n);
            assert(prev_done.len() == n);
            assert(old_ready =~= ready@.push(u));
            assert(old_ready[old_ready.len() - 1] == u);
            assert(old_ready.contains(u));
            assert(ready@.push(u).contains(u));
            lemma_count_pending_zero(g[u as int], prev_done);
            assert(eligible(g, excluded@, prev, u as int));
            // `u` is the smallest eligible node.
            assert forall|w: int| eligible(g, excluded@, prev, w) implies u <= w by {
                assert forall|k: int| 0 <= k < g[w].len() implies prev_done[#[trigger] g[w][k] as int] by {
                    assert(prev.contains(g[w][k]));
                }
                lemma_count_pending_zero(g[w], prev_done);
                assert(ready@.push(u).contains(w as usize));
                let k = choose|k: int| 0 <= k < ready@.push(u).len() && ready@.push(u)[k] == w as usize;
                if k < ready@.len() {
                    assert(ready@.push(u)[k] > ready@.push(u)[ready@.len() as int]);
                }
            }
            assert(!prev.contains(u));
            assert forall|k: int| 0 <= k < prev.len() implies #[trigger] prev[k] < n by {}
            lemma_pigeonhole(prev.push(u), n as nat);
        }
        order.push(u);
        done.set(u, true);
        proof {
            assert(order@.take(prev.len() as int) =~= prev);
            assert forall|k: int| 0 <= k < prev.len() implies order@.take(k) =~= prev.take(k) by {}
            assert forall|y: int| 0 <= y < n implies #[trigger] count_pending(g[y], done@) == count_pending(g[y], prev_done) - (if g[y].contains(u) { 1int } else { 0int }) by {
                lemma_count_pending_mark(g[y], prev_done, u);
            }
        }
        let ghost mid_indeg = indeg@;
        let ghost mid_ready = ready@;
        proof {
            assert forall|y: usize| mid_ready.contains(y) implies y < n && !done@[y as int] && !excluded@[y as int] && mid_indeg[y as int] == 0 && y != u by {
                let k = choose|k: int| 0 <= k < mid_ready.len() && mid_ready[k] == y;
                assert(old_ready[k] == y);
                assert(old_ready.contains(y));
                assert(old_ready[k] > old_ready[old_ready.len() - 1]);
            }
        }
        let sl = succ[u].len();
        let mut t: usize = 0;
        while t < sl
            invariant
                n == preds@.len() == succ@.len() == done@.len() == indeg@.len() == excluded@.len(),
                g == lists_view(preds@),
                gs == lists_view(succ@),
                graph_wf(g, gs),
                u < n,
                sl == gs[u as int].len(),
                t <= sl,
                done@[u as int],
                forall|y: int| 0 <= y < n ==> #[trigger] count_pending(g[y], done@) == count_pending(g[y], prev_done) - (if g[y].contains(u) { 1int } else { 0int }),
                forall|y: int| 0 <= y < n ==> mid_indeg[y] == count_pending(g[y], prev_done),
                prev_done.len() == n,
                mid_indeg.len() == n,
                !prev_done[u as int],
                g.len() == n,
                forall|y: int| 0 <= y < n ==> #[trigger] indeg@[y] == (if gs[u as int].take(t as int).contains(y as usize) { mid_indeg[y] - 1 } else { mid_indeg[y] as int }),
                forall|a: int, b: int| 0 <= a < b < ready@.len() ==> ready@[a] > ready@[b],
                forall|y: usize| ready@.contains(y) <==> (mid_ready.contains(y) || (gs[u as int].take(t as int).contains(y) && !excluded@[y as int] && indeg@[y as int] == 0)),
                forall|y: usize| mid_ready.contains(y) ==> y < n && !done@[y as int] && !excluded@[y as int] && mid_indeg[y as int] == 0 && y != u,
            decreases sl - t,
        {
            let dep = succ[u][t];
            proof {
                assert(gs[u as int][t as int] == dep);
                assert(gs[u as int].contains(dep));
                assert(succ_has(gs, u as int, dep as int));
                assert(edge(g, u as int, dep as int));
                assert(g[dep as int].contains(u));
                lemma_count_pending_mark(g[dep as int], prev_done, u);
                assert(!gs[u as int].take(t as int).contains(dep)) by {
                    if gs[u as int].take(t as int).contains(dep) {
                        let k = choose|k: int| 0 <= k < t && gs[u as int].take(t as int)[k] == dep;
                        assert(gs[u as int][k] == gs[u as int][t as int]);
                    }
                }
                assert(mid_indeg[dep as int] >= 1) by {
                    if count_pending(g[dep as int], prev_done) == 0 {
                        lemma_count_pending_zero(g[dep as int], prev_done);
                        let k = lemma_index_of(g[dep as int], u);
                        assert(prev_done[u as int]);
                    }
                }
                assert(gs[u as int].take(t as int + 1) =~= gs[u as int].take(t as int).push(dep));
            }
            let ghost before_set = indeg@;
            indeg.set(dep, indeg[dep] - 1);
            proof {
                assert forall|y: int| 0 <= y < n implies #[trigger] indeg@[y] == (if gs[u as int].take(t as int + 1).contains(y as usize) { mid_indeg[y] - 1 } else { mid_indeg[y] as int }) by {
                    if y == dep as int {
                        assert(gs[u as int].take(t as int + 1)[t as int] == dep);
                        assert(gs[u as int].take(t as int + 1).contains(dep));
                    } else {
                        assert(indeg@[y] == before_set[y]);
                        if gs[u as int].take(t as int + 1).contains(y as usize) {
                            let k = choose|k: int| 0 <= k < t + 1 && #[trigger] gs[u as int].take(t as int + 1)[k] == y as usize;
                            assert(k < t);
                            assert(gs[u as int].take(t as int)[k] == y as usize);
                        }
                        if gs[u as int].take(t as int).contains(y as usize) {
                            let k = choose|k: int| 0 <= k < t && #[trigger] gs[u as int].take(t as int)[k] == y as usize;
                            assert(gs[u as int].take(t as int + 1)[k] == y as usize);
                        }
                    }
                }
            }
            if indeg[dep] == 0 && !excluded[dep] {
                proof {
                    assert(!mid_ready.contains(dep));
                    assert(!ready@.contains(dep));
                }
                ready_insert(&mut ready, dep);
            }
            t = t + 1;
        }
        proof {
            assert(gs[u as int].take(sl as int) =~= gs[u as int]);
            assert forall|y: int| 0 <= y < n implies #[trigger] indeg@[y] == count_pending(g[y], done@) by {
                assert(edge(g, u as int, y) == succ_has(gs, u as int, y));
                if gs[u as int].contains(y as usize) {
                    assert(g[y].contains(u));
                } else {
                    assert(!g[y].contains(u));
                }
            }
            assert forall|y: usize| ready@.contains(y) <==> (y < n && !done@[y as int] && !excluded@[y as int] && indeg@[y as int] == 0) by {
                if mid_ready.contains(y) {
                    assert(!gs[u as int].contains(y)) by {
                        if gs[u as int].contains(y) {
                            assert(edge(g, u as int, y as int) == succ_has(gs, u as int, y as int));
                            assert(g[y as int].contains(u));
                            lemma_count_pending_zero(g[y as int], prev_done);
                            let k = lemma_index_of(g[y as int], u);
                        }
                    }
                }
                if y < n && !done@[y as int] && !excluded@[y as int] && indeg@[y as int] == 0 && !gs[u as int].contains(y) {
                    assert(mid_ready.push(u).contains(y)) by {
                        assert(ready@.contains(y) || true);
                    }
                    assert(y != u);
                    let ghost before_pop = mid_ready.push(u);
                    assert(before_pop.contains(y));
                    let k = choose|k: int| 0 <= k < before_pop.len() && before_pop[k] == y;
                    assert(k < mid_ready.len());
                    assert(mid_ready[k] == y);
                }
                if gs[u as int].contains(y) {
                    assert(gs[u as int][0] < n || true);
                }
            }
            assert forall|y: int| 0 <= y < n implies (done@[y] <==> order@.contains(y as usize)) by {
                if y == u as int {
                    assert(order@[prev.len() as int] == u);
                } else {
                    if order@.contains(y as usize) {
                        let k = choose|k: int| 0 <= k < order@.len() && order@[k] == y as usize;
                        assert(k < prev.len());
                        assert(prev[k] == y as usize);
                    }
                    if prev.contains(y as usize) {
                        let k = choose|k: int| 0 <= k < prev.len() && prev[k] == y as usize;
                        assert(order@[k] == y as usize);
                    }
                }
            }
            assert forall|k: int| 0 <= k < order@.len() implies eligible(g, excluded@, order@.take(k), #[trigger] order@[k] as int) by {
                if k < prev.len() {
                    assert(order@.take(k) =~= prev.take(k));
                    assert(order@[k] == prev[k]);
                } else {
                    assert(order@.take(k) =~= prev);
                }
            }
            assert forall|k: int, w: int|
                #![trigger eligible(g, excluded@, order@.take(k), w)]
                0 <= k < order@.len() && eligible(g, excluded@, order@.take(k), w) implies order@[k] <= w by {
                if k < prev.len() {
                    assert(order@.take(k) =~= prev.take(k));
                    assert(order@[k] == prev[k]);
                } else {
                    assert(order@.take(k) =~= prev);
                }
            }
        }
    }
    proof {
        // Nothing is ready: every unlisted, non-excluded node waits on an
        // unlisted predecessor.
        assert forall|x: int| 0 <= x < n && !done@[x] && !excluded@[x] implies exists|q: int|
            0 <= q < g[x].len() && !done@[#[trigger] g[x][q] as int] by {
            assert(!ready@.contains(x as usize));
            lemma_count_pending_zero(g[x], done@);
        }
        assert(g.len() == n);
        assert forall|x: int, q: int| 0 <= x < g.len() && 0 <= q < g[x].len() implies #[trigger] g[x][q] < g.len() by {}
        lemma_order_facts(g, excluded@, order@, done@);
    }
    order
}

proof fn lemma_count_pending_all(s: Seq<usize>, done: Seq<bool>)
    requires
        forall|k: int| 0 <= k < s.len() ==> #[trigger] s[k] < done.len() && !done[s[k] as int],
    ensures
        count_pending(s, done) == s.len(),
    decreases s.len(),
{
    if s.len() > 0 {
        lemma_count_pending_all(s.drop_last(), done);
    }
}

/// The remaining contract of [`kahn_order`], from its loop invariant at exit.
proof fn lemma_order_facts(g: Seq<Seq<usize>>, excluded: Seq<bool>, order: Seq<usize>, done: Seq<bool>)
    requires
        g.len() <= usize::MAX,
        excluded.len() == g.len(),
        done.len() == g.len(),
        forall|y: int| 0 <= y < g.len() ==> (done[y] <==> order.contains(y as usize)),
        order.no_duplicates(),
        forall|k: int| 0 <= k < order.len() ==> #[trigger] order[k] < g.len() && !excluded[order[k] as int],
        forall|k: int| 0 <= k < order.len() ==> eligible(g, excluded, order.take(k), #[trigger] order[k] as int),
        forall|k: int, w: int|
            #![trigger eligible(g, excluded, order.take(k), w)]
            0 <= k < order.len() && eligible(g, excluded, order.take(k), w) ==> order[k] <= w,
        forall|x: int, q: int| 0 <= x < g.len() && 0 <= q < g[x].len() ==> #[trigger] g[x][q] < g.len(),
        forall|x: int|
            0 <= x < g.len() && !done[x] && !excluded[x] ==> exists|q: int|
                0 <= q < g[x].len() && !done[#[trigger] g[x][q] as int],
    ensures
        is_kahn_order(g, excluded, order),
        listed_after_preds(g, order),
        forall|v: usize|
            v < g.len() ==> (#[trigger] order.contains(v) <==> !blocked(g, excluded, v as int)),
{
    assert forall|t: int, q: int|
        0 <= t < order.len() && 0 <= q < g[order[t] as int].len() implies order.take(t).contains(
            #[trigger] g[order[t] as int][q],
        ) by {
        assert(eligible(g, excluded, order.take(t), order[t] as int));
    }
    assert forall|v: int| !eligible(g, excluded, order, v) by {
        if eligible(g, excluded, order, v) {
            assert(!done[v]);
            let q = choose|q: int| 0 <= q < g[v].len() && !done[#[trigger] g[v][q] as int];
            assert(order.contains(g[v][q]));
        }
    }
    assert forall|v: usize|
        v < g.len() implies (#[trigger] order.contains(v) <==> !blocked(g, excluded, v as int)) by {
        if order.contains(v) {
            assert forall|u: int| 0 <= u < g.len() && (excluded[u] || on_cycle(g, u)) implies !reaches(g, u, v as int) by {
                if reaches(g, u, v as int) {
                    lemma_listed_not_downstream(g, excluded, order, u, v as int);
                }
            }
        } else {
            lemma_stuck_nodes(g, excluded, done, v as int);
        }
    }
}

proof fn lemma_kahn_prefix(g: Seq<Seq<usize>>, excluded: Seq<bool>, a: Seq<usize>, b: Seq<usize>, k: int)
    requires
        is_kahn_order(g, excluded, a),
        is_kahn_order(g, excluded, b),
        0 <= k <= a.len(),
        k <= b.len(),
    ensures
        a.take(k) == b.take(k),
    decreases k,
{
    if k > 0 {
        lemma_kahn_prefix(g, excluded, a, b, k - 1);
        assert(eligible(g, excluded, a.take(k - 1), a[k - 1] as int));
        assert(eligible(g, excluded, b.take(k - 1), b[k - 1] as int));
        assert(a[k - 1] <= b[k - 1]);
        assert(b[k - 1] <= a[k - 1]);
        assert(a.take(k) =~= a.take(k - 1).push(a[k - 1]));
        assert(b.take(k) =~= b.take(k - 1).push(b[k - 1]));
    }
}

/// Two orders that both satisfy the smallest-eligible-first rule over the
/// same graph and exclusions are the same order.
pub proof fn lemma_kahn_order_unique(g: Seq<Seq<usize>>, excluded: Seq<bool>, a: Seq<usize>, b: Seq<usize>)
    requires
        is_kahn_order(g, excluded, a),
        is_kahn_order(g, excluded, b),
    ensures
        a == b,
{
    let m = if a.len() < b.len() { a.len() } else { b.len() };
    lemma_kahn_prefix(g, excluded, a, b, m as int);
    if a.len() < b.len() {
        assert(a.take(m as int) =~= a);
        assert(eligible(g, excluded, b.take(m as int), b[m as int] as int));
        assert(false);
    } else if b.len() < a.len() {
        assert(b.take(m as int) =~= b);
        assert(eligible(g, excluded, a.take(m as int), a[m as int] as int));
        assert(false);
    }
    assert(a =~= a.take(m as int));
    assert(b =~= b.take(m as int));
}

/// How many entries of `marks` are still `false`.
pub open spec fn unmarked(marks: Seq<bool>) -> nat
    decreases marks.len(),
{
    if marks.len() == 0 {
        0
    } else {
        unmarked(marks.drop_last()) + (if marks.last() {
            0nat
        } else {
            1nat
        })
    }
}

proof fn lemma_unmarked_set(marks: Seq<bool>, x: int)
    requires
        0 <= x < marks.len(),
        !marks[x],
    ensures
        unmarked(marks.update(x, true)) + 1 == unmarked(marks),
    decreases marks.len(),
{
    let m2 = marks.update(x, true);
    if x == marks.len() - 1 {
        assert(m2.drop_last() =~= marks.drop_last());
    } else {
        lemma_unmarked_set(marks.drop_last(), x);
        assert(m2.drop_last() =~= marks.drop_last().update(x, true));
    }
}

/// Extending a walk by one edge.
proof fn lemma_path_push(preds: Seq<Seq<usize>>, p: Seq<int>, y: int)
    requires
        is_path(preds, p),
        edge(preds, p.last(), y),
    ensures
        is_path(preds, p.push(y)),
        p.push(y)[0] == p[0],
        p.push(y).last() == y,
{
    let q = p.push(y);
    assert forall|k: int| 0 <= k < q.len() - 1 implies edge(preds, #[trigger] q[k], q[k + 1]) by {
        if k < p.len() - 1 {
            assert(q[k] == p[k] && q[k + 1] == p[k + 1]);
        } else {
            assert(q[k] == p.last() && q[k + 1] == y);
        }
    }
}

/// A set of nodes that holds a walk's first node and is closed under edges
/// holds its last node.
proof fn lemma_closed_marks(preds: Seq<Seq<usize>>, marks: Seq<bool>, p: Seq<int>, k: int)
    requires
        marks.len() == preds.len(),
        is_path(preds, p),
        marks[p[0]],
        forall|x: int, y: int| marks[x] && #[trigger] edge(preds, x, y) ==> marks[y],
        0 <= k < p.len(),
    ensures
        marks[p[k]],
    decreases k,
{
    if k > 0 {
        lemma_closed_marks(preds, marks, p, k - 1);
        assert(edge(preds, p[k - 1], p[k]));
    }
}

/// Some node of `starts` reaches `x`.
pub open spec fn reached_from(preds: Seq<Seq<usize>>, starts: Seq<usize>, x: int) -> bool {
    exists|k: int| 0 <= k < starts.len() && reaches(preds, starts[k] as int, x)
}

/// Marks `y` and queues it.
fn visit(marks: &mut Vec<bool>, work: &mut Vec<usize>, y: usize)
    requires
        y < old(marks)@.len(),
        !old(marks)@[y as int],
        forall|t: int| 0 <= t < old(work)@.len() ==> #[trigger] old(work)@[t] < old(marks)@.len() && old(marks)@[old(work)@[t] as int],
        old(work)@.no_duplicates(),
    ensures
        final(marks)@ == old(marks)@.update(y as int, true),
        final(work)@ == old(work)@.push(y),
        final(work)@.no_duplicates(),
        forall|t: int| 0 <= t < final(work)@.len() ==> #[trigger] final(work)@[t] < final(marks)@.len() && final(marks)@[final(work)@[t] as int],
        unmarked(final(marks)@) + 1 == unmarked(old(marks)@),
{
    proof {
        lemma_unmarked_set(marks@, y as int);
        assert(!work@.contains(y)) by {
            if work@.contains(y) {
                let t = choose|t: int| 0 <= t < work@.len() && work@[t] == y;
                assert(marks@[work@[t] as int]);
            }
        }
    }
    marks.set(y, true);
    work.push(y);
}

/// Every marked node is reachable from a start.
#[verifier::opaque]
pub open spec fn marks_sound(preds: Seq<Seq<usize>>, starts: Seq<usize>, marks: Seq<bool>) -> bool {
    forall|x: int| 0 <= x < marks.len() && #[trigger] marks[x] ==> reached_from(preds, starts, x)
}

/// Every marked node that is not queued, other than `skip`, has all its
/// successors marked.
#[verifier::opaque]
pub open spec fn closed_beyond(preds: Seq<Seq<usize>>, marks: Seq<bool>, work: Seq<usize>, skip: int) -> bool {
    forall|z: int, y: int|
        marks[z] && !work.contains(z as usize) && z != skip && #[trigger] edge(preds, z, y) ==> marks[y]
}

proof fn lemma_sound_mark(preds: Seq<Seq<usize>>, starts: Seq<usize>, marks: Seq<bool>, y: int)
    requires
        marks_sound(preds, starts, marks),
        reached_from(preds, starts, y),
        0 <= y < marks.len(),
    ensures
        marks_sound(preds, starts, marks.update(y, true)),
{
    reveal(marks_sound);
    let m2 = marks.update(y, true);
    assert forall|x: int| 0 <= x < m2.len() && #[trigger] m2[x] implies reached_from(preds, starts, x) by {
        if x != y {
            assert(marks[x]);
        }
    }
}

proof fn lemma_closed_mark(preds: Seq<Seq<usize>>, marks: Seq<bool>, work: Seq<usize>, skip: int, y: usize)
    requires
        closed_beyond(preds, marks, work, skip),
        0 <= y < marks.len(),
        marks.len() == preds.len(),
    ensures
        closed_beyond(preds, marks.update(y as int, true), work.push(y), skip),
{
    reveal(closed_beyond);
    let m2 = marks.update(y as int, true);
    let w2 = work.push(y);
    assert forall|z: int, y2: int|
        m2[z] && !w2.contains(z as usize) && z != skip && #[trigger] edge(preds, z, y2) implies m2[y2] by {
        if z == y as int {
            assert(w2[w2.len() - 1] == y);
        } else {
            assert(marks[z]);
            if work.contains(z as usize) {
                let t = choose|t: int| 0 <= t < work.len() && work[t] == z as usize;
                assert(w2[t] == z as usize);
            }
        }
    }
}

/// Marks the successors of `x` that are not yet marked, queueing each.
fn expand(
    preds: &Vec<Vec<usize>>,
    succ: &Vec<Vec<usize>>,
    marks: &mut Vec<bool>,
    work: &mut Vec<usize>,
    x: usize,
    Ghost(starts): Ghost<Seq<usize>>,
)
    requires
        graph_wf(lists_view(preds@), lists_view(succ@)),
        x < preds@.len(),
        old(marks)@.len() == preds@.len(),
        old(marks)@[x as int],
        marks_sound(lists_view(preds@), starts, old(marks)@),
        closed_beyond(lists_view(preds@), old(marks)@, old(work)@, x as int),
        forall|t: int| 0 <= t < old(work)@.len() ==> #[trigger] old(work)@[t] < preds@.len() && old(marks)@[old(work)@[t] as int],
        old(work)@.no_duplicates(),
    ensures
        final(marks)@.len() == preds@.len(),
        marks_sound(lists_view(preds@), starts, final(marks)@),
        closed_beyond(lists_view(preds@), final(marks)@, final(work)@, -1),
        forall|t: int| 0 <= t < final(work)@.len() ==> #[trigger] final(work)@[t] < preds@.len() && final(marks)@[final(work)@[t] as int],
        final(work)@.no_duplicates(),
        forall|z: int| 0 <= z < preds@.len() && old(marks)@[z] ==> #[trigger] final(marks)@[z],
        unmarked(final(marks)@) < unmarked(old(marks)@) || (final(marks)@ == old(marks)@ && final(work)@ == old(work)@),
        !old(work)@.contains(x) ==> !final(work)@.contains(x),
{
    let ghost g = lists_view(preds@);
    let ghost gs = lists_view(succ@);
    let ghost m0 = marks@;
    let ghost w0 = work@;
    let n = preds.len();
    let sl = succ[x].len();
    let mut t: usize = 0;
    while t < sl
        invariant
            n == preds@.len() == succ@.len() == g.len(),
            g == lists_view(preds@),
            gs == lists_view(succ@),
            graph_wf(g, gs),
            x < n,
            marks@[x as int],
            sl == gs[x as int].len(),
            t <= sl,
            marks@.len() == n,
            marks_sound(g, starts, marks@),
            closed_beyond(g, marks@, work@, x as int),
            forall|t2: int| 0 <= t2 < work@.len() ==> #[trigger] work@[t2] < n && marks@[work@[t2] as int],
            work@.no_duplicates(),
            forall|z: int| 0 <= z < n && m0[z] ==> #[trigger] marks@[z],
            unmarked(marks@) < unmarked(m0) || (marks@ == m0 && work@ == w0),
            forall|t2: int| 0 <= t2 < t ==> marks@[#[trigger] gs[x as int][t2] as int],
            !w0.contains(x) ==> !work@.contains(x),
        decreases sl - t,
    {
        let y = succ[x][t];
        proof {
            assert(gs[x as int][t as int] == y);
        }
        if !marks[y] {
            proof {
                assert(gs[x as int].contains(y));
                assert(succ_has(gs, x as int, y as int));
                assert(edge(g, x as int, y as int));
                reveal(marks_sound);
                assert(reached_from(g, starts, x as int));
                let k0 = choose|k0: int| 0 <= k0 < starts.len() && reaches(g, starts[k0] as int, x as int);
                let p = choose|p: Seq<int>| is_path(g, p) && p[0] == starts[k0] as int && p.last() == x as int;
                lemma_path_push(g, p, y as int);
                assert(reaches(g, starts[k0] as int, y as int));
                lemma_sound_mark(g, starts, marks@, y as int);
                lemma_closed_mark(g, marks@, work@, x as int, y);
            }
            let ghost wb = work@;
            visit(marks, work, y);
            proof {
                if !w0.contains(x) && work@.contains(x) {
                    let t4 = choose|t4: int| 0 <= t4 < work@.len() && work@[t4] == x;
                    if t4 < wb.len() {
                        assert(wb[t4] == x);
                    }
                }
            }
        }
        t = t + 1;
    }
    proof {
        reveal(closed_beyond);
        assert forall|z: int, y: int|
            marks@[z] && !work@.contains(z as usize) && z != -1 && #[trigger] edge(g, z, y) implies marks@[y] by {
            if z == x as int {
                assert(succ_has(gs, x as int, y));
                assert(gs[x as int].contains(y as usize));
                let t2 = choose|t2: int| 0 <= t2 < gs[x as int].len() && gs[x as int][t2] == y as usize;
                assert(marks@[gs[x as int][t2] as int]);
            }
        }
    }
}

/// Marks every node reachable from a node of `starts` (the starts included),
/// by a worklist search along the successor lists.
pub fn reach_marks(preds: &Vec<Vec<usize>>, succ: &Vec<Vec<usize>>, starts: &Vec<usize>) -> (marks: Vec<bool>)
    requires
        graph_wf(lists_view(preds@), lists_view(succ@)),
        forall|k: int| 0 <= k < starts@.len() ==> #[trigger] starts@[k] < preds@.len(),
    ensures
        marks@.len() == preds@.len(),
        forall|x: int| 0 <= x < preds@.len() ==> (marks@[x] <==> reached_from(lists_view(preds@), starts@, x)),
{
    let ghost g = lists_view(preds@);
    let n = preds.len();
    let mut marks: Vec<bool> = Vec::new();
    let mut i: usize = 0;
    while i < n
        invariant
            i <= n,
            marks@.len() == i,
            forall|x: int| 0 <= x < i ==> !marks@[x],
        decreases n - i,
    {
        marks.push(false);
        i = i + 1;
    }
    proof {
        reveal(marks_sound);
        reveal(closed_beyond);
    }
    let mut work: Vec<usize> = Vec::new();
    let mut k: usize = 0;
    while k < starts.len()
        invariant
            n == preds@.len() == g.len(),
            g == lists_view(preds@),
            marks@.len() == n,
            k <= starts@.len(),
            forall|t: int| 0 <= t < starts@.len() ==> #[trigger] starts@[t] < n,
            forall|t: int| 0 <= t < k ==> marks@[#[trigger] starts@[t] as int],
            marks_sound(g, starts@, marks@),
            closed_beyond(g, marks@, work@, -1),
            forall|t: int| 0 <= t < work@.len() ==> #[trigger] work@[t] < n && marks@[work@[t] as int],
            work@.no_duplicates(),
        decreases starts@.len() - k,
    {
        let s = starts[k];
        if !marks[s] {
            proof {
                let p = seq![s as int];
                assert(is_path(g, p) && p[0] == starts@[k as int] as int && p.last() == s as int);
                assert(reaches(g, starts@[k as int] as int, s as int));
                lemma_sound_mark(g, starts@, marks@, s as int);
                lemma_closed_mark(g, marks@, work@, -1, s);
            }
            visit(&mut marks, &mut work, s);
        }
        k = k + 1;
    }
    while work.len() > 0
        invariant
            n == preds@.len() == succ@.len() == g.len(),
            g == lists_view(preds@),
            graph_wf(g, lists_view(succ@)),
            marks@.len() == n,
            forall|t: int| 0 <= t < starts@.len() ==> #[trigger] starts@[t] < n,
            forall|t: int| 0 <= t < starts@.len() ==> marks@[#[trigger] starts@[t] as int],
            marks_sound(g, starts@, marks@),
            closed_beyond(g, marks@, work@, -1),
            forall|t: int| 0 <= t < work@.len() ==> #[trigger] work@[t] < n && marks@[work@[t] as int],
            work@.no_duplicates(),
        decreases unmarked(marks@), work@.len(),
    {
        let ghost wold = work@;
        let x = work.pop().unwrap();
        proof {
            assert(wold =~= work@.push(x));
            assert(wold[wold.len() - 1] == x);
            assert(!work@.contains(x)) by {
                if work@.contains(x) {
                    let t = choose|t: int| 0 <= t < work@.len() && work@[t] == x;
                    assert(wold[t] == wold[wold.len() - 1]);
                }
            }
            reveal(closed_beyond);
            assert forall|z: int, y: int|
                marks@[z] && !work@.contains(z as usize) && z != x && #[trigger] edge(g, z, y) implies marks@[y] by {
                if wold.contains(z as usize) {
                    let t = choose|t: int| 0 <= t < wold.len() && wold[t] == z as usize;
                    if t < work@.len() {
                        assert(work@[t] == z as usize);
                    }
                }
            }
        }
        expand(preds, succ, &mut marks, &mut work, x, Ghost(starts@));
    }
    proof {
        reveal(marks_sound);
        reveal(closed_beyond);
        assert forall|x: int| 0 <= x < n implies (marks@[x] <==> reached_from(g, starts@, x)) by {
            if reached_from(g, starts@, x) {
                let k0 = choose|k0: int| 0 <= k0 < starts@.len() && reaches(g, starts@[k0] as int, x);
                let p = choose|p: Seq<int>| is_path(g, p) && p[0] == starts@[k0] as int && p.last() == x;
                assert(marks@[starts@[k0] as int]);
                assert forall|a: int, b: int| marks@[a] && #[trigger] edge(g, a, b) implies marks@[b] by {
                    assert(!work@.contains(a as usize));
                }
                lemma_closed_marks(g, marks@, p, p.len() - 1);
            }
        }
    }
    marks
}

/// A node lies on a cycle exactly when one of its successors reaches it.
proof fn lemma_on_cycle_iff(preds: Seq<Seq<usize>>, succ: Seq<Seq<usize>>, v: int)
    requires
        graph_wf(preds, succ),
        0 <= v < preds.len(),
        preds.len() <= usize::MAX,
    ensures
        on_cycle(preds, v) <==> reached_from(preds, succ[v], v),
{
    if on_cycle(preds, v) {
        let p = choose|p: Seq<int>| is_path(preds, p) && p.len() >= 2 && p[0] == v && p.last() == v;
        assert(edge(preds, p[0], p[1]));
        assert(succ_has(succ, v, p[1]));
        let k = choose|k: int| 0 <= k < succ[v].len() && succ[v][k] == p[1] as usize;
        lemma_subpath(preds, p, 1, p.len() as int);
        let q = p.subrange(1, p.len() as int);
        assert(q[0] == p[1] && q.last() == v);
        assert(reaches(preds, succ[v][k] as int, v));
    }
    if reached_from(preds, succ[v], v) {
        let k = choose|k: int| 0 <= k < succ[v].len() && reaches(preds, succ[v][k] as int, v);
        let q = choose|q: Seq<int>| is_path(preds, q) && q[0] == succ[v][k] as int && q.last() == v;
        let w = succ[v][k] as int;
        assert(succ[v].contains(succ[v][k]));
        assert(succ_has(succ, v, w));
        assert(edge(preds, v, w));
        let one = seq![v];
        assert(is_path(preds, one));
        let p = one + q;
        assert forall|t: int| 0 <= t < p.len() - 1 implies edge(preds, #[trigger] p[t], p[t + 1]) by {
            if t == 0 {
                assert(p[0] == v && p[1] == w);
            } else {
                assert(p[t] == q[t - 1] && p[t + 1] == q[t]);
            }
        }
        assert(p[0] == v && p.last() == v && p.len() >= 2);
    }
}

/// For each node, whether it lies on a cycle (a strongly connected component
/// of more than one node, or a node that reads itself).
///
/// Nodes that a Kahn pass lists are on no cycle; for each remaining node a
/// search from its successors decides whether it is reached again.
pub fn cycle_members(preds: &Vec<Vec<usize>>, succ: &Vec<Vec<usize>>) -> (on: Vec<bool>)
    requires
        graph_wf(lists_view(preds@), lists_view(succ@)),
    ensures
        on@.len() == preds@.len(),
        forall|v: int| 0 <= v < preds@.len() ==> (on@[v] <==> on_cycle(lists_view(preds@), v)),
{
    let ghost g = lists_view(preds@);
    let ghost gs = lists_view(succ@);
    let n = preds.len();
    let mut none: Vec<bool> = Vec::new();
    let mut listed: Vec<bool> = Vec::new();
    let mut i: usize = 0;
    while i < n
        invariant
            i <= n,
            none@.len() == i,
            listed@.len() == i,
            forall|x: int| 0 <= x < i ==> !none@[x] && !listed@[x],
        decreases n - i,
    {
        none.push(false);
        listed.push(false);
        i = i + 1;
    }
    let order = kahn_order(preds, succ, &none);
    let mut k: usize = 0;
    while k < order.len()
        invariant
            n == preds@.len() == g.len(),
            g == lists_view(preds@),
            k <= order@.len(),
            listed@.len() == n,
            forall|t: int| 0 <= t < order@.len() ==> #[trigger] order@[t] < n,
            forall|x: int| 0 <= x < n ==> (listed@[x] <==> order@.take(k as int).contains(x as usize)),
        decreases order@.len() - k,
    {
        let o = order[k];
        listed.set(o, true);
        proof {
            assert(order@.take(k as int + 1) =~= order@.take(k as int).push(o));
            assert forall|x: int| 0 <= x < n implies (listed@[x] <==> order@.take(k as int + 1).contains(x as usize)) by {
                if x == o as int {
                    assert(order@.take(k as int + 1)[k as int] == o);
                } else {
                    if order@.take(k as int + 1).contains(x as usize) {
                        let t = choose|t: int| 0 <= t < k + 1 && #[trigger] order@.take(k as int + 1)[t] == x as usize;
                        assert(order@.take(k as int)[t] == x as usize);
                    }
                    if order@.take(k as int).contains(x as usize) {
                        let t = choose|t: int| 0 <= t < k && #[trigger] order@.take(k as int)[t] == x as usize;
                        assert(order@.take(k as int + 1)[t] == x as usize);
                    }
                }
            }
        }
        k = k + 1;
    }
    proof {
        assert(order@.take(order@.len() as int) =~= order@);
    }
    let mut on: Vec<bool> = Vec::new();
    let mut v: usize = 0;
    while v < n
        invariant
            n == preds@.len() == succ@.len() == g.len(),
            g == lists_view(preds@),
            gs == lists_view(succ@),
            graph_wf(g, gs),
            v <= n,
            on@.len() == v,
            listed@.len() == n,
            none@.len() == n,
            forall|x: int| 0 <= x < n ==> !none@[x],
            forall|x: int| 0 <= x < n ==> (listed@[x] <==> order@.contains(x as usize)),
            forall|x: usize| x < n ==> (#[trigger] order@.contains(x) <==> !blocked(g, none@, x as int)),
            forall|x: int| 0 <= x < v ==> (on@[x] <==> on_cycle(g, x)),
        decreases n - v,
    {
        if listed[v] {
            proof {
                assert(order@.contains(v));
                if on_cycle(g, v as int) {
                    let p = seq![v as int];
                    assert(is_path(g, p) && p[0] == v as int && p.last() == v as int);
                    assert(reaches(g, v as int, v as int));
                    assert(blocked(g, none@, v as int));
                }
            }
            on.push(false);
        } else {
            proof {
                assert forall|t: int| 0 <= t < gs[v as int].len() implies #[trigger] gs[v as int][t] < n by {}
                assert(succ@[v as int]@ == gs[v as int]);
            }
            let marks = reach_marks(preds, succ, &succ[v]);
            proof {
                lemma_on_cycle_iff(g, gs, v as int);
            }
            on.push(marks[v]);
        }
        v = v + 1;
    }
    on
}

/// Two graphs over the same nodes with the same edges.
pub open spec fn same_edges(g1: Seq<Seq<usize>>, g2: Seq<Seq<usize>>) -> bool {
    &&& g1.len() == g2.len()
    &&& forall|a: int, b: int|
        #![trigger edge(g1, a, b)]
        #![trigger edge(g2, a, b)]
        edge(g1, a, b) == edge(g2, a, b)
}

/// Every listed predecessor is a node.
pub open spec fn entries_in_range(g: Seq<Seq<usize>>) -> bool {
    &&& g.len() <= usize::MAX
    &&& forall|i: int, k: int| 0 <= i < g.len() && 0 <= k < g[i].len() ==> #[trigger] g[i][k] < g.len()
}

/// Walks, reachability, cycles and blocking depend on the edges alone.
pub proof fn lemma_same_edges_walks(g1: Seq<Seq<usize>>, g2: Seq<Seq<usize>>)
    requires
        same_edges(g1, g2),
    ensures
        forall|p: Seq<int>| #[trigger] is_path(g1, p) == is_path(g2, p),
        forall|a: int, b: int| #[trigger] reaches(g1, a, b) == reaches(g2, a, b),
        forall|v: int| #[trigger] on_cycle(g1, v) == on_cycle(g2, v),
        forall|ex: Seq<bool>, v: int| #[trigger] blocked(g1, ex, v) == blocked(g2, ex, v),
{
    assert forall|p: Seq<int>| #[trigger] is_path(g1, p) == is_path(g2, p) by {
        if is_path(g1, p) {
            assert forall|k: int| 0 <= k < p.len() - 1 implies edge(g2, #[trigger] p[k], p[k + 1]) by {
                assert(edge(g1, p[k], p[k + 1]));
            }
        }
        if is_path(g2, p) {
            assert forall|k: int| 0 <= k < p.len() - 1 implies edge(g1, #[trigger] p[k], p[k + 1]) by {
                assert(edge(g2, p[k], p[k + 1]));
            }
        }
    }
    assert forall|a: int, b: int| #[trigger] reaches(g1, a, b) == reaches(g2, a, b) by {
        if reaches(g1, a, b) {
            let p = choose|p: Seq<int>| is_path(g1, p) && p[0] == a && p.last() == b;
            assert(is_path(g2, p));
        }
        if reaches(g2, a, b) {
            let p = choose|p: Seq<int>| is_path(g2, p) && p[0] == a && p.last() == b;
            assert(is_path(g1, p));
        }
    }
    assert forall|v: int| #[trigger] on_cycle(g1, v) == on_cycle(g2, v) by {
        if on_cycle(g1, v) {
            let p = choose|p: Seq<int>| is_path(g1, p) && p.len() >= 2 && p[0] == v && p.last() == v;
            assert(is_path(g2, p));
        }
        if on_cycle(g2, v) {
            let p = choose|p: Seq<int>| is_path(g2, p) && p.len() >= 2 && p[0] == v && p.last() == v;
            assert(is_path(g1, p));
        }
    }
    assert forall|ex: Seq<bool>, v: int| #[trigger] blocked(g1, ex, v) == blocked(g2, ex, v) by {
        if blocked(g1, ex, v) {
            let u = choose|u: int| 0 <= u < g1.len() && (ex[u] || on_cycle(g1, u)) && reaches(g1, u, v);
            assert(on_cycle(g1, u) == on_cycle(g2, u));
            assert(reaches(g1, u, v) == reaches(g2, u, v));
        }
        if blocked(g2, ex, v) {
            let u = choose|u: int| 0 <= u < g2.len() && (ex[u] || on_cycle(g2, u)) && reaches(g2, u, v);
            assert(on_cycle(g1, u) == on_cycle(g2, u));
            assert(reaches(g1, u, v) == reaches(g2, u, v));
        }
    }
}

proof fn lemma_same_edges_eligible_one(
    g1: Seq<Seq<usize>>,
    g2: Seq<Seq<usize>>,
    ex: Seq<bool>,
    prefix: Seq<usize>,
    v: int,
)
    requires
        same_edges(g1, g2),
        entries_in_range(g1),
        entries_in_range(g2),
        eligible(g1, ex, prefix, v),
    ensures
        eligible(g2, ex, prefix, v),
{
    assert forall|k: int| 0 <= k < g2[v].len() implies prefix.contains(#[trigger] g2[v][k]) by {
        let j = g2[v][k];
        assert(g2[v].contains(j));
        assert(edge(g2, j as int, v));
        assert(edge(g1, j as int, v));
        let k1 = choose|k1: int| 0 <= k1 < g1[v].len() && g1[v][k1] == j;
        assert(prefix.contains(g1[v][k1]));
    }
}

/// The smallest-eligible-first rule depends on the edges alone.
pub proof fn lemma_same_edges_kahn(g1: Seq<Seq<usize>>, g2: Seq<Seq<usize>>, ex: Seq<bool>, order: Seq<usize>)
    requires
        same_edges(g1, g2),
        entries_in_range(g1),
        entries_in_range(g2),
    ensures
        is_kahn_order(g1, ex, order) == is_kahn_order(g2, ex, order),
{
    assert forall|prefix: Seq<usize>, v: int|
        #![trigger eligible(g1, ex, prefix, v)]
        #![trigger eligible(g2, ex, prefix, v)]
        eligible(g1, ex, prefix, v) == eligible(g2, ex, prefix, v) by {
        if eligible(g1, ex, prefix, v) {
            lemma_same_edges_eligible_one(g1, g2, ex, prefix, v);
        }
        if eligible(g2, ex, prefix, v) {
            lemma_same_edges_eligible_one(g2, g1, ex, prefix, v);
        }
    }
    if is_kahn_order(g1, ex, order) {
        assert forall|k: int| 0 <= k < order.len() implies eligible(g2, ex, order.take(k), #[trigger] order[k] as int) by {
            assert(eligible(g1, ex, order.take(k), order[k] as int));
        }
        assert forall|k: int, v: int|
            #![trigger eligible(g2, ex, order.take(k), v)]
            0 <= k < order.len() && eligible(g2, ex, order.take(k), v) implies order[k] <= v by {
            assert(eligible(g1, ex, order.take(k), v));
        }
        assert forall|v: int| !eligible(g2, ex, order, v) by {
            assert(!eligible(g1, ex, order, v));
        }
    }
    if is_kahn_order(g2, ex, order) {
        assert forall|k: int| 0 <= k < order.len() implies eligible(g1, ex, order.take(k), #[trigger] order[k] as int) by {
            assert(eligible(g2, ex, order.take(k), order[k] as int));
        }
        assert forall|k: int, v: int|
            #![trigger eligible(g1, ex, order.take(k), v)]
            0 <= k < order.len() && eligible(g1, ex, order.take(k), v) implies order[k] <= v by {
            assert(eligible(g2, ex, order.take(k), v));
        }
        assert forall|v: int| !eligible(g1, ex, order, v) by {
            assert(!eligible(g2, ex, order, v));
        }
    }
}

} // verus!
