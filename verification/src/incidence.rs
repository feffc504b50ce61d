//! The incidence-list representation: each vertex's out-edges (and in-edges)
//! form a linked chain of edge ids inside two flat arrays, with 0 as the
//! "no more edges" sentinel. Indices are 1-based; slot 0 of every array is an
//! unused dummy.

use vstd::prelude::*;

verus! {

/// The edges of a directed graph as two parallel arrays: edge `a` runs from
/// vertex `tail[a]` to vertex `head[a]`. Edge ids are 1-based, so both arrays
/// have length `m + 1` and slot 0 is unused.
pub struct EdgeList {
    pub tail: Vec<usize>,
    pub head: Vec<usize>,
}

/// The incidence lists of a directed graph. `edge_first[v]` is the first edge
/// of vertex v's forward chain (0 if v has no out-edge); `edge_next[a]` is the
/// edge after `a` in the chain of `a`'s tail (0 if `a` is the last link).
/// `rev_edge_first` / `rev_edge_next` are the same structure keyed on heads,
/// chaining each vertex's in-edges.
pub struct DirectedGraph {
    pub edge_first: Vec<usize>,
    pub edge_next: Vec<usize>,
    pub rev_edge_first: Vec<usize>,
    pub rev_edge_next: Vec<usize>,
}

/// The edge list is consistent with vertex count `n` and edge count `m`:
/// both arrays have the 1-based length `m + 1`, and every endpoint of an
/// actual edge is a vertex id in `1..=n`.
pub open spec fn edges_wf(tail: Seq<usize>, head: Seq<usize>, n: int, m: int) -> bool {
    &&& 0 <= m
    &&& tail.len() == m + 1
    &&& head.len() == m + 1
    &&& forall|a: int| 1 <= a <= m ==> 1 <= #[trigger] tail[a] && tail[a] <= n
    &&& forall|a: int| 1 <= a <= m ==> 1 <= #[trigger] head[a] && head[a] <= n
}

/// The smallest index `a` with `lo <= a < key.len()` and `key[a] == v`, or 0
/// if there is none. Edge ids start at 1, so index 0 never names an edge and
/// can serve as the sentinel.
pub open spec fn first_with(key: Seq<usize>, v: int, lo: int) -> int
    decreases key.len() - lo,
{
    if lo < 1 || lo >= key.len() {
        0
    } else if key[lo] as int == v {
        lo
    } else {
        first_with(key, v, lo + 1)
    }
}

/// `first` and `next` chain the indices of `key` correctly: `first[v]` is the
/// smallest edge id whose key is v, and `next[a]` the smallest edge id above
/// `a` with the same key as `a`; 0 closes every chain. Read head-to-tail, each
/// chain therefore lists its vertex's edges in ascending input order.
pub open spec fn chains_ok(
    first: Seq<usize>,
    next: Seq<usize>,
    key: Seq<usize>,
    n: int,
    m: int,
) -> bool {
    &&& 0 <= m
    &&& key.len() == m + 1
    &&& first.len() == n + 1
    &&& next.len() == m + 1
    &&& next[0] == 0
    &&& forall|v: int| 0 <= v <= n ==> (#[trigger] first[v]) as int == first_with(key, v, 1)
    &&& forall|a: int|
        1 <= a <= m ==> (#[trigger] next[a]) as int == first_with(key, key[a] as int, a + 1)
}

/// `g` is the incidence-list form of edge list `e`: forward chains keyed on
/// tails, reverse chains keyed on heads.
pub open spec fn graph_of(g: DirectedGraph, e: EdgeList, n: int, m: int) -> bool {
    &&& edges_wf(e.tail@, e.head@, n, m)
    &&& chains_ok(g.edge_first@, g.edge_next@, e.tail@, n, m)
    &&& chains_ok(g.rev_edge_first@, g.rev_edge_next@, e.head@, n, m)
}

/// A vector of `len` zeros.
pub(crate) fn zero_vec(len: usize) -> (r: Vec<usize>)
    ensures
        r@.len() == len,
        forall|i: int| 0 <= i < len ==> r@[i] == 0,
{
    let mut r: Vec<usize> = Vec::new();
    let mut i: usize = 0;
    while i < len
        invariant
            i <= len,
            r@.len() == i,
            forall|i2: int| 0 <= i2 < i ==> r@[i2] == 0,
        decreases len - i,
    {
        r.push(0);
        i = i + 1;
    }
    r
}

/// What `first_with` finds: either nothing matches at or above `lo`, or the
/// result is the least match and everything strictly below it misses.
pub(crate) proof fn lemma_first_with(key: Seq<usize>, v: int, lo: int)
    requires
        1 <= lo,
    ensures
        first_with(key, v, lo) == 0 ==> forall|c: int|
            lo <= c < key.len() ==> (#[trigger] key[c]) as int != v,
        first_with(key, v, lo) != 0 ==> lo <= first_with(key, v, lo) < key.len()
            && key[first_with(key, v, lo)] as int == v && forall|c: int|
            lo <= c < first_with(key, v, lo) ==> (#[trigger] key[c]) as int != v,
    decreases key.len() - lo,
{
    if lo < 1 || lo >= key.len() {
    } else if key[lo] as int == v {
    } else {
        lemma_first_with(key, v, lo + 1);
    }
}

/// The edge ids reached from link `a` by following `next`. A well-formed
/// chain ends at the sentinel 0; a link that does not go strictly upward also
/// ends the walk, which keeps the walk finite on arbitrary arrays (chains
/// produced by the builder always go strictly upward).
pub open spec fn chain_seq(next: Seq<usize>, a: int) -> Seq<int>
    decreases next.len() - a,
{
    if a < 1 || a >= next.len() {
        Seq::empty()
    } else if next[a] as int <= a || next[a] >= next.len() {
        seq![a]
    } else {
        seq![a] + chain_seq(next, next[a] as int)
    }
}

/// The indices `b` with `lo <= b < key.len()` and `key[b] == v`, in ascending
/// order. Starting from `lo == 1` this is the full list of edges keyed on v.
pub open spec fn edges_with(key: Seq<usize>, v: int, lo: int) -> Seq<int>
    decreases key.len() - lo,
{
    if lo < 1 || lo >= key.len() {
        Seq::empty()
    } else if key[lo] as int == v {
        seq![lo] + edges_with(key, v, lo + 1)
    } else {
        edges_with(key, v, lo + 1)
    }
}

/// Walking the chain that starts at `first_with(key, v, lo)` yields exactly
/// the ascending list of indices keyed on v from `lo` on.
proof fn lemma_chain_matches(next: Seq<usize>, key: Seq<usize>, n: int, m: int, v: int, lo: int)
    requires
        forall|a: int|
            1 <= a <= m ==> (#[trigger] next[a]) as int == first_with(key, key[a] as int, a + 1),
        key.len() == m + 1,
        next.len() == m + 1,
        0 <= m,
        1 <= lo,
    ensures
        chain_seq(next, first_with(key, v, lo)) == edges_with(key, v, lo),
    decreases key.len() - lo,
{
    if lo >= key.len() {
        assert(first_with(key, v, lo) == 0);
        assert(chain_seq(next, 0) =~= edges_with(key, v, lo));
    } else if key[lo] as int == v {
        lemma_chain_matches(next, key, n, m, v, lo + 1);
        assert(first_with(key, v, lo) == lo);
        let nx = first_with(key, v, lo + 1);
        lemma_first_with(key, v, lo + 1);
        assert(next[lo] as int == nx);
        if nx == 0 {
            assert(chain_seq(next, lo) =~= seq![lo] + chain_seq(next, 0));
        } else {
            assert(nx > lo);
        }
        assert(chain_seq(next, lo) == seq![lo] + chain_seq(next, nx));
        assert(edges_with(key, v, lo) == seq![lo] + edges_with(key, v, lo + 1));
    } else {
        lemma_chain_matches(next, key, n, m, v, lo + 1);
        assert(first_with(key, v, lo) == first_with(key, v, lo + 1));
        assert(edges_with(key, v, lo) == edges_with(key, v, lo + 1));
    }
}

/// Every entry of `edges_with(key, v, lo)` lies at or above `lo`.
proof fn lemma_edges_with_lb(key: Seq<usize>, v: int, lo: int)
    ensures
        forall|i: int|
            0 <= i < edges_with(key, v, lo).len() ==> lo <= #[trigger] edges_with(key, v, lo)[i],
    decreases key.len() - lo,
{
    if lo < 1 || lo >= key.len() {
    } else {
        lemma_edges_with_lb(key, v, lo + 1);
        let s = edges_with(key, v, lo);
        let rest = edges_with(key, v, lo + 1);
        assert forall|i: int| 0 <= i < s.len() implies lo <= #[trigger] s[i] by {
            if key[lo] as int == v {
                if i > 0 {
                    assert(s[i] == rest[i - 1]);
                }
            } else {
                assert(s[i] == rest[i]);
            }
        }
    }
}

/// `edges_with` is strictly ascending: no index appears twice.
proof fn lemma_edges_with_sorted(key: Seq<usize>, v: int, lo: int)
    ensures
        forall|i: int, i2: int|
            0 <= i < i2 < edges_with(key, v, lo).len() ==> #[trigger] edges_with(key, v, lo)[i]
                < #[trigger] edges_with(key, v, lo)[i2],
    decreases key.len() - lo,
{
    if lo < 1 || lo >= key.len() {
    } else {
        lemma_edges_with_sorted(key, v, lo + 1);
        lemma_edges_with_lb(key, v, lo + 1);
        let s = edges_with(key, v, lo);
        let rest = edges_with(key, v, lo + 1);
        assert forall|i: int, i2: int| 0 <= i < i2 < s.len() implies #[trigger] s[i]
            < #[trigger] s[i2] by {
            if key[lo] as int == v {
                assert(s[i2] == rest[i2 - 1]);
                if i > 0 {
                    assert(s[i] == rest[i - 1]);
                }
            } else {
                assert(s[i] == rest[i]);
                assert(s[i2] == rest[i2]);
            }
        }
    }
}

/// `edges_with(key, v, lo)` holds exactly the indices at or above `lo` whose
/// key is v.
proof fn lemma_edges_with_mem(key: Seq<usize>, v: int, lo: int)
    requires
        1 <= lo,
    ensures
        forall|b: int|
            #[trigger] edges_with(key, v, lo).contains(b) <==> lo <= b < key.len() && key[b] as int
                == v,
    decreases key.len() - lo,
{
    if lo >= key.len() {
    } else {
        lemma_edges_with_mem(key, v, lo + 1);
        let rest = edges_with(key, v, lo + 1);
        if key[lo] as int == v {
            let s = seq![lo] + rest;
            assert(edges_with(key, v, lo) == s);
            assert forall|b: int| #[trigger] s.contains(b) implies lo <= b < key.len()
                && key[b] as int == v by {
                let i = choose|i: int| 0 <= i < s.len() && s[i] == b;
                if i == 0 {
                    assert(b == lo);
                } else {
                    assert(rest[i - 1] == b);
                    assert(rest.contains(b));
                }
            }
            assert forall|b: int| lo <= b < key.len() && key[b] as int == v implies #[trigger] s
                .contains(b) by {
                if b == lo {
                    assert(s[0] == b);
                } else {
                    assert(rest.contains(b));
                    let i = choose|i: int| 0 <= i < rest.len() && rest[i] == b;
                    assert(s[i + 1] == b);
                }
            }
        } else {
            assert forall|b: int| #[trigger] rest.contains(b) implies lo <= b < key.len()
                && key[b] as int == v by {
                assert(lo + 1 <= b);
            }
            assert forall|b: int| lo <= b < key.len() && key[b] as int == v implies #[trigger] rest
                .contains(b) by {
                assert(b != lo);
            }
        }
    }
}

/// Chain coverage and order preservation: walking vertex v's chain from
/// `first[v]` via `next` yields exactly the edges keyed on v — each exactly
/// once (the walk is strictly ascending) and in ascending edge-id order,
/// which is the order the edges stand in the input.
pub proof fn lemma_chain_coverage(
    first: Seq<usize>,
    next: Seq<usize>,
    key: Seq<usize>,
    n: int,
    m: int,
    v: int,
)
    requires
        chains_ok(first, next, key, n, m),
        0 <= v <= n,
    ensures
        chain_seq(next, first[v] as int) == edges_with(key, v, 1),
        forall|i: int, i2: int|
            0 <= i < i2 < chain_seq(next, first[v] as int).len() ==> #[trigger] chain_seq(
                next,
                first[v] as int,
            )[i] < #[trigger] chain_seq(next, first[v] as int)[i2],
        forall|b: int|
            #[trigger] chain_seq(next, first[v] as int).contains(b) <==> 1 <= b <= m
                && key[b] as int == v,
{
    lemma_chain_matches(next, key, n, m, v, 1);
    lemma_edges_with_sorted(key, v, 1);
    lemma_edges_with_mem(key, v, 1);
}

/// Reverse symmetry: every edge `a` stands in the forward chain of its tail
/// and in the reverse chain of its head, so membership on the two sides
/// always agrees — both are the one edge `a`.
pub proof fn lemma_reverse_symmetry(g: DirectedGraph, e: EdgeList, n: int, m: int, a: int)
    requires
        graph_of(g, e, n, m),
        1 <= a <= m,
    ensures
        chain_seq(g.edge_next@, g.edge_first@[e.tail@[a] as int] as int).contains(a),
        chain_seq(g.rev_edge_next@, g.rev_edge_first@[e.head@[a] as int] as int).contains(a),
        chain_seq(g.edge_next@, g.edge_first@[e.tail@[a] as int] as int).contains(a)
            <==> chain_seq(g.rev_edge_next@, g.rev_edge_first@[e.head@[a] as int] as int).contains(
            a,
        ),
{
    lemma_chain_coverage(g.edge_first@, g.edge_next@, e.tail@, n, m, e.tail@[a] as int);
    lemma_chain_coverage(g.rev_edge_first@, g.rev_edge_next@, e.head@, n, m, e.head@[a] as int);
}

/// Builds the incidence lists of `graph`. Edges are inserted in descending id
/// order, each prepended to its vertex's chain, so every finished chain reads
/// back in ascending id order: `edge_first[v]` is the lowest edge id with tail
/// v and `edge_next[a]` the next one above `a` with the same tail (0 when
/// there is none), and symmetrically for the reverse arrays keyed on heads.
pub fn dicomp_incidence_list_construct(graph: &EdgeList, n: usize, m: usize) -> (r: DirectedGraph)
    requires
        edges_wf(graph.tail@, graph.head@, n as int, m as int),
        n < usize::MAX,
    ensures
        graph_of(r, *graph, n as int, m as int),
{
    let mut edge_first = zero_vec(n + 1);
    let mut edge_next = zero_vec(graph.tail.len());
    let mut rev_edge_first = zero_vec(n + 1);
    let mut rev_edge_next = zero_vec(graph.tail.len());

    let ghost t = graph.tail@;
    let ghost h = graph.head@;

    let mut a: usize = m;
    while a >= 1
        invariant
            a <= m,
            edges_wf(t, h, n as int, m as int),
            t == graph.tail@,
            h == graph.head@,
            edge_first@.len() == n + 1,
            rev_edge_first@.len() == n + 1,
            edge_next@.len() == m + 1,
            rev_edge_next@.len() == m + 1,
            forall|v: int|
                0 <= v <= n ==> (#[trigger] edge_first@[v]) as int == first_with(t, v, a + 1),
            forall|v: int|
                0 <= v <= n ==> (#[trigger] rev_edge_first@[v]) as int == first_with(h, v, a + 1),
            forall|b: int|
                a + 1 <= b <= m ==> (#[trigger] edge_next@[b]) as int == first_with(
                    t,
                    t[b] as int,
                    b + 1,
                ),
            forall|b: int|
                a + 1 <= b <= m ==> (#[trigger] rev_edge_next@[b]) as int == first_with(
                    h,
                    h[b] as int,
                    b + 1,
                ),
            forall|b: int| 0 <= b <= a ==> edge_next@[b] == 0,
            forall|b: int| 0 <= b <= a ==> rev_edge_next@[b] == 0,
        decreases a,
    {
        let v = graph.tail[a];
        let e1 = edge_first[v];
        edge_next.set(a, e1);
        edge_first.set(v, a);

        let w = graph.head[a];
        let r1 = rev_edge_first[w];
        rev_edge_next.set(a, r1);
        rev_edge_first.set(w, a);

        proof {
            assert forall|u: int| 0 <= u <= n implies (#[trigger] edge_first@[u]) as int
                == first_with(t, u, a as int) by {
                if u == t[a as int] as int {
                    assert(first_with(t, u, a as int) == a);
                } else {
                    assert(first_with(t, u, a as int) == first_with(t, u, a as int + 1));
                }
            }
            assert forall|u: int| 0 <= u <= n implies (#[trigger] rev_edge_first@[u]) as int
                == first_with(h, u, a as int) by {
                if u == h[a as int] as int {
                    assert(first_with(h, u, a as int) == a);
                } else {
                    assert(first_with(h, u, a as int) == first_with(h, u, a as int + 1));
                }
            }
        }
        a = a - 1;
    }
    DirectedGraph { edge_first, edge_next, rev_edge_first, rev_edge_next }
}

} // verus!
