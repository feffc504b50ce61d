//! Depth-first traversal over the forward incidence chains, recording for
//! every vertex the 1-based order of its discovery (`pre_label`) and of the
//! completion of its exploration (`post_label`); 0 marks a vertex the
//! traversal never reached.

use vstd::prelude::*;

use crate::incidence::DirectedGraph;
use crate::incidence::EdgeList;
use crate::incidence::chains_ok;
use crate::incidence::edges_wf;
use crate::incidence::first_with;
use crate::incidence::graph_of;
use crate::incidence::lemma_first_with;
use crate::incidence::zero_vec;

verus! {

/// The two label arrays of one traversal, each of length `n + 1` with slot 0
/// unused. `pre_label[v]` is the order in which v was discovered and
/// `post_label[v]` the order in which its exploration completed; both are 0
/// exactly on the vertices the traversal did not reach.
pub struct DfsTime {
    pub pre_label: Vec<usize>,
    pub post_label: Vec<usize>,
}

/// Some edge among `1..=m` runs from vertex x to vertex y.
pub open spec fn has_edge(tail: Seq<usize>, head: Seq<usize>, m: int, x: int, y: int) -> bool {
    exists|a: int| 1 <= a <= m && (#[trigger] tail[a]) as int == x && head[a] as int == y
}

/// Step i of p follows a forward edge.
pub open spec fn walk_ok_at(tail: Seq<usize>, head: Seq<usize>, m: int, p: Seq<int>, i: int) -> bool {
    has_edge(tail, head, m, p[i], p[i + 1])
}

/// Consecutive entries of p are joined by a forward edge.
pub open spec fn is_walk(tail: Seq<usize>, head: Seq<usize>, m: int, p: Seq<int>) -> bool {
    forall|i: int| 0 <= i < p.len() - 1 ==> #[trigger] walk_ok_at(tail, head, m, p, i)
}

/// Vertex y can be reached from vertex x along forward edges, in zero or
/// more steps.
pub open spec fn reaches(tail: Seq<usize>, head: Seq<usize>, m: int, x: int, y: int) -> bool {
    exists|p: Seq<int>|
        p.len() >= 1 && p[0] == x && p[p.len() - 1] == y && #[trigger] is_walk(tail, head, m, p)
}

/// How many of the slots `1..=i` of s are nonzero.
pub open spec fn count_pos(s: Seq<usize>, i: int) -> int
    decreases i,
{
    if i <= 0 {
        0
    } else {
        count_pos(s, i - 1) + if s[i] != 0 {
            1int
        } else {
            0int
        }
    }
}

/// Some slot among `1..=n` of s holds the value l.
pub open spec fn has_label(s: Seq<usize>, n: int, l: int) -> bool {
    exists|w: int| 1 <= w <= n && (#[trigger] s[w]) as int == l
}

proof fn lemma_count_le(s: Seq<usize>, i: int)
    ensures
        0 <= count_pos(s, i) <= i || i < 0,
    decreases i,
{
    if i > 0 {
        lemma_count_le(s, i - 1);
    }
}

/// A zero slot below `i` keeps the count strictly below `i`.
proof fn lemma_count_lt(s: Seq<usize>, w: int, i: int)
    requires
        1 <= w <= i,
        s[w] == 0,
    ensures
        0 <= count_pos(s, i) < i,
    decreases i,
{
    if i == w {
        lemma_count_le(s, i - 1);
    } else {
        lemma_count_lt(s, w, i - 1);
    }
}

/// Writing a nonzero value into one zero slot raises the count by one.
proof fn lemma_count_update(s1: Seq<usize>, s2: Seq<usize>, w: int, i: int)
    requires
        s1.len() == s2.len(),
        1 <= w < s1.len(),
        s1[w] == 0,
        s2[w] != 0,
        forall|x: int| 0 <= x < s1.len() && x != w ==> s1[x] == #[trigger] s2[x],
    ensures
        w <= i < s1.len() ==> count_pos(s2, i) == count_pos(s1, i) + 1,
        i < w ==> count_pos(s2, i) == count_pos(s1, i),
    decreases i,
{
    if i > 0 {
        lemma_count_update(s1, s2, w, i - 1);
    }
}

/// A count only grows when slots only gain nonzero values.
proof fn lemma_count_mono(s1: Seq<usize>, s2: Seq<usize>, i: int)
    requires
        forall|x: int| 1 <= x <= i && #[trigger] s1[x] != 0 ==> s2[x] != 0,
    ensures
        count_pos(s1, i) <= count_pos(s2, i),
    decreases i,
{
    if i > 0 {
        lemma_count_mono(s1, s2, i - 1);
    }
}

/// ... and strictly, when at least one zero slot became nonzero.
proof fn lemma_count_mono_strict(s1: Seq<usize>, s2: Seq<usize>, w: int, i: int)
    requires
        forall|x: int| 1 <= x <= i && #[trigger] s1[x] != 0 ==> s2[x] != 0,
        1 <= w <= i,
        s1[w] == 0,
        s2[w] != 0,
    ensures
        count_pos(s1, i) < count_pos(s2, i),
    decreases i,
{
    if i == w {
        lemma_count_mono(s1, s2, i - 1);
    } else {
        lemma_count_mono_strict(s1, s2, w, i - 1);
    }
}

/// Slots that agree on being nonzero give equal counts.
proof fn lemma_count_eq(s1: Seq<usize>, s2: Seq<usize>, i: int)
    requires
        forall|x: int| 1 <= x <= i ==> ((#[trigger] s1[x] != 0) <==> (#[trigger] s2[x] != 0)),
    ensures
        count_pos(s1, i) == count_pos(s2, i),
    decreases i,
{
    if i > 0 {
        lemma_count_eq(s1, s2, i - 1);
    }
}

/// An all-zero stretch counts to zero.
proof fn lemma_count_zero(s: Seq<usize>, i: int)
    requires
        forall|x: int| 1 <= x <= i ==> #[trigger] s[x] == 0,
    ensures
        count_pos(s, i) == 0,
    decreases i,
{
    if i > 0 {
        lemma_count_zero(s, i - 1);
    }
}

proof fn lemma_reaches_self(tail: Seq<usize>, head: Seq<usize>, m: int, x: int)
    ensures
        reaches(tail, head, m, x, x),
{
    let p = seq![x];
    assert(p.len() >= 1 && p[0] == x && p[p.len() - 1] == x);
    assert(is_walk(tail, head, m, p));
}

/// An edge from x to y prepended to a walk from y to z reaches z from x.
proof fn lemma_reaches_step(tail: Seq<usize>, head: Seq<usize>, m: int, x: int, y: int, z: int)
    requires
        has_edge(tail, head, m, x, y),
        reaches(tail, head, m, y, z),
    ensures
        reaches(tail, head, m, x, z),
{
    let p = choose|p: Seq<int>|
        p.len() >= 1 && p[0] == y && p[p.len() - 1] == z && #[trigger] is_walk(tail, head, m, p);
    let q = seq![x] + p;
    assert(q.len() == p.len() + 1);
    assert(q[0] == x);
    assert(q[q.len() - 1] == p[p.len() - 1]);
    assert forall|i: int| 0 <= i < q.len() - 1 implies #[trigger] walk_ok_at(
        tail,
        head,
        m,
        q,
        i,
    ) by {
        if i == 0 {
            assert(q[0] == x && q[1] == p[0]);
        } else {
            assert(q[i] == p[i - 1] && q[i + 1] == p[i]);
            assert(walk_ok_at(tail, head, m, p, i - 1));
        }
    }
    assert(is_walk(tail, head, m, q));
}

/// A walk that starts inside a set of vertices closed under forward edges
/// ends inside it.
proof fn lemma_walk_closed(
    tail: Seq<usize>,
    head: Seq<usize>,
    m: int,
    n: int,
    pre: Seq<usize>,
    p: Seq<int>,
)
    requires
        edges_wf(tail, head, n, m),
        pre.len() == n + 1,
        forall|x: int, y: int|
            1 <= x <= n && 1 <= y <= n && pre[x] != 0 && #[trigger] has_edge(tail, head, m, x, y)
                ==> pre[y] != 0,
        is_walk(tail, head, m, p),
        p.len() >= 1,
        1 <= p[0] <= n,
        pre[p[0]] != 0,
    ensures
        1 <= p[p.len() - 1] <= n && pre[p[p.len() - 1]] != 0,
    decreases p.len(),
{
    if p.len() > 1 {
        assert(walk_ok_at(tail, head, m, p, 0));
        assert(has_edge(tail, head, m, p[0], p[1]));
        let a = choose|a: int|
            1 <= a <= m && (#[trigger] tail[a]) as int == p[0] && head[a] as int == p[1];
        assert(1 <= p[1] <= n);
        let q = p.subrange(1, p.len() as int);
        assert forall|i: int| 0 <= i < q.len() - 1 implies #[trigger] walk_ok_at(
            tail,
            head,
            m,
            q,
            i,
        ) by {
            assert(q[i] == p[i + 1] && q[i + 1] == p[i + 2]);
            assert(walk_ok_at(tail, head, m, p, i + 1));
        }
        lemma_walk_closed(tail, head, m, n, pre, q);
        assert(q[q.len() - 1] == p[p.len() - 1]);
    }
}

/// Every vertex reachable from a discovered vertex is discovered, provided
/// the discovered set is closed under forward edges.
proof fn lemma_closed_reach(
    tail: Seq<usize>,
    head: Seq<usize>,
    m: int,
    n: int,
    pre: Seq<usize>,
    v0: int,
    w: int,
)
    requires
        edges_wf(tail, head, n, m),
        pre.len() == n + 1,
        forall|x: int, y: int|
            1 <= x <= n && 1 <= y <= n && pre[x] != 0 && #[trigger] has_edge(tail, head, m, x, y)
                ==> pre[y] != 0,
        1 <= v0 <= n,
        pre[v0] != 0,
        reaches(tail, head, m, v0, w),
    ensures
        1 <= w <= n && pre[w] != 0,
{
    let p = choose|p: Seq<int>|
        p.len() >= 1 && p[0] == v0 && p[p.len() - 1] == w && #[trigger] is_walk(tail, head, m, p);
    lemma_walk_closed(tail, head, m, n, pre, p);
}

/// One vertex visit of the reference run, as a pure function of the arrays:
/// the state is (pre, post, k, j). Discovering v stamps `pre[v]` with k, v's
/// chain is scanned in order, and `post[v]` is finally stamped with j. `fuel`
/// only bounds the recursion depth; once it is at least the number of
/// vertices still undiscovered it no longer affects the result.
pub open spec fn dfs_visit_spec(
    head: Seq<usize>,
    first: Seq<usize>,
    next: Seq<usize>,
    v: int,
    s: (Seq<usize>, Seq<usize>, int, int),
    fuel: nat,
) -> (Seq<usize>, Seq<usize>, int, int)
    decreases fuel, 0int, 0int,
{
    if fuel == 0 {
        s
    } else {
        let s1 = (s.0.update(v, s.2 as usize), s.1, s.2 + 1, s.3);
        let s2 = dfs_scan_spec(head, first, next, first[v] as int, s1, (fuel - 1) as nat);
        (s2.0, s2.1.update(v, s2.3 as usize), s2.2, s2.3 + 1)
    }
}

/// The reference scan of the rest of a chain, from link a on: each link's
/// head is visited if still undiscovered, then the scan follows `next`. A
/// link that leads out of range or not strictly upward ends the scan (built
/// chains always step strictly upward to 0, which is out of range).
pub open spec fn dfs_scan_spec(
    head: Seq<usize>,
    first: Seq<usize>,
    next: Seq<usize>,
    a: int,
    s: (Seq<usize>, Seq<usize>, int, int),
    fuel: nat,
) -> (Seq<usize>, Seq<usize>, int, int)
    decreases fuel, 1int, (if 1 <= a < next.len() {
        next.len() - a
    } else {
        0int
    }),
{
    if a < 1 || a >= next.len() {
        s
    } else {
        let w = head[a] as int;
        let s1 = if 1 <= w < s.0.len() && s.0[w] == 0 {
            dfs_visit_spec(head, first, next, w, s, fuel)
        } else {
            s
        };
        if next[a] as int <= a || next[a] >= next.len() {
            s1
        } else {
            dfs_scan_spec(head, first, next, next[a] as int, s1, fuel)
        }
    }
}

/// The bookkeeping the traversal keeps true at every step: both label arrays
/// have length `n + 1` with slot 0 unused; the counters k and j stand one
/// above the number of discovered and of finished vertices; labels lie below
/// their counter; a finished vertex is discovered; no label is given out
/// twice; and every label below a counter has been given out.
pub open spec fn labels_inv(pre: Seq<usize>, post: Seq<usize>, k: int, j: int, n: int) -> bool {
    &&& pre.len() == n + 1
    &&& post.len() == n + 1
    &&& pre[0] == 0
    &&& post[0] == 0
    &&& k == count_pos(pre, n) + 1
    &&& j == count_pos(post, n) + 1
    &&& forall|w: int| 1 <= w <= n ==> ((#[trigger] pre[w]) as int) < k
    &&& forall|w: int| 1 <= w <= n ==> ((#[trigger] post[w]) as int) < j
    &&& forall|w: int| 1 <= w <= n && #[trigger] post[w] != 0 ==> pre[w] != 0
    &&& forall|u: int, w: int|
        1 <= u <= n && 1 <= w <= n && u != w && #[trigger] pre[u] != 0 && #[trigger] pre[w] != 0
            ==> pre[u] != pre[w]
    &&& forall|u: int, w: int|
        1 <= u <= n && 1 <= w <= n && u != w && #[trigger] post[u] != 0 && #[trigger] post[w] != 0
            ==> post[u] != post[w]
    &&& forall|l: int| 1 <= l < k ==> #[trigger] has_label(pre, n, l)
    &&& forall|l: int| 1 <= l < j ==> #[trigger] has_label(post, n, l)
}

/// Every finished vertex has had each of its forward out-neighbours
/// discovered.
pub open spec fn done_closed(
    tail: Seq<usize>,
    head: Seq<usize>,
    m: int,
    n: int,
    pre: Seq<usize>,
    post: Seq<usize>,
) -> bool {
    forall|x: int, y: int|
        1 <= x <= n && 1 <= y <= n && post[x] != 0 && #[trigger] has_edge(tail, head, m, x, y)
            ==> pre[y] != 0
}

/// Nesting: when the label interval of a finished vertex w lies strictly
/// inside that of a finished vertex u — discovered later, finished earlier —
/// then w was explored inside u's exploration, so u reaches w.
pub open spec fn nest_ok(
    tail: Seq<usize>,
    head: Seq<usize>,
    m: int,
    n: int,
    pre: Seq<usize>,
    post: Seq<usize>,
) -> bool {
    forall|u: int, w: int|
        1 <= u <= n && 1 <= w <= n && #[trigger] post[u] != 0 && #[trigger] post[w] != 0 && pre[u]
            < pre[w] && post[w] < post[u] ==> reaches(tail, head, m, u, w)
}

/// One visit of the traversal: discovers the undiscovered vertex v, stamping
/// it with the next pre-order label, walks v's forward chain recursing into
/// every out-neighbour still undiscovered, and finally stamps v with the next
/// post-order label. Everything the call discovers is reachable from v, is
/// finished when the call returns, and carries labels strictly inside v's own
/// label interval; labels already given out are never touched.
#[verifier::loop_isolation(false)]
pub fn dfs_visit(
    v: usize,
    pre_label: &mut Vec<usize>,
    post_label: &mut Vec<usize>,
    edge: &EdgeList,
    graph: &DirectedGraph,
    k: &mut usize,
    j: &mut usize,
    n: usize,
    m: usize,
)
    requires
        edges_wf(edge.tail@, edge.head@, n as int, m as int),
        chains_ok(graph.edge_first@, graph.edge_next@, edge.tail@, n as int, m as int),
        labels_inv(old(pre_label)@, old(post_label)@, *old(k) as int, *old(j) as int, n as int),
        done_closed(edge.tail@, edge.head@, m as int, n as int, old(pre_label)@, old(post_label)@),
        nest_ok(edge.tail@, edge.head@, m as int, n as int, old(pre_label)@, old(post_label)@),
        1 <= v <= n,
        old(pre_label)@[v as int] == 0,
        n < usize::MAX,
    ensures
        labels_inv(
            final(pre_label)@,
            final(post_label)@,
            *final(k) as int,
            *final(j) as int,
            n as int,
        ),
        done_closed(
            edge.tail@,
            edge.head@,
            m as int,
            n as int,
            final(pre_label)@,
            final(post_label)@,
        ),
        nest_ok(edge.tail@, edge.head@, m as int, n as int, final(pre_label)@, final(post_label)@),
        forall|w: int|
            0 <= w <= n && old(pre_label)@[w] != 0 ==> final(pre_label)@[w] == old(pre_label)@[w],
        forall|w: int|
            0 <= w <= n && old(post_label)@[w] != 0 ==> final(post_label)@[w] == old(post_label)@[w],
        forall|w: int|
            0 <= w <= n && old(post_label)@[w] != final(post_label)@[w] ==> old(pre_label)@[w] == 0,
        (final(pre_label)@[v as int]) as int == *old(k) as int,
        (final(post_label)@[v as int]) as int == *final(j) as int - 1,
        *final(k) > *old(k),
        *final(j) > *old(j),
        forall|w: int|
            1 <= w <= n && old(pre_label)@[w] == 0 && (#[trigger] final(pre_label)@[w]) != 0
                ==> reaches(edge.tail@, edge.head@, m as int, v as int, w)
                && final(post_label)@[w] != 0
                && *old(k) as int <= (final(pre_label)@[w]) as int,
        forall|w: int|
            1 <= w <= n && old(pre_label)@[w] == 0 && w != v as int
                && (#[trigger] final(pre_label)@[w]) != 0
                ==> (*old(k) as int) < (final(pre_label)@[w]) as int
                && ((final(post_label)@[w]) as int) < (final(post_label)@[v as int]) as int,
        forall|f: nat|
            f as int >= n as int - count_pos(old(pre_label)@, n as int) ==> dfs_visit_spec(
                edge.head@,
                graph.edge_first@,
                graph.edge_next@,
                v as int,
                (old(pre_label)@, old(post_label)@, *old(k) as int, *old(j) as int),
                f,
            ) == (final(pre_label)@, final(post_label)@, *final(k) as int, *final(j) as int),
    decreases n as int - count_pos(old(pre_label)@, n as int),
{
    let ghost t = edge.tail@;
    let ghost h = edge.head@;
    let ghost fs = graph.edge_first@;
    let ghost ns = graph.edge_next@;
    let ghost pre0 = old(pre_label)@;
    let ghost post0 = old(post_label)@;
    let ghost k0 = *old(k) as int;
    let ghost j0 = *old(j) as int;
    let ghost s0 = (pre0, post0, k0, j0);

    proof {
        lemma_count_lt(pre0, v as int, n as int);
    }
    let kk = *k;
    pre_label.set(v, kk);
    *k = kk + 1;
    let ghost s1 = (pre_label@, post_label@, *k as int, *j as int);
    proof {
        lemma_count_update(pre0, pre_label@, v as int, n as int);
        assert forall|l: int| 1 <= l < *k as int implies #[trigger] has_label(
            pre_label@,
            n as int,
            l,
        ) by {
            if l == k0 {
                assert((pre_label@[v as int]) as int == l);
            } else {
                assert(has_label(pre0, n as int, l));
                let w0 = choose|w0: int| 1 <= w0 <= n && (#[trigger] pre0[w0]) as int == l;
                assert((pre_label@[w0]) as int == l);
            }
        }
        assert(labels_inv(pre_label@, post_label@, *k as int, *j as int, n as int));
        assert forall|u: int, w: int|
            1 <= u <= n && 1 <= w <= n && #[trigger] post_label@[u] != 0
                && #[trigger] post_label@[w] != 0 && pre_label@[u] < pre_label@[w]
                && post_label@[w] < post_label@[u] implies reaches(t, h, m as int, u, w) by {
            assert(pre0[u] != 0 && pre0[w] != 0);
            assert(pre_label@[u] == pre0[u] && pre_label@[w] == pre0[w]);
        }
        lemma_reaches_self(t, h, m as int, v as int);
    }

    let mut a: usize = graph.edge_first[v];
    let ghost a0 = a as int;
    proof {
        lemma_first_with(t, v as int, 1);
    }
    while a != 0
        invariant
            a == 0 || (1 <= a <= m && (t[a as int]) as int == v as int),
            labels_inv(pre_label@, post_label@, *k as int, *j as int, n as int),
            done_closed(t, h, m as int, n as int, pre_label@, post_label@),
            nest_ok(t, h, m as int, n as int, pre_label@, post_label@),
            (pre_label@[v as int]) as int == k0,
            post_label@[v as int] == 0,
            *k as int > k0,
            *j as int >= j0,
            forall|w: int| 0 <= w <= n && pre0[w] != 0 ==> pre_label@[w] == pre0[w],
            forall|w: int| 0 <= w <= n && post0[w] != 0 ==> post_label@[w] == post0[w],
            forall|w: int| 0 <= w <= n && post0[w] != post_label@[w] ==> pre0[w] == 0,
            forall|w: int|
                1 <= w <= n && pre0[w] == 0 && #[trigger] pre_label@[w] != 0 ==> reaches(
                    t,
                    h,
                    m as int,
                    v as int,
                    w,
                ),
            forall|w: int|
                1 <= w <= n && pre0[w] == 0 && w != v as int && #[trigger] pre_label@[w] != 0
                    ==> k0 < (pre_label@[w]) as int && post_label@[w] != 0,
            forall|b: int|
                1 <= b <= m && (#[trigger] t[b]) as int == v as int && (a == 0 || b < a)
                    ==> pre_label@[h[b] as int] != 0,
            forall|g: nat|
                g as int >= n as int - count_pos(s1.0, n as int) ==> dfs_scan_spec(
                    h,
                    fs,
                    ns,
                    a as int,
                    (pre_label@, post_label@, *k as int, *j as int),
                    g,
                ) == dfs_scan_spec(h, fs, ns, a0, s1, g),
        decreases (if a == 0 {
            0int
        } else {
            m as int + 1 - a as int
        }),
    {
        let w = edge.head[a];
        let ghost sb = (pre_label@, post_label@, *k as int, *j as int);
        proof {
            assert(1 <= h[a as int] && h[a as int] <= n);
            assert(has_edge(t, h, m as int, v as int, w as int));
        }
        if pre_label[w] == 0 {
            let ghost pre_mid = pre_label@;
            let ghost post_mid = post_label@;
            let ghost k_mid = *k as int;
            proof {
                lemma_count_mono_strict(pre0, pre_label@, v as int, n as int);
                lemma_count_le(pre_label@, n as int);
                lemma_count_le(pre0, n as int);
            }
            dfs_visit(w, pre_label, post_label, edge, graph, k, j, n, m);
            proof {
                assert forall|w2: int|
                    1 <= w2 <= n && pre0[w2] == 0 && #[trigger] pre_label@[w2] != 0 implies reaches(
                    t,
                    h,
                    m as int,
                    v as int,
                    w2,
                ) by {
                    if pre_mid[w2] == 0 {
                        assert(reaches(t, h, m as int, w as int, w2));
                        lemma_reaches_step(t, h, m as int, v as int, w as int, w2);
                    }
                }
                assert forall|w2: int|
                    1 <= w2 <= n && pre0[w2] == 0 && w2 != v as int && #[trigger] pre_label@[w2]
                        != 0 implies k0 < (pre_label@[w2]) as int && post_label@[w2] != 0 by {
                    if pre_mid[w2] != 0 {
                        assert(pre_label@[w2] == pre_mid[w2]);
                        assert(post_label@[w2] != 0) by {
                            assert(post_mid[w2] != 0);
                        }
                    }
                }
            }
        }
        let ghost a_prev = a as int;
        proof {
            assert((graph.edge_next@[a_prev]) as int == first_with(t, (t[a_prev]) as int, a_prev + 1));
            lemma_first_with(t, v as int, a_prev + 1);
        }
        a = graph.edge_next[a];
        proof {
            assert forall|b: int|
                1 <= b <= m && (#[trigger] t[b]) as int == v as int && (a == 0 || b < a) implies
                pre_label@[h[b] as int] != 0 by {
                if b > a_prev {
                    assert(false);
                }
            }
            assert forall|g: nat|
                g as int >= n as int - count_pos(s1.0, n as int) implies dfs_scan_spec(
                h,
                fs,
                ns,
                a as int,
                (pre_label@, post_label@, *k as int, *j as int),
                g,
            ) == dfs_scan_spec(h, fs, ns, a0, s1, g) by {
                assert(dfs_scan_spec(h, fs, ns, a_prev, sb, g) == dfs_scan_spec(
                    h,
                    fs,
                    ns,
                    a0,
                    s1,
                    g,
                ));
                assert(1 <= a_prev < ns.len());
                assert(h[a_prev] as int == w as int);
                if sb.0[w as int] == 0 {
                    lemma_count_mono(s1.0, sb.0, n as int);
                    assert(g as int >= n as int - count_pos(sb.0, n as int));
                    assert(dfs_visit_spec(h, fs, ns, w as int, sb, g) == (
                        pre_label@,
                        post_label@,
                        *k as int,
                        *j as int,
                    ));
                }
            }
        }
    }

    proof {
        lemma_count_lt(post_label@, v as int, n as int);
    }
    let ghost st_end = (pre_label@, post_label@, *k as int, *j as int);
    let jj = *j;
    let ghost post1 = post_label@;
    post_label.set(v, jj);
    *j = jj + 1;
    proof {
        lemma_count_update(post1, post_label@, v as int, n as int);
        assert forall|l: int| 1 <= l < *j as int implies #[trigger] has_label(
            post_label@,
            n as int,
            l,
        ) by {
            if l == jj as int {
                assert((post_label@[v as int]) as int == l);
            } else {
                assert(has_label(post1, n as int, l));
                let w0 = choose|w0: int| 1 <= w0 <= n && (#[trigger] post1[w0]) as int == l;
                assert((post_label@[w0]) as int == l);
            }
        }
        assert(labels_inv(pre_label@, post_label@, *k as int, *j as int, n as int));
        assert forall|x: int, y: int|
            1 <= x <= n && 1 <= y <= n && post_label@[x] != 0 && #[trigger] has_edge(
                t,
                h,
                m as int,
                x,
                y,
            ) implies pre_label@[y] != 0 by {
            if x == v as int {
                let b = choose|b: int|
                    1 <= b <= m && (#[trigger] t[b]) as int == x && h[b] as int == y;
                assert(pre_label@[h[b] as int] != 0);
            } else {
                assert(post1[x] != 0);
            }
        }
        assert forall|u: int, w2: int|
            1 <= u <= n && 1 <= w2 <= n && #[trigger] post_label@[u] != 0
                && #[trigger] post_label@[w2] != 0 && pre_label@[u] < pre_label@[w2]
                && post_label@[w2] < post_label@[u] implies reaches(t, h, m as int, u, w2) by {
            if u == v as int {
                assert(pre0[w2] == 0);
                assert(w2 != v as int);
            } else if w2 == v as int {
                assert(((post1[u]) as int) < jj as int);
                assert(false);
            } else {
                assert(post1[u] != 0 && post1[w2] != 0);
            }
        }
        assert forall|f: nat|
            f as int >= n as int - count_pos(pre0, n as int) implies dfs_visit_spec(
            h,
            fs,
            ns,
            v as int,
            s0,
            f,
        ) == (pre_label@, post_label@, *k as int, *j as int) by {
            assert(f >= 1);
            let s1b = (s0.0.update(v as int, s0.2 as usize), s0.1, s0.2 + 1, s0.3);
            assert(s1b.0 == s1.0);
            assert(s1b == s1);
            assert((f - 1) as int >= n as int - count_pos(s1.0, n as int));
            assert(dfs_scan_spec(h, fs, ns, a0, s1, (f - 1) as nat) == st_end);
            assert(fs[v as int] as int == a0);
            assert(dfs_visit_spec(h, fs, ns, v as int, s0, f) == (
                st_end.0,
                st_end.1.update(v as int, st_end.3 as usize),
                st_end.2,
                st_end.3 + 1,
            ));
            assert(st_end.3 as usize == jj);
            assert(post_label@ == st_end.1.update(v as int, jj));
        }
    }
}

/// The all-zero label array of length `n + 1`: the state of every vertex
/// before a traversal starts.
pub open spec fn zero_labels(n: int) -> Seq<usize> {
    Seq::new((n + 1) as nat, |i: int| 0usize)
}

/// Everything one traversal from start vertex v guarantees about its result:
/// a vertex is discovered iff it is reachable from v along forward edges, and
/// finishes iff it is discovered; v itself is discovered first; no label is
/// given out twice; each of the two label sets is a gapless initial segment
/// `{1, ..., K}` where K is the number of vertices reached, and the two sets
/// are the same; and whenever the label interval of one finished vertex lies
/// strictly inside another's, the outer vertex reaches the inner one.
pub open spec fn dfs_post(e: EdgeList, n: int, v: int, r: DfsTime) -> bool {
    let t = e.tail@;
    let h = e.head@;
    let m = t.len() - 1;
    let pre = r.pre_label@;
    let post = r.post_label@;
    &&& pre.len() == n + 1
    &&& post.len() == n + 1
    &&& pre[0] == 0
    &&& post[0] == 0
    &&& pre[v] == 1
    &&& forall|w: int| 1 <= w <= n ==> ((#[trigger] pre[w] != 0) <==> reaches(t, h, m, v, w))
    &&& forall|w: int| 1 <= w <= n ==> ((#[trigger] post[w] != 0) <==> pre[w] != 0)
    &&& forall|w: int| 1 <= w <= n ==> (#[trigger] pre[w]) <= n && post[w] <= n
    &&& forall|u: int, w: int|
        1 <= u <= n && 1 <= w <= n && u != w && #[trigger] pre[u] != 0 && #[trigger] pre[w] != 0
            ==> pre[u] != pre[w]
    &&& forall|u: int, w: int|
        1 <= u <= n && 1 <= w <= n && u != w && #[trigger] post[u] != 0 && #[trigger] post[w] != 0
            ==> post[u] != post[w]
    &&& forall|l: int, l2: int|
        #![trigger has_label(pre, n, l), has_label(pre, n, l2)]
        has_label(pre, n, l) && 1 <= l2 <= l ==> has_label(pre, n, l2)
    &&& forall|l: int, l2: int|
        #![trigger has_label(post, n, l), has_label(post, n, l2)]
        has_label(post, n, l) && 1 <= l2 <= l ==> has_label(post, n, l2)
    &&& forall|l: int|
        #![trigger has_label(pre, n, l)]
        #![trigger has_label(post, n, l)]
        has_label(pre, n, l) <==> has_label(post, n, l)
    &&& nest_ok(t, h, m, n, pre, post)
}

/// Depth-first traversal of the graph's forward chains from start vertex v,
/// labelling each vertex with its 1-based discovery order (`pre_label`) and
/// exploration-completion order (`post_label`); vertices the traversal never
/// reaches keep the label 0 in both arrays. Out-edges of each vertex are
/// followed in ascending edge-id order — the order the edges stand in the
/// input — so the labelling is deterministic.
pub fn dfs(edge: &EdgeList, graph: &DirectedGraph, n: usize, v: usize) -> (r: DfsTime)
    requires
        graph_of(*graph, *edge, n as int, edge.tail@.len() - 1),
        1 <= v <= n,
        n < usize::MAX,
    ensures
        dfs_post(*edge, n as int, v as int, r),
        forall|f: nat|
            f as int >= n as int ==> ({
                let s = #[trigger] dfs_visit_spec(
                    edge.head@,
                    graph.edge_first@,
                    graph.edge_next@,
                    v as int,
                    (zero_labels(n as int), zero_labels(n as int), 1, 1),
                    f,
                );
                s.0 == r.pre_label@ && s.1 == r.post_label@
            }),
{
    let ghost t = edge.tail@;
    let ghost h = edge.head@;
    let ghost z = zero_labels(n as int);
    let ghost mi = t.len() - 1;
    let m = edge.tail.len() - 1;
    let mut pre_label = zero_vec(n + 1);
    let mut post_label = zero_vec(n + 1);
    let mut k: usize = 1;
    let mut j: usize = 1;
    proof {
        lemma_count_zero(pre_label@, n as int);
        lemma_count_zero(post_label@, n as int);
        assert(labels_inv(pre_label@, post_label@, 1, 1, n as int));
        assert(pre_label@ =~= z);
        assert(post_label@ =~= z);
    }
    dfs_visit(v, &mut pre_label, &mut post_label, edge, graph, &mut k, &mut j, n, m);
    proof {
        assert forall|f: nat| f as int >= n as int implies ({
            let s = #[trigger] dfs_visit_spec(
                h,
                graph.edge_first@,
                graph.edge_next@,
                v as int,
                (z, z, 1, 1),
                f,
            );
            s.0 == pre_label@ && s.1 == post_label@
        }) by {
            assert(dfs_visit_spec(h, graph.edge_first@, graph.edge_next@, v as int, (z, z, 1, 1), f)
                == (pre_label@, post_label@, k as int, j as int));
        }
        assert forall|w: int| 1 <= w <= n implies ((post_label@[w] != 0) <==> (pre_label@[w]
            != 0)) by {}
        assert forall|w: int| 1 <= w <= n && reaches(t, h, mi, v as int, w) implies pre_label@[w]
            != 0 by {
            assert forall|x: int, y: int|
                1 <= x <= n && 1 <= y <= n && pre_label@[x] != 0 && #[trigger] has_edge(
                    t,
                    h,
                    mi,
                    x,
                    y,
                ) implies pre_label@[y] != 0 by {
                assert(post_label@[x] != 0);
            }
            lemma_closed_reach(t, h, mi, n as int, pre_label@, v as int, w);
        }
        lemma_count_eq(pre_label@, post_label@, n as int);
        lemma_count_le(pre_label@, n as int);
        assert(k as int == j as int);
        assert forall|l: int| has_label(pre_label@, n as int, l) implies has_label(
            post_label@,
            n as int,
            l,
        ) by {
            let w0 = choose|w0: int| 1 <= w0 <= n && (#[trigger] pre_label@[w0]) as int == l;
            if l == 0 {
                assert((post_label@[w0]) as int == l);
            }
        }
        assert forall|l: int| has_label(post_label@, n as int, l) implies has_label(
            pre_label@,
            n as int,
            l,
        ) by {
            let w0 = choose|w0: int| 1 <= w0 <= n && (#[trigger] post_label@[w0]) as int == l;
            if l == 0 {
                assert((pre_label@[w0]) as int == l);
            }
        }
        assert forall|l: int, l2: int|
            has_label(pre_label@, n as int, l) && 1 <= l2 <= l implies has_label(
            pre_label@,
            n as int,
            l2,
        ) by {
            let w0 = choose|w0: int| 1 <= w0 <= n && (#[trigger] pre_label@[w0]) as int == l;
            assert(l < k as int);
        }
        assert forall|l: int, l2: int|
            has_label(post_label@, n as int, l) && 1 <= l2 <= l implies has_label(
            post_label@,
            n as int,
            l2,
        ) by {
            let w0 = choose|w0: int| 1 <= w0 <= n && (#[trigger] post_label@[w0]) as int == l;
            assert(l < j as int);
        }
    }
    DfsTime { pre_label, post_label }
}

} // verus!
