//! Breadth-first shortest-path search.
//!
//! A stateless consumer of the graph engine's successor query.  The search
//! carries the full path so far in each queue entry, marks nodes visited at
//! pop time, and returns the first path that reaches the stop node; FIFO
//! popping guarantees breadth-first order, so that first path is a shortest
//! one.  There is no special case for `start == stop`: the stop node is only
//! matched among successors of dequeued nodes, so reaching the start again
//! takes an actual cycle through it.

use vstd::prelude::*;
use vstd::seq_lib::lemma_seq_contains_after_push;
use vstd::set_lib::lemma_len_subset;

use crate::errors::GraphError;
use crate::errors::GraphErrorKind;
use crate::graph::Graph;
use crate::node::contains_string;
use crate::graph::clone_string_vec;
use std::collections::VecDeque;

verus! {

// ---------------------------------------------------------------------------
// What a path is, mathematically.
// ---------------------------------------------------------------------------

/// `w` is a sequence of at least one node identifier in which each step
/// follows a recorded edge.
pub open spec fn is_walk(g: Graph, w: Seq<Seq<char>>) -> bool {
    &&& w.len() >= 1
    &&& forall|i: int| 0 <= i < w.len() - 1 ==> g.succ_edge(#[trigger] w[i], w[i + 1])
}

/// A walk of at least one edge that starts at `s` and ends at `t`.
pub open spec fn is_walk_between(g: Graph, w: Seq<Seq<char>>, s: Seq<char>, t: Seq<char>) -> bool {
    &&& is_walk(g, w)
    &&& w.len() >= 2
    &&& w[0] == s
    &&& w.last() == t
}

/// Some walk of at least one edge leads from `s` to `t`.
pub open spec fn connected(g: Graph, s: Seq<char>, t: Seq<char>) -> bool {
    exists|w: Seq<Seq<char>>| is_walk_between(g, w, s, t)
}

/// A walk of exactly `n` edges leads from `s` to `v`; zero edges means
/// `v == s`.
pub open spec fn has_walk_n(g: Graph, s: Seq<char>, v: Seq<char>, n: nat) -> bool {
    exists|w: Seq<Seq<char>>| is_walk(g, w) && w.len() == n + 1 && w[0] == s && w.last() == v
}

/// Some walk (possibly of zero edges) leads from `s` to `v`.
pub open spec fn reaches(g: Graph, s: Seq<char>, v: Seq<char>) -> bool {
    exists|n: nat| has_walk_n(g, s, v, n)
}

/// The hop count of a shortest walk from `s` to `v` (meaningful when
/// `reaches(g, s, v)` holds; see [`lemma_dist_minimal`]).
pub open spec fn spec_dist(g: Graph, s: Seq<char>, v: Seq<char>) -> nat {
    choose|n: nat| has_walk_n(g, s, v, n) && (forall|m: nat| m < n ==> !has_walk_n(g, s, v, m))
}

/// The message reported when no path from `s` to `t` exists.
pub open spec fn not_connected_message(s: Seq<char>, t: Seq<char>) -> Seq<char> {
    "start '"@ + s + "' and stop '"@ + t + "' nodes are not connected"@
}

// ---------------------------------------------------------------------------
// Small facts about walks and distances.
// ---------------------------------------------------------------------------

/// Dropping the last node of a two-or-more-node walk leaves a walk, and the
/// dropped step was a recorded edge.
pub proof fn lemma_walk_prefix(g: Graph, w: Seq<Seq<char>>)
    requires
        is_walk(g, w),
        w.len() >= 2,
    ensures
        is_walk(g, w.drop_last()),
        g.succ_edge(w[w.len() - 2], w.last()),
        w.drop_last().last() == w[w.len() - 2],
        w.drop_last()[0] == w[0],
        w.drop_last().len() == w.len() - 1,
{
    assert forall|i: int| 0 <= i < w.drop_last().len() - 1 implies g.succ_edge(
        #[trigger] w.drop_last()[i],
        w.drop_last()[i + 1],
    ) by {
        assert(w.drop_last()[i] == w[i]);
        assert(w.drop_last()[i + 1] == w[i + 1]);
    };
}

/// Extending a walk along a recorded edge leaves a walk.
pub proof fn lemma_walk_push(g: Graph, w: Seq<Seq<char>>, y: Seq<char>)
    requires
        is_walk(g, w),
        g.succ_edge(w.last(), y),
    ensures
        is_walk(g, w.push(y)),
        w.push(y).last() == y,
        w.push(y)[0] == w[0],
        w.push(y).len() == w.len() + 1,
{
    let p = w.push(y);
    assert forall|i: int| 0 <= i < p.len() - 1 implies g.succ_edge(#[trigger] p[i], p[i + 1]) by {
        if i < w.len() - 1 {
            assert(p[i] == w[i]);
            assert(p[i + 1] == w[i + 1]);
        } else {
            assert(p[i] == w.last());
            assert(p[i + 1] == y);
        }
    };
}

/// A walk of `n` edges to `x` and an edge from `x` to `y` give a walk of
/// `n + 1` edges to `y`.
pub proof fn lemma_walk_n_extend(g: Graph, s: Seq<char>, x: Seq<char>, y: Seq<char>, n: nat)
    requires
        has_walk_n(g, s, x, n),
        g.succ_edge(x, y),
    ensures
        has_walk_n(g, s, y, (n + 1) as nat),
{
    let w = choose|w: Seq<Seq<char>>|
        is_walk(g, w) && w.len() == n + 1 && w[0] == s && w.last() == x;
    lemma_walk_push(g, w, y);
    assert(is_walk(g, w.push(y)) && w.push(y).len() == n + 2 && w.push(y)[0] == s && w.push(
        y,
    ).last() == y);
}

/// A walk of `n >= 1` edges to `v` passes through some last-but-one node.
pub proof fn lemma_walk_n_prefix(g: Graph, s: Seq<char>, v: Seq<char>, n: nat)
    requires
        has_walk_n(g, s, v, n),
        n >= 1,
    ensures
        exists|x: Seq<char>| has_walk_n(g, s, x, (n - 1) as nat) && #[trigger] g.succ_edge(x, v),
{
    let w = choose|w: Seq<Seq<char>>|
        is_walk(g, w) && w.len() == n + 1 && w[0] == s && w.last() == v;
    lemma_walk_prefix(g, w);
    let x = w[w.len() - 2];
    assert(is_walk(g, w.drop_last()) && w.drop_last().len() == n && w.drop_last()[0] == s
        && w.drop_last().last() == x);
    assert(has_walk_n(g, s, x, (n - 1) as nat));
}

/// `spec_dist` really is the least hop count: a walk of that many hops
/// exists and nothing shorter does.
pub proof fn lemma_dist_minimal(g: Graph, s: Seq<char>, v: Seq<char>, n: nat)
    requires
        has_walk_n(g, s, v, n),
    ensures
        spec_dist(g, s, v) <= n,
        has_walk_n(g, s, v, spec_dist(g, s, v)),
        forall|m: nat| m < spec_dist(g, s, v) ==> !has_walk_n(g, s, v, m),
    decreases n,
{
    if exists|m: nat| m < n && has_walk_n(g, s, v, m) {
        let m = choose|m: nat| m < n && has_walk_n(g, s, v, m);
        lemma_dist_minimal(g, s, v, m);
    } else {
        assert(has_walk_n(g, s, v, n) && (forall|m: nat| m < n ==> !has_walk_n(g, s, v, m)));
        let d = spec_dist(g, s, v);
        assert(has_walk_n(g, s, v, d) && (forall|m: nat| m < d ==> !has_walk_n(g, s, v, m)));
        if d < n {
            assert(!has_walk_n(g, s, v, d));
        }
        if n < d {
            assert(!has_walk_n(g, s, v, n));
        }
    }
}

// ---------------------------------------------------------------------------
// Queue entries, the search invariants, and the termination measure.
// ---------------------------------------------------------------------------

/// The node identifier of a queue entry.
pub open spec fn qnode(e: (String, Vec<String>)) -> Seq<char> {
    e.0@
}

/// The path carried by a queue entry.
pub open spec fn qpath(e: (String, Vec<String>)) -> Seq<Seq<char>> {
    e.1.deep_view()
}

/// A queue entry carries a duplicate-free walk from the start to its node,
/// whose earlier nodes are all visited.
pub open spec fn entry_ok(
    g: Graph,
    s: Seq<char>,
    vis: Seq<Seq<char>>,
    e: (String, Vec<String>),
) -> bool {
    &&& is_walk(g, qpath(e))
    &&& qpath(e)[0] == s
    &&& qpath(e).last() == qnode(e)
    &&& qpath(e).no_duplicates()
    &&& forall|j: int| 0 <= j < qpath(e).len() - 1 ==> vis.contains(#[trigger] qpath(e)[j])
}

/// Every queue entry is well formed.
pub open spec fn inv_entries(
    g: Graph,
    s: Seq<char>,
    vis: Seq<Seq<char>>,
    q: Seq<(String, Vec<String>)>,
) -> bool {
    forall|i: int| 0 <= i < q.len() ==> entry_ok(g, s, vis, #[trigger] q[i])
}

/// Path lengths are sorted and span at most two adjacent levels.
pub open spec fn inv_sorted(q: Seq<(String, Vec<String>)>) -> bool {
    forall|i: int, j: int|
        0 <= i <= j < q.len() ==> qpath(#[trigger] q[i]).len() <= qpath(#[trigger] q[j]).len()
            <= qpath(q[i]).len() + 1
}

/// Visited nodes exist, were reached, and do not lead to the stop.
pub open spec fn inv_visited(g: Graph, s: Seq<char>, t: Seq<char>, vis: Seq<Seq<char>>) -> bool {
    forall|x: Seq<char>|
        vis.contains(x) ==> g.spec_has_node(x) && !g.succ_edge(x, t) && reaches(g, s, x)
}

/// The start is visited or still queued.
pub open spec fn inv_start(
    s: Seq<char>,
    vis: Seq<Seq<char>>,
    q: Seq<(String, Vec<String>)>,
) -> bool {
    vis.contains(s) || exists|i: int| 0 <= i < q.len() && qnode(#[trigger] q[i]) == s
}

/// Every node with a walk strictly shorter than the front level is visited.
pub open spec fn inv_levels(
    g: Graph,
    s: Seq<char>,
    vis: Seq<Seq<char>>,
    q: Seq<(String, Vec<String>)>,
) -> bool {
    q.len() > 0 ==> forall|v: Seq<char>, n: nat|
        #[trigger] has_walk_n(g, s, v, n) && n + 1 < qpath(q[0]).len() ==> vis.contains(v)
}

/// Every unvisited node within the front level sits in the queue at exactly
/// its distance.
pub open spec fn inv_frontier(
    g: Graph,
    s: Seq<char>,
    vis: Seq<Seq<char>>,
    q: Seq<(String, Vec<String>)>,
) -> bool {
    q.len() > 0 ==> forall|v: Seq<char>|
        #[trigger] reaches(g, s, v) && !vis.contains(v) && spec_dist(g, s, v) + 1 <= qpath(
            q[0],
        ).len() ==> exists|i: int|
            0 <= i < q.len() && qnode(#[trigger] q[i]) == v && qpath(q[i]).len() == spec_dist(
                g,
                s,
                v,
            ) + 1
}

/// No entry overshoots its node's distance by more than one level.
pub open spec fn inv_depth(g: Graph, s: Seq<char>, q: Seq<(String, Vec<String>)>) -> bool {
    forall|i: int, n: nat|
        0 <= i < q.len() && #[trigger] has_walk_n(g, s, qnode(q[i]), n) ==> qpath(
            #[trigger] q[i],
        ).len() <= n + 2
}

/// Each unvisited successor of a visited node is queued, no deeper than one
/// level past that node's distance.
pub open spec fn inv_discovered(
    g: Graph,
    s: Seq<char>,
    vis: Seq<Seq<char>>,
    q: Seq<(String, Vec<String>)>,
) -> bool {
    forall|x: Seq<char>, y: Seq<char>|
        vis.contains(x) && #[trigger] g.succ_edge(x, y) && !vis.contains(y) ==> exists|i: int|
            0 <= i < q.len() && qnode(#[trigger] q[i]) == y && qpath(q[i]).len() <= spec_dist(
                g,
                s,
                x,
            ) + 2
}

/// On closed graphs with a real start, every queued node exists.
pub open spec fn inv_closed_nodes(g: Graph, s: Seq<char>, q: Seq<(String, Vec<String>)>) -> bool {
    g.succ_closed() && g.spec_has_node(s) ==> forall|i: int|
        0 <= i < q.len() ==> g.spec_has_node(qnode(#[trigger] q[i]))
}

/// No path outgrows the node count.
pub open spec fn inv_len_bound(g: Graph, q: Seq<(String, Vec<String>)>) -> bool {
    forall|i: int| 0 <= i < q.len() ==> qpath(#[trigger] q[i]).len() <= g.node_views().len() + 1
}

/// All the search invariants together.
pub open spec fn search_inv(
    g: Graph,
    s: Seq<char>,
    t: Seq<char>,
    vis: Seq<Seq<char>>,
    q: Seq<(String, Vec<String>)>,
) -> bool {
    &&& inv_entries(g, s, vis, q)
    &&& inv_sorted(q)
    &&& inv_visited(g, s, t, vis)
    &&& inv_start(s, vis, q)
    &&& inv_levels(g, s, vis, q)
    &&& inv_frontier(g, s, vis, q)
    &&& inv_depth(g, s, q)
    &&& inv_discovered(g, s, vis, q)
    &&& inv_closed_nodes(g, s, q)
    &&& inv_len_bound(g, q)
}

/// How one iteration reshapes the state: the front entry `(cur, cpath)` is
/// popped, `cur` is marked visited, and entries for unvisited successors of
/// `cur` are appended, each carrying the popped path extended by its node.
pub open spec fn step_shape(
    g: Graph,
    s: Seq<char>,
    vis0: Seq<Seq<char>>,
    vis_c: Seq<Seq<char>>,
    q_pre: Seq<(String, Vec<String>)>,
    qn: Seq<(String, Vec<String>)>,
    cur: Seq<char>,
    cpath: Seq<Seq<char>>,
    ll: nat,
) -> bool {
    &&& q_pre.len() > 0
    &&& qnode(q_pre[0]) == cur
    &&& qpath(q_pre[0]) == cpath
    &&& cpath.len() == ll
    &&& ll >= 1
    &&& vis_c == vis0.push(cur)
    &&& q_pre.len() - 1 <= qn.len()
    &&& (forall|i: int| 0 <= i < q_pre.len() - 1 ==> #[trigger] qn[i] == q_pre[i + 1])
    &&& (forall|i: int|
        q_pre.len() - 1 <= i < qn.len() ==> {
            let e = #[trigger] qn[i];
            &&& qpath(e) == cpath.push(qnode(e))
            &&& g.succ_edge(cur, qnode(e))
            &&& !vis_c.contains(qnode(e))
            &&& qpath(e).len() == ll + 1
        })
}

/// How many entries carry a path of exactly `l` nodes.
pub open spec fn count_at(q: Seq<(String, Vec<String>)>, l: nat) -> nat
    decreases q.len(),
{
    if q.len() == 0 {
        0
    } else {
        (if qpath(q[0]).len() == l {
            1nat
        } else {
            0nat
        }) + count_at(q.drop_first(), l)
    }
}

/// Appending an entry changes the count only when its path has length `l`.
pub proof fn lemma_count_at_push(q: Seq<(String, Vec<String>)>, e: (String, Vec<String>), l: nat)
    ensures
        count_at(q.push(e), l) == count_at(q, l) + (if qpath(e).len() == l {
            1nat
        } else {
            0nat
        }),
    decreases q.len(),
{
    reveal_with_fuel(count_at, 2);
    if q.len() == 0 {
        assert(q.push(e).drop_first() =~= Seq::<(String, Vec<String>)>::empty());
        assert(q.push(e)[0] == e);
    } else {
        assert(q.push(e).drop_first() =~= q.drop_first().push(e));
        assert(q.push(e)[0] == q[0]);
        lemma_count_at_push(q.drop_first(), e, l);
        assert(count_at(q.push(e), l) == (if qpath(q[0]).len() == l {
            1nat
        } else {
            0nat
        }) + count_at(q.drop_first().push(e), l));
    }
}

/// The first component of the loop measure: how far the front level may
/// still rise before it passes every possible path length.
pub open spec fn level_measure(q: Seq<(String, Vec<String>)>, n: nat) -> int {
    if q.len() == 0 {
        0
    } else {
        n + 2 - qpath(q[0]).len()
    }
}

/// A duplicate-free path whose nodes all lie in a visited set of existing
/// nodes is no longer than the number of nodes.
proof fn lemma_path_len_bound(g: Graph, vis: Seq<Seq<char>>, p: Seq<Seq<char>>)
    requires
        p.no_duplicates(),
        forall|j: int| 0 <= j < p.len() ==> vis.contains(#[trigger] p[j]),
        forall|x: Seq<char>| vis.contains(x) ==> g.spec_has_node(x),
    ensures
        p.len() <= g.node_views().len(),
{
    broadcast use vstd::seq_lib::seq_to_set_is_finite;

    let ids = Seq::new(g.node_views().len(), |i: int| g.node_views()[i].id);
    assert forall|j: int| 0 <= j < p.len() implies ids.to_set().contains(#[trigger] p[j]) by {
        assert(g.spec_has_node(p[j]));
        let i = choose|i: int| 0 <= i < g.node_views().len() && g.node_views()[i].id == p[j];
        assert(ids[i] == p[j]);
        assert(ids.contains(p[j]));
    };
    p.unique_seq_to_set();
    assert(p.to_set().subset_of(ids.to_set()));
    lemma_len_subset(p.to_set(), ids.to_set());
    ids.lemma_cardinality_of_set();
}

// ---------------------------------------------------------------------------
// Re-establishing the invariants after one expansion.
// ---------------------------------------------------------------------------

/// The popped entry's walk reaches `cur` in `ll - 1` hops.
proof fn lemma_popped_walk(
    g: Graph,
    s: Seq<char>,
    vis0: Seq<Seq<char>>,
    q_pre: Seq<(String, Vec<String>)>,
    cur: Seq<char>,
    cpath: Seq<Seq<char>>,
    ll: nat,
)
    requires
        inv_entries(g, s, vis0, q_pre),
        q_pre.len() > 0,
        qnode(q_pre[0]) == cur,
        qpath(q_pre[0]) == cpath,
        cpath.len() == ll,
    ensures
        ll >= 1,
        has_walk_n(g, s, cur, (ll - 1) as nat),
{
    assert(entry_ok(g, s, vis0, q_pre[0]));
    assert(is_walk(g, cpath) && cpath.len() == ((ll - 1) as nat) + 1 && cpath[0] == s
        && cpath.last() == cur);
}

/// A fresh pop sits exactly at its node's distance from the start.
proof fn lemma_fresh_pop_distance(
    g: Graph,
    s: Seq<char>,
    vis0: Seq<Seq<char>>,
    q_pre: Seq<(String, Vec<String>)>,
    cur: Seq<char>,
    cpath: Seq<Seq<char>>,
    ll: nat,
)
    requires
        inv_entries(g, s, vis0, q_pre),
        inv_levels(g, s, vis0, q_pre),
        q_pre.len() > 0,
        qnode(q_pre[0]) == cur,
        qpath(q_pre[0]) == cpath,
        cpath.len() == ll,
        !vis0.contains(cur),
    ensures
        spec_dist(g, s, cur) == ll - 1,
{
    lemma_popped_walk(g, s, vis0, q_pre, cur, cpath, ll);
    lemma_dist_minimal(g, s, cur, (ll - 1) as nat);
    if spec_dist(g, s, cur) + 1 < ll {
        assert(has_walk_n(g, s, cur, spec_dist(g, s, cur)));
        assert(vis0.contains(cur));
    }
}

/// The queue entries stay well formed across one expansion.
proof fn lemma_step_entries(
    g: Graph,
    s: Seq<char>,
    vis0: Seq<Seq<char>>,
    vis_c: Seq<Seq<char>>,
    q_pre: Seq<(String, Vec<String>)>,
    qn: Seq<(String, Vec<String>)>,
    cur: Seq<char>,
    cpath: Seq<Seq<char>>,
    ll: nat,
)
    requires
        step_shape(g, s, vis0, vis_c, q_pre, qn, cur, cpath, ll),
        inv_entries(g, s, vis0, q_pre),
    ensures
        inv_entries(g, s, vis_c, qn),
{
    broadcast use lemma_seq_contains_after_push;

    assert(entry_ok(g, s, vis0, q_pre[0]));
    assert forall|i: int| 0 <= i < qn.len() implies entry_ok(g, s, vis_c, #[trigger] qn[i]) by {
        if i < q_pre.len() - 1 {
            assert(entry_ok(g, s, vis0, q_pre[i + 1]));
            assert(qn[i] == q_pre[i + 1]);
            assert(forall|j: int|
                0 <= j < qpath(qn[i]).len() - 1 ==> vis_c.contains(#[trigger] qpath(qn[i])[j]));
        } else {
            let e = qn[i];
            let y = qnode(e);
            assert(qpath(e) == cpath.push(y));
            assert(cpath.last() == cur);
            lemma_walk_push(g, cpath, y);
            assert(is_walk(g, qpath(e)));
            assert(qpath(e)[0] == cpath[0]);
            assert(cpath[0] == s);
            assert(qpath(e).last() == y);
            assert(forall|j: int| 0 <= j < cpath.len() - 1 ==> vis_c.contains(#[trigger] cpath[j]));
            assert(cpath[cpath.len() - 1] == cur && vis_c.contains(cur));
            assert(forall|j: int| 0 <= j < cpath.len() ==> vis_c.contains(#[trigger] cpath[j]));
            assert(qpath(e).no_duplicates()) by {
                assert(forall|j: int| 0 <= j < cpath.len() ==> #[trigger] cpath[j] != y);
                assert forall|j: int, k: int|
                    0 <= j < k < qpath(e).len() implies qpath(e)[j] != qpath(e)[k] by {
                    if k < cpath.len() {
                        assert(qpath(e)[j] == cpath[j] && qpath(e)[k] == cpath[k]);
                    } else {
                        assert(qpath(e)[k] == y && qpath(e)[j] == cpath[j]);
                    }
                };
            };
            assert(forall|j: int|
                0 <= j < qpath(e).len() - 1 ==> vis_c.contains(#[trigger] qpath(e)[j]));
        }
    };
}

/// Sortedness and the two-level window survive one expansion.
proof fn lemma_step_sorted(
    g: Graph,
    s: Seq<char>,
    vis0: Seq<Seq<char>>,
    vis_c: Seq<Seq<char>>,
    q_pre: Seq<(String, Vec<String>)>,
    qn: Seq<(String, Vec<String>)>,
    cur: Seq<char>,
    cpath: Seq<Seq<char>>,
    ll: nat,
)
    requires
        step_shape(g, s, vis0, vis_c, q_pre, qn, cur, cpath, ll),
        inv_sorted(q_pre),
    ensures
        inv_sorted(qn),
        qn.len() > 0 ==> qpath(qn[0]).len() == ll || qpath(qn[0]).len() == ll + 1,
{
    assert forall|i: int, j: int| 0 <= i <= j < qn.len() implies qpath(#[trigger] qn[i]).len()
        <= qpath(#[trigger] qn[j]).len() <= qpath(qn[i]).len() + 1 by {
        if i < q_pre.len() - 1 {
            assert(qn[i] == q_pre[i + 1]);
            assert(qpath(q_pre[0]).len() <= qpath(q_pre[i + 1]).len() <= qpath(q_pre[0]).len()
                + 1);
            if j < q_pre.len() - 1 {
                assert(qn[j] == q_pre[j + 1]);
            }
        }
    };
    if qn.len() > 0 {
        if 0 < q_pre.len() - 1 {
            assert(qn[0] == q_pre[1]);
            assert(qpath(q_pre[0]).len() <= qpath(q_pre[1]).len() <= qpath(q_pre[0]).len() + 1);
        }
    }
}

/// Every node with a walk strictly inside the new front level is visited.
proof fn lemma_step_levels(
    g: Graph,
    s: Seq<char>,
    vis0: Seq<Seq<char>>,
    vis_c: Seq<Seq<char>>,
    q_pre: Seq<(String, Vec<String>)>,
    qn: Seq<(String, Vec<String>)>,
    cur: Seq<char>,
    cpath: Seq<Seq<char>>,
    ll: nat,
)
    requires
        step_shape(g, s, vis0, vis_c, q_pre, qn, cur, cpath, ll),
        inv_sorted(q_pre),
        inv_levels(g, s, vis0, q_pre),
        inv_frontier(g, s, vis0, q_pre),
        inv_sorted(qn),
        qn.len() > 0 ==> qpath(qn[0]).len() == ll || qpath(qn[0]).len() == ll + 1,
    ensures
        inv_levels(g, s, vis_c, qn),
{
    broadcast use lemma_seq_contains_after_push;

    if qn.len() > 0 {
        let f2 = qpath(qn[0]).len();
        assert forall|v: Seq<char>, n: nat|
            #[trigger] has_walk_n(g, s, v, n) && n + 1 < f2 implies vis_c.contains(v) by {
            if n + 1 < ll {
                assert(vis0.contains(v));
            } else {
                assert(f2 == ll + 1 && n + 1 == ll);
                if !vis_c.contains(v) {
                    lemma_dist_minimal(g, s, v, n);
                    let d = spec_dist(g, s, v);
                    assert(reaches(g, s, v));
                    assert(d + 1 <= qpath(q_pre[0]).len());
                    let i = choose|i: int|
                        0 <= i < q_pre.len() && qnode(#[trigger] q_pre[i]) == v && qpath(
                            q_pre[i],
                        ).len() == d + 1;
                    assert(i != 0);
                    assert(qn[i - 1] == q_pre[i]);
                    assert(qpath(qn[0]).len() <= qpath(qn[i - 1]).len());
                    assert(qpath(qn[i - 1]).len() == d + 1 <= ll);
                }
            }
        };
    }
}

/// Every unvisited node within the new front level is queued at exactly its
/// distance.
#[verifier::rlimit(100)]
proof fn lemma_step_frontier(
    g: Graph,
    s: Seq<char>,
    vis0: Seq<Seq<char>>,
    vis_c: Seq<Seq<char>>,
    q_pre: Seq<(String, Vec<String>)>,
    qn: Seq<(String, Vec<String>)>,
    cur: Seq<char>,
    cpath: Seq<Seq<char>>,
    ll: nat,
)
    requires
        step_shape(g, s, vis0, vis_c, q_pre, qn, cur, cpath, ll),
        inv_entries(g, s, vis0, q_pre),
        inv_sorted(q_pre),
        inv_levels(g, s, vis0, q_pre),
        inv_frontier(g, s, vis0, q_pre),
        inv_discovered(g, s, vis0, q_pre),
        inv_sorted(qn),
        inv_levels(g, s, vis_c, qn),
        qn.len() > 0 ==> qpath(qn[0]).len() == ll || qpath(qn[0]).len() == ll + 1,
        forall|y: Seq<char>|
            #[trigger] g.succ_edge(cur, y) && !vis_c.contains(y) ==> exists|i: int|
                0 <= i < qn.len() && qnode(#[trigger] qn[i]) == y && qpath(qn[i]).len() == ll + 1,
    ensures
        inv_frontier(g, s, vis_c, qn),
{
    broadcast use lemma_seq_contains_after_push;

    if qn.len() > 0 {
        let f2 = qpath(qn[0]).len();
        assert forall|v: Seq<char>|
            #[trigger] reaches(g, s, v) && !vis_c.contains(v) && spec_dist(g, s, v) + 1
                <= f2 implies exists|i: int|
            0 <= i < qn.len() && qnode(#[trigger] qn[i]) == v && qpath(qn[i]).len() == spec_dist(
                g,
                s,
                v,
            ) + 1 by {
            let d = spec_dist(g, s, v);
            if d + 1 <= ll {
                let i = choose|i: int|
                    0 <= i < q_pre.len() && qnode(#[trigger] q_pre[i]) == v && qpath(
                        q_pre[i],
                    ).len() == d + 1;
                assert(i != 0);
                assert(qn[i - 1] == q_pre[i]);
                assert(qnode(qn[i - 1]) == v && qpath(qn[i - 1]).len() == d + 1);
            } else {
                assert(f2 == ll + 1 && d == ll);
                let n0 = choose|n0: nat| has_walk_n(g, s, v, n0);
                lemma_dist_minimal(g, s, v, n0);
                assert(has_walk_n(g, s, v, d));
                lemma_walk_n_prefix(g, s, v, d);
                let x = choose|x: Seq<char>|
                    has_walk_n(g, s, x, (d - 1) as nat) && #[trigger] g.succ_edge(x, v);
                assert(vis_c.contains(x)) by {
                    assert(has_walk_n(g, s, x, (d - 1) as nat) && (d - 1) + 1 < f2);
                };
                lemma_dist_minimal(g, s, x, (d - 1) as nat);
                let dx = spec_dist(g, s, x);
                assert(dx <= d - 1);
                assert(dx >= d - 1) by {
                    assert(has_walk_n(g, s, x, dx));
                    lemma_walk_n_extend(g, s, x, v, dx);
                    lemma_dist_minimal(g, s, v, (dx + 1) as nat);
                };
                if vis0.contains(x) {
                    let i = choose|i: int|
                        0 <= i < q_pre.len() && qnode(#[trigger] q_pre[i]) == v && qpath(
                            q_pre[i],
                        ).len() <= spec_dist(g, s, x) + 2;
                    assert(i != 0);
                    assert(qn[i - 1] == q_pre[i]);
                    assert(qpath(qn[0]).len() <= qpath(qn[i - 1]).len());
                    assert(qpath(qn[i - 1]).len() == ll + 1);
                } else {
                    assert(x == cur);
                }
            }
        };
    }
}

/// No entry overshoots its node's distance by more than one level.
proof fn lemma_step_depth(
    g: Graph,
    s: Seq<char>,
    vis0: Seq<Seq<char>>,
    vis_c: Seq<Seq<char>>,
    q_pre: Seq<(String, Vec<String>)>,
    qn: Seq<(String, Vec<String>)>,
    cur: Seq<char>,
    cpath: Seq<Seq<char>>,
    ll: nat,
)
    requires
        step_shape(g, s, vis0, vis_c, q_pre, qn, cur, cpath, ll),
        inv_levels(g, s, vis0, q_pre),
        inv_depth(g, s, q_pre),
    ensures
        inv_depth(g, s, qn),
{
    assert forall|i: int, n: nat|
        0 <= i < qn.len() && #[trigger] has_walk_n(g, s, qnode(qn[i]), n) implies qpath(
        #[trigger] qn[i],
    ).len() <= n + 2 by {
        if i < q_pre.len() - 1 {
            assert(qn[i] == q_pre[i + 1]);
        } else {
            let y = qnode(qn[i]);
            if n + 1 < ll {
                assert(vis0.contains(y));
                assert(vis_c.contains(y)) by {
                    broadcast use lemma_seq_contains_after_push;

                };
            }
        }
    };
}

/// Unvisited successors of visited nodes stay queued within their bound.
proof fn lemma_step_discovered(
    g: Graph,
    s: Seq<char>,
    vis0: Seq<Seq<char>>,
    vis_c: Seq<Seq<char>>,
    q_pre: Seq<(String, Vec<String>)>,
    qn: Seq<(String, Vec<String>)>,
    cur: Seq<char>,
    cpath: Seq<Seq<char>>,
    ll: nat,
)
    requires
        step_shape(g, s, vis0, vis_c, q_pre, qn, cur, cpath, ll),
        inv_entries(g, s, vis0, q_pre),
        inv_levels(g, s, vis0, q_pre),
        inv_discovered(g, s, vis0, q_pre),
        forall|y: Seq<char>|
            #[trigger] g.succ_edge(cur, y) && !vis_c.contains(y) ==> exists|i: int|
                0 <= i < qn.len() && qnode(#[trigger] qn[i]) == y && qpath(qn[i]).len() == ll + 1,
    ensures
        inv_discovered(g, s, vis_c, qn),
{
    broadcast use lemma_seq_contains_after_push;

    assert forall|x: Seq<char>, y: Seq<char>|
        vis_c.contains(x) && #[trigger] g.succ_edge(x, y) && !vis_c.contains(y) implies exists|
        i: int,
    |
        0 <= i < qn.len() && qnode(#[trigger] qn[i]) == y && qpath(qn[i]).len() <= spec_dist(
            g,
            s,
            x,
        ) + 2 by {
        if vis0.contains(x) {
            let i = choose|i: int|
                0 <= i < q_pre.len() && qnode(#[trigger] q_pre[i]) == y && qpath(q_pre[i]).len()
                    <= spec_dist(g, s, x) + 2;
            assert(i != 0);
            assert(qn[i - 1] == q_pre[i]);
        } else {
            assert(x == cur);
            lemma_fresh_pop_distance(g, s, vis0, q_pre, cur, cpath, ll);
            let i = choose|i: int|
                0 <= i < qn.len() && qnode(#[trigger] qn[i]) == y && qpath(qn[i]).len() == ll + 1;
            assert(qpath(qn[i]).len() <= spec_dist(g, s, cur) + 2);
        }
    };
}

/// At the successful return, any walk from start to stop has at least as
/// many nodes as the returned path.
proof fn lemma_return_minimal(
    g: Graph,
    s: Seq<char>,
    t: Seq<char>,
    vis0: Seq<Seq<char>>,
    q_pre: Seq<(String, Vec<String>)>,
    cur: Seq<char>,
    cpath: Seq<Seq<char>>,
    ll: nat,
)
    requires
        inv_visited(g, s, t, vis0),
        inv_levels(g, s, vis0, q_pre),
        q_pre.len() > 0,
        qnode(q_pre[0]) == cur,
        qpath(q_pre[0]) == cpath,
        cpath.len() == ll,
        ll >= 1,
    ensures
        forall|w: Seq<Seq<char>>| is_walk_between(g, w, s, t) ==> w.len() >= ll + 1,
{
    assert forall|w: Seq<Seq<char>>| is_walk_between(g, w, s, t) implies w.len() >= ll + 1 by {
        let m: nat = (w.len() - 1) as nat;
        assert(has_walk_n(g, s, t, m)) by {
            assert(is_walk(g, w) && w.len() == m + 1 && w[0] == s && w.last() == t);
        };
        if m < ll {
            lemma_walk_n_prefix(g, s, t, m);
            let x = choose|x: Seq<char>|
                has_walk_n(g, s, x, (m - 1) as nat) && #[trigger] g.succ_edge(x, t);
            assert((m - 1) + 1 < qpath(q_pre[0]).len());
            assert(vis0.contains(x));
            assert(!g.succ_edge(x, t));
        }
    };
}

/// Once the queue has drained, walks from the start cannot escape the
/// visited set.
proof fn lemma_drained_walk_visited(g: Graph, vis: Seq<Seq<char>>, s: Seq<char>, w: Seq<Seq<char>>)
    requires
        is_walk(g, w),
        w[0] == s,
        vis.contains(s),
        forall|x: Seq<char>, y: Seq<char>|
            vis.contains(x) && #[trigger] g.succ_edge(x, y) ==> vis.contains(y),
    ensures
        forall|j: int| 0 <= j < w.len() ==> vis.contains(#[trigger] w[j]),
    decreases w.len(),
{
    if w.len() >= 2 {
        lemma_walk_prefix(g, w);
        lemma_drained_walk_visited(g, vis, s, w.drop_last());
        assert forall|j: int| 0 <= j < w.len() implies vis.contains(#[trigger] w[j]) by {
            if j < w.len() - 1 {
                assert(w.drop_last()[j] == w[j]);
            } else {
                assert(vis.contains(w[w.len() - 2]));
                assert(g.succ_edge(w[w.len() - 2], w.last()));
            }
        };
    }
}


/// One expansion step preserves every search invariant.
#[verifier::rlimit(100)]
proof fn lemma_step_all(
    g: Graph,
    s: Seq<char>,
    t: Seq<char>,
    vis0: Seq<Seq<char>>,
    vis_c: Seq<Seq<char>>,
    q_pre: Seq<(String, Vec<String>)>,
    qn: Seq<(String, Vec<String>)>,
    cur: Seq<char>,
    cpath: Seq<Seq<char>>,
    ll: nat,
)
    requires
        search_inv(g, s, t, vis0, q_pre),
        step_shape(g, s, vis0, vis_c, q_pre, qn, cur, cpath, ll),
        g.spec_has_node(cur),
        !g.succ_edge(cur, t),
        ll <= g.node_views().len(),
        forall|y: Seq<char>|
            #[trigger] g.succ_edge(cur, y) && !vis_c.contains(y) ==> exists|i: int|
                0 <= i < qn.len() && qnode(#[trigger] qn[i]) == y && qpath(qn[i]).len() == ll + 1,
    ensures
        search_inv(g, s, t, vis_c, qn),
        qn.len() > 0 ==> qpath(qn[0]).len() == ll || qpath(qn[0]).len() == ll + 1,
{
    broadcast use lemma_seq_contains_after_push;

    lemma_popped_walk(g, s, vis0, q_pre, cur, cpath, ll);
    lemma_step_entries(g, s, vis0, vis_c, q_pre, qn, cur, cpath, ll);
    lemma_step_sorted(g, s, vis0, vis_c, q_pre, qn, cur, cpath, ll);
    lemma_step_levels(g, s, vis0, vis_c, q_pre, qn, cur, cpath, ll);
    lemma_step_frontier(g, s, vis0, vis_c, q_pre, qn, cur, cpath, ll);
    lemma_step_depth(g, s, vis0, vis_c, q_pre, qn, cur, cpath, ll);
    lemma_step_discovered(g, s, vis0, vis_c, q_pre, qn, cur, cpath, ll);
    assert(inv_visited(g, s, t, vis_c)) by {
        assert(has_walk_n(g, s, cur, (ll - 1) as nat));
        assert(reaches(g, s, cur));
        assert forall|x: Seq<char>| vis_c.contains(x) implies g.spec_has_node(x) && !g.succ_edge(
            x,
            t,
        ) && reaches(g, s, x) by {
            if !vis0.contains(x) {
                assert(x == cur);
            }
        };
    };
    assert(inv_start(s, vis_c, qn)) by {
        if !vis_c.contains(s) {
            let i = choose|i: int| 0 <= i < q_pre.len() && qnode(#[trigger] q_pre[i]) == s;
            assert(i != 0);
            assert(qn[i - 1] == q_pre[i]);
        }
    };
    assert(inv_closed_nodes(g, s, qn)) by {
        if g.succ_closed() && g.spec_has_node(s) {
            assert forall|i: int| 0 <= i < qn.len() implies g.spec_has_node(
                qnode(#[trigger] qn[i]),
            ) by {
                if i < q_pre.len() - 1 {
                    assert(qn[i] == q_pre[i + 1]);
                } else {
                    assert(g.succ_edge(cur, qnode(qn[i])));
                }
            };
        }
    };
    assert(inv_len_bound(g, qn)) by {
        assert forall|i: int| 0 <= i < qn.len() implies qpath(#[trigger] qn[i]).len()
            <= g.node_views().len() + 1 by {
            if i < q_pre.len() - 1 {
                assert(qn[i] == q_pre[i + 1]);
            } else {
                assert(qpath(qn[i]).len() == ll + 1);
            }
        };
    };
}

/// The loop measure shrinks across one expansion step.
proof fn lemma_step_measure(
    q_pre: Seq<(String, Vec<String>)>,
    q0: Seq<(String, Vec<String>)>,
    qn: Seq<(String, Vec<String>)>,
    ll: nat,
    nn: nat,
)
    requires
        q_pre.len() > 0,
        qpath(q_pre[0]).len() == ll,
        ll <= nn + 1,
        q0 == q_pre.drop_first(),
        count_at(qn, ll) == count_at(q0, ll),
        qn.len() > 0 ==> qpath(qn[0]).len() == ll || qpath(qn[0]).len() == ll + 1,
    ensures
        level_measure(qn, nn) < level_measure(q_pre, nn) || (level_measure(qn, nn)
            == level_measure(q_pre, nn) && count_at(qn, qpath(qn[0]).len()) < count_at(
            q_pre,
            qpath(q_pre[0]).len(),
        )),
{
    assert(count_at(q_pre, ll) == 1 + count_at(q0, ll));
    if qn.len() > 0 {
        if qpath(qn[0]).len() == ll {
            assert(level_measure(qn, nn) == level_measure(q_pre, nn));
        } else {
            assert(level_measure(qn, nn) < level_measure(q_pre, nn));
        }
    } else {
        assert(level_measure(qn, nn) == 0);
        assert(level_measure(q_pre, nn) >= 1);
    }
}

// ---------------------------------------------------------------------------
// The search itself.
// ---------------------------------------------------------------------------

/// Builds the `NotConnected` error for this start/stop pair.
fn not_connected_error(start: &String, stop: &String) -> (e: GraphError)
    ensures
        e.kind == GraphErrorKind::NotConnected,
        e.details@ == not_connected_message(start@, stop@),
{
    let mut m: String = "start '".to_owned();
    m.append(start.as_str());
    m.append("' and stop '");
    m.append(stop.as_str());
    m.append("' nodes are not connected");
    let e = GraphError::new(GraphErrorKind::NotConnected, m.as_str());
    proof {
        assert(e.details@ =~= not_connected_message(start@, stop@));
    }
    e
}

/// Finds a shortest path from `start` to `stop` by breadth-first search over
/// the graph's successor sets.
///
/// On success the returned path is a walk of minimal hop count from `start`
/// to `stop` with at least one edge.  When `start` is not a node the search
/// fails with `NodeNotFound`; when every reachable node has been expanded
/// without meeting `stop` it fails with `NotConnected`.  The error
/// characterisation is exact for graphs whose recorded successors all exist
/// as nodes, which every graph built through `add_edge` alone satisfies.
#[verifier::rlimit(100)]
pub fn shortest_path_bfs(graph: &Graph, start: &String, stop: &String) -> (r: Result<
    Vec<String>,
    GraphError,
>)
    requires
        graph.wf(),
    ensures
        match r {
            Ok(p) => {
                &&& is_walk_between(*graph, p.deep_view(), start@, stop@)
                &&& forall|w: Seq<Seq<char>>|
                    is_walk_between(*graph, w, start@, stop@) ==> w.len() >= p.deep_view().len()
            },
            Err(e) => {
                &&& (e.kind == GraphErrorKind::NodeNotFound || e.kind
                    == GraphErrorKind::NotConnected)
                &&& (!graph.spec_has_node(start@) ==> e.kind == GraphErrorKind::NodeNotFound)
                &&& (e.kind == GraphErrorKind::NotConnected ==> !connected(*graph, start@, stop@)
                    && e.details@ == not_connected_message(start@, stop@))
                &&& (graph.succ_closed() && graph.spec_has_node(start@) ==> e.kind
                    == GraphErrorKind::NotConnected)
            },
        },
{
    let ghost g = *graph;
    let ghost s = start@;
    let ghost t = stop@;
    let ghost nn: nat = g.node_views().len();

    let mut visited: Vec<String> = Vec::new();
    let mut queue: VecDeque<(String, Vec<String>)> = VecDeque::new();
    let mut start_path: Vec<String> = Vec::new();
    start_path.push(start.clone());
    proof {
        assert(start_path.deep_view() =~~= Seq::<Seq<char>>::empty().push(s));
    }
    queue.push_back((start.clone(), start_path));
    proof {
        let q = queue@;
        let vis = visited.deep_view();
        assert(qpath(q[0]).len() == 1);
        assert(qnode(q[0]) == s);
        assert(entry_ok(g, s, vis, q[0])) by {
            assert(is_walk(g, qpath(q[0])));
            assert(qpath(q[0]).no_duplicates());
        };
        assert(inv_frontier(g, s, vis, q)) by {
            assert forall|v: Seq<char>|
                #[trigger] reaches(g, s, v) && !vis.contains(v) && spec_dist(g, s, v) + 1
                    <= qpath(q[0]).len() implies exists|i: int|
                0 <= i < q.len() && qnode(#[trigger] q[i]) == v && qpath(q[i]).len() == spec_dist(
                    g,
                    s,
                    v,
                ) + 1 by {
                let n0 = choose|n0: nat| has_walk_n(g, s, v, n0);
                lemma_dist_minimal(g, s, v, n0);
                let d = spec_dist(g, s, v);
                assert(d == 0);
                let w = choose|w: Seq<Seq<char>>|
                    is_walk(g, w) && w.len() == d + 1 && w[0] == s && w.last() == v;
                assert(w.last() == w[0]);
                assert(v == s);
                assert(qnode(q[0]) == v && qpath(q[0]).len() == d + 1);
            };
        };
        assert(search_inv(g, s, t, vis, q));
    }

    while queue.len() > 0
        invariant
            g == *graph,
            g.wf(),
            s == start@,
            t == stop@,
            nn == g.node_views().len(),
            search_inv(g, s, t, visited.deep_view(), queue@),
        decreases level_measure(queue@, nn), count_at(queue@, qpath(queue@[0]).len()),
    {
        let ghost q_pre = queue@;
        let ghost vis0 = visited.deep_view();
        let entry = queue.pop_front().unwrap();
        let current_node = entry.0;
        let current_path = entry.1;
        let ghost q0 = queue@;
        let ghost cur = current_node@;
        let ghost cpath = current_path.deep_view();
        let ghost ll: nat = cpath.len();
        proof {
            assert(q0 =~= q_pre.drop_first());
            assert(entry_ok(g, s, vis0, q_pre[0]));
            lemma_popped_walk(g, s, vis0, q_pre, cur, cpath, ll);
        }

        visited.push(current_node.clone());
        let ghost vis_c = visited.deep_view();
        proof {
            broadcast use lemma_seq_contains_after_push;

            assert(vis_c =~= vis0.push(cur));
            assert(vis_c.contains(cur));
        }

        let successors = match graph.get_successors(&current_node) {
            Ok(ss) => ss,
            Err(e) => {
                proof {
                    if g.succ_closed() && g.spec_has_node(s) {
                        assert(g.spec_has_node(qnode(q_pre[0])));
                        assert(false);
                    }
                }
                return Err(e);
            },
        };
        let ghost succs = successors.deep_view();
        proof {
            assert(succs == g.successors_of(cur));
            assert(g.spec_has_node(cur));
            assert(forall|j: int| 0 <= j < cpath.len() ==> vis_c.contains(#[trigger] cpath[j]))
                by {
                assert(forall|j: int|
                    0 <= j < cpath.len() - 1 ==> vis0.contains(#[trigger] cpath[j]));
                assert(cpath[cpath.len() - 1] == cur);
            };
            lemma_path_len_bound(g, vis_c, cpath);
            assert(ll <= nn);
        }

        let mut matched_path: Option<Vec<String>> = None;
        let mut k: usize = 0;
        while k < successors.len()
            invariant
                k <= successors.len(),
                g == *graph,
                g.wf(),
                s == start@,
                t == stop@,
                cur == current_node@,
                cpath == current_path.deep_view(),
                ll == cpath.len(),
                ll >= 1,
                succs == successors.deep_view(),
                succs == g.successors_of(cur),
                g.spec_has_node(cur),
                visited.deep_view() == vis_c,
                vis_c == vis0.push(cur),
                is_walk(g, cpath),
                cpath[0] == s,
                cpath.last() == cur,
                cpath.no_duplicates(),
                forall|j: int| 0 <= j < cpath.len() ==> vis_c.contains(#[trigger] cpath[j]),
                q0.len() <= queue@.len(),
                forall|i: int| 0 <= i < q0.len() ==> #[trigger] queue@[i] == q0[i],
                forall|i: int|
                    q0.len() <= i < queue@.len() ==> {
                        let e = #[trigger] queue@[i];
                        &&& qpath(e) == cpath.push(qnode(e))
                        &&& g.succ_edge(cur, qnode(e))
                        &&& !vis_c.contains(qnode(e))
                        &&& qpath(e).len() == ll + 1
                    },
                count_at(queue@, ll) == count_at(q0, ll),
                matched_path is None ==> forall|j: int| 0 <= j < k ==> succs[j] != t,
                matched_path matches Some(p) ==> p.deep_view() == cpath.push(t) && succs.contains(
                    t,
                ),
                forall|j: int|
                    0 <= j < k ==> succs[j] == t || vis_c.contains(#[trigger] succs[j]) || exists|
                        i: int,
                    |
                        0 <= i < queue@.len() && qnode(#[trigger] queue@[i]) == succs[j] && qpath(
                            queue@[i],
                        ).len() == ll + 1,
            decreases successors.len() - k,
        {
            proof {
                assert(succs[k as int] == successors@[k as int]@);
            }
            let successor = &successors[k];
            let mut successor_path = clone_string_vec(&current_path);
            successor_path.push(successor.clone());
            proof {
                assert(successor_path.deep_view() =~~= cpath.push(succs[k as int]));
            }
            if *successor == *stop {
                matched_path = Some(successor_path);
                proof {
                    assert(succs.contains(t)) by {
                        assert(succs[k as int] == t);
                    };
                }
            } else if !contains_string(&visited, successor) {
                let ghost q_before = queue@;
                queue.push_back((successor.clone(), successor_path));
                proof {
                    let e = queue@[queue@.len() - 1];
                    assert(queue@ =~= q_before.push(e));
                    assert(qpath(e) == cpath.push(qnode(e)));
                    assert(g.succ_edge(cur, qnode(e))) by {
                        assert(succs.contains(succs[k as int]));
                    };
                    lemma_count_at_push(q_before, e, ll);
                    assert(qnode(e) == succs[k as int] && qpath(e).len() == ll + 1);
                    assert forall|j: int|
                        0 <= j < k + 1 implies succs[j] == t || vis_c.contains(#[trigger] succs[j])
                        || exists|i: int|
                        0 <= i < queue@.len() && qnode(#[trigger] queue@[i]) == succs[j] && qpath(
                            queue@[i],
                        ).len() == ll + 1 by {
                        if j == k {
                            assert(qnode(queue@[queue@.len() - 1]) == succs[j] && qpath(
                                queue@[queue@.len() - 1],
                            ).len() == ll + 1);
                        } else if !(succs[j] == t || vis_c.contains(succs[j])) {
                            let i0 = choose|i: int|
                                0 <= i < q_before.len() && qnode(#[trigger] q_before[i])
                                    == succs[j] && qpath(q_before[i]).len() == ll + 1;
                            assert(queue@[i0] == q_before[i0]);
                            assert(qnode(queue@[i0]) == succs[j] && qpath(queue@[i0]).len() == ll
                                + 1);
                        }
                    };
                }
            }
            k += 1;
        }

        let ghost qn = queue@;

        match matched_path {
            Some(p) => {
                proof {
                    assert(g.succ_edge(cur, t)) by {
                        let j = choose|j: int| 0 <= j < succs.len() && succs[j] == t;
                        assert(g.successors_of(cur).contains(t));
                    };
                    lemma_walk_push(g, cpath, t);
                    assert(is_walk_between(g, p.deep_view(), s, t));
                    lemma_return_minimal(g, s, t, vis0, q_pre, cur, cpath, ll);
                }
                return Ok(p);
            },
            None => {},
        }

        proof {
            assert(!g.succ_edge(cur, t)) by {
                if g.successors_of(cur).contains(t) {
                    let j = choose|j: int| 0 <= j < succs.len() && succs[j] == t;
                    assert(succs[j] != t);
                }
            };
            assert(step_shape(g, s, vis0, vis_c, q_pre, qn, cur, cpath, ll)) by {
                assert(forall|i: int|
                    0 <= i < q_pre.len() - 1 ==> #[trigger] qn[i] == q_pre[i + 1]) by {
                    assert(forall|i: int| 0 <= i < q0.len() ==> #[trigger] q0[i] == q_pre[i + 1]);
                };
            };
            assert forall|y: Seq<char>|
                #[trigger] g.succ_edge(cur, y) && !vis_c.contains(y) implies exists|i: int|
                0 <= i < qn.len() && qnode(#[trigger] qn[i]) == y && qpath(qn[i]).len() == ll
                    + 1 by {
                let j = choose|j: int| 0 <= j < succs.len() && succs[j] == y;
                assert(succs[j] == t || vis_c.contains(succs[j]) || exists|i: int|
                    0 <= i < qn.len() && qnode(#[trigger] qn[i]) == succs[j] && qpath(
                        qn[i],
                    ).len() == ll + 1);
                assert(succs[j] != t);
            };
            lemma_step_all(g, s, t, vis0, vis_c, q_pre, qn, cur, cpath, ll);
            lemma_step_measure(q_pre, q0, qn, ll, nn);
        }
    }

    proof {
        let vis = visited.deep_view();
        assert(vis.contains(s));
        if connected(g, s, t) {
            let w = choose|w: Seq<Seq<char>>| is_walk_between(g, w, s, t);
            lemma_drained_walk_visited(g, vis, s, w);
            lemma_walk_prefix(g, w);
            assert(vis.contains(w[w.len() - 2]));
            assert(!g.succ_edge(w[w.len() - 2], w.last()));
        }
        assert(!connected(g, s, t));
        assert(g.spec_has_node(s));
    }
    Err(not_connected_error(start, stop))
}

} // verus!
