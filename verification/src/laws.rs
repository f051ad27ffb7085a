//! The engine's laws: properties of the traversal order and of the
//! backward pass, stated over the same specification functions the
//! executable contracts use and proved once and for all.

use vstd::prelude::*;
use crate::bits::{is_gt_zero, mul_of, ONE_BITS, ZERO_BITS};
use crate::engine::{
    accum, backward_spec, dfs, fire, fire_from, graph_wf, node_wf, topo_order, with_grad, Node,
    Op,
};

verus! {

/// Whether position `x` is an operand of the operation `op`.
pub open spec fn is_parent(op: Op, x: int) -> bool {
    match op {
        Op::Leaf => false,
        Op::Add(a, b) => a == x || b == x,
        Op::Mul(a, b) => a == x || b == x,
        Op::Pow(a, _) => a == x,
        Op::Relu(a) => a == x,
    }
}

/// Every operand of every order member appears in the order, strictly
/// earlier: the order is topological (parents first).
pub open spec fn pos_closed(s: Seq<Node>, order: Seq<usize>) -> bool {
    forall|p: int, x: int|
        0 <= p < order.len() && #[trigger] is_parent(s[order[p] as int].op, x) ==> exists|q: int|
            0 <= q < p && order[q] == x
}

/// No node appears in the order twice.
pub open spec fn distinct(order: Seq<usize>) -> bool {
    forall|p: int, q: int|
        0 <= p < q < order.len() ==> #[trigger] order[p] != #[trigger] order[q]
}

/// The order grows only at the end: the old order is a prefix.
pub open spec fn order_prefix(topo: Seq<usize>, topo2: Seq<usize>) -> bool {
    &&& topo2.len() >= topo.len()
    &&& forall|q: int| 0 <= q < topo.len() ==> #[trigger] topo2[q] == topo[q]
}

/// Every order member is in bounds and marked visited.
pub open spec fn members_ok(s: Seq<Node>, vis: Seq<bool>, topo: Seq<usize>) -> bool {
    forall|q: int| 0 <= q < topo.len() ==> #[trigger] topo[q] < s.len() && vis[topo[q] as int]
}

/// The set of nodes that are marked but not yet appended (the traversal's
/// in-progress ancestors) is the same before and after.
pub open spec fn in_progress_same(
    vis: Seq<bool>,
    topo: Seq<usize>,
    vis2: Seq<bool>,
    topo2: Seq<usize>,
) -> bool {
    forall|x: int|
        0 <= x < vis.len() ==> ((#[trigger] vis2[x] && !topo2.contains(x as usize)) <==> (vis[x]
            && !topo.contains(x as usize)))
}

/// Marks only grow.
pub open spec fn marks_mono(vis: Seq<bool>, vis2: Seq<bool>) -> bool {
    forall|x: int| 0 <= x < vis.len() && vis[x] ==> #[trigger] vis2[x]
}

/// Newly appended members were unvisited before and lie at or below
/// `bound`.
pub open spec fn news_fresh(
    bound: int,
    vis: Seq<bool>,
    topo: Seq<usize>,
    topo2: Seq<usize>,
) -> bool {
    forall|q: int|
        topo.len() <= q < topo2.len() ==> !vis[#[trigger] topo2[q] as int] && topo2[q] <= bound
}

/// Everything one traversal step guarantees, relating the state before to
/// the state after.
pub open spec fn dfs_rel(
    s: Seq<Node>,
    bound: int,
    vis: Seq<bool>,
    topo: Seq<usize>,
    vis2: Seq<bool>,
    topo2: Seq<usize>,
) -> bool {
    &&& vis2.len() == vis.len()
    &&& order_prefix(topo, topo2)
    &&& members_ok(s, vis2, topo2)
    &&& pos_closed(s, topo2)
    &&& distinct(topo2)
    &&& in_progress_same(vis, topo, vis2, topo2)
    &&& marks_mono(vis, vis2)
    &&& news_fresh(bound, vis, topo, topo2)
}

/// A membership survives extension at the end.
proof fn lemma_contains_extends(topo: Seq<usize>, topo2: Seq<usize>, x: usize)
    requires
        order_prefix(topo, topo2),
        topo.contains(x),
    ensures
        topo2.contains(x),
{
    let q = choose|q: int| 0 <= q < topo.len() && topo[q] == x;
    assert(topo2[q] == x);
}

/// Two traversal steps compose into one.
proof fn lemma_rel_trans(
    s: Seq<Node>,
    bound: int,
    vis: Seq<bool>,
    topo: Seq<usize>,
    vism: Seq<bool>,
    topom: Seq<usize>,
    vis2: Seq<bool>,
    topo2: Seq<usize>,
)
    requires
        vis.len() == s.len(),
        dfs_rel(s, bound, vis, topo, vism, topom),
        dfs_rel(s, bound, vism, topom, vis2, topo2),
    ensures
        dfs_rel(s, bound, vis, topo, vis2, topo2),
{
    assert(in_progress_same(vis, topo, vism, topom));
    assert(in_progress_same(vism, topom, vis2, topo2));
    assert forall|x: int|
        0 <= x < vis.len() implies ((#[trigger] vis2[x] && !topo2.contains(x as usize)) <==> (
    vis[x] && !topo.contains(x as usize))) by {
        assert(vism.len() == vis.len());
        assert((vis2[x] && !topo2.contains(x as usize)) <==> (vism[x] && !topom.contains(
            x as usize,
        )));
        assert((vism[x] && !topom.contains(x as usize)) <==> (vis[x] && !topo.contains(
            x as usize,
        )));
    }
    assert forall|q: int|
        topo.len() <= q < topo2.len() implies !vis[#[trigger] topo2[q] as int] && topo2[q]
        <= bound by {
        if q < topom.len() {
            assert(topo2[q] == topom[q]);
            assert(!vis[topom[q] as int] && topom[q] <= bound);
        } else {
            assert(!vism[topo2[q] as int] && topo2[q] <= bound);
            assert(topo2[q] < s.len());
            if vis[topo2[q] as int] {
                assert(vism[topo2[q] as int]);
            }
        }
    }
}

/// Appending the start node after its operands were all traversed keeps
/// every traversal-step guarantee, with the start node now a member and
/// last in the order.
proof fn lemma_rel_push(s: Seq<Node>, v: int, vis: Seq<bool>, topo: Seq<usize>, vis2: Seq<
    bool,
>, topo2: Seq<usize>)
    requires
        graph_wf(s),
        s.len() <= usize::MAX,
        vis.len() == s.len(),
        0 <= v < s.len(),
        !vis[v],
        members_ok(s, vis, topo),
        dfs_rel(s, v, vis.update(v, true), topo, vis2, topo2),
        forall|x: int| #[trigger] is_parent(s[v].op, x) ==> topo2.contains(x as usize),
    ensures
        dfs_rel(s, v, vis, topo, vis2, topo2.push(v as usize)),
        topo2.push(v as usize).contains(v as usize),
        topo2.push(v as usize).last() == v as usize,
        topo2.push(v as usize).len() > topo.len(),
    decreases v,
{
    let vis1 = vis.update(v, true);
    let topo3 = topo2.push(v as usize);
    assert(topo3[topo2.len() as int] == v as usize);
    assert(topo3.contains(v as usize));
    // v is fresh in topo2
    assert forall|q: int| 0 <= q < topo2.len() implies #[trigger] topo2[q] != v as usize by {
        if q < topo.len() {
            assert(topo2[q] == topo[q]);
            assert(vis[topo[q] as int]);
            assert(topo[q] as int != v);
        } else {
            assert(!vis1[topo2[q] as int]);
            assert(topo2[q] as int != v);
        }
    }
    // members: the old part carries over, and v is marked
    assert(vis2[v]);
    assert forall|q: int| 0 <= q < topo3.len() implies #[trigger] topo3[q] < s.len()
        && vis2[topo3[q] as int] by {
        if q < topo2.len() {
            assert(topo2[q] < s.len() && vis2[topo2[q] as int]);
        }
    }
    // parents-first carries over, and holds of v by the containment of its
    // operands
    assert forall|p: int, x: int|
        0 <= p < topo3.len() && #[trigger] is_parent(s[topo3[p] as int].op, x)
            implies exists|q: int| 0 <= q < p && topo3[q] == x by {
        if p < topo2.len() {
            assert(is_parent(s[topo2[p] as int].op, x));
            let q = choose|q: int| 0 <= q < p && topo2[q] == x;
            assert(topo3[q] == x);
        } else {
            assert(topo3[p] == v as usize);
            assert(topo3[p] as int == v);
            assert(is_parent(s[v].op, x));
            assert(node_wf(s[v].op, v));
            assert(0 <= x < v);
            assert(topo2.contains(x as usize));
            let q = choose|q: int| 0 <= q < topo2.len() && topo2[q] == x as usize;
            assert(topo3[q] == x);
        }
    }
    assert(distinct(topo3)) by {
        assert forall|p: int, q: int| 0 <= p < q < topo3.len() implies #[trigger] topo3[p]
            != #[trigger] topo3[q] by {
            if q < topo2.len() {
                assert(topo2[p] != topo2[q]);
            } else {
                assert(topo3[q] == v as usize);
                assert(topo2[p] != v as usize);
            }
        }
    }
    // the in-progress set is restored: appending v removes exactly the
    // node that marking v added
    assert forall|x: int|
        0 <= x < vis.len() implies ((#[trigger] vis2[x] && !topo3.contains(x as usize)) <==> (
    vis[x] && !topo.contains(x as usize))) by {
        if x == v {
            assert(topo3.contains(v as usize));
            assert(!vis[v]);
        } else {
            assert((vis2[x] && !topo2.contains(x as usize)) <==> (vis1[x] && !topo.contains(
                x as usize,
            )));
            assert(vis1[x] == vis[x]);
            assert(topo3.contains(x as usize) <==> topo2.contains(x as usize)) by {
                if topo2.contains(x as usize) {
                    lemma_contains_extends(topo2, topo3, x as usize);
                }
                if topo3.contains(x as usize) {
                    let q = choose|q: int| 0 <= q < topo3.len() && topo3[q] == x as usize;
                    if q == topo2.len() {
                        assert(topo3[q] == v as usize);
                        assert(x as usize as int == x);
                        assert(false);
                    }
                    assert(topo2[q] == x as usize);
                }
            }
        }
    }
    assert forall|x: int| 0 <= x < vis.len() && vis[x] implies #[trigger] vis2[x] by {
        assert(vis1[x]);
    }
    assert forall|q: int|
        topo.len() <= q < topo3.len() implies !vis[#[trigger] topo3[q] as int] && topo3[q]
        <= v by {
        if q < topo2.len() {
            assert(!vis1[topo2[q] as int] && topo2[q] <= v);
            assert(topo2[q] as int != v);
        }
    }
}

/// The depth-first traversal builds a duplicate-free, parents-first order,
/// ends with the start node when it was unvisited, keeps every previously
/// visited node's membership, and appends only nodes at or below the
/// start.
pub proof fn lemma_dfs_props(s: Seq<Node>, v: int, vis: Seq<bool>, topo: Seq<usize>)
    requires
        graph_wf(s),
        s.len() <= usize::MAX,
        vis.len() == s.len(),
        0 <= v < s.len(),
        members_ok(s, vis, topo),
        pos_closed(s, topo),
        distinct(topo),
        forall|x: int| 0 <= x < s.len() && #[trigger] vis[x] && !topo.contains(x as usize) ==> x
            > v,
    ensures
        dfs_rel(s, v, vis, topo, dfs(s, v, vis, topo).0, dfs(s, v, vis, topo).1),
        dfs(s, v, vis, topo).1.contains(v as usize),
        !vis[v] ==> dfs(s, v, vis, topo).1.len() > topo.len() && dfs(s, v, vis, topo).1.last()
            == v as usize,
    decreases v,
{
    assert(node_wf(s[v].op, v));
    if vis[v] {
        // already visited: the state is unchanged, and membership follows
        // from the in-progress bound
        assert(topo.contains(v as usize));
    } else {
        let vis1 = vis.update(v, true);
        assert forall|x: int|
            0 <= x < s.len() && #[trigger] vis1[x] && !topo.contains(x as usize) implies x
            >= v by {
            if x != v {
                assert(vis[x]);
            }
        }
        let st = match s[v].op {
            Op::Leaf => {
                let st = (vis1, topo);
                assert(dfs_rel(s, v, vis1, topo, st.0, st.1));
                st
            },
            Op::Add(a, b) => {
                lemma_dfs_props(s, a as int, vis1, topo);
                let sta = dfs(s, a as int, vis1, topo);
                assert forall|x: int|
                    0 <= x < s.len() && #[trigger] sta.0[x] && !sta.1.contains(x as usize)
                    implies x > b as int by {
                    assert(vis1[x] && !topo.contains(x as usize));
                    if x != v {
                        assert(vis[x]);
                    }
                }
                lemma_dfs_props(s, b as int, sta.0, sta.1);
                let stb = dfs(s, b as int, sta.0, sta.1);
                lemma_rel_trans(s, v, vis1, topo, sta.0, sta.1, stb.0, stb.1);
                lemma_contains_extends(sta.1, stb.1, a);
                assert(stb.1.contains(a) && stb.1.contains(b));
                stb
            },
            Op::Mul(a, b) => {
                lemma_dfs_props(s, a as int, vis1, topo);
                let sta = dfs(s, a as int, vis1, topo);
                assert forall|x: int|
                    0 <= x < s.len() && #[trigger] sta.0[x] && !sta.1.contains(x as usize)
                    implies x > b as int by {
                    assert(vis1[x] && !topo.contains(x as usize));
                    if x != v {
                        assert(vis[x]);
                    }
                }
                lemma_dfs_props(s, b as int, sta.0, sta.1);
                let stb = dfs(s, b as int, sta.0, sta.1);
                lemma_rel_trans(s, v, vis1, topo, sta.0, sta.1, stb.0, stb.1);
                lemma_contains_extends(sta.1, stb.1, a);
                assert(stb.1.contains(a) && stb.1.contains(b));
                stb
            },
            Op::Pow(a, _) => {
                lemma_dfs_props(s, a as int, vis1, topo);
                dfs(s, a as int, vis1, topo)
            },
            Op::Relu(a) => {
                lemma_dfs_props(s, a as int, vis1, topo);
                dfs(s, a as int, vis1, topo)
            },
        };
        assert(dfs_rel(s, v, vis1, topo, st.0, st.1));
        assert forall|x: int| #[trigger] is_parent(s[v].op, x) implies st.1.contains(
            x as usize,
        ) by {
            match s[v].op {
                Op::Leaf => {},
                Op::Add(a, b) => {
                    assert(x == a as int || x == b as int);
                },
                Op::Mul(a, b) => {
                    assert(x == a as int || x == b as int);
                },
                Op::Pow(a, _) => {
                    assert(x == a as int);
                },
                Op::Relu(a) => {
                    assert(x == a as int);
                },
            }
        }
        lemma_rel_push(s, v, vis, topo, st.0, st.1);
        assert(dfs(s, v, vis, topo) == (st.0, st.1.push(v as usize)));
    }
}

/// The rectifier's backward rule at the boundary: when a relu node's
/// forward value is exactly zero (the input was zero), the rule scales the
/// upstream gradient by zero, not by one; only a strictly positive output
/// selects the unit coefficient.
pub proof fn lemma_relu_backward_boundary(s: Seq<Node>, i: int, a: usize)
    requires
        0 <= i < s.len(),
        s[i].op == Op::Relu(a),
        s[i].data == ZERO_BITS,
    ensures
        !is_gt_zero(s[i].data),
        fire(s, i) == accum(s, a as int, mul_of(ZERO_BITS, s[i].grad)),
{
    assert(0x0000_0000u32 & 0x7FFF_FFFFu32 == 0u32) by (bit_vector);
}

/// The rectifier's backward rule away from the boundary: a strictly
/// positive forward value selects the unit coefficient.
pub proof fn lemma_relu_backward_positive(s: Seq<Node>, i: int, a: usize)
    requires
        0 <= i < s.len(),
        s[i].op == Op::Relu(a),
        is_gt_zero(s[i].data),
    ensures
        fire(s, i) == accum(s, a as int, mul_of(ONE_BITS, s[i].grad)),
{
}

/// Two node sequences that agree on construction provenance and forward
/// values everywhere (gradients may differ).
pub open spec fn same_structure(s1: Seq<Node>, s2: Seq<Node>) -> bool {
    &&& s1.len() == s2.len()
    &&& forall|j: int|
        0 <= j < s1.len() ==> #[trigger] s2[j].op == s1[j].op && s2[j].data == s1[j].data
}

/// Gradients agree at every order member.
pub open spec fn grads_agree_on(s1: Seq<Node>, s2: Seq<Node>, order: Seq<usize>) -> bool {
    forall|q: int|
        0 <= q < order.len() ==> s1[#[trigger] order[q] as int].grad == s2[order[q] as int].grad
}

/// Gradients outside the order are exactly what they were.
pub open spec fn untouched_outside(s: Seq<Node>, f: Seq<Node>, order: Seq<usize>) -> bool {
    forall|x: int|
        0 <= x < s.len() && !order.contains(x as usize) ==> #[trigger] f[x].grad == s[x].grad
}

/// The traversal reads only each node's operation, so it is the same on
/// two structurally equal graphs.
proof fn lemma_dfs_ops_only(s1: Seq<Node>, s2: Seq<Node>, v: int, vis: Seq<bool>, topo: Seq<
    usize,
>)
    requires
        same_structure(s1, s2),
    ensures
        dfs(s2, v, vis, topo) == dfs(s1, v, vis, topo),
    decreases v,
{
    if 0 <= v < s1.len() && node_wf(s1[v].op, v) && !vis[v] {
        let vis1 = vis.update(v, true);
        match s1[v].op {
            Op::Leaf => {},
            Op::Add(a, b) => {
                lemma_dfs_ops_only(s1, s2, a as int, vis1, topo);
                let sta = dfs(s1, a as int, vis1, topo);
                lemma_dfs_ops_only(s1, s2, b as int, sta.0, sta.1);
            },
            Op::Mul(a, b) => {
                lemma_dfs_ops_only(s1, s2, a as int, vis1, topo);
                let sta = dfs(s1, a as int, vis1, topo);
                lemma_dfs_ops_only(s1, s2, b as int, sta.0, sta.1);
            },
            Op::Pow(a, _) => {
                lemma_dfs_ops_only(s1, s2, a as int, vis1, topo);
            },
            Op::Relu(a) => {
                lemma_dfs_ops_only(s1, s2, a as int, vis1, topo);
            },
        }
    }
}

/// One rule firing keeps the node count, every operation and every
/// forward value; it only touches the gradients of the fired node's
/// operands.
proof fn lemma_fire_shape(s: Seq<Node>, i: int)
    requires
        graph_wf(s),
        0 <= i < s.len(),
    ensures
        fire(s, i).len() == s.len(),
        forall|j: int|
            0 <= j < s.len() ==> #[trigger] fire(s, i)[j].op == s[j].op && fire(s, i)[j].data
                == s[j].data,
        forall|j: int|
            0 <= j < s.len() && !is_parent(s[i].op, j) ==> #[trigger] fire(s, i)[j].grad
                == s[j].grad,
{
    assert(node_wf(s[i].op, i));
}

/// Firing the rules of an order suffix on two structurally equal graphs
/// whose gradients agree on the (parents-first) order's members keeps the
/// structures equal, keeps member gradients in agreement, and never
/// touches a gradient outside the order.
proof fn lemma_fire_from_agree(s1: Seq<Node>, s2: Seq<Node>, order: Seq<usize>, j: int)
    requires
        graph_wf(s1),
        same_structure(s1, s2),
        forall|q: int| 0 <= q < order.len() ==> #[trigger] order[q] < s1.len(),
        pos_closed(s1, order),
        grads_agree_on(s1, s2, order),
        0 <= j,
    ensures
        same_structure(fire_from(s1, order, j), fire_from(s2, order, j)),
        same_structure(s1, fire_from(s1, order, j)),
        same_structure(s2, fire_from(s2, order, j)),
        fire_from(s1, order, j).len() == s1.len(),
        grads_agree_on(fire_from(s1, order, j), fire_from(s2, order, j), order),
        untouched_outside(s1, fire_from(s1, order, j), order),
        untouched_outside(s2, fire_from(s2, order, j), order),
    decreases order.len() - j,
{
    if j >= order.len() {
    } else {
        lemma_fire_from_agree(s1, s2, order, j + 1);
        let f1 = fire_from(s1, order, j + 1);
        let f2 = fire_from(s2, order, j + 1);
        let c = order[j] as int;
        // the intermediate structures are still well-formed, since
        // operations never change
        assert(graph_wf(f1)) by {
            assert forall|k: int| 0 <= k < f1.len() implies node_wf(#[trigger] f1[k].op, k) by {
                assert(f1[k].op == s1[k].op);
            }
        }
        assert(node_wf(f1[c].op, c));
        assert(f1[c].op == s1[c].op);
        assert(f1[c].grad == f2[c].grad);
        // every operand of the fired node is an order member, so its data
        // and gradient agree between the two runs
        assert forall|x: int| #[trigger] is_parent(s1[c].op, x) implies order.contains(
            x as usize,
        ) && f1[x].grad == f2[x].grad && 0 <= x < s1.len() by {
            assert(is_parent(s1[order[j] as int].op, x));
            let q = choose|q: int| 0 <= q < j && order[q] == x;
            assert(order[q] == x as usize);
            assert(f1[order[q] as int].grad == f2[order[q] as int].grad);
            assert(node_wf(s1[c].op, c));
        }
        lemma_fire_shape(f1, c);
        lemma_fire_shape(f2, c);
        assert(same_structure(fire(f1, c), fire(f2, c)));
        assert forall|q: int|
            0 <= q < order.len() implies fire(f1, c)[#[trigger] order[q] as int].grad == fire(
            f2,
            c,
        )[order[q] as int].grad by {
            if !is_parent(s1[c].op, order[q] as int) {
                assert(fire(f1, c)[order[q] as int].grad == f1[order[q] as int].grad);
                assert(fire(f2, c)[order[q] as int].grad == f2[order[q] as int].grad);
            }
        }
        assert forall|x: int|
            0 <= x < s1.len() && !order.contains(x as usize) implies #[trigger] fire(
            f1,
            c,
        )[x].grad == s1[x].grad by {
            assert(!is_parent(s1[c].op, x)) by {
                if is_parent(s1[c].op, x) {
                    assert(order.contains(x as usize));
                }
            }
            assert(f1[x].grad == s1[x].grad);
            assert(fire(f1, c)[x].grad == f1[x].grad);
        }
        assert forall|x: int|
            0 <= x < s2.len() && !order.contains(x as usize) implies #[trigger] fire(
            f2,
            c,
        )[x].grad == s2[x].grad by {
            assert(!is_parent(s1[c].op, x)) by {
                if is_parent(s1[c].op, x) {
                    assert(order.contains(x as usize));
                }
            }
            assert(f2[x].grad == s2[x].grad);
            assert(fire(f2, c)[x].grad == f2[x].grad);
        }
    }
}

/// The backward pass is insensitive to everything outside the subgraph it
/// visits: on two graphs with the same nodes and forward values whose
/// gradients agree on every node the traversal from the terminal visits
/// (in particular, when those are all zero: a freshly built graph, or one
/// whose visited gradients were reset), backward produces identical
/// gradients on every visited node and leaves every unvisited node's
/// gradient exactly as it was.
pub proof fn lemma_backward_visited_only(s1: Seq<Node>, s2: Seq<Node>, t: int)
    requires
        graph_wf(s1),
        s1.len() <= usize::MAX,
        0 <= t < s1.len(),
        same_structure(s1, s2),
        grads_agree_on(s1, s2, topo_order(s1, t)),
    ensures
        topo_order(s2, t) == topo_order(s1, t),
        grads_agree_on(backward_spec(s1, t), backward_spec(s2, t), topo_order(s1, t)),
        same_structure(backward_spec(s1, t), backward_spec(s2, t)),
        untouched_outside(s1, backward_spec(s1, t), topo_order(s1, t)),
        untouched_outside(s2, backward_spec(s2, t), topo_order(s1, t)),
{
    let vis0 = Seq::new(s1.len(), |i: int| false);
    let order = topo_order(s1, t);
    lemma_dfs_ops_only(s1, s2, t, vis0, Seq::empty());
    lemma_dfs_props(s1, t, vis0, Seq::empty());
    let g1 = with_grad(s1, t, ONE_BITS);
    let g2 = with_grad(s2, t, ONE_BITS);
    assert(same_structure(g1, g2)) by {
        assert forall|j: int|
            0 <= j < g1.len() implies #[trigger] g2[j].op == g1[j].op && g2[j].data
            == g1[j].data by {
            if j != t {
                assert(g1[j] == s1[j] && g2[j] == s2[j]);
            }
        }
    }
    assert(graph_wf(g1)) by {
        assert forall|k: int| 0 <= k < g1.len() implies node_wf(#[trigger] g1[k].op, k) by {
            assert(g1[k].op == s1[k].op);
        }
    }
    assert(grads_agree_on(g1, g2, order)) by {
        assert forall|q: int|
            0 <= q < order.len() implies g1[#[trigger] order[q] as int].grad == g2[order[
            q] as int].grad by {
            if order[q] as int != t {
                assert(g1[order[q] as int] == s1[order[q] as int]);
                assert(g2[order[q] as int] == s2[order[q] as int]);
            }
        }
    }
    lemma_fire_from_agree(g1, g2, order, 0);
    assert(order.contains(t as usize));
    assert(backward_spec(s1, t) == fire_from(g1, order, 0));
    assert(topo_order(s2, t) == order);
    assert(backward_spec(s2, t) == fire_from(g2, order, 0));
    assert forall|x: int|
        0 <= x < s1.len() && !order.contains(x as usize) implies #[trigger] backward_spec(
        s1,
        t,
    )[x].grad == s1[x].grad by {
        assert(x != t);
        assert(g1[x] == s1[x]);
        assert(fire_from(g1, order, 0)[x].grad == g1[x].grad);
    }
    assert forall|x: int|
        0 <= x < s2.len() && !order.contains(x as usize) implies #[trigger] backward_spec(
        s2,
        t,
    )[x].grad == s2[x].grad by {
        assert(x != t);
        assert(g2[x] == s2[x]);
        assert(fire_from(g2, order, 0)[x].grad == g2[x].grad);
    }
}

} // verus!
