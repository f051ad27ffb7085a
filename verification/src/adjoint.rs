//! The chain rule, proved of the backward schedule in exact arithmetic.
//!
//! Rounded floating-point addition is not associative, so the path-sum
//! statement of the multivariable chain rule cannot even be stated
//! exactly over the bit-level semantics.  This module therefore mirrors
//! the backward pass over unbounded integers: the same graphs, the same
//! traversal order, the same rule schedule, with every local partial
//! derivative and every accumulation taken exactly.  The theorem: after
//! seeding the terminal with one and firing every visited node's rule
//! once in reverse traversal order, each visited node holds its adjoint —
//! the sum, over its consumers, of the local partial derivative times the
//! consumer's adjoint, which equals the sum over all paths to the
//! terminal of the products of local partials along the path.

use vstd::prelude::*;
use crate::engine::{dfs, graph_wf, node_wf, topo_order, Node, Op};
use crate::laws::{distinct, is_parent, lemma_dfs_props, pos_closed};

verus! {

/// Exact integer power with a non-negative exponent.
pub open spec fn ipow(x: int, n: int) -> int
    decreases n,
{
    if n <= 0 {
        1
    } else {
        x * ipow(x, n - 1)
    }
}

/// The exact local partial derivative of node `c` with respect to
/// position `x`, counting an operand used twice with multiplicity two.
/// `d` is the table of forward values.
pub open spec fn edge_coeff(s: Seq<Node>, d: Seq<int>, c: int, x: int) -> int {
    match s[c].op {
        Op::Leaf => 0,
        Op::Add(a, b) => (if a == x {
            1int
        } else {
            0int
        }) + (if b == x {
            1int
        } else {
            0int
        }),
        Op::Mul(a, b) => (if a == x {
            d[b as int]
        } else {
            0int
        }) + (if b == x {
            d[a as int]
        } else {
            0int
        }),
        Op::Pow(a, k) => if a == x && k != 0 {
            (k as int) * ipow(d[a as int], k as int - 1)
        } else {
            0int
        },
        Op::Relu(a) => if a == x && d[c] > 0 {
            1int
        } else {
            0int
        },
    }
}

/// One rule firing over exact arithmetic: each operand's accumulator
/// receives its local partial derivative times node `c`'s gradient.
pub open spec fn int_fire(s: Seq<Node>, d: Seq<int>, g: Seq<int>, c: int) -> Seq<int> {
    let gout = g[c];
    match s[c].op {
        Op::Leaf => g,
        Op::Add(a, b) => {
            let g1 = g.update(a as int, g[a as int] + gout);
            g1.update(b as int, g1[b as int] + gout)
        },
        Op::Mul(a, b) => {
            let g1 = g.update(a as int, g[a as int] + d[b as int] * gout);
            g1.update(b as int, g1[b as int] + d[a as int] * gout)
        },
        Op::Pow(a, k) => g.update(
            a as int,
            g[a as int] + ((k as int) * ipow(d[a as int], k as int - 1)) * gout,
        ),
        Op::Relu(a) => g.update(
            a as int,
            g[a as int] + (if d[c] > 0 {
                1int
            } else {
                0int
            }) * gout,
        ),
    }
}

/// The exact backward pass over the suffix `order[j..]`, fired last
/// position first: the mirror of the bit-level `fire_from`.
pub open spec fn int_fire_from(
    s: Seq<Node>,
    d: Seq<int>,
    g: Seq<int>,
    order: Seq<usize>,
    j: int,
) -> Seq<int>
    decreases order.len() - j,
{
    if j < 0 || j >= order.len() {
        g
    } else {
        int_fire(s, d, int_fire_from(s, d, g, order, j + 1), order[j] as int)
    }
}

/// The adjoint of the node at order position `p`: one at the terminal
/// (the last position), else the sum over every consumer of the local
/// partial derivative times the consumer's adjoint — the multivariable
/// chain rule, equivalently the sum over all paths to the terminal of the
/// products of local partials.
pub open spec fn adjp(s: Seq<Node>, d: Seq<int>, order: Seq<usize>, p: int) -> int
    decreases order.len() - p, order.len() + 1,
{
    if p < 0 || p >= order.len() {
        0
    } else if p == order.len() - 1 {
        1
    } else {
        csum(s, d, order, p, p + 1)
    }
}

/// The partial consumer sum for order position `p`, over consumers at
/// positions `q` and beyond.
pub open spec fn csum(s: Seq<Node>, d: Seq<int>, order: Seq<usize>, p: int, q: int) -> int
    decreases order.len() - p, order.len() - q,
{
    if p < 0 || q <= p || q >= order.len() {
        0
    } else {
        edge_coeff(s, d, order[q] as int, order[p] as int) * adjp(s, d, order, q) + csum(
            s,
            d,
            order,
            p,
            q + 1,
        )
    }
}

/// A position that is no operand has partial derivative zero.
proof fn lemma_coeff_nonparent(s: Seq<Node>, d: Seq<int>, c: int, x: int)
    requires
        0 <= c < s.len(),
        !is_parent(s[c].op, x),
    ensures
        edge_coeff(s, d, c, x) == 0,
{
}

/// One exact firing adds, into every position, exactly the local partial
/// derivative times the fired node's gradient.
proof fn lemma_int_fire_effect(s: Seq<Node>, d: Seq<int>, g: Seq<int>, c: int)
    requires
        graph_wf(s),
        0 <= c < s.len(),
        g.len() == s.len(),
    ensures
        int_fire(s, d, g, c).len() == g.len(),
        forall|x: int|
            0 <= x < g.len() ==> #[trigger] int_fire(s, d, g, c)[x] == g[x] + edge_coeff(
                s,
                d,
                c,
                x,
            ) * g[c],
{
    assert(node_wf(s[c].op, c));
    assert forall|x: int|
        0 <= x < g.len() implies #[trigger] int_fire(s, d, g, c)[x] == g[x] + edge_coeff(
        s,
        d,
        c,
        x,
    ) * g[c] by {
        let gc = g[c];
        match s[c].op {
            Op::Leaf => {
                assert(edge_coeff(s, d, c, x) * gc == 0) by (nonlinear_arith)
                    requires edge_coeff(s, d, c, x) == 0;
            },
            Op::Add(a, b) => {
                if a == x && b == x {
                    assert(int_fire(s, d, g, c)[x] == g[x] + gc + gc);
                    assert(2 * gc == gc + gc) by (nonlinear_arith);
                } else if a == x || b == x {
                    assert(int_fire(s, d, g, c)[x] == g[x] + gc);
                    assert(1 * gc == gc) by (nonlinear_arith);
                } else {
                    assert(int_fire(s, d, g, c)[x] == g[x]);
                    assert(0 * gc == 0) by (nonlinear_arith);
                }
            },
            Op::Mul(a, b) => {
                let da = d[a as int];
                let db = d[b as int];
                if a == x && b == x {
                    assert(int_fire(s, d, g, c)[x] == g[x] + db * gc + da * gc);
                    assert((db + da) * gc == db * gc + da * gc) by (nonlinear_arith);
                } else if a == x {
                    assert(int_fire(s, d, g, c)[x] == g[x] + db * gc);
                    assert((db + 0) * gc == db * gc) by (nonlinear_arith);
                } else if b == x {
                    assert(int_fire(s, d, g, c)[x] == g[x] + da * gc);
                    assert((0 + da) * gc == da * gc) by (nonlinear_arith);
                } else {
                    assert(int_fire(s, d, g, c)[x] == g[x]);
                    assert(0 * gc == 0) by (nonlinear_arith);
                }
            },
            Op::Pow(a, k) => {
                let w = ipow(d[a as int], k as int - 1);
                if a == x && k != 0 {
                    assert(int_fire(s, d, g, c)[x] == g[x] + ((k as int) * w) * gc);
                } else if a == x {
                    assert(int_fire(s, d, g, c)[x] == g[x] + ((k as int) * w) * gc);
                    assert(((k as int) * w) * gc == 0 && 0 * gc == 0) by (nonlinear_arith)
                        requires k as int == 0;
                } else {
                    assert(int_fire(s, d, g, c)[x] == g[x]);
                    assert(0 * gc == 0) by (nonlinear_arith);
                }
            },
            Op::Relu(a) => {
                if a != x {
                    assert(int_fire(s, d, g, c)[x] == g[x]);
                    assert(0 * gc == 0) by (nonlinear_arith);
                }
            },
        }
    }
}

/// The invariant of the exact backward pass: every already-fired position
/// holds its adjoint, every pending position holds its seed plus the
/// contributions of the consumers fired so far, and nothing outside the
/// order is touched.
proof fn lemma_int_fire_from_inv(
    s: Seq<Node>,
    d: Seq<int>,
    g0: Seq<int>,
    order: Seq<usize>,
    j: int,
)
    requires
        graph_wf(s),
        d.len() == s.len(),
        g0.len() == s.len(),
        order.len() >= 1,
        forall|q: int| 0 <= q < order.len() ==> #[trigger] order[q] < s.len(),
        pos_closed(s, order),
        distinct(order),
        forall|q: int| 0 <= q < order.len() ==> g0[#[trigger] order[q] as int] == 0,
        0 <= j <= order.len(),
    ensures
        int_fire_from(s, d, g0.update(order.last() as int, 1), order, j).len() == s.len(),
        forall|p: int|
            j <= p < order.len() ==> int_fire_from(s, d, g0.update(order.last() as int, 1), order, j)[
                #[trigger] order[p] as int] == adjp(s, d, order, p),
        forall|p: int|
            0 <= p < j ==> int_fire_from(s, d, g0.update(order.last() as int, 1), order, j)[
                #[trigger] order[p] as int] == (if p == order.len() - 1 {
                1int
            } else {
                0int
            }) + csum(s, d, order, p, j),
        forall|x: int|
            0 <= x < s.len() && !order.contains(x as usize) ==> #[trigger] int_fire_from(
                s,
                d,
                g0.update(order.last() as int, 1),
                order,
                j,
            )[x] == g0[x],
    decreases order.len() - j,
{
    let t = order.last() as int;
    let seed = g0.update(t, 1);
    if j == order.len() {
        assert forall|p: int|
            0 <= p < j implies seed[#[trigger] order[p] as int] == (if p == order.len() - 1 {
            1int
        } else {
            0int
        }) + csum(s, d, order, p, j) by {
            if p < order.len() - 1 {
                assert(order[p] != order[order.len() - 1]);
            }
        }
        assert forall|x: int|
            0 <= x < s.len() && !order.contains(x as usize) implies #[trigger] int_fire_from(
            s,
            d,
            seed,
            order,
            j,
        )[x] == g0[x] by {
            assert(order[order.len() - 1] == order.last());
            assert(x != t) by {
                if x == t {
                    assert(order.contains(x as usize));
                }
            }
        }
    } else {
        lemma_int_fire_from_inv(s, d, g0, order, j + 1);
        let gj1 = int_fire_from(s, d, seed, order, j + 1);
        let c = order[j] as int;
        // the fired node's gradient is already complete: it equals its
        // adjoint, definitionally
        assert(gj1[c] == (if j == order.len() - 1 {
            1int
        } else {
            0int
        }) + csum(s, d, order, j, j + 1));
        assert(gj1[c] == adjp(s, d, order, j));
        lemma_int_fire_effect(s, d, gj1, c);
        let gj = int_fire(s, d, gj1, c);
        assert(int_fire_from(s, d, seed, order, j) == gj);
        // fired positions keep their adjoints: the fired node's operands
        // all sit at earlier positions
        assert forall|p: int|
            j <= p < order.len() implies gj[#[trigger] order[p] as int] == adjp(
            s,
            d,
            order,
            p,
        ) by {
            if p == j {
                assert(node_wf(s[c].op, c));
                assert(!is_parent(s[c].op, c));
                lemma_coeff_nonparent(s, d, c, c);
            } else {
                assert(gj1[order[p] as int] == adjp(s, d, order, p));
                assert(!is_parent(s[c].op, order[p] as int)) by {
                    if is_parent(s[c].op, order[p] as int) {
                        let q = choose|q: int|
                            0 <= q < j && order[q] == order[p] as int as usize;
                        assert(order[q] == order[p]);
                    }
                }
                lemma_coeff_nonparent(s, d, c, order[p] as int);
            }
        }
        // pending positions advance their partial consumer sums by one
        // term, definitionally
        assert forall|p: int|
            0 <= p < j implies gj[#[trigger] order[p] as int] == (if p == order.len() - 1 {
            1int
        } else {
            0int
        }) + csum(s, d, order, p, j) by {
            assert(gj1[order[p] as int] == (if p == order.len() - 1 {
                1int
            } else {
                0int
            }) + csum(s, d, order, p, j + 1));
            assert(gj[order[p] as int] == gj1[order[p] as int] + edge_coeff(
                s,
                d,
                c,
                order[p] as int,
            ) * adjp(s, d, order, j));
            assert(csum(s, d, order, p, j) == edge_coeff(s, d, order[j] as int, order[p] as int)
                * adjp(s, d, order, j) + csum(s, d, order, p, j + 1));
        }
        // outside the order nothing moves: the fired node's operands are
        // members
        assert forall|x: int|
            0 <= x < s.len() && !order.contains(x as usize) implies #[trigger] gj[x]
            == g0[x] by {
            assert(gj1[x] == g0[x]);
            assert(!is_parent(s[c].op, x)) by {
                if is_parent(s[c].op, x) {
                    let q = choose|q: int| 0 <= q < j && order[q] == x as usize;
                    assert(order.contains(x as usize));
                }
            }
            lemma_coeff_nonparent(s, d, c, x);
        }
    }
}

/// The chain rule for the backward pass, in exact arithmetic: run over
/// the traversal order that `backward` itself builds from the terminal,
/// with the terminal seeded to one and every visited gradient starting at
/// zero, the pass leaves in every visited node its adjoint (the sum over
/// its consumers of the local partial derivative times the consumer's
/// adjoint, which is the path-sum of the multivariable chain rule), and
/// leaves every unvisited gradient untouched.  Negative power exponents
/// are excluded among the visited nodes: their exact local partials are
/// not integers.
pub proof fn lemma_backward_chain_rule(s: Seq<Node>, d: Seq<int>, g0: Seq<int>, t: int)
    requires
        graph_wf(s),
        s.len() <= usize::MAX,
        0 <= t < s.len(),
        d.len() == s.len(),
        g0.len() == s.len(),
        forall|q: int|
            0 <= q < topo_order(s, t).len() ==> g0[#[trigger] topo_order(s, t)[q] as int] == 0,
        forall|q: int|
            0 <= q < topo_order(s, t).len() ==> (s[#[trigger] topo_order(s, t)[q] as int].op
                matches Op::Pow(_, k) ==> k >= 0),
    ensures
        topo_order(s, t).len() >= 1,
        topo_order(s, t).last() == t as usize,
        forall|p: int|
            0 <= p < topo_order(s, t).len() ==> int_fire_from(
                s,
                d,
                g0.update(t, 1),
                topo_order(s, t),
                0,
            )[#[trigger] topo_order(s, t)[p] as int] == adjp(s, d, topo_order(s, t), p),
        forall|x: int|
            0 <= x < s.len() && !topo_order(s, t).contains(x as usize)
                ==> #[trigger] int_fire_from(s, d, g0.update(t, 1), topo_order(s, t), 0)[x]
                == g0[x],
{
    let vis0 = Seq::new(s.len(), |i: int| false);
    lemma_dfs_props(s, t, vis0, Seq::empty());
    let order = topo_order(s, t);
    assert(order.last() == t as usize);
    assert(order.last() as int == t);
    lemma_int_fire_from_inv(s, d, g0, order, 0);
}

/// The diamond law: when one node feeds two distinct consumers that both
/// feed a common terminal, its final gradient is the sum of both paths'
/// contributions — each path's local partial derivative times the path's
/// downstream adjoint — accumulated, never overwritten.  Stated over the
/// exact mirror of the backward pass on the four-node diamond with every
/// gradient starting at zero.
pub proof fn lemma_diamond_accumulates(s: Seq<Node>, d: Seq<int>, g0: Seq<int>)
    requires
        graph_wf(s),
        s.len() == 4,
        d.len() == 4,
        g0.len() == 4,
        forall|q: int| 0 <= q < 4 ==> #[trigger] g0[q] == 0,
        is_parent(s[1].op, 0),
        is_parent(s[2].op, 0),
        !is_parent(s[2].op, 1),
        s[3].op == Op::Add(1usize, 2usize),
        s[1].op matches Op::Pow(_, k) ==> k >= 0,
        s[2].op matches Op::Pow(_, k) ==> k >= 0,
    ensures
        topo_order(s, 3) == seq![0usize, 1usize, 2usize, 3usize],
        int_fire_from(s, d, g0.update(3, 1), topo_order(s, 3), 0)[0] == edge_coeff(s, d, 1, 0)
            + edge_coeff(s, d, 2, 0),
{
    let vis0 = Seq::new(4, |i: int| false);
    let order = seq![0usize, 1usize, 2usize, 3usize];
    // node 0 can only be a leaf: any operand would need an index below 0
    assert(node_wf(s[0].op, 0));
    assert(s[0].op is Leaf) by {
        match s[0].op {
            Op::Leaf => {},
            Op::Add(a, _) => {
                assert((a as int) < 0);
            },
            Op::Mul(a, _) => {
                assert((a as int) < 0);
            },
            Op::Pow(a, _) => {
                assert((a as int) < 0);
            },
            Op::Relu(a) => {
                assert((a as int) < 0);
            },
        }
    }
    // the traversal from the terminal visits 0, then 1, then 2, then 3
    assert(node_wf(s[1].op, 1));
    assert(node_wf(s[2].op, 2));
    let vis1 = vis0.update(3, true);
    assert(Seq::<usize>::empty().push(0usize) =~= seq![0usize]);
    assert(seq![0usize].push(1usize) =~= seq![0usize, 1usize]);
    assert(seq![0usize, 1usize].push(2usize) =~= seq![0usize, 1usize, 2usize]);
    assert(dfs(s, 0, vis1.update(1, true), Seq::empty()) == (
        vis1.update(1, true).update(0, true),
        seq![0usize],
    ));
    let visa = vis1.update(1, true).update(0, true);
    assert(dfs(s, 1, vis1, Seq::empty()) == (visa, seq![0usize, 1usize])) by {
        match s[1].op {
            Op::Leaf => {
                assert(!is_parent(s[1].op, 0));
            },
            Op::Add(a, b) => {
                assert(a == 0 && b == 0);
                assert(dfs(s, 0, visa, seq![0usize]) == (visa, seq![0usize]));
            },
            Op::Mul(a, b) => {
                assert(a == 0 && b == 0);
                assert(dfs(s, 0, visa, seq![0usize]) == (visa, seq![0usize]));
            },
            Op::Pow(a, _) => {
                assert(a == 0);
            },
            Op::Relu(a) => {
                assert(a == 0);
            },
        }
    }
    let visb = visa.update(2, true);
    assert(dfs(s, 2, visa, seq![0usize, 1usize]) == (visb, seq![0usize, 1usize, 2usize])) by {
        assert(visa[0]);
        assert(visb[0]);
        assert(dfs(s, 0, visb, seq![0usize, 1usize]) == (visb, seq![0usize, 1usize]));
        match s[2].op {
            Op::Leaf => {
                assert(!is_parent(s[2].op, 0));
            },
            Op::Add(a, b) => {
                assert((a == 0 || a == 1) && (b == 0 || b == 1));
                assert(a == 0 && b == 0);
                assert(dfs(s, 0, visb, seq![0usize, 1usize]) == (visb, seq![0usize, 1usize]));
            },
            Op::Mul(a, b) => {
                assert(a == 0 && b == 0);
                assert(dfs(s, 0, visb, seq![0usize, 1usize]) == (visb, seq![0usize, 1usize]));
            },
            Op::Pow(a, _) => {
                assert(a == 0);
            },
            Op::Relu(a) => {
                assert(a == 0);
            },
        }
    }
    assert(dfs(s, 3, vis0, Seq::empty()) == (visb.update(3, true), order)) by {
        assert(dfs(s, 1, vis1, Seq::empty()) == (visa, seq![0usize, 1usize]));
        assert(dfs(s, 2, visa, seq![0usize, 1usize]) == (visb, seq![0usize, 1usize, 2usize]));
        assert(seq![0usize, 1usize, 2usize].push(3usize) =~= order);
    }
    assert(topo_order(s, 3) == order) by {
        assert(Seq::new(s.len(), |i: int| false) =~= vis0);
    }
    // the adjoints along the two paths
    assert(order.last() == 3usize);
    assert(adjp(s, d, order, 3) == 1);
    assert(edge_coeff(s, d, 3, 2) == 1 && edge_coeff(s, d, 3, 1) == 1 && edge_coeff(s, d, 3, 0)
        == 0);
    assert(csum(s, d, order, 2, 3) == 1 * adjp(s, d, order, 3) + csum(s, d, order, 2, 4));
    assert(adjp(s, d, order, 2) == 1);
    lemma_coeff_nonparent(s, d, 2, 1);
    assert(csum(s, d, order, 1, 3) == 1 * adjp(s, d, order, 3) + csum(s, d, order, 1, 4));
    assert(csum(s, d, order, 1, 2) == 0 * adjp(s, d, order, 2) + csum(s, d, order, 1, 3));
    assert(adjp(s, d, order, 1) == 1);
    let c1 = edge_coeff(s, d, 1, 0);
    let c2 = edge_coeff(s, d, 2, 0);
    assert(csum(s, d, order, 0, 3) == 0 * adjp(s, d, order, 3) + csum(s, d, order, 0, 4));
    assert(csum(s, d, order, 0, 2) == c2 * adjp(s, d, order, 2) + csum(s, d, order, 0, 3));
    assert(csum(s, d, order, 0, 1) == c1 * adjp(s, d, order, 1) + csum(s, d, order, 0, 2));
    assert(c1 * 1 == c1 && c2 * 1 == c2) by (nonlinear_arith);
    assert(adjp(s, d, order, 0) == c1 + c2);
    // and the exact backward pass computes exactly that
    lemma_backward_chain_rule(s, d, g0, 3);
    assert(order[0] == 0usize);
    assert(topo_order(s, 3)[0] == 0usize);
    assert(int_fire_from(s, d, g0.update(3, 1), topo_order(s, 3), 0)[topo_order(s, 3)[
        0] as int] == adjp(s, d, topo_order(s, 3), 0));
    assert(int_fire_from(s, d, g0.update(3, 1), order, 0)[order[0] as int] == adjp(
        s,
        d,
        order,
        0,
    ));
}

} // verus!
