//! The autograd engine: an arena of scalar nodes, eager graph
//! construction, depth-first topological ordering, and the backward
//! gradient-propagation pass.
//!
//! A node is addressed by a stable handle into the arena; every operation
//! records only handles of already-existing nodes, so the parent relation
//! is a DAG by construction (each parent index is strictly below its
//! child's).  Gradients accumulate in place through the shared arena slot,
//! never by overwrite, except for an explicit reset and the seeding of a
//! backward pass's terminal.

use vstd::prelude::*;
use crate::bits::{
    add_bits, add_of, div_bits, div_of, gt_zero, ge_zero, int_bits, is_ge_zero, is_gt_zero,
    mul_bits, mul_of, of_int, NEG_ONE_BITS, ONE_BITS, ZERO_BITS,
};

verus! {

/// The operation that produced a node, carrying the operand handles and,
/// for `Pow`, the constant exponent (which is not differentiable).
#[derive(Clone, Copy, Debug)]
pub enum Op {
    /// A caller-supplied constant with no parents.
    Leaf,
    /// Sum of two existing nodes.
    Add(usize, usize),
    /// Product of two existing nodes.
    Mul(usize, usize),
    /// An existing node raised to a constant integer exponent.
    Pow(usize, i32),
    /// Rectified linear unit of an existing node.
    Relu(usize),
}

/// One vertex of the computation graph: forward value, gradient
/// accumulator, and construction provenance.  Both scalars are
/// single-precision bit patterns.
#[derive(Clone, Copy, Debug)]
pub struct Node {
    pub data: u32,
    pub grad: u32,
    pub op: Op,
}

/// The arena holding every node of a computation graph.
#[derive(Debug)]
pub struct Graph {
    nodes: Vec<Node>,
}

/// A handle to one node of a [`Graph`].
#[derive(Clone, Copy, Debug)]
pub struct Value {
    pub idx: usize,
}

impl View for Graph {
    type V = Seq<Node>;

    closed spec fn view(&self) -> Seq<Node> {
        self.nodes@
    }
}

/// Every operand handle of a node's operation lies strictly below the
/// node's own position: the parent relation cannot form a cycle.
pub open spec fn node_wf(op: Op, i: int) -> bool {
    match op {
        Op::Leaf => true,
        Op::Add(a, b) => a < i && b < i,
        Op::Mul(a, b) => a < i && b < i,
        Op::Pow(a, _) => a < i,
        Op::Relu(a) => a < i,
    }
}

pub open spec fn graph_wf(s: Seq<Node>) -> bool {
    forall|i: int| 0 <= i < s.len() ==> node_wf(#[trigger] s[i].op, i)
}

impl Value {
    /// The arena position this handle addresses.
    pub open spec fn id(self) -> int {
        self.idx as int
    }
}

/// Repeated rounded multiplication: the engine's forward value for a
/// non-negative integer power.
pub open spec fn pow_pos(x: u32, n: nat) -> u32
    decreases n,
{
    if n == 0 {
        ONE_BITS
    } else {
        mul_of(pow_pos(x, (n - 1) as nat), x)
    }
}

/// The engine's forward value for an integer power: repeated rounded
/// multiplication, and for a negative exponent the rounded reciprocal of
/// the positive power.
pub open spec fn pow_of(x: u32, k: int) -> u32 {
    if k >= 0 {
        pow_pos(x, k as nat)
    } else {
        div_of(ONE_BITS, pow_pos(x, (-k) as nat))
    }
}

/// The node sequence with node `i`'s gradient replaced.
pub open spec fn with_grad(s: Seq<Node>, i: int, grad: u32) -> Seq<Node> {
    s.update(i, Node { grad, ..s[i] })
}

/// The node sequence after adding `amount` into node `i`'s gradient
/// accumulator.
pub open spec fn accum(s: Seq<Node>, i: int, amount: u32) -> Seq<Node> {
    with_grad(s, i, add_of(s[i].grad, amount))
}

/// The local gradient rule of node `i`, applied once: each parent's
/// accumulator receives the parent's partial derivative scaled by node
/// `i`'s current gradient.  The two contributions of a binary rule land in
/// order, so an operand used twice is accumulated twice.
pub open spec fn fire(s: Seq<Node>, i: int) -> Seq<Node> {
    let gout = s[i].grad;
    match s[i].op {
        Op::Leaf => s,
        Op::Add(a, b) => accum(accum(s, a as int, gout), b as int, gout),
        Op::Mul(a, b) => accum(
            accum(s, a as int, mul_of(s[b as int].data, gout)),
            b as int,
            mul_of(s[a as int].data, gout),
        ),
        Op::Pow(a, k) => accum(
            s,
            a as int,
            mul_of(mul_of(of_int(k as int), pow_of(s[a as int].data, k as int - 1)), gout),
        ),
        Op::Relu(a) => accum(
            s,
            a as int,
            mul_of(if is_gt_zero(s[i].data) { ONE_BITS } else { ZERO_BITS }, gout),
        ),
    }
}

/// The node sequence after firing the rules of `order[j..]`, last
/// position first: exactly the backward pass run over the suffix of a
/// traversal order.
pub open spec fn fire_from(s: Seq<Node>, order: Seq<usize>, j: int) -> Seq<Node>
    decreases order.len() - j,
{
    if j < 0 || j >= order.len() {
        s
    } else {
        fire(fire_from(s, order, j + 1), order[j] as int)
    }
}

/// Depth-first traversal from `v`: parents are visited (in operand order)
/// before `v` itself is appended, and already-visited nodes are skipped,
/// so each node enters the order once, after all of its parents.
pub open spec fn dfs(s: Seq<Node>, v: int, vis: Seq<bool>, topo: Seq<usize>) -> (Seq<
    bool,
>, Seq<usize>)
    decreases v,
{
    if !(0 <= v < s.len() && node_wf(s[v].op, v)) {
        (vis, topo)
    } else if vis[v] {
        (vis, topo)
    } else {
        let vis1 = vis.update(v, true);
        let st = match s[v].op {
            Op::Leaf => (vis1, topo),
            Op::Add(a, b) => {
                let sta = dfs(s, a as int, vis1, topo);
                dfs(s, b as int, sta.0, sta.1)
            },
            Op::Mul(a, b) => {
                let sta = dfs(s, a as int, vis1, topo);
                dfs(s, b as int, sta.0, sta.1)
            },
            Op::Pow(a, _) => dfs(s, a as int, vis1, topo),
            Op::Relu(a) => dfs(s, a as int, vis1, topo),
        };
        (st.0, st.1.push(v as usize))
    }
}

/// The traversal order of the whole backward pass: depth-first from the
/// terminal over a fresh visited set.
pub open spec fn topo_order(s: Seq<Node>, t: int) -> Seq<usize> {
    dfs(s, t, Seq::new(s.len(), |i: int| false), Seq::empty()).1
}

/// The complete specification of `backward` on terminal `t`: seed the
/// terminal's gradient to one, then fire every visited node's rule once,
/// in reverse traversal order.
pub open spec fn backward_spec(s: Seq<Node>, t: int) -> Seq<Node> {
    fire_from(with_grad(s, t, ONE_BITS), topo_order(s, t), 0)
}

impl Graph {
    pub open spec fn wf(&self) -> bool {
        graph_wf(self@)
    }

    /// An empty arena.
    pub fn new() -> (g: Graph)
        ensures
            g.wf(),
            g@ == Seq::<Node>::empty(),
    {
        Graph { nodes: Vec::new() }
    }

    /// The number of nodes constructed so far.
    pub fn len(&self) -> (n: usize)
        ensures
            n == self@.len(),
    {
        self.nodes.len()
    }

    fn append(&mut self, data: u32, op: Op) -> (v: Value)
        requires
            old(self).wf(),
            node_wf(op, old(self)@.len() as int),
        ensures
            final(self).wf(),
            final(self)@ == old(self)@.push(Node { data, grad: ZERO_BITS, op }),
            v.id() == old(self)@.len(),
    {
        let v = Value { idx: self.nodes.len() };
        self.nodes.push(Node { data, grad: ZERO_BITS, op });
        assert forall|i: int| 0 <= i < self@.len() implies node_wf(#[trigger] self@[i].op, i) by {
            if i < self@.len() - 1 {
                assert(self@[i] == old(self)@[i]);
            }
        }
        v
    }
}

impl Value {
    /// Constructs a leaf wrapping a caller-supplied scalar: gradient zero,
    /// no parents.
    pub fn new(g: &mut Graph, data: u32) -> (v: Value)
        requires
            old(g).wf(),
        ensures
            final(g).wf(),
            final(g)@ == old(g)@.push(Node { data, grad: ZERO_BITS, op: Op::Leaf }),
            v.id() == old(g)@.len(),
    {
        g.append(data, Op::Leaf)
    }

    /// The node's forward value.
    pub fn get_data(self, g: &Graph) -> (d: u32)
        requires
            self.id() < g@.len(),
        ensures
            d == g@[self.id()].data,
    {
        g.nodes[self.idx].data
    }

    /// The node's accumulated gradient.
    pub fn get_grad(self, g: &Graph) -> (d: u32)
        requires
            self.id() < g@.len(),
        ensures
            d == g@[self.id()].grad,
    {
        g.nodes[self.idx].grad
    }

    /// Overwrites the node's gradient accumulator (an explicit reset).
    pub fn set_grad(self, g: &mut Graph, grad: u32)
        requires
            old(g).wf(),
            self.id() < old(g)@.len(),
        ensures
            final(g).wf(),
            final(g)@ == with_grad(old(g)@, self.id(), grad),
    {
        let node = g.nodes[self.idx];
        g.nodes[self.idx] = Node { grad, ..node };
        assert forall|i: int| 0 <= i < g@.len() implies node_wf(#[trigger] g@[i].op, i) by {
            assert(g@[i].op == old(g)@[i].op);
        }
    }

    /// Sum node: forward value is the rounded sum of the operands.
    pub fn add(self, g: &mut Graph, rhs: Value) -> (v: Value)
        requires
            old(g).wf(),
            self.id() < old(g)@.len(),
            rhs.id() < old(g)@.len(),
        ensures
            final(g).wf(),
            final(g)@ == old(g)@.push(
                Node {
                    data: add_of(old(g)@[self.id()].data, old(g)@[rhs.id()].data),
                    grad: ZERO_BITS,
                    op: Op::Add(self.idx, rhs.idx),
                },
            ),
            v.id() == old(g)@.len(),
    {
        let data = add_bits(self.get_data(g), rhs.get_data(g));
        g.append(data, Op::Add(self.idx, rhs.idx))
    }

    /// Product node: forward value is the rounded product of the operands.
    pub fn mul(self, g: &mut Graph, rhs: Value) -> (v: Value)
        requires
            old(g).wf(),
            self.id() < old(g)@.len(),
            rhs.id() < old(g)@.len(),
        ensures
            final(g).wf(),
            final(g)@ == old(g)@.push(
                Node {
                    data: mul_of(old(g)@[self.id()].data, old(g)@[rhs.id()].data),
                    grad: ZERO_BITS,
                    op: Op::Mul(self.idx, rhs.idx),
                },
            ),
            v.id() == old(g)@.len(),
    {
        let data = mul_bits(self.get_data(g), rhs.get_data(g));
        g.append(data, Op::Mul(self.idx, rhs.idx))
    }

    /// Power node with a constant integer exponent: forward value is the
    /// repeated rounded product (reciprocal for a negative exponent).
    pub fn pow(self, g: &mut Graph, k: i32) -> (v: Value)
        requires
            old(g).wf(),
            self.id() < old(g)@.len(),
        ensures
            final(g).wf(),
            final(g)@ == old(g)@.push(
                Node {
                    data: pow_of(old(g)@[self.id()].data, k as int),
                    grad: ZERO_BITS,
                    op: Op::Pow(self.idx, k),
                },
            ),
            v.id() == old(g)@.len(),
    {
        let data = pow_forward(self.get_data(g), k as i64);
        g.append(data, Op::Pow(self.idx, k))
    }

    /// Rectified linear unit: the operand's value if it is at least zero,
    /// else zero.
    pub fn relu(self, g: &mut Graph) -> (v: Value)
        requires
            old(g).wf(),
            self.id() < old(g)@.len(),
        ensures
            final(g).wf(),
            final(g)@ == old(g)@.push(
                Node {
                    data: if is_ge_zero(old(g)@[self.id()].data) {
                        old(g)@[self.id()].data
                    } else {
                        ZERO_BITS
                    },
                    grad: ZERO_BITS,
                    op: Op::Relu(self.idx),
                },
            ),
            v.id() == old(g)@.len(),
    {
        let d = self.get_data(g);
        let data = if ge_zero(d) {
            d
        } else {
            ZERO_BITS
        };
        g.append(data, Op::Relu(self.idx))
    }
}

impl Value {
    /// Negation, as sugar: the product with a fresh `-1` leaf.
    pub fn neg(self, g: &mut Graph) -> (v: Value)
        requires
            old(g).wf(),
            self.id() < old(g)@.len(),
        ensures
            final(g).wf(),
            final(g)@ == old(g)@.push(
                Node { data: NEG_ONE_BITS, grad: ZERO_BITS, op: Op::Leaf },
            ).push(
                Node {
                    data: mul_of(old(g)@[self.id()].data, NEG_ONE_BITS),
                    grad: ZERO_BITS,
                    op: Op::Mul(self.idx, old(g)@.len() as usize),
                },
            ),
            v.id() == old(g)@.len() + 1,
    {
        let m = Value::new(g, NEG_ONE_BITS);
        self.mul(g, m)
    }

    /// Subtraction, as sugar: the sum with the negated right operand.
    pub fn sub(self, g: &mut Graph, rhs: Value) -> (v: Value)
        requires
            old(g).wf(),
            self.id() < old(g)@.len(),
            rhs.id() < old(g)@.len(),
        ensures
            final(g).wf(),
            final(g)@.len() == old(g)@.len() + 3,
            final(g)@.subrange(0, old(g)@.len() as int) == old(g)@,
            final(g)@[old(g)@.len() as int] == (Node {
                data: NEG_ONE_BITS,
                grad: ZERO_BITS,
                op: Op::Leaf,
            }),
            final(g)@[old(g)@.len() as int + 1] == (Node {
                data: mul_of(old(g)@[rhs.id()].data, NEG_ONE_BITS),
                grad: ZERO_BITS,
                op: Op::Mul(rhs.idx, old(g)@.len() as usize),
            }),
            final(g)@[old(g)@.len() as int + 2] == (Node {
                data: add_of(
                    old(g)@[self.id()].data,
                    mul_of(old(g)@[rhs.id()].data, NEG_ONE_BITS),
                ),
                grad: ZERO_BITS,
                op: Op::Add(self.idx, (old(g)@.len() + 1) as usize),
            }),
            v.id() == old(g)@.len() + 2,
    {
        let n = rhs.neg(g);
        let v = self.add(g, n);
        proof {
            assert(final(g)@.subrange(0, old(g)@.len() as int) =~= old(g)@);
        }
        v
    }

    /// Division, as sugar: the product with the right operand raised to
    /// the power minus one.
    pub fn div(self, g: &mut Graph, rhs: Value) -> (v: Value)
        requires
            old(g).wf(),
            self.id() < old(g)@.len(),
            rhs.id() < old(g)@.len(),
        ensures
            final(g).wf(),
            final(g)@ == old(g)@.push(
                Node {
                    data: pow_of(old(g)@[rhs.id()].data, -1),
                    grad: ZERO_BITS,
                    op: Op::Pow(rhs.idx, -1i32),
                },
            ).push(
                Node {
                    data: mul_of(old(g)@[self.id()].data, pow_of(old(g)@[rhs.id()].data, -1)),
                    grad: ZERO_BITS,
                    op: Op::Mul(self.idx, old(g)@.len() as usize),
                },
            ),
            v.id() == old(g)@.len() + 1,
    {
        let p = rhs.pow(g, -1);
        self.mul(g, p)
    }

    /// Sum with a plain scalar, as sugar: the scalar is wrapped as a fresh
    /// leaf and the node-node sum applied.
    pub fn add_scalar(self, g: &mut Graph, k: u32) -> (v: Value)
        requires
            old(g).wf(),
            self.id() < old(g)@.len(),
        ensures
            final(g).wf(),
            final(g)@ == old(g)@.push(Node { data: k, grad: ZERO_BITS, op: Op::Leaf }).push(
                Node {
                    data: add_of(old(g)@[self.id()].data, k),
                    grad: ZERO_BITS,
                    op: Op::Add(self.idx, old(g)@.len() as usize),
                },
            ),
            v.id() == old(g)@.len() + 1,
    {
        let w = Value::new(g, k);
        self.add(g, w)
    }

    /// Product with a plain scalar, as sugar: the scalar is wrapped as a
    /// fresh leaf and the node-node product applied.
    pub fn mul_scalar(self, g: &mut Graph, k: u32) -> (v: Value)
        requires
            old(g).wf(),
            self.id() < old(g)@.len(),
        ensures
            final(g).wf(),
            final(g)@ == old(g)@.push(Node { data: k, grad: ZERO_BITS, op: Op::Leaf }).push(
                Node {
                    data: mul_of(old(g)@[self.id()].data, k),
                    grad: ZERO_BITS,
                    op: Op::Mul(self.idx, old(g)@.len() as usize),
                },
            ),
            v.id() == old(g)@.len() + 1,
    {
        let w = Value::new(g, k);
        self.mul(g, w)
    }

    /// Division by a plain scalar, as sugar: the reciprocal is computed
    /// once at construction, wrapped as a fresh leaf, and multiplied.
    pub fn div_scalar(self, g: &mut Graph, k: u32) -> (v: Value)
        requires
            old(g).wf(),
            self.id() < old(g)@.len(),
        ensures
            final(g).wf(),
            final(g)@ == old(g)@.push(
                Node { data: div_of(ONE_BITS, k), grad: ZERO_BITS, op: Op::Leaf },
            ).push(
                Node {
                    data: mul_of(old(g)@[self.id()].data, div_of(ONE_BITS, k)),
                    grad: ZERO_BITS,
                    op: Op::Mul(self.idx, old(g)@.len() as usize),
                },
            ),
            v.id() == old(g)@.len() + 1,
    {
        let r = div_bits(ONE_BITS, k);
        let w = Value::new(g, r);
        self.mul(g, w)
    }

    /// A plain scalar divided by this node, as sugar: this node raised to
    /// the power minus one, multiplied with the scalar wrapped as a leaf.
    pub fn rdiv_scalar(self, g: &mut Graph, k: u32) -> (v: Value)
        requires
            old(g).wf(),
            self.id() < old(g)@.len(),
        ensures
            final(g).wf(),
            final(g)@ == old(g)@.push(
                Node {
                    data: pow_of(old(g)@[self.id()].data, -1),
                    grad: ZERO_BITS,
                    op: Op::Pow(self.idx, -1i32),
                },
            ).push(Node { data: k, grad: ZERO_BITS, op: Op::Leaf }).push(
                Node {
                    data: mul_of(pow_of(old(g)@[self.id()].data, -1), k),
                    grad: ZERO_BITS,
                    op: Op::Mul(old(g)@.len() as usize, (old(g)@.len() + 1) as usize),
                },
            ),
            v.id() == old(g)@.len() + 2,
    {
        let p = self.pow(g, -1);
        let w = Value::new(g, k);
        p.mul(g, w)
    }
}

/// Computes `pow_of(x, k)` by repeated rounded multiplication.
fn pow_forward(x: u32, k: i64) -> (r: u32)
    ensures
        r == pow_of(x, k as int),
{
    let n: u64 = if k < 0 {
        (-(k as i128)) as u64
    } else {
        k as u64
    };
    let mut acc: u32 = ONE_BITS;
    let mut i: u64 = 0;
    while i < n
        invariant
            i <= n,
            acc == pow_pos(x, i as nat),
        decreases n - i,
    {
        acc = mul_bits(acc, x);
        i = i + 1;
    }
    if k < 0 {
        div_bits(ONE_BITS, acc)
    } else {
        acc
    }
}

/// Depth-first traversal, the executable mirror of [`dfs`]: marks `v`,
/// recurses into its parents in operand order, then appends `v`.
fn dfs_exec(g: &Graph, v: usize, vis: &mut Vec<bool>, topo: &mut Vec<usize>)
    requires
        g.wf(),
        v < g@.len(),
        old(vis)@.len() == g@.len(),
        forall|q: int| 0 <= q < old(topo)@.len() ==> #[trigger] old(topo)@[q] < g@.len(),
    ensures
        final(vis)@ == dfs(g@, v as int, old(vis)@, old(topo)@).0,
        final(topo)@ == dfs(g@, v as int, old(vis)@, old(topo)@).1,
        final(vis)@.len() == g@.len(),
        forall|q: int| 0 <= q < final(topo)@.len() ==> #[trigger] final(topo)@[q] < g@.len(),
    decreases v,
{
    assert(node_wf(g@[v as int].op, v as int));
    if vis[v] {
        return ;
    }
    vis[v] = true;
    let op = g.nodes[v].op;
    match op {
        Op::Leaf => {},
        Op::Add(a, b) => {
            dfs_exec(g, a, vis, topo);
            dfs_exec(g, b, vis, topo);
        },
        Op::Mul(a, b) => {
            dfs_exec(g, a, vis, topo);
            dfs_exec(g, b, vis, topo);
        },
        Op::Pow(a, _) => {
            dfs_exec(g, a, vis, topo);
        },
        Op::Relu(a) => {
            dfs_exec(g, a, vis, topo);
        },
    }
    topo.push(v);
}

/// Adds `amount` into node `i`'s gradient accumulator.
fn accum_exec(g: &mut Graph, i: usize, amount: u32)
    requires
        i < old(g)@.len(),
    ensures
        final(g)@ == accum(old(g)@, i as int, amount),
        final(g)@.len() == old(g)@.len(),
{
    let node = g.nodes[i];
    g.nodes[i] = Node { grad: add_bits(node.grad, amount), ..node };
}

/// Executes node `i`'s local gradient rule once, the executable mirror of
/// [`fire`].
fn fire_exec(g: &mut Graph, i: usize)
    requires
        old(g).wf(),
        i < old(g)@.len(),
    ensures
        final(g)@ == fire(old(g)@, i as int),
        final(g)@.len() == old(g)@.len(),
        forall|j: int|
            0 <= j < old(g)@.len() ==> #[trigger] final(g)@[j].op == old(g)@[j].op
                && final(g)@[j].data == old(g)@[j].data,
        final(g).wf(),
{
    assert(node_wf(g@[i as int].op, i as int));
    let node = g.nodes[i];
    let gout = node.grad;
    match node.op {
        Op::Leaf => {},
        Op::Add(a, b) => {
            accum_exec(g, a, gout);
            accum_exec(g, b, gout);
        },
        Op::Mul(a, b) => {
            let da = g.nodes[a].data;
            let db = g.nodes[b].data;
            accum_exec(g, a, mul_bits(db, gout));
            accum_exec(g, b, mul_bits(da, gout));
        },
        Op::Pow(a, k) => {
            let xa = g.nodes[a].data;
            let coeff = mul_bits(int_bits(k as i64), pow_forward(xa, k as i64 - 1));
            accum_exec(g, a, mul_bits(coeff, gout));
        },
        Op::Relu(a) => {
            let c = if gt_zero(node.data) {
                ONE_BITS
            } else {
                ZERO_BITS
            };
            accum_exec(g, a, mul_bits(c, gout));
        },
    }
    proof {
        assert forall|j: int| 0 <= j < g@.len() implies node_wf(#[trigger] g@[j].op, j) by {
            assert(g@[j].op == old(g)@[j].op);
        }
    }
}

impl Value {
    /// The backward pass: seeds this terminal's gradient to one, builds
    /// the depth-first traversal order from it, and fires every visited
    /// node's rule exactly once, in reverse order, so that each node's
    /// gradient is fully accumulated before its own rule reads it.
    pub fn backward(self, g: &mut Graph)
        requires
            old(g).wf(),
            self.id() < old(g)@.len(),
        ensures
            final(g).wf(),
            final(g)@ == backward_spec(old(g)@, self.id()),
            final(g)@.len() == old(g)@.len(),
            forall|j: int|
                0 <= j < old(g)@.len() ==> #[trigger] final(g)@[j].op == old(g)@[j].op
                    && final(g)@[j].data == old(g)@[j].data,
    {
        let n = g.nodes.len();
        let mut vis: Vec<bool> = Vec::new();
        let mut i: usize = 0;
        while i < n
            invariant
                i <= n,
                vis@ =~= Seq::new(i as nat, |q: int| false),
            decreases n - i,
        {
            vis.push(false);
            i = i + 1;
        }
        proof {
            assert(vis@ =~= Seq::new(g@.len(), |q: int| false));
        }
        let mut topo: Vec<usize> = Vec::new();
        dfs_exec(g, self.idx, &mut vis, &mut topo);
        self.set_grad(g, ONE_BITS);
        let ghost seeded = with_grad(old(g)@, self.id(), ONE_BITS);
        let ghost order = topo@;
        proof {
            assert(g@ == fire_from(seeded, order, topo@.len() as int));
        }
        let mut j: usize = topo.len();
        while j > 0
            invariant
                j <= order.len(),
                order == topo@,
                g.wf(),
                g@.len() == old(g)@.len(),
                forall|q: int| 0 <= q < order.len() ==> #[trigger] order[q] < g@.len(),
                forall|q: int|
                    0 <= q < old(g)@.len() ==> #[trigger] g@[q].op == old(g)@[q].op
                        && g@[q].data == old(g)@[q].data,
                g@ == fire_from(seeded, order, j as int),
            decreases j,
        {
            j = j - 1;
            let t = topo[j];
            fire_exec(g, t);
        }
    }
}

} // verus!
