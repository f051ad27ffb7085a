//! Feed-forward composition on top of the engine: a neuron owns weight
//! leaves and a bias leaf, a layer owns neurons, a multi-layer perceptron
//! owns chained layers.  Each exposes parameter enumeration in a stable
//! order and gradient reset.

use vstd::prelude::*;
use crate::bits::{
    add_bits, add_of, div_bits, div_of, int_bits, is_ge_zero, mul_of, of_int, sample_grid,
    NEG_ONE_BITS, WEIGHT_GRID, ZERO_BITS,
};
use crate::engine::{with_grad, Graph, Node, Op, Value};

verus! {

/// A single neuron: `nin` weight leaves, one bias leaf, and a flag for the
/// rectifying nonlinearity.
pub struct Neuron {
    pub w: Vec<Value>,
    pub b: Value,
    pub nonlin: bool,
}

/// A layer of independent neurons evaluated on one shared input vector.
pub struct Layer {
    pub neurons: Vec<Neuron>,
}

/// A multi-layer perceptron: chained layers, every one rectifying except
/// the last, together with the architecture's layer-size sequence.
pub struct MLP {
    pub sz: Vec<usize>,
    pub layers: Vec<Layer>,
}

/// The forward values of the nodes a handle sequence addresses.
pub open spec fn datas(s: Seq<Node>, hs: Seq<Value>) -> Seq<u32> {
    Seq::new(hs.len(), |i: int| s[hs[i].id()].data)
}

/// The initial value of a weight drawn at grid step `d`: `d` millionths,
/// shifted from [0, 2] down to [-1, 1] by rounded arithmetic.
pub open spec fn grid_weight(d: u32) -> u32 {
    add_of(div_of(of_int(d as int), of_int(1_000_000)), NEG_ONE_BITS)
}

/// Whether a value is one of the attainable initial weights: some grid
/// step's value.
pub open spec fn is_grid_weight(v: u32) -> bool {
    exists|d: u32| d <= WEIGHT_GRID && v == #[trigger] grid_weight(d)
}

/// The rounded dot product of the first `i` weight/input pairs, summed
/// left to right from a fresh zero.
pub open spec fn dot_val(ws: Seq<u32>, xs: Seq<u32>, i: int) -> u32
    decreases i,
{
    if i <= 0 {
        ZERO_BITS
    } else {
        add_of(dot_val(ws, xs, i - 1), mul_of(ws[i - 1], xs[i - 1]))
    }
}

/// A neuron's output value: dot product plus bias, rectified when the
/// neuron is nonlinear.
pub open spec fn neuron_val(ws: Seq<u32>, b: u32, xs: Seq<u32>, nonlin: bool) -> u32 {
    let pre = add_of(dot_val(ws, xs, ws.len() as int), b);
    if nonlin {
        if is_ge_zero(pre) {
            pre
        } else {
            ZERO_BITS
        }
    } else {
        pre
    }
}

/// The output values of a layer's neurons, each on the same input vector,
/// with weights and bias read from the node sequence `s`.
pub open spec fn layer_vals(s: Seq<Node>, neurons: Seq<Neuron>, xs: Seq<u32>) -> Seq<u32> {
    Seq::new(
        neurons.len(),
        |j: int|
            neuron_val(
                datas(s, neurons[j].w@),
                s[neurons[j].b.id()].data,
                xs,
                neurons[j].nonlin,
            ),
    )
}

/// The values after feeding `xs` through the first `j` layers in order.
pub open spec fn mlp_vals(s: Seq<Node>, layers: Seq<Layer>, xs: Seq<u32>, j: int) -> Seq<u32>
    decreases j,
{
    if j <= 0 {
        xs
    } else {
        layer_vals(s, layers[j - 1].neurons@, mlp_vals(s, layers, xs, j - 1))
    }
}

/// The parameters of the first `j` neurons, each neuron's weights in
/// order followed by its bias.
pub open spec fn layer_params(ns: Seq<Neuron>, j: int) -> Seq<Value>
    decreases j,
{
    if j <= 0 {
        Seq::empty()
    } else {
        layer_params(ns, j - 1) + ns[j - 1].w@.push(ns[j - 1].b)
    }
}

/// The parameters of the first `j` layers in order.
pub open spec fn mlp_params(ls: Seq<Layer>, j: int) -> Seq<Value>
    decreases j,
{
    if j <= 0 {
        Seq::empty()
    } else {
        mlp_params(ls, j - 1) + layer_params(ls[j - 1].neurons@, ls[j - 1].neurons@.len() as int)
    }
}

/// Whether a handle sequence contains a handle to position `j`.
pub open spec fn addresses(hs: Seq<Value>, j: int) -> bool {
    exists|q: int| 0 <= q < hs.len() && hs[q].id() == j
}

/// The node sequence with the gradients of the addressed nodes reset to
/// zero and everything else unchanged.
pub open spec fn grads_reset(s: Seq<Node>, hs: Seq<Value>) -> Seq<Node> {
    Seq::new(
        s.len(),
        |j: int|
            if addresses(hs, j) {
                Node { grad: ZERO_BITS, ..s[j] }
            } else {
                s[j]
            },
    )
}

impl Neuron {
    /// Every handle the neuron owns addresses a node below `glen`.
    pub open spec fn wf(&self, glen: int) -> bool {
        &&& forall|i: int| 0 <= i < self.w@.len() ==> #[trigger] self.w@[i].id() < glen
        &&& self.b.id() < glen
    }

    /// Constructs a neuron: `nin` weight leaves drawn uniformly from the
    /// grid over [-1, 1], and one bias leaf initialized to zero.
    pub fn new(g: &mut Graph, rng: &mut rand::rngs::StdRng, nin: usize, nonlin: bool) -> (n:
        Neuron)
        requires
            old(g).wf(),
        ensures
            final(g).wf(),
            final(g)@.len() == old(g)@.len() + nin + 1,
            final(g)@.subrange(0, old(g)@.len() as int) == old(g)@,
            n.wf(final(g)@.len() as int),
            n.w@.len() == nin,
            n.nonlin == nonlin,
            forall|i: int| 0 <= i < nin ==> #[trigger] n.w@[i].id() == old(g)@.len() + i,
            n.b.id() == old(g)@.len() + nin,
            forall|j: int|
                old(g)@.len() <= j < final(g)@.len() ==> #[trigger] final(g)@[j].op == Op::Leaf
                    && final(g)@[j].grad == ZERO_BITS,
            final(g)@[n.b.id()].data == ZERO_BITS,
            forall|i: int|
                0 <= i < nin ==> is_grid_weight(final(g)@[(#[trigger] n.w@[i]).id()].data),
    {
        let ghost base = g@.len();
        let million = int_bits(1_000_000);
        let mut w: Vec<Value> = Vec::new();
        let mut i: usize = 0;
        while i < nin
            invariant
                g.wf(),
                i <= nin,
                million == of_int(1_000_000),
                g@.len() == base + i,
                g@.subrange(0, base as int) == old(g)@,
                base == old(g)@.len(),
                w@.len() == i,
                forall|q: int| 0 <= q < i ==> #[trigger] w@[q].id() == base + q,
                forall|j: int|
                    base <= j < g@.len() ==> #[trigger] g@[j].op == Op::Leaf && g@[j].grad
                        == ZERO_BITS,
                forall|q: int| 0 <= q < i ==> is_grid_weight(g@[(#[trigger] w@[q]).id()].data),
            decreases nin - i,
        {
            let d = sample_grid(rng);
            let wv = add_bits(div_bits(int_bits(d as i64), million), NEG_ONE_BITS);
            let v = Value::new(g, wv);
            w.push(v);
            proof {
                assert(g@.subrange(0, base as int) =~= old(g)@);
                assert(g@[w@[i as int].id()].data == grid_weight(d));
                assert(is_grid_weight(g@[w@[i as int].id()].data));
            }
            i = i + 1;
        }
        let ghost gpre = g@;
        let b = Value::new(g, ZERO_BITS);
        proof {
            assert(final(g)@.subrange(0, base as int) =~= old(g)@);
            assert forall|q: int| 0 <= q < nin implies is_grid_weight(
                g@[(#[trigger] w@[q]).id()].data,
            ) by {
                assert(is_grid_weight(gpre[w@[q].id()].data));
                assert(g@[w@[q].id()].data == gpre[w@[q].id()].data);
            }
        }
        Neuron { w, b, nonlin }
    }

    /// Evaluates the neuron: the rounded sum of elementwise
    /// weight-input products, plus the bias, rectified when nonlinear.
    /// Builds the corresponding subgraph eagerly and returns the handle
    /// of its output node.
    pub fn call(&self, g: &mut Graph, x: &Vec<Value>) -> (v: Value)
        requires
            old(g).wf(),
            self.wf(old(g)@.len() as int),
            x@.len() == self.w@.len(),
            forall|i: int| 0 <= i < x@.len() ==> #[trigger] x@[i].id() < old(g)@.len(),
        ensures
            final(g).wf(),
            final(g)@.len() == old(g)@.len() + 2 * self.w@.len() + 2 + (if self.nonlin {
                1int
            } else {
                0int
            }),
            final(g)@.subrange(0, old(g)@.len() as int) == old(g)@,
            v.id() == final(g)@.len() - 1,
            final(g)@[v.id()].grad == ZERO_BITS,
            final(g)@[v.id()].data == neuron_val(
                datas(old(g)@, self.w@),
                old(g)@[self.b.id()].data,
                datas(old(g)@, x@),
                self.nonlin,
            ),
    {
        let ghost base = g@.len();
        let ghost ws = datas(old(g)@, self.w@);
        let ghost xs = datas(old(g)@, x@);
        let nin = self.w.len();
        let mut acc = Value::new(g, ZERO_BITS);
        let mut i: usize = 0;
        proof {
            assert(g@.subrange(0, base as int) =~= old(g)@);
        }
        while i < nin
            invariant
                g.wf(),
                i <= nin,
                nin == self.w@.len(),
                x@.len() == nin,
                base == old(g)@.len(),
                ws == datas(old(g)@, self.w@),
                xs == datas(old(g)@, x@),
                self.wf(base as int),
                forall|q: int| 0 <= q < x@.len() ==> #[trigger] x@[q].id() < base,
                g@.len() == base + 1 + 2 * i,
                g@.subrange(0, base as int) == old(g)@,
                acc.id() == g@.len() - 1,
                g@[acc.id()].data == dot_val(ws, xs, i as int),
                g@[acc.id()].grad == ZERO_BITS,
            decreases nin - i,
        {
            let wi = self.w[i];
            let xi = x[i];
            proof {
                assert(g@[wi.id()] == g@.subrange(0, base as int)[wi.id()]);
                assert(g@[xi.id()] == g@.subrange(0, base as int)[xi.id()]);
            }
            let m = wi.mul(g, xi);
            let acc2 = acc.add(g, m);
            proof {
                assert(g@.subrange(0, base as int) =~= old(g)@);
            }
            acc = acc2;
            i = i + 1;
        }
        proof {
            assert(g@[self.b.id()] == g@.subrange(0, base as int)[self.b.id()]);
        }
        let act = acc.add(g, self.b);
        proof {
            assert(g@.subrange(0, base as int) =~= old(g)@);
        }
        if self.nonlin {
            let out = act.relu(g);
            proof {
                assert(final(g)@.subrange(0, base as int) =~= old(g)@);
            }
            out
        } else {
            act
        }
    }

    /// Every parameter the neuron owns: its weights in order, then its
    /// bias.
    pub fn parameters(&self) -> (out: Vec<Value>)
        ensures
            out@ == self.w@.push(self.b),
    {
        let mut out: Vec<Value> = Vec::new();
        let mut i: usize = 0;
        while i < self.w.len()
            invariant
                i <= self.w@.len(),
                out@ == self.w@.subrange(0, i as int),
            decreases self.w@.len() - i,
        {
            out.push(self.w[i]);
            proof {
                assert(out@ =~= self.w@.subrange(0, i + 1));
            }
            i = i + 1;
        }
        out.push(self.b);
        proof {
            assert(out@ =~= self.w@.push(self.b));
        }
        out
    }
}

/// Nodes below `bound` keep their exact contents when a node sequence is
/// only ever extended past `bound`.
proof fn lemma_prefix_nodes(s1: Seq<Node>, s2: Seq<Node>, bound: int)
    requires
        0 <= bound <= s1.len(),
        bound <= s2.len(),
        s2.subrange(0, bound) == s1.subrange(0, bound),
    ensures
        forall|j: int| 0 <= j < bound ==> s2[j] == s1[j],
{
    assert forall|j: int| 0 <= j < bound implies s2[j] == s1[j] by {
        assert(s2.subrange(0, bound)[j] == s2[j]);
        assert(s1.subrange(0, bound)[j] == s1[j]);
    }
}

/// The forward values a handle sequence addresses are unchanged when the
/// node sequence is only ever extended past every addressed position.
proof fn lemma_datas_prefix(s1: Seq<Node>, s2: Seq<Node>, hs: Seq<Value>, bound: int)
    requires
        0 <= bound <= s1.len(),
        bound <= s2.len(),
        s2.subrange(0, bound) == s1.subrange(0, bound),
        forall|q: int| 0 <= q < hs.len() ==> (#[trigger] hs[q]).id() < bound,
    ensures
        datas(s2, hs) == datas(s1, hs),
{
    lemma_prefix_nodes(s1, s2, bound);
    assert(datas(s2, hs) =~= datas(s1, hs));
}

/// A layer's output values are unchanged when the node sequence is only
/// ever extended past the layer's own nodes.
proof fn lemma_layer_vals_prefix(
    s1: Seq<Node>,
    s2: Seq<Node>,
    neurons: Seq<Neuron>,
    xs: Seq<u32>,
    bound: int,
)
    requires
        0 <= bound <= s1.len(),
        bound <= s2.len(),
        s2.subrange(0, bound) == s1.subrange(0, bound),
        forall|j: int| 0 <= j < neurons.len() ==> (#[trigger] neurons[j]).wf(bound),
    ensures
        layer_vals(s2, neurons, xs) == layer_vals(s1, neurons, xs),
{
    lemma_prefix_nodes(s1, s2, bound);
    assert forall|j: int| 0 <= j < neurons.len() implies neuron_val(
        datas(s2, (#[trigger] neurons[j]).w@),
        s2[neurons[j].b.id()].data,
        xs,
        neurons[j].nonlin,
    ) == neuron_val(
        datas(s1, neurons[j].w@),
        s1[neurons[j].b.id()].data,
        xs,
        neurons[j].nonlin,
    ) by {
        lemma_datas_prefix(s1, s2, neurons[j].w@, bound);
    }
    assert(layer_vals(s2, neurons, xs) =~= layer_vals(s1, neurons, xs));
}

/// Overwrites the gradient accumulator of every listed node with zero.
fn reset_all(g: &mut Graph, ps: &Vec<Value>)
    requires
        old(g).wf(),
        forall|q: int| 0 <= q < ps@.len() ==> (#[trigger] ps@[q]).id() < old(g)@.len(),
    ensures
        final(g).wf(),
        final(g)@ == grads_reset(old(g)@, ps@),
{
    let mut q: usize = 0;
    proof {
        assert(g@ =~= grads_reset(old(g)@, ps@.subrange(0, 0)));
    }
    while q < ps.len()
        invariant
            g.wf(),
            q <= ps@.len(),
            g@.len() == old(g)@.len(),
            forall|r: int| 0 <= r < ps@.len() ==> (#[trigger] ps@[r]).id() < old(g)@.len(),
            g@ == grads_reset(old(g)@, ps@.subrange(0, q as int)),
        decreases ps@.len() - q,
    {
        let p = ps[q];
        p.set_grad(g, ZERO_BITS);
        proof {
            let pre = ps@.subrange(0, q as int);
            let post = ps@.subrange(0, q as int + 1);
            assert(post == pre.push(p));
            assert forall|j: int| 0 <= j < old(g)@.len() implies with_grad(
                grads_reset(old(g)@, pre),
                p.id(),
                ZERO_BITS,
            )[j] == grads_reset(old(g)@, post)[j] by {
                if j == p.id() {
                    assert(addresses(post, j)) by {
                        assert(post[q as int].id() == j);
                    }
                } else {
                    if addresses(pre, j) {
                        let r = choose|r: int| 0 <= r < pre.len() && pre[r].id() == j;
                        assert(post[r].id() == j);
                    }
                    if addresses(post, j) {
                        let r = choose|r: int| 0 <= r < post.len() && post[r].id() == j;
                        assert(r < pre.len());
                        assert(pre[r].id() == j);
                    }
                }
            }
            assert(with_grad(grads_reset(old(g)@, pre), p.id(), ZERO_BITS) =~= grads_reset(
                old(g)@,
                post,
            ));
        }
        q = q + 1;
    }
    proof {
        assert(ps@.subrange(0, ps@.len() as int) =~= ps@);
    }
}

impl Neuron {
    /// Resets the gradient of every parameter this neuron owns to zero.
    pub fn zero_grad(&self, g: &mut Graph)
        requires
            old(g).wf(),
            self.wf(old(g)@.len() as int),
        ensures
            final(g).wf(),
            final(g)@ == grads_reset(old(g)@, self.w@.push(self.b)),
    {
        let ps = self.parameters();
        reset_all(g, &ps);
    }
}

impl Layer {
    /// Every handle every owned neuron holds addresses a node below
    /// `glen`.
    pub open spec fn wf(&self, glen: int) -> bool {
        forall|j: int| 0 <= j < self.neurons@.len() ==> (#[trigger] self.neurons@[j]).wf(glen)
    }

    /// Constructs `nout` independent neurons of `nin` inputs each.
    pub fn new(g: &mut Graph, rng: &mut rand::rngs::StdRng, nin: usize, nout: usize, nonlin:
        bool) -> (l: Layer)
        requires
            old(g).wf(),
        ensures
            final(g).wf(),
            final(g)@.len() == old(g)@.len() + nout * (nin + 1),
            final(g)@.subrange(0, old(g)@.len() as int) == old(g)@,
            l.wf(final(g)@.len() as int),
            l.neurons@.len() == nout,
            forall|j: int|
                0 <= j < nout ==> (#[trigger] l.neurons@[j]).nonlin == nonlin
                    && l.neurons@[j].w@.len() == nin,
            forall|j: int|
                0 <= j < nout ==> final(g)@[(#[trigger] l.neurons@[j]).b.id()].data == ZERO_BITS,
            forall|j: int|
                old(g)@.len() <= j < final(g)@.len() ==> #[trigger] final(g)@[j].op == Op::Leaf
                    && final(g)@[j].grad == ZERO_BITS,
    {
        let ghost base = g@.len();
        let mut neurons: Vec<Neuron> = Vec::new();
        let mut j: usize = 0;
        while j < nout
            invariant
                g.wf(),
                j <= nout,
                base == old(g)@.len(),
                g@.len() == base + j * (nin + 1),
                g@.subrange(0, base as int) == old(g)@,
                neurons@.len() == j,
                forall|q: int| 0 <= q < j ==> (#[trigger] neurons@[q]).wf(g@.len() as int),
                forall|q: int|
                    0 <= q < j ==> (#[trigger] neurons@[q]).nonlin == nonlin && neurons@[q].w@.len()
                        == nin,
                forall|q: int|
                    0 <= q < j ==> g@[(#[trigger] neurons@[q]).b.id()].data == ZERO_BITS,
                forall|q: int|
                    base <= q < g@.len() ==> #[trigger] g@[q].op == Op::Leaf && g@[q].grad
                        == ZERO_BITS,
            decreases nout - j,
        {
            let ghost gpre = g@;
            let n = Neuron::new(g, rng, nin, nonlin);
            neurons.push(n);
            proof {
                assert(gpre.subrange(0, gpre.len() as int) =~= gpre);
                lemma_prefix_nodes(gpre, g@, gpre.len() as int);
                assert(g@.subrange(0, base as int) =~= old(g)@);
                assert((j as int + 1) * (nin as int + 1) == j as int * (nin as int + 1) + (
                nin as int + 1)) by (nonlinear_arith);
            }
            j = j + 1;
        }
        Layer { neurons }
    }

    /// Evaluates every neuron on the same input vector, producing the
    /// layer's output vector in neuron order.
    pub fn call(&self, g: &mut Graph, x: &Vec<Value>) -> (out: Vec<Value>)
        requires
            old(g).wf(),
            self.wf(old(g)@.len() as int),
            forall|j: int|
                0 <= j < self.neurons@.len() ==> (#[trigger] self.neurons@[j]).w@.len()
                    == x@.len(),
            forall|i: int| 0 <= i < x@.len() ==> (#[trigger] x@[i]).id() < old(g)@.len(),
        ensures
            final(g).wf(),
            old(g)@.len() <= final(g)@.len(),
            final(g)@.subrange(0, old(g)@.len() as int) == old(g)@,
            out@.len() == self.neurons@.len(),
            forall|j: int| 0 <= j < out@.len() ==> (#[trigger] out@[j]).id() < final(g)@.len(),
            datas(final(g)@, out@) == layer_vals(old(g)@, self.neurons@, datas(old(g)@, x@)),
    {
        let ghost base = g@.len();
        let ghost xs = datas(old(g)@, x@);
        let mut out: Vec<Value> = Vec::new();
        let mut j: usize = 0;
        proof {
            assert(g@.subrange(0, base as int) =~= old(g)@);
        }
        while j < self.neurons.len()
            invariant
                g.wf(),
                j <= self.neurons@.len(),
                base == old(g)@.len(),
                base <= g@.len(),
                xs == datas(old(g)@, x@),
                self.wf(base as int),
                forall|q: int|
                    0 <= q < self.neurons@.len() ==> (#[trigger] self.neurons@[q]).w@.len()
                        == x@.len(),
                forall|i: int| 0 <= i < x@.len() ==> (#[trigger] x@[i]).id() < base,
                g@.subrange(0, base as int) == old(g)@,
                out@.len() == j,
                forall|q: int| 0 <= q < j ==> (#[trigger] out@[q]).id() < g@.len(),
                datas(g@, out@) == layer_vals(old(g)@, self.neurons@, xs).subrange(0, j as int),
            decreases self.neurons@.len() - j,
        {
            let ghost gpre = g@;
            let n = &self.neurons[j];
            let v = n.call(g, x);
            out.push(v);
            proof {
                assert(gpre.subrange(0, gpre.len() as int) =~= gpre);
                lemma_prefix_nodes(gpre, g@, gpre.len() as int);
                assert(g@.subrange(0, base as int) =~= old(g)@);
                assert(old(g)@.subrange(0, base as int) =~= old(g)@);
                lemma_datas_prefix(old(g)@, gpre, n.w@, base as int);
                lemma_datas_prefix(old(g)@, gpre, x@, base as int);
                assert(gpre[n.b.id()] == old(g)@[n.b.id()]);
                assert(g@[v.id()].data == neuron_val(
                    datas(old(g)@, n.w@),
                    old(g)@[n.b.id()].data,
                    xs,
                    n.nonlin,
                ));
                assert(datas(g@, out@) =~= layer_vals(old(g)@, self.neurons@, xs).subrange(
                    0,
                    j as int + 1,
                ));
            }
            j = j + 1;
        }
        proof {
            assert(layer_vals(old(g)@, self.neurons@, xs).subrange(
                0,
                self.neurons@.len() as int,
            ) =~= layer_vals(old(g)@, self.neurons@, xs));
        }
        out
    }

    /// Every parameter the layer owns: each neuron's parameters in neuron
    /// order.
    pub fn parameters(&self) -> (out: Vec<Value>)
        ensures
            out@ == layer_params(self.neurons@, self.neurons@.len() as int),
    {
        let mut out: Vec<Value> = Vec::new();
        let mut j: usize = 0;
        while j < self.neurons.len()
            invariant
                j <= self.neurons@.len(),
                out@ == layer_params(self.neurons@, j as int),
            decreases self.neurons@.len() - j,
        {
            let pv = self.neurons[j].parameters();
            let mut k: usize = 0;
            while k < pv.len()
                invariant
                    k <= pv@.len(),
                    pv@ == self.neurons@[j as int].w@.push(self.neurons@[j as int].b),
                    j < self.neurons@.len(),
                    out@ == layer_params(self.neurons@, j as int) + pv@.subrange(0, k as int),
                decreases pv@.len() - k,
            {
                out.push(pv[k]);
                proof {
                    assert(out@ =~= layer_params(self.neurons@, j as int) + pv@.subrange(
                        0,
                        k as int + 1,
                    ));
                }
                k = k + 1;
            }
            proof {
                assert(pv@.subrange(0, pv@.len() as int) =~= pv@);
                assert(out@ =~= layer_params(self.neurons@, j as int + 1));
            }
            j = j + 1;
        }
        out
    }

    /// Resets the gradient of every parameter this layer owns to zero.
    pub fn zero_grad(&self, g: &mut Graph)
        requires
            old(g).wf(),
            self.wf(old(g)@.len() as int),
        ensures
            final(g).wf(),
            final(g)@ == grads_reset(
                old(g)@,
                layer_params(self.neurons@, self.neurons@.len() as int),
            ),
    {
        let ps = self.parameters();
        proof {
            lemma_layer_params_wf(self.neurons@, self.neurons@.len() as int, old(g)@.len() as int);
        }
        reset_all(g, &ps);
    }
}

/// Every parameter of a well-formed neuron prefix addresses a node below
/// `glen`.
proof fn lemma_layer_params_wf(ns: Seq<Neuron>, j: int, glen: int)
    requires
        j <= ns.len(),
        forall|q: int| 0 <= q < ns.len() ==> (#[trigger] ns[q]).wf(glen),
    ensures
        forall|q: int| 0 <= q < layer_params(ns, j).len() ==> (#[trigger] layer_params(
            ns,
            j,
        )[q]).id() < glen,
    decreases j,
{
    if j > 0 {
        lemma_layer_params_wf(ns, j - 1, glen);
        assert forall|q: int| 0 <= q < layer_params(ns, j).len() implies (#[trigger] layer_params(
            ns,
            j,
        )[q]).id() < glen by {
            let pre = layer_params(ns, j - 1);
            let nq = ns[j - 1];
            if q < pre.len() {
                assert(layer_params(ns, j)[q] == pre[q]);
            } else {
                assert(layer_params(ns, j)[q] == nq.w@.push(nq.b)[q - pre.len()]);
                if q - pre.len() < nq.w@.len() {
                    assert(nq.w@[q - pre.len()].id() < glen);
                }
            }
        }
    }
}

/// Every parameter of a well-formed layer prefix addresses a node below
/// `glen`.
proof fn lemma_mlp_params_wf(ls: Seq<Layer>, j: int, glen: int)
    requires
        j <= ls.len(),
        forall|q: int| 0 <= q < ls.len() ==> (#[trigger] ls[q]).wf(glen),
    ensures
        forall|q: int| 0 <= q < mlp_params(ls, j).len() ==> (#[trigger] mlp_params(
            ls,
            j,
        )[q]).id() < glen,
    decreases j,
{
    if j > 0 {
        lemma_mlp_params_wf(ls, j - 1, glen);
        lemma_layer_params_wf(ls[j - 1].neurons@, ls[j - 1].neurons@.len() as int, glen);
        assert forall|q: int| 0 <= q < mlp_params(ls, j).len() implies (#[trigger] mlp_params(
            ls,
            j,
        )[q]).id() < glen by {
            let pre = mlp_params(ls, j - 1);
            let lp = layer_params(ls[j - 1].neurons@, ls[j - 1].neurons@.len() as int);
            if q < pre.len() {
                assert(mlp_params(ls, j)[q] == pre[q]);
            } else {
                assert(mlp_params(ls, j)[q] == lp[q - pre.len()]);
            }
        }
    }
}

/// Copies a handle vector.
fn copy_handles(x: &Vec<Value>) -> (out: Vec<Value>)
    ensures
        out@ == x@,
{
    let mut out: Vec<Value> = Vec::new();
    let mut i: usize = 0;
    while i < x.len()
        invariant
            i <= x@.len(),
            out@ == x@.subrange(0, i as int),
        decreases x@.len() - i,
    {
        out.push(x[i]);
        proof {
            assert(out@ =~= x@.subrange(0, i as int + 1));
        }
        i = i + 1;
    }
    proof {
        assert(x@.subrange(0, x@.len() as int) =~= x@);
    }
    out
}

impl MLP {
    /// Every handle every owned layer holds addresses a node below
    /// `glen`.
    pub open spec fn wf(&self, glen: int) -> bool {
        forall|j: int| 0 <= j < self.layers@.len() ==> (#[trigger] self.layers@[j]).wf(glen)
    }

    /// The architecture is consistent: the size sequence chains the
    /// layers, every layer's neurons take the previous size as input, and
    /// every layer is rectifying except the last.
    pub open spec fn shaped(&self) -> bool {
        &&& self.sz@.len() == self.layers@.len() + 1
        &&& forall|j: int, q: int|
            0 <= j < self.layers@.len() && 0 <= q < (#[trigger] self.layers@[j]).neurons@.len()
                ==> (#[trigger] self.layers@[j].neurons@[q]).w@.len() == self.sz@[j]
                && self.layers@[j].neurons@[q].nonlin == (j + 1 < self.layers@.len())
        &&& forall|j: int|
            0 <= j < self.layers@.len() ==> (#[trigger] self.layers@[j]).neurons@.len()
                == self.sz@[j + 1]
    }

    /// Constructs chained layers sized `[nin, nouts...]`; every layer is
    /// rectifying except the last.
    pub fn new(g: &mut Graph, rng: &mut rand::rngs::StdRng, nin: usize, nouts: &Vec<usize>) -> (m:
        MLP)
        requires
            old(g).wf(),
        ensures
            final(g).wf(),
            final(g)@.subrange(0, old(g)@.len() as int) == old(g)@,
            old(g)@.len() <= final(g)@.len(),
            m.wf(final(g)@.len() as int),
            m.shaped(),
            m.sz@.len() == nouts@.len() + 1,
            m.sz@[0] == nin,
            forall|i: int| 0 <= i < nouts@.len() ==> m.sz@[i + 1] == #[trigger] nouts@[i],
            m.layers@.len() == nouts@.len(),
            forall|j: int|
                old(g)@.len() <= j < final(g)@.len() ==> #[trigger] final(g)@[j].op == Op::Leaf
                    && final(g)@[j].grad == ZERO_BITS,
    {
        let ghost base = g@.len();
        let mut sz: Vec<usize> = Vec::new();
        sz.push(nin);
        let mut i: usize = 0;
        while i < nouts.len()
            invariant
                i <= nouts@.len(),
                sz@.len() == i + 1,
                sz@[0] == nin,
                forall|q: int| 0 <= q < i ==> sz@[q + 1] == #[trigger] nouts@[q],
            decreases nouts@.len() - i,
        {
            sz.push(nouts[i]);
            i = i + 1;
        }
        let mut layers: Vec<Layer> = Vec::new();
        let mut j: usize = 0;
        while j < nouts.len()
            invariant
                g.wf(),
                j <= nouts@.len(),
                base == old(g)@.len(),
                base <= g@.len(),
                g@.subrange(0, base as int) == old(g)@,
                sz@.len() == nouts@.len() + 1,
                sz@[0] == nin,
                forall|q: int| 0 <= q < nouts@.len() ==> sz@[q + 1] == #[trigger] nouts@[q],
                layers@.len() == j,
                forall|q: int| 0 <= q < j ==> (#[trigger] layers@[q]).wf(g@.len() as int),
                forall|q: int|
                    0 <= q < j ==> (#[trigger] layers@[q]).neurons@.len() == sz@[q + 1],
                forall|q: int, r: int|
                    0 <= q < j && 0 <= r < (#[trigger] layers@[q]).neurons@.len() ==> (
                    #[trigger] layers@[q].neurons@[r]).w@.len() == sz@[q]
                        && layers@[q].neurons@[r].nonlin == (q + 1 < nouts@.len()),
                forall|q: int|
                    base <= q < g@.len() ==> #[trigger] g@[q].op == Op::Leaf && g@[q].grad
                        == ZERO_BITS,
            decreases nouts@.len() - j,
        {
            let ghost gpre = g@;
            let nonlin = j + 1 != nouts.len();
            let l = Layer::new(g, rng, sz[j], sz[j + 1], nonlin);
            layers.push(l);
            proof {
                assert(gpre.subrange(0, gpre.len() as int) =~= gpre);
                lemma_prefix_nodes(gpre, g@, gpre.len() as int);
                assert(g@.subrange(0, base as int) =~= old(g)@);
            }
            j = j + 1;
        }
        MLP { sz, layers }
    }

    /// Feeds the input vector through every layer in order, layer by
    /// layer, and returns the final layer's output handles.
    pub fn call(&self, g: &mut Graph, x: &Vec<Value>) -> (out: Vec<Value>)
        requires
            old(g).wf(),
            self.wf(old(g)@.len() as int),
            self.shaped(),
            x@.len() == self.sz@[0],
            forall|i: int| 0 <= i < x@.len() ==> (#[trigger] x@[i]).id() < old(g)@.len(),
        ensures
            final(g).wf(),
            final(g)@.subrange(0, old(g)@.len() as int) == old(g)@,
            old(g)@.len() <= final(g)@.len(),
            out@.len() == self.sz@[self.layers@.len() as int],
            forall|j: int| 0 <= j < out@.len() ==> (#[trigger] out@[j]).id() < final(g)@.len(),
            datas(final(g)@, out@) == mlp_vals(
                old(g)@,
                self.layers@,
                datas(old(g)@, x@),
                self.layers@.len() as int,
            ),
    {
        let ghost base = g@.len();
        let ghost xs = datas(old(g)@, x@);
        let mut cur = copy_handles(x);
        let mut j: usize = 0;
        proof {
            assert(g@.subrange(0, base as int) =~= old(g)@);
            assert(datas(g@, cur@) =~= mlp_vals(old(g)@, self.layers@, xs, 0));
        }
        while j < self.layers.len()
            invariant
                g.wf(),
                j <= self.layers@.len(),
                base == old(g)@.len(),
                base <= g@.len(),
                xs == datas(old(g)@, x@),
                self.wf(base as int),
                self.shaped(),
                g@.subrange(0, base as int) == old(g)@,
                cur@.len() == self.sz@[j as int],
                forall|q: int| 0 <= q < cur@.len() ==> (#[trigger] cur@[q]).id() < g@.len(),
                datas(g@, cur@) == mlp_vals(old(g)@, self.layers@, xs, j as int),
            decreases self.layers@.len() - j,
        {
            let ghost gpre = g@;
            let l = &self.layers[j];
            proof {
                assert(old(g)@.subrange(0, base as int) =~= old(g)@);
                lemma_prefix_nodes(old(g)@, gpre, base as int);
                assert forall|q: int| 0 <= q < l.neurons@.len() implies (
                #[trigger] l.neurons@[q]).wf(gpre.len() as int) by {
                    assert(l.neurons@[q].wf(base as int));
                }
            }
            let next = l.call(g, &cur);
            proof {
                assert(gpre.subrange(0, gpre.len() as int) =~= gpre);
                lemma_prefix_nodes(gpre, g@, gpre.len() as int);
                assert(g@.subrange(0, base as int) =~= old(g)@);
                lemma_layer_vals_prefix(
                    old(g)@,
                    gpre,
                    l.neurons@,
                    mlp_vals(old(g)@, self.layers@, xs, j as int),
                    base as int,
                );
            }
            cur = next;
            j = j + 1;
        }
        cur
    }

    /// Every parameter the network owns: each layer's parameters in layer
    /// order.
    pub fn parameters(&self) -> (out: Vec<Value>)
        ensures
            out@ == mlp_params(self.layers@, self.layers@.len() as int),
    {
        let mut out: Vec<Value> = Vec::new();
        let mut j: usize = 0;
        while j < self.layers.len()
            invariant
                j <= self.layers@.len(),
                out@ == mlp_params(self.layers@, j as int),
            decreases self.layers@.len() - j,
        {
            let pv = self.layers[j].parameters();
            let mut k: usize = 0;
            while k < pv.len()
                invariant
                    k <= pv@.len(),
                    j < self.layers@.len(),
                    pv@ == layer_params(
                        self.layers@[j as int].neurons@,
                        self.layers@[j as int].neurons@.len() as int,
                    ),
                    out@ == mlp_params(self.layers@, j as int) + pv@.subrange(0, k as int),
                decreases pv@.len() - k,
            {
                out.push(pv[k]);
                proof {
                    assert(out@ =~= mlp_params(self.layers@, j as int) + pv@.subrange(
                        0,
                        k as int + 1,
                    ));
                }
                k = k + 1;
            }
            proof {
                assert(pv@.subrange(0, pv@.len() as int) =~= pv@);
                assert(out@ =~= mlp_params(self.layers@, j as int + 1));
            }
            j = j + 1;
        }
        out
    }

    /// Resets the gradient of every parameter the network owns to zero.
    pub fn zero_grad(&self, g: &mut Graph)
        requires
            old(g).wf(),
            self.wf(old(g)@.len() as int),
        ensures
            final(g).wf(),
            final(g)@ == grads_reset(
                old(g)@,
                mlp_params(self.layers@, self.layers@.len() as int),
            ),
    {
        let ps = self.parameters();
        proof {
            lemma_mlp_params_wf(self.layers@, self.layers@.len() as int, old(g)@.len() as int);
        }
        reset_all(g, &ps);
    }
}

} // verus!
