//! Where a network's parameters live in the graph, and the nodes that one
//! layer's forward pass appends.
//!
//! Parameters are the first leaves of the graph, layer after layer; within a
//! layer, neuron after neuron; within a neuron, its weights and then its bias.

use vstd::prelude::*;
use crate::graph::Graph;

verus! {

/// Index of the first parameter of layer `l`: the parameter counts of the
/// layers before it, a layer with `sizes[m]` inputs and `sizes[m + 1]`
/// neurons holding `sizes[m + 1] * (sizes[m] + 1)` of them.
pub open spec fn layer_offset(sizes: Seq<usize>, l: nat) -> nat
    decreases l,
{
    if l == 0 {
        0
    } else {
        layer_offset(sizes, (l - 1) as nat) + (sizes[l as int] as nat) * (sizes[l - 1] as nat + 1)
    }
}

/// Number of trainable parameters of a network with these layer sizes.
pub open spec fn param_count(sizes: Seq<usize>) -> nat {
    layer_offset(sizes, (sizes.len() - 1) as nat)
}

proof fn lemma_offset_monotone(sizes: Seq<usize>, a: nat, b: nat)
    requires
        a <= b,
    ensures
        layer_offset(sizes, a) <= layer_offset(sizes, b),
    decreases b,
{
    if a < b {
        lemma_offset_monotone(sizes, a, (b - 1) as nat);
        assert(sizes[b as int] * (sizes[b - 1] + 1) >= 0) by (nonlinear_arith);
    }
}

/// The layer sizes of a network (input size first, then each layer's neuron
/// count) and where each layer's parameters start.
pub struct Layout {
    sizes: Vec<usize>,
    offsets: Vec<usize>,
}

impl View for Layout {
    type V = Seq<usize>;

    closed spec fn view(&self) -> Seq<usize> {
        self.sizes@
    }
}

impl Layout {
    /// At least an input and an output size, and every parameter has an
    /// index that fits in `usize`.
    pub closed spec fn wf(&self) -> bool {
        &&& 2 <= self.sizes@.len() <= usize::MAX
        &&& self.offsets@.len() == self.sizes@.len()
        &&& forall|l: int|
            0 <= l < self.sizes@.len() ==> #[trigger] self.offsets@[l] == layer_offset(
                self.sizes@,
                l as nat,
            )
        &&& param_count(self.sizes@) <= usize::MAX
    }

    /// The layout of a network with these sizes; `None` when it would have
    /// more parameters than a `usize` counts.
    pub fn new(sizes: Vec<usize>) -> (r: Option<Layout>)
        requires
            sizes@.len() >= 2,
        ensures
            r is Some <==> param_count(sizes@) <= usize::MAX,
            r matches Some(lay) ==> lay.wf() && lay@ == sizes@,
    {
        let n = sizes.len();
        let mut offsets: Vec<usize> = Vec::new();
        offsets.push(0);
        let mut l: usize = 1;
        while l < n
            invariant
                n == sizes@.len() >= 2,
                1 <= l <= n,
                offsets@.len() == l,
                forall|m: int| 0 <= m < l ==> #[trigger] offsets@[m] == layer_offset(sizes@, m as nat),
            decreases sizes@.len() - l,
        {
            let prev = offsets[l - 1];
            assert((sizes[l as int] as int) * (sizes[l - 1] as int + 1) <= 0xffff_ffff_ffff_ffff_0000_0000_0000_0000)
                by (nonlinear_arith)
                requires
                    sizes[l as int] <= 0xffff_ffff_ffff_ffff,
                    sizes[l - 1] <= 0xffff_ffff_ffff_ffff,
            ;
            let next: u128 = (prev as u128) + (sizes[l] as u128) * ((sizes[l - 1] as u128) + 1);
            if next > usize::MAX as u128 {
                proof {
                    lemma_offset_monotone(sizes@, l as nat, (sizes@.len() - 1) as nat);
                }
                return None;
            }
            offsets.push(next as usize);
            l += 1;
        }
        let lay = Layout { sizes, offsets };
        assert(lay.offsets@[lay.offsets@.len() - 1] == param_count(lay.sizes@));
        Some(lay)
    }

    pub fn num_layers(&self) -> (r: usize)
        requires
            self.wf(),
        ensures
            r == self@.len() - 1,
            r >= 1,
    {
        self.sizes.len() - 1
    }

    pub fn input_size(&self) -> (r: usize)
        requires
            self.wf(),
        ensures
            r == self@[0],
    {
        self.sizes[0]
    }

    /// Number of inputs of each neuron of layer `l`.
    pub fn fan_in(&self, l: usize) -> (r: usize)
        requires
            self.wf(),
            l < self@.len() - 1,
        ensures
            r == self@[l as int],
    {
        self.sizes[l]
    }

    /// Number of neurons of layer `l`.
    pub fn width(&self, l: usize) -> (r: usize)
        requires
            self.wf(),
            l < self@.len() - 1,
        ensures
            r == self@[l + 1],
    {
        self.sizes[l + 1]
    }

    pub fn param_count(&self) -> (r: usize)
        requires
            self.wf(),
        ensures
            r == param_count(self@),
    {
        self.offsets[self.offsets.len() - 1]
    }

    /// Index of weight `k` of neuron `j` of layer `l`; with `k` equal to the
    /// fan-in, the index of that neuron's bias.
    pub fn param(&self, l: usize, j: usize, k: usize) -> (r: usize)
        requires
            self.wf(),
            l < self@.len() - 1,
            j < self@[l + 1],
            k <= self@[l as int],
        ensures
            r == layer_offset(self@, l as nat) + j * (self@[l as int] + 1) + k,
            r < param_count(self@),
    {
        let s = self.sizes[l];
        let w = self.sizes[l + 1];
        proof {
            let o = layer_offset(self@, l as nat);
            assert(layer_offset(self@, (l + 1) as nat) == o + w * (s + 1));
            lemma_offset_monotone(self@, (l + 1) as nat, (self@.len() - 1) as nat);
            assert(j * (s + 1) + k < w * (s + 1) && s + 1 <= w * (s + 1)) by (nonlinear_arith)
                requires
                    j < w,
                    k <= s,
            ;
        }
        self.offsets[l] + j * (s + 1) + k
    }
}

/// Appends the weighted sums of every neuron of layer `l` over `inputs`, one
/// neuron after another, and returns the index of each neuron's result.
pub fn layer_forward(g: &mut Graph, layout: &Layout, l: usize, inputs: &Vec<usize>) -> (r: Vec<usize>)
    requires
        old(g).wf(),
        layout.wf(),
        l < layout@.len() - 1,
        inputs@.len() == layout@[l as int],
        param_count(layout@) <= old(g)@.len(),
        forall|k: int| 0 <= k < inputs@.len() ==> inputs@[k] < old(g)@.len(),
        old(g)@.len() + layout@[l + 1] * (2 * inputs@.len() + 2) <= usize::MAX,
    ensures
        final(g).wf(),
        final(g)@.len() == old(g)@.len() + layout@[l + 1] * (2 * inputs@.len() + 2),
        final(g)@.subrange(0, old(g)@.len() as int) == old(g)@,
        r@.len() == layout@[l + 1],
        forall|j: int|
            0 <= j < r@.len() ==> {
                &&& old(g)@.len() + 2 * inputs@.len() + 1 <= #[trigger] r@[j] < final(g)@.len()
                &&& final(g).is_weighted_sum(
                    r@[j] - 2 * inputs@.len() - 1,
                    layer_offset(layout@, l as nat) + j * (layout@[l as int] + 1),
                    layer_offset(layout@, l as nat) + j * (layout@[l as int] + 1) + layout@[l as int],
                    inputs@,
                )
            },
{
    let width = layout.width(l);
    let n = inputs.len();
    let ghost block = 2 * n + 2;
    let mut r: Vec<usize> = Vec::new();
    let mut j: usize = 0;
    while j < width
        invariant
            g.wf(),
            layout.wf(),
            l < layout@.len() - 1,
            width == layout@[l + 1],
            n == inputs@.len() == layout@[l as int],
            block == 2 * n + 2,
            param_count(layout@) <= old(g)@.len(),
            forall|k: int| 0 <= k < inputs@.len() ==> inputs@[k] < old(g)@.len(),
            old(g)@.len() + width * block <= usize::MAX,
            j <= width,
            g@.len() == old(g)@.len() + j * block,
            g@.subrange(0, old(g)@.len() as int) == old(g)@,
            r@.len() == j,
            forall|jj: int|
                0 <= jj < r@.len() ==> {
                    &&& old(g)@.len() + 2 * n + 1 <= #[trigger] r@[jj] < g@.len()
                    &&& g.is_weighted_sum(
                        r@[jj] - 2 * n - 1,
                        layer_offset(layout@, l as nat) + jj * (layout@[l as int] + 1),
                        layer_offset(layout@, l as nat) + jj * (layout@[l as int] + 1) + layout@[l as int],
                        inputs@,
                    )
                },
        decreases width - j,
    {
        let start = layout.param(l, j, 0);
        let bias = layout.param(l, j, n);
        let ghost before = *g;
        proof {
            assert((j + 1) * block <= width * block && j * block + block == (j + 1) * block)
                by (nonlinear_arith)
                requires
                    j < width,
                    block >= 0,
            ;
        }
        let out = g.weighted_sum(start, bias, inputs);
        proof {
            assert(g@.subrange(0, old(g)@.len() as int) =~= old(g)@) by {
                assert forall|i: int| 0 <= i < old(g)@.len() implies g@[i] == old(g)@[i] by {
                    assert(g@.subrange(0, before@.len() as int)[i] == before@[i]);
                    assert(before@.subrange(0, old(g)@.len() as int)[i] == old(g)@[i]);
                }
            }
            assert forall|jj: int| 0 <= jj < r@.len() implies g.is_weighted_sum(
                r@[jj] - 2 * n - 1,
                layer_offset(layout@, l as nat) + jj * (layout@[l as int] + 1),
                layer_offset(layout@, l as nat) + jj * (layout@[l as int] + 1) + layout@[l as int],
                inputs@,
            ) by {
                Graph::lemma_weighted_sum_kept(
                    before,
                    *g,
                    r@[jj] - 2 * n - 1,
                    layer_offset(layout@, l as nat) + jj * (layout@[l as int] + 1),
                    layer_offset(layout@, l as nat) + jj * (layout@[l as int] + 1) + layout@[l as int],
                    inputs@,
                );
            }
        }
        r.push(out);
        j += 1;
    }
    r
}

/// Whether stored parameters fit a network with these layer sizes and this
/// many activations: one activation and one list of neurons per layer, as
/// many neurons as the layer's size, each with one weight per input.
/// `weight_counts[l][j]` is the number of weights stored for neuron `j` of
/// layer `l`.
pub fn shape_matches(sizes: &Vec<usize>, activations: usize, weight_counts: &Vec<Vec<usize>>) -> (r: bool)
    ensures
        r == {
            &&& sizes@.len() >= 2
            &&& activations == sizes@.len() - 1
            &&& weight_counts@.len() == sizes@.len() - 1
            &&& forall|l: int|
                0 <= l < weight_counts@.len() ==> {
                    &&& (#[trigger] weight_counts@[l])@.len() == sizes@[l + 1]
                    &&& forall|j: int| 0 <= j < weight_counts@[l]@.len() ==> weight_counts@[l]@[j] == sizes@[l]
                }
        },
{
    if sizes.len() < 2 || activations != sizes.len() - 1 || weight_counts.len() != sizes.len() - 1 {
        return false;
    }
    let mut l: usize = 0;
    while l < weight_counts.len()
        invariant
            sizes@.len() >= 2,
            weight_counts@.len() == sizes@.len() - 1,
            l <= weight_counts@.len(),
            forall|ll: int|
                0 <= ll < l ==> {
                    &&& (#[trigger] weight_counts@[ll])@.len() == sizes@[ll + 1]
                    &&& forall|j: int| 0 <= j < weight_counts@[ll]@.len() ==> weight_counts@[ll]@[j] == sizes@[ll]
                },
        decreases weight_counts@.len() - l,
    {
        let layer = &weight_counts[l];
        if layer.len() != sizes[l + 1] {
            return false;
        }
        let mut j: usize = 0;
        while j < layer.len()
            invariant
                layer@ == weight_counts@[l as int]@,
                l < sizes@.len() - 1,
                j <= layer@.len(),
                forall|jj: int| 0 <= jj < j ==> layer@[jj] == sizes@[l as int],
            decreases layer@.len() - j,
        {
            if layer[j] != sizes[l] {
                return false;
            }
            j += 1;
        }
        l += 1;
    }
    true
}

} // verus!
