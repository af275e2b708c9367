use vstd::prelude::*;

verus! {

/// Hard cap on assigned layers; layer assignment never draws past it.
pub const MAX_LAYER: usize = 31;

/// Per-layer cap on a neighbour list: `2m` at the base layer, `m` above it.
pub open spec fn layer_cap(l: int, m: nat) -> nat {
    if l == 0 {
        2 * m
    } else {
        m
    }
}

/// Multi-layer neighbour-list structure of the graph: entry point, maximal
/// layer, per-element layer assignment and per-(element, layer) neighbour
/// lists.
pub struct GraphTopology {
    /// Maximal neighbour-list size per layer (`2m` at layer 0).
    pub m: usize,
    /// The element every search and insertion starts from.
    pub entry_point: usize,
    /// The highest populated layer.
    pub max_layer: usize,
    /// Per element, its assigned top layer.
    pub layers: Vec<usize>,
    /// Per element, per layer `0..=layers[e]`, the neighbour indices.
    pub neighbors: Vec<Vec<Vec<usize>>>,
}

impl GraphTopology {
    /// The neighbour lists as a mathematical sequence of sequences.
    pub open spec fn nbrs(&self) -> Seq<Seq<Seq<usize>>> {
        self.neighbors.deep_view()
    }

    /// Structural well-formedness of the lists over the first `count`
    /// elements: lists sized to the layer assignment, caps respected,
    /// neighbour indices in range.
    pub open spec fn lists_wf(&self, count: nat) -> bool {
        &&& 2 <= self.m <= 0x1000_0000
        &&& self.layers@.len() == count
        &&& self.nbrs().len() == count
        &&& forall|e: int| 0 <= e < count ==>
            (#[trigger] self.nbrs()[e]).len() == self.layers@[e] + 1
        &&& forall|e: int, l: int| 0 <= e < count && 0 <= l < self.nbrs()[e].len() ==>
            (#[trigger] self.nbrs()[e][l]).len() <= layer_cap(l, self.m as nat)
        &&& forall|e: int, l: int, j: int|
            0 <= e < count && 0 <= l < self.nbrs()[e].len() && 0 <= j < self.nbrs()[e][l].len()
                ==> (#[trigger] self.nbrs()[e][l][j]) < count
    }

    /// Well-formedness over the first `count` elements: structural
    /// well-formedness, layer assignments below the maximal layer, and the
    /// entry point sitting at the maximal layer.
    pub open spec fn wf(&self, count: nat) -> bool {
        &&& self.lists_wf(count)
        &&& self.max_layer <= MAX_LAYER
        &&& forall|e: int| 0 <= e < count ==> #[trigger] self.layers@[e] <= self.max_layer
        &&& (count > 0 ==> self.entry_point < count
            && self.layers@[self.entry_point as int] == self.max_layer)
        &&& (count == 0 ==> self.max_layer == 0)
    }

    /// An empty topology with the given neighbour-list parameter.
    pub fn empty(m: usize) -> (t: Self)
        requires
            2 <= m <= 0x1000_0000,
        ensures
            t.wf(0),
            t.m == m,
    {
        let t = GraphTopology {
            m,
            entry_point: 0,
            max_layer: 0,
            layers: Vec::new(),
            neighbors: Vec::new(),
        };
        t
    }
}

/// An element-wise copy of an index list.
#[verifier::loop_isolation(false)]
pub fn copy_usize_vec(v: &Vec<usize>) -> (r: Vec<usize>)
    ensures
        r@ == v@,
{
    let mut r: Vec<usize> = Vec::new();
    let mut i: usize = 0;
    while i < v.len()
        invariant
            i <= v@.len(),
            r@ =~= v@.subrange(0, i as int),
        decreases v@.len() - i,
    {
        r.push(v[i]);
        i = i + 1;
    }
    proof {
        assert(r@ =~= v@);
    }
    r
}

/// An element-wise copy of one element's per-layer neighbour lists.
#[verifier::loop_isolation(false)]
pub fn copy_lists(v: &Vec<Vec<usize>>) -> (r: Vec<Vec<usize>>)
    ensures
        r.deep_view() == v.deep_view(),
{
    let mut r: Vec<Vec<usize>> = Vec::new();
    let mut i: usize = 0;
    while i < v.len()
        invariant
            i <= v@.len(),
            r@.len() == i,
            forall|x: int| 0 <= x < i ==> (#[trigger] r.deep_view()[x]) == v.deep_view()[x],
        decreases v@.len() - i,
    {
        let ghost pre = r@;
        let ghost predv = r.deep_view();
        let c = copy_usize_vec(&v[i]);
        let ghost gc = c@;
        r.push(c);
        proof {
            assert forall|x: int| 0 <= x < i + 1 implies (#[trigger] r.deep_view()[x])
                == v.deep_view()[x] by {
                assert(r.deep_view()[x] == r@[x].deep_view());
                if x < i {
                    assert(r@[x] == pre[x]);
                    assert(predv[x] == pre[x].deep_view());
                } else {
                    assert(r@[x]@ == gc);
                    assert(gc == v@[i as int]@);
                    assert(r@[x].deep_view() =~= r@[x]@);
                    assert(v.deep_view()[x] == v@[x].deep_view());
                    assert(v@[x].deep_view() =~= v@[x]@);
                }
            }
        }
        i = i + 1;
    }
    proof {
        assert(r.deep_view() =~= v.deep_view());
    }
    r
}

/// An element-wise copy of the whole neighbour structure.
#[verifier::loop_isolation(false)]
pub fn copy_nested(v: &Vec<Vec<Vec<usize>>>) -> (r: Vec<Vec<Vec<usize>>>)
    ensures
        r.deep_view() == v.deep_view(),
{
    let mut r: Vec<Vec<Vec<usize>>> = Vec::new();
    let mut i: usize = 0;
    while i < v.len()
        invariant
            i <= v@.len(),
            r@.len() == i,
            forall|x: int| 0 <= x < i ==> (#[trigger] r.deep_view()[x]) == v.deep_view()[x],
        decreases v@.len() - i,
    {
        let ghost pre = r@;
        let ghost predv = r.deep_view();
        let c = copy_lists(&v[i]);
        let ghost gcdv = c.deep_view();
        r.push(c);
        proof {
            assert forall|x: int| 0 <= x < i + 1 implies (#[trigger] r.deep_view()[x])
                == v.deep_view()[x] by {
                assert(r.deep_view()[x] == r@[x].deep_view());
                assert(v.deep_view()[x] == v@[x].deep_view());
                if x < i {
                    assert(r@[x] == pre[x]);
                    assert(predv[x] == pre[x].deep_view());
                } else {
                    assert(r@[x].deep_view() == gcdv);
                    assert(gcdv == v@[x].deep_view());
                }
            }
        }
        i = i + 1;
    }
    proof {
        assert(r.deep_view() =~= v.deep_view());
    }
    r
}

/// Replaces the list at element `s`, layer `layer`, leaving everything else
/// untouched.
pub fn set_list(nv: &mut Vec<Vec<Vec<usize>>>, s: usize, layer: usize, val: Vec<usize>)
    requires
        s < old(nv)@.len(),
        layer < old(nv)@[s as int]@.len(),
    ensures
        final(nv).deep_view() == old(nv).deep_view().update(
            s as int,
            old(nv).deep_view()[s as int].update(layer as int, val@),
        ),
        final(nv)@.len() == old(nv)@.len(),
        final(nv)@[s as int]@.len() == old(nv)@[s as int]@.len(),
{
    let ghost gval = val@;
    let row = &mut nv[s];
    row[layer] = val;
    proof {
        assert(nv.deep_view()[s as int] =~~= old(nv).deep_view()[s as int].update(
            layer as int,
            gval,
        ));
        assert(nv.deep_view() =~~= old(nv).deep_view().update(
            s as int,
            old(nv).deep_view()[s as int].update(layer as int, gval),
        ));
    }
}

} // verus!
