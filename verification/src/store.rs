use crate::metric::MAX_DIM;
use vstd::prelude::*;

verus! {

/// Append-only collection of equal-length vectors, addressed by dense index.
pub struct ElementStore {
    /// The shared vector length of every element.
    pub dim: usize,
    /// The elements, in insertion order.
    pub elements: Vec<Vec<i32>>,
}

impl View for ElementStore {
    type V = Seq<Seq<i32>>;

    open spec fn view(&self) -> Seq<Seq<i32>> {
        self.elements.deep_view()
    }
}

impl ElementStore {
    /// Every stored element has exactly `dim` coordinates.
    pub open spec fn wf(&self) -> bool {
        &&& self.dim <= MAX_DIM
        &&& forall|i: int| 0 <= i < self@.len() ==> (#[trigger] self@[i]).len() == self.dim
    }

    /// An empty store of the given dimension.
    pub fn new(dim: usize) -> (s: Self)
        requires
            dim <= MAX_DIM,
        ensures
            s.wf(),
            s.dim == dim,
            s@ =~= Seq::<Seq<i32>>::empty(),
    {
        let s = ElementStore { dim, elements: Vec::new() };
        proof {
            assert(s@ =~= Seq::<Seq<i32>>::empty());
        }
        s
    }

    /// The current element count.
    pub fn len(&self) -> (n: usize)
        ensures
            n == self@.len(),
    {
        self.elements.len()
    }

    /// Appends one element of the right length.
    pub fn push(&mut self, v: Vec<i32>)
        requires
            old(self).wf(),
            v@.len() == old(self).dim,
        ensures
            final(self).wf(),
            final(self).dim == old(self).dim,
            final(self)@ =~= old(self)@.push(v@),
    {
        let ghost gv = v@;
        self.elements.push(v);
        proof {
            assert(self@ =~= old(self)@.push(gv)) by {
                assert forall|i: int| 0 <= i < self@.len() implies
                    self@[i] == old(self)@.push(gv)[i] by {
                    if i < old(self)@.len() {
                        assert(self.elements@[i] == old(self).elements@[i]);
                    }
                }
            }
        }
    }

    /// Read-only access to the element at `i`.
    pub fn get(&self, i: usize) -> (r: &Vec<i32>)
        requires
            i < self@.len(),
        ensures
            r@ == self@[i as int],
    {
        let r = &self.elements[i];
        proof {
            assert(r@ =~= self@[i as int]);
        }
        r
    }
}

/// An element-wise copy of one vector.
#[verifier::loop_isolation(false)]
pub fn copy_i32_vec(v: &Vec<i32>) -> (r: Vec<i32>)
    ensures
        r@ == v@,
{
    let mut r: Vec<i32> = Vec::new();
    let mut i: usize = 0;
    while i < v.len()
        invariant
            i <= v@.len(),
            r@ =~= v@.subrange(0, i as int),
        decreases v@.len() - i,
    {
        r.push(v[i]);
        i = i + 1;
    }
    proof {
        assert(r@ =~= v@);
    }
    r
}

/// An element-wise copy of a whole store.
#[verifier::loop_isolation(false)]
pub fn copy_store(s: &ElementStore) -> (r: ElementStore)
    ensures
        r@ == s@,
        r.dim == s.dim,
{
    let mut elements: Vec<Vec<i32>> = Vec::new();
    let mut i: usize = 0;
    while i < s.elements.len()
        invariant
            i <= s.elements@.len(),
            elements@.len() == i,
            forall|x: int| 0 <= x < i ==> (#[trigger] elements.deep_view()[x])
                == s.elements.deep_view()[x],
        decreases s.elements@.len() - i,
    {
        let ghost pre = elements@;
        let ghost predv = elements.deep_view();
        let c = copy_i32_vec(&s.elements[i]);
        let ghost gc = c@;
        elements.push(c);
        proof {
            assert forall|x: int| 0 <= x < i + 1 implies (#[trigger] elements.deep_view()[x])
                == s.elements.deep_view()[x] by {
                assert(elements.deep_view()[x] == elements@[x].deep_view());
                assert(s.elements.deep_view()[x] == s.elements@[x].deep_view());
                if x < i {
                    assert(elements@[x] == pre[x]);
                    assert(predv[x] == pre[x].deep_view());
                } else {
                    assert(elements@[x]@ == gc);
                    assert(gc == s.elements@[i as int]@);
                    assert(elements@[x].deep_view() =~= elements@[x]@);
                    assert(s.elements@[x].deep_view() =~= s.elements@[x]@);
                }
            }
        }
        i = i + 1;
    }
    let r = ElementStore { dim: s.dim, elements };
    proof {
        assert(r@ =~= s@);
    }
    r
}

} // verus!
