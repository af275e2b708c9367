use crate::errors::Error;
use crate::index::Hnsw;
use crate::metric::{distance, spec_dist};
use crate::search::{contains_idx, insert_pair, search_layer, descend_layer, sorted_pairs};
use crate::store::{copy_store, ElementStore};
use crate::topology::{copy_nested, copy_usize_vec, layer_cap, set_list, GraphTopology, MAX_LAYER};
use vstd::prelude::*;

verus! {

/// Immutable build parameters.
#[derive(Clone, Copy)]
pub struct Config {
    /// Maximal neighbour-list size per layer (`2 * num_neighbors` at layer 0).
    pub num_neighbors: usize,
    /// Candidate-list width during construction.
    pub ef_construction: usize,
    /// Seed of the deterministic layer-assignment draw.
    pub layer_seed: u64,
}

impl Config {
    /// Acceptable build parameters: the layer-sampling rate and the list
    /// caps need `num_neighbors` of at least 2, and a positive search width.
    pub open spec fn wf(&self) -> bool {
        &&& 2 <= self.num_neighbors <= 0x1000_0000
        &&& 1 <= self.ef_construction
    }
}

/// Every list of `s` holds at most `m` entries, all below `count`.
pub open spec fn index_lists_ok(s: Seq<Seq<usize>>, m: nat, count: nat) -> bool {
    forall|x: int|
        0 <= x < s.len() ==> (#[trigger] s[x]).len() <= m && (forall|y: int|
            0 <= y < s[x].len() ==> (#[trigger] s[x][y]) < count)
}

/// Advances a xorshift state and returns the fresh draw.
fn next_u64(state: &mut u64) -> (r: u64) {
    let mut x = *state;
    if x == 0 {
        x = 0x9E37_79B9_7F4A_7C15;
    }
    x = x ^ (x << 13u64);
    x = x ^ (x >> 7u64);
    x = x ^ (x << 17u64);
    *state = x;
    x
}

/// Draws a layer from the geometric distribution with rate `1/m` (the
/// discrete analogue of the exponential assignment with normalization
/// `1/ln(m)`), capped at `MAX_LAYER`.
#[verifier::loop_isolation(false)]
fn next_layer(state: &mut u64, m: usize) -> (l: usize)
    requires
        m >= 2,
    ensures
        l <= MAX_LAYER,
{
    let mut l: usize = 0;
    while l < MAX_LAYER
        invariant
            l <= MAX_LAYER,
        decreases MAX_LAYER - l,
    {
        let r = next_u64(state);
        if r % (m as u64) != 0 {
            break;
        }
        l = l + 1;
    }
    l
}

/// Does some pair of `pairs` carry the element index `idx`?
#[verifier::loop_isolation(false)]
pub fn contains_index(pairs: &Vec<(usize, u128)>, idx: usize) -> (b: bool)
    ensures
        b == contains_idx(pairs@, idx as int),
{
    let mut i: usize = 0;
    while i < pairs.len()
        invariant
            i <= pairs@.len(),
            forall|t: int| 0 <= t < i ==> (#[trigger] pairs@[t]).0 != idx,
        decreases pairs@.len() - i,
    {
        if pairs[i].0 == idx {
            proof {
                assert(pairs@[i as int].0 == idx);
                assert(contains_idx(pairs@, idx as int));
            }
            return true;
        }
        i = i + 1;
    }
    false
}

/// A candidate is diverse with respect to the kept list when it lies
/// strictly closer to the base element than to every already-kept
/// candidate.
pub open spec fn diverse(elems: Seq<Seq<i32>>, kept: Seq<usize>, c: usize, dc: u128) -> bool {
    forall|t: int|
        0 <= t < kept.len() ==> dc < spec_dist(elems[c as int], elems[(#[trigger] kept[t]) as int])
}

/// The diversity-aware pruning rule over the candidates from position `i`
/// on, with `kept` already selected: scanning candidates by ascending
/// distance, a candidate is kept only while fewer than `max_keep` are kept
/// and it is diverse with respect to the kept list.
pub open spec fn spec_select_from(
    elems: Seq<Seq<i32>>,
    cands: Seq<(usize, u128)>,
    max_keep: nat,
    kept: Seq<usize>,
    i: nat,
) -> Seq<usize>
    decreases cands.len() - i,
{
    if i >= cands.len() || kept.len() >= max_keep {
        kept
    } else {
        let kept2 = if diverse(elems, kept, cands[i as int].0, cands[i as int].1) {
            kept.push(cands[i as int].0)
        } else {
            kept
        };
        spec_select_from(elems, cands, max_keep, kept2, i + 1)
    }
}

/// What the pruning rule selects from a whole candidate list.
pub open spec fn spec_select(elems: Seq<Seq<i32>>, cands: Seq<(usize, u128)>, max_keep: nat) -> Seq<
    usize,
> {
    spec_select_from(elems, cands, max_keep, Seq::empty(), 0)
}

/// The diversity-aware pruning rule of the construction algorithm,
/// computed exactly as `spec_select` states it.
#[verifier::loop_isolation(false)]
pub fn select_neighbors(
    store: &ElementStore,
    cands: &Vec<(usize, u128)>,
    max_keep: usize,
    count: usize,
) -> (r: Vec<usize>)
    requires
        store.wf(),
        count <= store@.len(),
        forall|i: int| 0 <= i < cands@.len() ==> (#[trigger] cands@[i]).0 < count,
    ensures
        r@ == spec_select(store@, cands@, max_keep as nat),
        r@.len() <= max_keep,
        forall|i: int| 0 <= i < r@.len() ==> (#[trigger] r@[i]) < count,
{
    let mut kept: Vec<usize> = Vec::new();
    let mut i: usize = 0;
    while i < cands.len() && kept.len() < max_keep
        invariant
            i <= cands@.len(),
            kept@.len() <= max_keep,
            forall|x: int| 0 <= x < kept@.len() ==> (#[trigger] kept@[x]) < count,
            spec_select_from(store@, cands@, max_keep as nat, kept@, i as nat) == spec_select(
                store@,
                cands@,
                max_keep as nat,
            ),
        decreases cands@.len() - i,
    {
        let c = cands[i].0;
        let dc = cands[i].1;
        let cvec = store.get(c);
        let mut is_diverse = true;
        let mut t: usize = 0;
        while t < kept.len()
            invariant
                t <= kept@.len(),
                c < count,
                cvec@ == store@[c as int],
                forall|x: int| 0 <= x < kept@.len() ==> (#[trigger] kept@[x]) < count,
                is_diverse == (forall|x: int|
                    0 <= x < t ==> dc < spec_dist(
                        store@[c as int],
                        store@[(#[trigger] kept@[x]) as int],
                    )),
            decreases kept@.len() - t,
        {
            let kc = kept[t];
            let d2 = distance(cvec, store.get(kc));
            if d2 <= dc {
                is_diverse = false;
            }
            t = t + 1;
        }
        proof {
            assert(is_diverse == diverse(store@, kept@, c, dc));
        }
        if is_diverse {
            kept.push(c);
        }
        i = i + 1;
    }
    proof {
        assert(spec_select_from(store@, cands@, max_keep as nat, kept@, i as nat) == kept@);
    }
    kept
}

/// Owns the growing store and topology and runs the layered-insertion
/// algorithm.
pub struct HnswBuilder {
    /// The build parameters.
    pub config: Config,
    /// The stored elements, linked and still-buffered ones alike.
    pub store: ElementStore,
    /// The graph topology over the first `linked` elements.
    pub topo: GraphTopology,
    /// How many elements have been linked into the graph.
    pub linked: usize,
    /// The layer-assignment draw state.
    pub rng_state: u64,
}

impl HnswBuilder {
    /// A valid builder: well-formed store and parameters, and a well-formed
    /// topology over the linked prefix.
    pub open spec fn wf(&self) -> bool {
        &&& self.config.wf()
        &&& self.store.wf()
        &&& self.linked <= self.store@.len()
        &&& self.topo.wf(self.linked as nat)
        &&& self.topo.m == self.config.num_neighbors
    }

    /// A fresh builder of the given dimension.
    pub fn new(config: Config, dim: usize) -> (b: Self)
        requires
            config.wf(),
            dim <= crate::metric::MAX_DIM,
        ensures
            b.wf(),
            b.config == config,
            b.store.dim == dim,
            b.store@.len() == 0,
            b.linked == 0,
    {
        HnswBuilder {
            config,
            store: ElementStore::new(dim),
            topo: GraphTopology::empty(config.num_neighbors),
            linked: 0,
            rng_state: config.layer_seed,
        }
    }

    /// A builder over an existing store; the elements are linked on the next
    /// `build`.
    pub fn with_elements(config: Config, store: ElementStore) -> (b: Self)
        requires
            config.wf(),
            store.wf(),
        ensures
            b.wf(),
            b.config == config,
            b.store == store,
            b.linked == 0,
    {
        HnswBuilder {
            config,
            store,
            topo: GraphTopology::empty(config.num_neighbors),
            linked: 0,
            rng_state: config.layer_seed,
        }
    }

    /// The current element count.
    pub fn len(&self) -> (n: usize)
        ensures
            n == self.store@.len(),
    {
        self.store.len()
    }

    /// Buffers one element for the next `build`.  A vector of the wrong
    /// length is rejected with `DimensionMismatch` and nothing changes.
    pub fn add(&mut self, element: Vec<i32>) -> (r: Result<usize, Error>)
        requires
            old(self).wf(),
        ensures
            final(self).wf(),
            element@.len() == old(self).store.dim ==> (r matches Ok(idx) && idx
                == old(self).store@.len() && final(self).store@ == old(self).store@.push(element@)
                && final(self).store.dim == old(self).store.dim && final(self).topo
                == old(self).topo && final(self).linked == old(self).linked && final(self).config
                == old(self).config && final(self).rng_state == old(self).rng_state),
            element@.len() != old(self).store.dim ==> (r == Err::<usize, Error>(
                Error::DimensionMismatch,
            ) && *final(self) == *old(self)),
    {
        if element.len() != self.store.dim {
            return Err(Error::DimensionMismatch);
        }
        let idx = self.store.len();
        self.store.push(element);
        Ok(idx)
    }

    /// What the store holds after offering `inputs` in order: a vector of
    /// the index dimension is appended, any other is rejected without
    /// mutation — exactly the step that each `add` call takes, by its
    /// contract.
    pub open spec fn store_after_adds(
        start: Seq<Seq<i32>>,
        dim: nat,
        inputs: Seq<Seq<i32>>,
    ) -> Seq<Seq<i32>>
        decreases inputs.len(),
    {
        if inputs.len() == 0 {
            start
        } else {
            let next = if inputs[0].len() == dim {
                start.push(inputs[0])
            } else {
                start
            };
            Self::store_after_adds(next, dim, inputs.drop_first())
        }
    }

    /// A run of adds of right-length vectors appends exactly those vectors
    /// in order: afterwards the count has grown by the number of adds and
    /// the vector added at position `i` sits at index `start.len() + i`.
    /// `build` preserves the store and `len` / `get_element` read it, so
    /// the same holds of the built index.
    pub proof fn lemma_adds_append_in_order(start: Seq<Seq<i32>>, dim: nat, inputs: Seq<Seq<i32>>)
        requires
            forall|i: int| 0 <= i < inputs.len() ==> (#[trigger] inputs[i]).len() == dim,
        ensures
            Self::store_after_adds(start, dim, inputs) == start + inputs,
            Self::store_after_adds(start, dim, inputs).len() == start.len() + inputs.len(),
            forall|i: int|
                0 <= i < inputs.len() ==> Self::store_after_adds(start, dim, inputs)[start.len()
                    + i] == inputs[i],
        decreases inputs.len(),
    {
        if inputs.len() == 0 {
            assert(start + inputs =~= start);
        } else {
            assert(inputs[0].len() == dim);
            assert forall|i: int|
                0 <= i < inputs.drop_first().len() implies (#[trigger] inputs.drop_first()[i]).len()
                == dim by {
                assert(inputs.drop_first()[i] == inputs[i + 1]);
            }
            Self::lemma_adds_append_in_order(start.push(inputs[0]), dim, inputs.drop_first());
            assert(start.push(inputs[0]) + inputs.drop_first() =~= start + inputs);
        }
    }

    /// Links every still-buffered element into the graph, in insertion
    /// order.  With nothing buffered this changes nothing at all, so a
    /// repeated `build` leaves the builder — and hence every later query —
    /// exactly as it was.
    pub fn build(&mut self)
        requires
            old(self).wf(),
        ensures
            final(self).wf(),
            final(self).store == old(self).store,
            final(self).config == old(self).config,
            final(self).linked == old(self).store@.len(),
            old(self).linked == old(self).store@.len() ==> *final(self) == *old(self),
            final(self).topo.layers@.subrange(0, old(self).linked as int) == old(
                self,
            ).topo.layers@,
    {
        proof {
            assert(self.topo.layers@.subrange(0, self.linked as int) =~= self.topo.layers@);
        }
        if self.linked == self.store.len() {
            return ;
        }
        while self.linked < self.store.len()
            invariant
                self.wf(),
                self.store == old(self).store,
                self.config == old(self).config,
                self.linked >= old(self).linked,
                self.topo.layers@.subrange(0, old(self).linked as int) == old(self).topo.layers@,
            decreases self.store@.len() - self.linked,
        {
            let ghost pre = self.topo.layers@;
            self.insert_element();
            proof {
                assert(self.topo.layers@.subrange(0, old(self).linked as int) =~= pre.subrange(
                    0,
                    old(self).linked as int,
                ));
            }
        }
    }

    /// Links element `linked` into the graph: draws its layer, descends from
    /// the entry point, gathers candidates per layer, selects diverse
    /// neighbours, links them bidirectionally (re-pruning overfull lists),
    /// and promotes the element to entry point when its layer is a new
    /// maximum.
    #[verifier::loop_isolation(false)]
    fn insert_element(&mut self)
        requires
            old(self).wf(),
            old(self).linked < old(self).store@.len(),
        ensures
            final(self).wf(),
            final(self).linked == old(self).linked + 1,
            final(self).store == old(self).store,
            final(self).config == old(self).config,
            final(self).topo.layers@.len() == old(self).topo.layers@.len() + 1,
            final(self).topo.layers@.subrange(0, old(self).topo.layers@.len() as int) == old(
                self,
            ).topo.layers@,
    {
        let e = self.linked;
        let total = self.store.len();
        let m = self.config.num_neighbors;
        let new_layer = next_layer(&mut self.rng_state, m);
        proof {
            assert(e < total);
        }
        if e == 0 {
            self.topo.max_layer = new_layer;
            self.topo.entry_point = 0;
            self.topo.layers.push(new_layer);
            let mut lists: Vec<Vec<usize>> = Vec::new();
            let mut l: usize = 0;
            while l < new_layer + 1
                invariant
                    l <= new_layer + 1,
                    lists@.len() == l,
                    forall|x: int| 0 <= x < l ==> (#[trigger] lists.deep_view()[x]).len() == 0,
                decreases new_layer + 1 - l,
            {
                let ghost pre = lists@;
                let ghost predv = lists.deep_view();
                lists.push(Vec::new());
                proof {
                    assert forall|x: int| 0 <= x < l + 1 implies (
                    #[trigger] lists.deep_view()[x]).len() == 0 by {
                        assert(lists.deep_view()[x] == lists@[x].deep_view());
                        if x < l {
                            assert(lists@[x] == pre[x]);
                            assert(predv[x] == pre[x].deep_view());
                        } else {
                            assert(lists@[x]@.len() == 0);
                        }
                    }
                }
                l = l + 1;
            }
            let ghost glists_dv = lists.deep_view();
            proof {
                assert(glists_dv.len() == lists@.len());
            }
            self.topo.neighbors.push(lists);
            self.linked = 1;
            proof {
                assert(self.topo.nbrs().len() == 1);
                assert(self.topo.nbrs()[0] == self.topo.neighbors@[0].deep_view());
                assert(self.topo.neighbors@[0].deep_view() == glists_dv);
                assert(self.topo.nbrs()[0].len() == new_layer + 1);
                assert forall|l2: int| 0 <= l2 < self.topo.nbrs()[0].len() implies (
                #[trigger] self.topo.nbrs()[0][l2]).len() == 0 by {
                    assert(self.topo.nbrs()[0][l2] == glists_dv[l2]);
                }
                assert(self.topo.layers@.subrange(0, old(self).topo.layers@.len() as int) =~= old(
                    self,
                ).topo.layers@);
            }
            return ;
        }
        // the graph already has elements 0 .. e; find per-layer candidates
        let q = self.store.get(e);
        let mut ep = self.topo.entry_point;
        let top = self.topo.max_layer;
        let lcap = if new_layer < top {
            new_layer
        } else {
            top
        };
        let mut l = top;
        while l > lcap
            invariant
                ep < e,
                lcap <= l,
            decreases l,
        {
            ep = descend_layer(&self.store, &self.topo, e, q, ep, l);
            l = l - 1;
        }
        let mut selected: Vec<Vec<usize>> = Vec::new();
        let mut li: usize = lcap + 1;
        while li > 0
            invariant
                ep < e,
                li <= lcap + 1,
                selected@.len() == lcap + 1 - li,
                index_lists_ok(selected.deep_view(), m as nat, e as nat),
            decreases li,
    {
            let layer = li - 1;
            let cands = search_layer(
                &self.store,
                &self.topo,
                e,
                q,
                ep,
                layer,
                self.config.ef_construction,
            );
            ep = cands[0].0;
            let sel = select_neighbors(&self.store, &cands, m, e);
            proof {
                assert(sel.deep_view() =~= sel@);
            }
            let ghost gsel = sel@;
            let ghost gsel_dv = sel.deep_view();
            let ghost pre_sel = selected@;
            let ghost pre_sel_dv = selected.deep_view();
            selected.push(sel);
            proof {
                assert forall|x: int|
                    0 <= x < selected.deep_view().len() implies (#[trigger] selected.deep_view()[x]).len()
                    <= m && (forall|y: int|
                    0 <= y < selected.deep_view()[x].len() ==> (#[trigger] selected.deep_view()[x][y])
                        < e) by {
                    assert(selected.deep_view()[x] == selected@[x].deep_view());
                    if x < pre_sel.len() {
                        assert(selected@[x] == pre_sel[x]);
                        assert(pre_sel_dv[x] == pre_sel[x].deep_view());
                        assert(pre_sel_dv[x].len() <= m);
                    } else {
                        assert(selected@[x].deep_view() == gsel_dv);
                        assert(gsel_dv == gsel);
                    }
                }
            }
            li = li - 1;
        }
        // extend the structure with element e and its per-layer lists
        let ghost pre_layers = self.topo.layers@;
        let ghost pre_nbrs = self.topo.nbrs();
        self.topo.layers.push(new_layer);
        let mut lists: Vec<Vec<usize>> = Vec::new();
        let mut l2: usize = 0;
        while l2 < new_layer + 1
            invariant
                l2 <= new_layer + 1,
                lists@.len() == l2,
                selected@.len() == lcap + 1,
                index_lists_ok(selected.deep_view(), m as nat, e as nat),
                index_lists_ok(lists.deep_view(), m as nat, e as nat),
            decreases new_layer + 1 - l2,
        {
            let val: Vec<usize> = if l2 <= lcap {
                copy_usize_vec(&selected[lcap - l2])
            } else {
                Vec::new()
            };
            proof {
                if l2 <= lcap {
                    assert(selected.deep_view()[lcap - l2] == selected@[lcap - l2].deep_view());
                    assert(selected@[lcap - l2].deep_view() =~= selected@[lcap - l2]@);
                    assert(selected.deep_view()[lcap - l2].len() <= m);
                }
            }
            let ghost gval = val@;
            let ghost pre = lists@;
            let ghost predv = lists.deep_view();
            lists.push(val);
            proof {
                assert forall|x: int|
                    0 <= x < lists.deep_view().len() implies ((#[trigger] lists.deep_view()[x]).len()
                    <= m && (forall|y: int|
                    0 <= y < lists.deep_view()[x].len() ==> (#[trigger] lists.deep_view()[x][y]) < e))
                    by {
                    assert(lists.deep_view()[x] == lists@[x].deep_view());
                    if x < pre.len() {
                        assert(lists@[x] == pre[x]);
                        assert(predv[x] == pre[x].deep_view());
                        assert(predv[x].len() <= m);
                    } else {
                        assert(lists@[x].deep_view() =~= gval);
                    }
                }
            }
            l2 = l2 + 1;
        }
        let ghost glists_dv = lists.deep_view();
        proof {
            assert(glists_dv.len() == lists@.len());
        }
        self.topo.neighbors.push(lists);
        proof {
            assert(self.topo.layers@ == pre_layers.push(new_layer as usize));
            assert(self.topo.neighbors@[e as int].deep_view() == glists_dv);
            assert(self.topo.nbrs() =~= pre_nbrs.push(glists_dv)) by {
                assert forall|x: int| 0 <= x < self.topo.nbrs().len() implies
                    self.topo.nbrs()[x] == pre_nbrs.push(glists_dv)[x] by {
                    assert(self.topo.nbrs()[x] == self.topo.neighbors@[x].deep_view());
                    if x < e {
                        assert(self.topo.neighbors@[x] == old(self).topo.neighbors@[x]);
                        assert(pre_nbrs[x] == old(self).topo.neighbors@[x].deep_view());
                    }
                }
            }
            assert(self.topo.nbrs()[e as int].len() == new_layer + 1);
            assert forall|x: int, ll: int|
                0 <= x < e + 1 && 0 <= ll < self.topo.nbrs()[x].len() implies (
            #[trigger] self.topo.nbrs()[x][ll]).len() <= layer_cap(ll, m as nat) && (forall|y: int|
                0 <= y < self.topo.nbrs()[x][ll].len() ==> (#[trigger] self.topo.nbrs()[x][ll][y]) < e
                    + 1) by {
                if x < e {
                    assert(self.topo.nbrs()[x] == pre_nbrs[x]);
                    assert(pre_nbrs[x][ll].len() <= layer_cap(ll, m as nat));
                } else {
                    assert(self.topo.nbrs()[x][ll] == glists_dv[ll]);
                    assert(glists_dv[ll].len() <= m);
                }
            }
            assert(self.topo.lists_wf((e + 1) as nat));
        }
        // link back: append e to each selected neighbour's list, re-pruning
        // overfull lists
        let mut li2: usize = lcap + 1;
        while li2 > 0
            invariant
                li2 <= lcap + 1,
                selected@.len() == lcap + 1,
                index_lists_ok(selected.deep_view(), m as nat, e as nat),
                self.topo.lists_wf((e + 1) as nat),
                self.topo.m == m,
                self.topo.layers@ == pre_layers.push(new_layer as usize),
                self.topo.entry_point == old(self).topo.entry_point,
                self.topo.max_layer == old(self).topo.max_layer,
                self.store == old(self).store,
                self.config == old(self).config,
                self.linked == old(self).linked,
            decreases li2,
        {
            let layer = li2 - 1;
            let sel = &selected[lcap - layer];
            proof {
                assert(sel.deep_view() =~= sel@);
                assert(sel.deep_view() == selected.deep_view()[lcap - layer]);
            }
            let mut si: usize = 0;
            while si < sel.len()
                invariant
                    si <= sel@.len(),
                    forall|x: int| 0 <= x < sel@.len() ==> (#[trigger] sel@[x]) < e,
                    self.topo.lists_wf((e + 1) as nat),
                    self.topo.m == m,
                    self.topo.layers@ == pre_layers.push(new_layer as usize),
                    self.topo.entry_point == old(self).topo.entry_point,
                    self.topo.max_layer == old(self).topo.max_layer,
                    self.store == old(self).store,
                    self.config == old(self).config,
                    self.linked == old(self).linked,
                decreases sel@.len() - si,
            {
                let s = sel[si];
                if layer <= self.topo.layers[s] {
                    self.link_back(s, layer, e);
                }
                si = si + 1;
            }
            li2 = li2 - 1;
        }
        // a new maximal layer promotes e to entry point
        if new_layer > top {
            self.topo.entry_point = e;
            self.topo.max_layer = new_layer;
        }
        self.linked = e + 1;
        proof {
            assert forall|x: int| 0 <= x < e + 1 implies #[trigger] self.topo.layers@[x]
                <= self.topo.max_layer by {
                if x < e {
                    assert(self.topo.layers@[x] == pre_layers[x]);
                }
            }
            if new_layer <= top {
                assert(self.topo.layers@[self.topo.entry_point as int]
                    == pre_layers[old(self).topo.entry_point as int]);
            }
            assert(self.topo.wf((e + 1) as nat));
            assert(self.topo.layers@.subrange(0, old(self).topo.layers@.len() as int) =~= old(
                self,
            ).topo.layers@);
        }
    }

    /// Appends `e` to the list of element `s` at `layer`, re-running the
    /// pruning rule when the list would exceed its cap.
    #[verifier::loop_isolation(false)]
    fn link_back(&mut self, s: usize, layer: usize, e: usize)
        requires
            old(self).config.wf(),
            old(self).store.wf(),
            old(self).topo.lists_wf((e + 1) as nat),
            old(self).topo.m == old(self).config.num_neighbors,
            e < old(self).store@.len(),
            s < e + 1,
            layer <= old(self).topo.layers@[s as int],
        ensures
            final(self).topo.lists_wf((e + 1) as nat),
            final(self).topo.m == old(self).topo.m,
            final(self).topo.layers@ == old(self).topo.layers@,
            final(self).topo.entry_point == old(self).topo.entry_point,
            final(self).topo.max_layer == old(self).topo.max_layer,
            final(self).store == old(self).store,
            final(self).config == old(self).config,
            final(self).linked == old(self).linked,
            final(self).rng_state == old(self).rng_state,
    {
        let m = self.config.num_neighbors;
        let total = self.store.len();
        proof {
            assert(e < total);
            assert(self.topo.neighbors@.len() == self.topo.nbrs().len());
            assert(self.topo.nbrs()[s as int].len() == self.topo.layers@[s as int] + 1);
        }
        let row = &self.topo.neighbors[s];
        proof {
            assert(row.deep_view() == self.topo.nbrs()[s as int]);
            assert(row@.len() == row.deep_view().len());
        }
        let cell = &row[layer];
        proof {
            assert(cell.deep_view() =~= cell@);
            assert(cell@ == self.topo.nbrs()[s as int][layer as int]);
            assert forall|x: int| 0 <= x < cell@.len() implies (#[trigger] cell@[x]) < e + 1 by {
                assert(self.topo.nbrs()[s as int][layer as int][x] < e + 1);
            }
        }
        let mut newlist = copy_usize_vec(cell);
        newlist.push(e);
        let cap_l = if layer == 0 {
            2 * m
        } else {
            m
        };
        if newlist.len() > cap_l {
            // rebuild the list from scratch with the pruning rule, over the
            // old entries and e, ranked by distance to s
            let base = self.store.get(s);
            let mut pairs: Vec<(usize, u128)> = Vec::new();
            let mut pi: usize = 0;
            while pi < newlist.len()
                invariant
                    pi <= newlist@.len(),
                    sorted_pairs(pairs@),
                    forall|x: int| 0 <= x < newlist@.len() ==> (#[trigger] newlist@[x]) < e + 1,
                    forall|x: int| 0 <= x < pairs@.len() ==> (#[trigger] pairs@[x]).0 < e + 1,
                    base@ == self.store@[s as int],
                decreases newlist@.len() - pi,
            {
                let cidx = newlist[pi];
                if !contains_index(&pairs, cidx) {
                    let ghost pre = pairs@;
                    let dc = distance(base, self.store.get(cidx));
                    proof {
                        assert forall|x: int| 0 <= x < pairs@.len() implies (#[trigger] pairs@[x]).0
                            != cidx by {
                            if pairs@[x].0 == cidx {
                                assert(contains_idx(pairs@, cidx as int));
                            }
                        }
                    }
                    insert_pair(&mut pairs, (cidx, dc));
                    proof {
                        assert forall|x: int| 0 <= x < pairs@.len() implies (#[trigger] pairs@[x]).0
                            < e + 1 by {
                            if pairs@[x] != (cidx, dc) {
                                assert(pre.contains(pairs@[x]));
                                let w = choose|w: int| 0 <= w < pre.len() && pre[w] == pairs@[x];
                                assert(pre[w].0 < e + 1);
                            }
                        }
                    }
                }
                pi = pi + 1;
            }
            let pruned = select_neighbors(&self.store, &pairs, cap_l, e + 1);
            newlist = pruned;
        }
        let ghost pre_nbrs = self.topo.nbrs();
        let ghost gnew = newlist@;
        proof {
            assert(gnew.len() <= layer_cap(layer as int, m as nat));
            assert(forall|y: int| 0 <= y < gnew.len() ==> (#[trigger] gnew[y]) < e + 1);
        }
        set_list(&mut self.topo.neighbors, s, layer, newlist);
        proof {
            assert forall|x: int, ll: int|
                0 <= x < e + 1 && 0 <= ll < self.topo.nbrs()[x].len() implies (
            #[trigger] self.topo.nbrs()[x][ll]).len() <= layer_cap(ll, m as nat) && (forall|y: int|
                0 <= y < self.topo.nbrs()[x][ll].len() ==> (#[trigger] self.topo.nbrs()[x][ll][y])
                    < e + 1) by {
                if x != s || ll != layer {
                    assert(self.topo.nbrs()[x][ll] == pre_nbrs[x][ll]);
                }
            }
            assert forall|x: int| 0 <= x < e + 1 implies (#[trigger] self.topo.nbrs()[x]).len()
                == self.topo.layers@[x] + 1 by {
                if x != s {
                    assert(self.topo.nbrs()[x] == pre_nbrs[x]);
                }
            }
            assert(self.topo.lists_wf((e + 1) as nat));
        }
    }

    /// A read-only snapshot of the current, possibly partially linked state.
    pub fn get_index(&self) -> (h: Hnsw)
        requires
            self.wf(),
        ensures
            h.wf(),
            h.store@ == self.store@,
            h.store.dim == self.store.dim,
            h.linked == self.linked,
            h.topo.m == self.topo.m,
            h.topo.entry_point == self.topo.entry_point,
            h.topo.max_layer == self.topo.max_layer,
            h.topo.layers@ == self.topo.layers@,
            h.topo.nbrs() == self.topo.nbrs(),
    {
        Hnsw {
            store: copy_store(&self.store),
            topo: GraphTopology {
                m: self.topo.m,
                entry_point: self.topo.entry_point,
                max_layer: self.topo.max_layer,
                layers: copy_usize_vec(&self.topo.layers),
                neighbors: copy_nested(&self.topo.neighbors),
            },
            linked: self.linked,
        }
    }
}

} // verus!
