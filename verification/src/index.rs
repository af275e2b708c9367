use crate::codec::{
    elements_bytes, elements_version_mismatch, load_elements, load_topology, some_store_encodes,
    some_topology_encodes, topology_bytes, topology_version_mismatch,
};
use crate::errors::Error;
use crate::search::{complete_ranking, search_impl, sorted_pairs, valid_pairs};
use crate::store::{copy_i32_vec, ElementStore};
use crate::topology::GraphTopology;
use vstd::prelude::*;

verus! {

/// A read-only index: an element store together with a finalized graph
/// topology over its first `linked` elements.
pub struct Hnsw {
    /// The stored elements.
    pub store: ElementStore,
    /// The graph topology over the linked prefix of the store.
    pub topo: GraphTopology,
    /// How many elements the topology covers.
    pub linked: usize,
}

impl Hnsw {
    /// A valid index: well-formed store, and a well-formed topology over a
    /// prefix of it.
    pub open spec fn wf(&self) -> bool {
        &&& self.store.wf()
        &&& self.linked <= self.store@.len()
        &&& self.topo.wf(self.linked as nat)
    }

    /// The saved streams of a valid, fully linked index.
    pub open spec fn saves_to(h2: Hnsw, index: Seq<u8>, elements: Seq<u8>) -> bool {
        &&& h2.wf()
        &&& h2.linked == h2.store@.len()
        &&& index == topology_bytes(h2.topo, h2.linked as nat)
        &&& elements == elements_bytes(h2.store)
    }

    /// Rebuilds an index from its two saved byte streams.  Whatever it
    /// accepts is well-formed, fully linked, and re-serializes to exactly
    /// the given bytes; every pair of saved streams loads successfully; and
    /// an alien version tag, in either stream, is what returns
    /// `VersionMismatch`.
    pub fn load(index: &[u8], elements: &[u8]) -> (r: Result<Hnsw, Error>)
        ensures
            r matches Ok(h) ==> h.wf() && h.linked == h.store@.len() && topology_bytes(
                h.topo,
                h.linked as nat,
            ) == index@ && elements_bytes(h.store) == elements@,
            r matches Err(err) ==> (err == Error::CorruptData || err == Error::VersionMismatch),
            forall|h2: Hnsw| Self::saves_to(h2, index@, elements@) ==> r is Ok,
            r == Err::<Hnsw, Error>(Error::VersionMismatch) ==> (topology_version_mismatch(index@)
                || elements_version_mismatch(elements@)),
            topology_version_mismatch(index@) ==> r == Err::<Hnsw, Error>(Error::VersionMismatch),
            some_topology_encodes(index@) && elements_version_mismatch(elements@) ==> r == Err::<
                Hnsw,
                Error,
            >(Error::VersionMismatch),
    {
        let topo = match load_topology(index) {
            Ok(t) => t,
            Err(err) => {
                proof {
                    assert forall|h2: Hnsw| Self::saves_to(h2, index@, elements@) implies false by {
                        assert(some_topology_encodes(index@)) by {
                            reveal(some_topology_encodes);
                            assert(h2.topo.wf(h2.linked as nat) && h2.linked as nat <= usize::MAX
                                && index@ == topology_bytes(h2.topo, h2.linked as nat));
                        }
                    }
                }
                return Err(err);
            },
        };
        let store = match load_elements(elements) {
            Ok(s) => s,
            Err(err) => {
                proof {
                    assert forall|h2: Hnsw| Self::saves_to(h2, index@, elements@) implies false by {
                        assert(some_store_encodes(elements@)) by {
                            assert(h2.store.wf() && h2.store@.len() <= usize::MAX && elements@
                                == elements_bytes(h2.store));
                        }
                    }
                }
                return Err(err);
            },
        };
        let linked = topo.layers.len();
        if linked != store.len() {
            proof {
                assert forall|h2: Hnsw| Self::saves_to(h2, index@, elements@) implies false by {
                    crate::codec::lemma_topology_bytes_injective(
                        topo,
                        topo.layers@.len(),
                        h2.topo,
                        h2.linked as nat,
                    );
                    crate::codec::lemma_elements_bytes_injective(store, h2.store);
                }
            }
            return Err(Error::CorruptData);
        }
        Ok(Hnsw { store, topo, linked })
    }

    /// The current element count.
    pub fn len(&self) -> (n: usize)
        ensures
            n == self.store@.len(),
    {
        self.store.len()
    }

    /// Persistence round trip: two valid, fully linked indexes with the
    /// same two saved byte streams are the same index — so whatever a
    /// successful `load` of saved streams returns carries exactly the saved
    /// store and topology, and with them every later `search` and
    /// `get_element` result.
    pub proof fn lemma_round_trip_identity(h1: Hnsw, h2: Hnsw)
        requires
            h1.wf(),
            h2.wf(),
            h1.linked == h1.store@.len(),
            h2.linked == h2.store@.len(),
            topology_bytes(h1.topo, h1.linked as nat) == topology_bytes(
                h2.topo,
                h2.linked as nat,
            ),
            elements_bytes(h1.store) == elements_bytes(h2.store),
        ensures
            h1.store.dim == h2.store.dim,
            h1.store@ == h2.store@,
            h1.linked == h2.linked,
            h1.topo.m == h2.topo.m,
            h1.topo.entry_point == h2.topo.entry_point,
            h1.topo.max_layer == h2.topo.max_layer,
            h1.topo.layers@ == h2.topo.layers@,
            h1.topo.nbrs() == h2.topo.nbrs(),
    {
        crate::codec::lemma_topology_bytes_injective(
            h1.topo,
            h1.linked as nat,
            h2.topo,
            h2.linked as nat,
        );
        crate::codec::lemma_elements_bytes_injective(h1.store, h2.store);
    }

    /// The stored vector at `idx`, or `OutOfRange` past the end.
    pub fn get_element(&self, idx: usize) -> (r: Result<Vec<i32>, Error>)
        ensures
            idx < self.store@.len() ==> (r matches Ok(v) && v@ == self.store@[idx as int]),
            idx >= self.store@.len() ==> r == Err::<Vec<i32>, Error>(Error::OutOfRange),
    {
        if idx >= self.store.len() {
            return Err(Error::OutOfRange);
        }
        Ok(copy_i32_vec(self.store.get(idx)))
    }

    /// Approximate k-nearest-neighbour query: pairs of (element index,
    /// squared distance), in strictly ascending (distance, index) order.
    /// On an empty index the result is empty; with `k` at least the element
    /// count it is the exact complete ranking.
    pub fn search(&self, query: &Vec<i32>, k: usize, ef_search: usize) -> (r: Vec<(usize, u128)>)
        requires
            self.wf(),
            query@.len() == self.store.dim,
            k >= 1,
        ensures
            sorted_pairs(r@),
            valid_pairs(r@, self.store@, query@),
            r@.len() <= k,
            self.store@.len() == 0 ==> r@.len() == 0,
            self.store@.len() > 0 ==> r@.len() >= 1,
            k >= self.store@.len() ==> complete_ranking(r@, self.store@, query@),
    {
        search_impl(&self.store, &self.topo, self.linked, query, k, ef_search)
    }
}

} // verus!
