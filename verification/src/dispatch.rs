use crate::builder::{Config, HnswBuilder};
use crate::store::ElementStore;
use crate::codec::{encode_elements, encode_topology, topology_bytes};
use crate::errors::Error;
use crate::index::Hnsw;
use crate::search::{complete_ranking, sorted_pairs, valid_pairs};
use vstd::prelude::*;

verus! {

/// The closed menu of supported vector dimensions.
pub open spec fn spec_dimension_in_menu(dim: int) -> bool {
    ||| dim == 2
    ||| dim == 3
    ||| dim == 4
    ||| dim == 5
    ||| dim == 6
    ||| dim == 7
    ||| dim == 8
    ||| dim == 9
    ||| dim == 10
    ||| dim == 12
    ||| dim == 15
    ||| dim == 16
    ||| dim == 20
    ||| dim == 25
    ||| dim == 30
    ||| dim == 32
    ||| dim == 50
    ||| dim == 60
    ||| dim == 64
    ||| dim == 96
    ||| dim == 100
    ||| dim == 128
    ||| dim == 200
    ||| dim == 256
    ||| dim == 300
}

/// The scalar types the dispatch layer knows.
#[derive(Clone, Copy, Debug, PartialEq, Eq, Structural)]
pub enum ScalarType {
    /// Fixed-point 32-bit integer scalars.
    I32,
}

/// Decides menu membership of a dimension.
pub fn dimension_in_menu(dim: usize) -> (b: bool)
    ensures
        b == spec_dimension_in_menu(dim as int),
{
    dim == 2 || dim == 3 || dim == 4 || dim == 5 || dim == 6 || dim == 7 || dim == 8 || dim == 9
        || dim == 10 || dim == 12 || dim == 15 || dim == 16 || dim == 20 || dim == 25 || dim == 30
        || dim == 32 || dim == 50 || dim == 60 || dim == 64 || dim == 96 || dim == 100 || dim
        == 128 || dim == 200 || dim == 256 || dim == 300
}

/// The uniform read-only interface over a specialized index.
pub trait SearchIndex {
    /// The implementation's validity invariant.
    spec fn inv(&self) -> bool;

    /// The stored elements.
    spec fn elems(&self) -> Seq<Seq<i32>>;

    /// The index dimension.
    spec fn dim(&self) -> usize;

    /// The current element count.
    fn len(&self) -> (n: usize)
        requires
            self.inv(),
        ensures
            n == self.elems().len(),
    ;

    /// The stored vector at `idx`, or `OutOfRange` past the end.
    fn get_element(&self, idx: usize) -> (r: Result<Vec<i32>, Error>)
        requires
            self.inv(),
        ensures
            idx < self.elems().len() ==> (r matches Ok(v) && v@ == self.elems()[idx as int]),
            idx >= self.elems().len() ==> r == Err::<Vec<i32>, Error>(Error::OutOfRange),
    ;

    /// Approximate k-nearest-neighbour query.
    fn search(&self, query: &Vec<i32>, k: usize, ef_search: usize) -> (r: Vec<(usize, u128)>)
        requires
            self.inv(),
            query@.len() == self.dim(),
            k >= 1,
        ensures
            sorted_pairs(r@),
            valid_pairs(r@, self.elems(), query@),
            r@.len() <= k,
            self.elems().len() == 0 ==> r@.len() == 0,
            self.elems().len() > 0 ==> r@.len() >= 1,
            k >= self.elems().len() ==> complete_ranking(r@, self.elems(), query@),
    ;
}

impl SearchIndex for Hnsw {
    open spec fn inv(&self) -> bool {
        self.wf()
    }

    open spec fn elems(&self) -> Seq<Seq<i32>> {
        self.store@
    }

    open spec fn dim(&self) -> usize {
        self.store.dim
    }

    fn len(&self) -> (n: usize) {
        Hnsw::len(self)
    }

    fn get_element(&self, idx: usize) -> (r: Result<Vec<i32>, Error>) {
        Hnsw::get_element(self, idx)
    }

    fn search(&self, query: &Vec<i32>, k: usize, ef_search: usize) -> (r: Vec<(usize, u128)>) {
        Hnsw::search(self, query, k, ef_search)
    }
}

/// The uniform mutable interface over a specialized builder.
pub trait IndexBuilder: Sized {
    /// The implementation's validity invariant.
    spec fn inv(&self) -> bool;

    /// The stored elements.
    spec fn elems(&self) -> Seq<Seq<i32>>;

    /// The index dimension.
    spec fn dim(&self) -> usize;

    /// Whether every stored element is linked into the graph.
    spec fn built(&self) -> bool;

    /// The topology byte stream of the current state.
    spec fn index_bytes_spec(&self) -> Seq<u8>;

    /// The elements byte stream of the current state.
    spec fn elements_bytes_spec(&self) -> Seq<u8>;

    /// Buffers one element; rejects a wrong-length vector unchanged.
    fn add(&mut self, element: Vec<i32>) -> (r: Result<usize, Error>)
        requires
            old(self).inv(),
        ensures
            final(self).inv(),
            final(self).dim() == old(self).dim(),
            element@.len() == old(self).dim() ==> (r matches Ok(idx) && idx == old(
                self,
            ).elems().len() && final(self).elems() == old(self).elems().push(element@)),
            element@.len() != old(self).dim() ==> (r == Err::<usize, Error>(
                Error::DimensionMismatch,
            ) && final(self).elems() == old(self).elems()),
    ;

    /// Links everything still buffered; with nothing buffered nothing
    /// changes.
    fn build(&mut self)
        requires
            old(self).inv(),
        ensures
            final(self).inv(),
            final(self).built(),
            final(self).elems() == old(self).elems(),
            final(self).dim() == old(self).dim(),
            old(self).built() ==> *final(self) == *old(self),
    ;

    /// Serializes the graph topology.
    fn index_bytes(&self) -> (r: Vec<u8>)
        requires
            self.inv(),
        ensures
            r@ == self.index_bytes_spec(),
    ;

    /// Serializes the element payload.
    fn elements_bytes(&self) -> (r: Vec<u8>)
        requires
            self.inv(),
        ensures
            r@ == self.elements_bytes_spec(),
    ;

    /// A read-only snapshot of the current state.
    fn get_index(&self) -> (h: Hnsw)
        requires
            self.inv(),
        ensures
            h.wf(),
            h.store@ == self.elems(),
            h.store.dim == self.dim(),
    ;
}

impl IndexBuilder for HnswBuilder {
    open spec fn inv(&self) -> bool {
        self.wf()
    }

    open spec fn elems(&self) -> Seq<Seq<i32>> {
        self.store@
    }

    open spec fn dim(&self) -> usize {
        self.store.dim
    }

    open spec fn built(&self) -> bool {
        self.linked == self.store@.len()
    }

    open spec fn index_bytes_spec(&self) -> Seq<u8> {
        topology_bytes(self.topo, self.linked as nat)
    }

    open spec fn elements_bytes_spec(&self) -> Seq<u8> {
        crate::codec::elements_bytes(self.store)
    }

    fn add(&mut self, element: Vec<i32>) -> (r: Result<usize, Error>) {
        HnswBuilder::add(self, element)
    }

    fn build(&mut self) {
        HnswBuilder::build(self)
    }

    fn index_bytes(&self) -> (r: Vec<u8>) {
        encode_topology(&self.topo, self.linked)
    }

    fn elements_bytes(&self) -> (r: Vec<u8>) {
        encode_elements(&self.store)
    }

    fn get_index(&self) -> (h: Hnsw) {
        HnswBuilder::get_index(self)
    }
}

/// Opens a saved index behind the uniform read-only interface.  A dimension
/// outside the menu fails `UnsupportedConfiguration` and is never silently
/// substituted; a header inconsistent with the bytes or with the requested
/// dimension fails the load.
pub fn boxed_index(index: &[u8], elements: &[u8], dim: usize) -> (r: Result<Box<Hnsw>, Error>)
    ensures
        !spec_dimension_in_menu(dim as int) ==> r == Err::<Box<Hnsw>, Error>(
            Error::UnsupportedConfiguration,
        ),
        r matches Ok(h) ==> spec_dimension_in_menu(dim as int) && h.wf() && h.store.dim == dim
            && h.linked == h.store@.len() && topology_bytes(h.topo, h.linked as nat) == index@
            && crate::codec::elements_bytes(h.store) == elements@,
        r matches Err(err) ==> (err == Error::UnsupportedConfiguration || err == Error::CorruptData
            || err == Error::VersionMismatch),
        spec_dimension_in_menu(dim as int) ==> forall|h2: Hnsw|
            Hnsw::saves_to(h2, index@, elements@) && h2.store.dim == dim ==> r is Ok,
        r == Err::<Box<Hnsw>, Error>(Error::VersionMismatch) ==> spec_dimension_in_menu(dim as int)
            && (crate::codec::topology_version_mismatch(index@)
            || crate::codec::elements_version_mismatch(elements@)),
        spec_dimension_in_menu(dim as int) && crate::codec::topology_version_mismatch(index@)
            ==> r == Err::<Box<Hnsw>, Error>(Error::VersionMismatch),
        spec_dimension_in_menu(dim as int) && crate::codec::some_topology_encodes(index@)
            && crate::codec::elements_version_mismatch(elements@) ==> r == Err::<Box<Hnsw>, Error>(
            Error::VersionMismatch,
        ),
{
    if !dimension_in_menu(dim) {
        return Err(Error::UnsupportedConfiguration);
    }
    let h = match Hnsw::load(index, elements) {
        Ok(h) => h,
        Err(err) => {
            return Err(err);
        },
    };
    if h.store.dim != dim {
        proof {
            assert forall|h2: Hnsw|
                Hnsw::saves_to(h2, index@, elements@) && h2.store.dim == dim implies false by {
                crate::codec::lemma_elements_bytes_injective(h.store, h2.store);
            }
        }
        return Err(Error::CorruptData);
    }
    Ok(Box::new(h))
}

/// Creates a builder behind the uniform mutable interface, empty or over a
/// saved element stream.  A scalar-type/dimension pair outside the menu
/// fails `UnsupportedConfiguration`.
pub fn boxed_index_builder(
    scalar: ScalarType,
    dim: usize,
    config: Config,
    elements: Option<&[u8]>,
) -> (r: Result<Box<HnswBuilder>, Error>)
    requires
        config.wf(),
    ensures
        !spec_dimension_in_menu(dim as int) ==> r == Err::<Box<HnswBuilder>, Error>(
            Error::UnsupportedConfiguration,
        ),
        r matches Ok(b) ==> spec_dimension_in_menu(dim as int) && b.wf() && b.store.dim == dim
            && b.linked == 0 && b.config == config && (elements is None ==> b.store@.len() == 0)
            && (elements matches Some(bs) ==> crate::codec::elements_bytes(b.store) == bs@),
        r matches Err(err) ==> (err == Error::UnsupportedConfiguration || err == Error::CorruptData
            || err == Error::VersionMismatch),
        spec_dimension_in_menu(dim as int) && elements is None ==> r is Ok,
        spec_dimension_in_menu(dim as int) && (elements matches Some(bs) && (exists|s: ElementStore|
            s.wf() && s@.len() <= usize::MAX && s.dim == dim && bs@
                == crate::codec::elements_bytes(s))) ==> r is Ok,
{
    match scalar {
        ScalarType::I32 => {},
    }
    if !dimension_in_menu(dim) {
        return Err(Error::UnsupportedConfiguration);
    }
    match elements {
        None => Ok(Box::new(HnswBuilder::new(config, dim))),
        Some(bs) => {
            let store = match crate::codec::load_elements(bs) {
                Ok(s) => s,
                Err(err) => {
                    proof {
                        if exists|s: ElementStore|
                            s.wf() && s@.len() <= usize::MAX && s.dim == dim && bs@
                                == crate::codec::elements_bytes(s) {
                            let s = choose|s: ElementStore|
                                s.wf() && s@.len() <= usize::MAX && s.dim == dim && bs@
                                    == crate::codec::elements_bytes(s);
                            assert(crate::codec::some_store_encodes(bs@));
                            assert(false);
                        }
                    }
                    return Err(err);
                },
            };
            if store.dim != dim {
                proof {
                    if exists|s: ElementStore|
                        s.wf() && s@.len() <= usize::MAX && s.dim == dim && bs@
                            == crate::codec::elements_bytes(s) {
                        let s = choose|s: ElementStore|
                            s.wf() && s@.len() <= usize::MAX && s.dim == dim && bs@
                                == crate::codec::elements_bytes(s);
                        crate::codec::lemma_elements_bytes_injective(store, s);
                        assert(false);
                    }
                }
                return Err(Error::CorruptData);
            }
            Ok(Box::new(HnswBuilder::with_elements(config, store)))
        },
    }
}

} // verus!
