use granne::builder::{Config, HnswBuilder};
use granne::dispatch::{
    boxed_index, boxed_index_builder, dimension_in_menu, IndexBuilder, ScalarType, SearchIndex,
};
use granne::errors::Error;
use granne::index::Hnsw;

fn config() -> Config {
    Config { num_neighbors: 6, ef_construction: 24, layer_seed: 9 }
}

fn small_builder(dim: usize, n: usize) -> HnswBuilder {
    let mut b = HnswBuilder::new(config(), dim);
    for i in 0..n {
        let mut v = Vec::new();
        for j in 0..dim {
            v.push(((i * 31 + j * 17) % 97) as i32 - 48);
        }
        b.add(v).unwrap();
    }
    b.build();
    b
}

#[test]
fn menu_membership() {
    assert!(dimension_in_menu(2));
    assert!(dimension_in_menu(7));
    assert!(dimension_in_menu(300));
    assert!(!dimension_in_menu(0));
    assert!(!dimension_in_menu(1));
    assert!(!dimension_in_menu(11));
    assert!(!dimension_in_menu(301));
}

#[test]
fn dispatch_refuses_dimension_outside_menu() {
    let b = small_builder(3, 6);
    let topo = b.index_bytes();
    let elems = b.elements_bytes();
    let r = boxed_index(&topo, &elems, 11);
    assert!(matches!(r, Err(Error::UnsupportedConfiguration)));
    let r2 = boxed_index(&topo, &elems, 301);
    assert!(matches!(r2, Err(Error::UnsupportedConfiguration)));
    let r3 = boxed_index_builder(ScalarType::I32, 11, config(), None);
    assert!(matches!(r3, Err(Error::UnsupportedConfiguration)));
}

#[test]
fn dispatch_never_substitutes_a_nearby_dimension() {
    // a saved 3-dimensional index opened as 4-dimensional must fail, not
    // fall back to dimension 3
    let b = small_builder(3, 6);
    let topo = b.index_bytes();
    let elems = b.elements_bytes();
    let r = boxed_index(&topo, &elems, 4);
    assert!(matches!(r, Err(Error::CorruptData)));
}

#[test]
fn persistence_round_trip_reproduces_results() {
    let b = small_builder(4, 25);
    let topo = b.index_bytes();
    let elems = b.elements_bytes();
    let loaded: Box<Hnsw> = boxed_index(&topo, &elems, 4).unwrap();
    let live = b.get_index();
    assert_eq!(loaded.len(), live.len());
    for i in 0..live.len() {
        assert_eq!(loaded.get_element(i).unwrap(), live.get_element(i).unwrap());
    }
    let q = vec![3, -1, 4, -1];
    for k in [1, 3, 10] {
        for ef in [2, 8, 64] {
            assert_eq!(loaded.search(&q, k, ef), live.search(&q, k, ef));
        }
    }
}

#[test]
fn saved_bytes_round_trip_bit_for_bit() {
    let b = small_builder(3, 10);
    let topo = b.index_bytes();
    let elems = b.elements_bytes();
    let loaded = boxed_index(&topo, &elems, 3).unwrap();
    // re-serializing the loaded index reproduces the saved streams exactly
    let topo2 = granne::codec::encode_topology(&loaded.topo, loaded.linked);
    let elems2 = granne::codec::encode_elements(&loaded.store);
    assert_eq!(topo, topo2);
    assert_eq!(elems, elems2);
}

#[test]
fn builder_over_saved_elements() {
    let b = small_builder(3, 8);
    let elems = b.elements_bytes();
    let mut b2 = boxed_index_builder(ScalarType::I32, 3, config(), Some(&elems)).unwrap();
    assert_eq!(b2.len(), 8);
    b2.build();
    let live = b.get_index();
    let again = b2.get_index();
    let q = vec![1, 2, 3];
    assert_eq!(again.search(&q, 8, 32), live.search(&q, 8, 32));
}

#[test]
fn load_rejects_corrupt_and_alien_bytes() {
    let b = small_builder(3, 4);
    let topo = b.index_bytes();
    let elems = b.elements_bytes();
    // not a multiple of eight bytes
    let r = boxed_index(&topo[..topo.len() - 3], &elems, 3);
    assert!(matches!(r, Err(Error::CorruptData)));
    // truncated whole words
    let r2 = boxed_index(&topo[..topo.len() - 8], &elems, 3);
    assert!(matches!(r2, Err(Error::CorruptData)));
    // alien version tag in the topology header
    let mut bad_topo = topo.clone();
    bad_topo[0] = 99;
    let r3 = boxed_index(&bad_topo, &elems, 3);
    assert!(matches!(r3, Err(Error::VersionMismatch)));
    // alien version tag in the elements header
    let mut bad_elems = elems.clone();
    bad_elems[0] = 99;
    let r4 = boxed_index(&topo, &bad_elems, 3);
    assert!(matches!(r4, Err(Error::VersionMismatch)));
    // mismatched element counts between the two streams
    let other = small_builder(3, 5);
    let r5 = boxed_index(&topo, &other.elements_bytes(), 3);
    assert!(matches!(r5, Err(Error::CorruptData)));
}

fn drive<B: IndexBuilder>(b: &mut B) -> Hnsw {
    b.build();
    b.get_index()
}

fn ask<S: SearchIndex>(s: &S, q: &Vec<i32>) -> Vec<(usize, u128)> {
    s.search(q, 2, 8)
}

#[test]
fn uniform_interfaces_carry_the_operations() {
    let mut b = HnswBuilder::new(config(), 2);
    b.add(vec![0, 0]).unwrap();
    b.add(vec![9, 9]).unwrap();
    let index = drive(&mut b);
    let r = ask(&index, &vec![1, 1]);
    assert_eq!(r, vec![(0, 2), (1, 128)]);
}
