use granne::builder::{Config, HnswBuilder};
use granne::dispatch::IndexBuilder;
use granne::errors::Error;

fn config() -> Config {
    Config { num_neighbors: 8, ef_construction: 32, layer_seed: 42 }
}

fn sq_dist(a: &[i32], b: &[i32]) -> u128 {
    let mut acc: u128 = 0;
    for i in 0..a.len() {
        let d = (a[i] as i128) - (b[i] as i128);
        acc += (d * d) as u128;
    }
    acc
}

fn exact_ranking(data: &[Vec<i32>], q: &[i32]) -> Vec<(usize, u128)> {
    let mut all: Vec<(usize, u128)> = (0..data.len()).map(|i| (i, sq_dist(&data[i], q))).collect();
    all.sort_by(|x, y| (x.1, x.0).cmp(&(y.1, y.0)));
    all
}

fn sample_data(n: usize, dim: usize) -> Vec<Vec<i32>> {
    let mut state: u64 = 7;
    let mut data = Vec::new();
    for _ in 0..n {
        let mut v = Vec::new();
        for _ in 0..dim {
            state = state.wrapping_mul(6364136223846793005).wrapping_add(1442695040888963407);
            v.push(((state >> 33) % 2001) as i32 - 1000);
        }
        data.push(v);
    }
    data
}

#[test]
fn add_then_len_and_get_element() {
    let mut b = HnswBuilder::new(config(), 3);
    let data = vec![vec![1, 2, 3], vec![4, 5, 6], vec![7, 8, 9], vec![-1, -2, -3], vec![0, 0, 0]];
    for (i, v) in data.iter().enumerate() {
        let idx = b.add(v.clone()).unwrap();
        assert_eq!(idx, i);
    }
    b.build();
    let index = b.get_index();
    assert_eq!(index.len(), 5);
    for (i, v) in data.iter().enumerate() {
        assert_eq!(index.get_element(i).unwrap(), *v);
    }
    assert_eq!(index.get_element(5), Err(Error::OutOfRange));
}

#[test]
fn add_wrong_dimension_rejected_without_mutation() {
    let mut b = HnswBuilder::new(config(), 3);
    b.add(vec![1, 2, 3]).unwrap();
    assert_eq!(b.len(), 1);
    assert_eq!(b.add(vec![1, 2]), Err(Error::DimensionMismatch));
    assert_eq!(b.add(vec![1, 2, 3, 4]), Err(Error::DimensionMismatch));
    assert_eq!(b.len(), 1);
    b.build();
    let index = b.get_index();
    assert_eq!(index.len(), 1);
    assert_eq!(index.get_element(0).unwrap(), vec![1, 2, 3]);
}

#[test]
fn repeated_build_leaves_search_unchanged() {
    let data = sample_data(40, 4);
    let mut b = HnswBuilder::new(config(), 4);
    for v in &data {
        b.add(v.clone()).unwrap();
    }
    b.build();
    let q = vec![10, -20, 30, -40];
    let before = b.get_index().search(&q, 5, 16);
    b.build();
    let after = b.get_index().search(&q, 5, 16);
    assert_eq!(before, after);
}

#[test]
fn empty_index_searches_empty() {
    let mut b = HnswBuilder::new(config(), 3);
    b.build();
    let index = b.get_index();
    assert_eq!(index.len(), 0);
    let r = index.search(&vec![1, 2, 3], 4, 16);
    assert!(r.is_empty());
}

#[test]
fn k_at_least_len_returns_exact_full_ranking() {
    let data = sample_data(12, 3);
    let mut b = HnswBuilder::new(config(), 3);
    for v in &data {
        b.add(v.clone()).unwrap();
    }
    b.build();
    let index = b.get_index();
    let q = vec![5, 5, 5];
    let r = index.search(&q, 12, 4);
    assert_eq!(r, exact_ranking(&data, &q));
    let r_more = index.search(&q, 100, 4);
    assert_eq!(r_more, exact_ranking(&data, &q));
}

#[test]
fn tie_break_is_ascending_index() {
    // two elements at the same distance from the query
    let mut b = HnswBuilder::new(config(), 2);
    b.add(vec![1, 0]).unwrap();
    b.add(vec![0, 1]).unwrap();
    b.add(vec![5, 5]).unwrap();
    b.build();
    let index = b.get_index();
    let r = index.search(&vec![0, 0], 3, 8);
    assert_eq!(r, vec![(0, 1), (1, 1), (2, 50)]);
}

#[test]
fn scenario_axis_vectors() {
    // dimension 3, the five unit-ish vectors scaled by 10
    let data = vec![
        vec![10, 0, 0],
        vec![0, 10, 0],
        vec![0, 0, 10],
        vec![10, 10, 0],
        vec![0, 10, 10],
    ];
    let mut b = HnswBuilder::new(config(), 3);
    for v in &data {
        b.add(v.clone()).unwrap();
    }
    b.build();
    let index = b.get_index();
    // query (1, 0, 0.1) at the same scale
    let q = vec![10, 0, 1];
    let r = index.search(&q, 2, 10);
    assert_eq!(r.len(), 2);
    // exact top-1: the vector (1, 0, 0) at squared distance 0.01 (scaled: 1)
    assert_eq!(r[0], (0, 1));
    // second place: (1, 1, 0), the closer of the two runner-up candidates
    assert_eq!(r[1], (3, 101));
}

#[test]
fn recall_never_decreases_with_ef_search() {
    let data = sample_data(60, 4);
    let mut b = HnswBuilder::new(config(), 4);
    for v in &data {
        b.add(v.clone()).unwrap();
    }
    b.build();
    let index = b.get_index();
    let q = vec![100, -100, 100, -100];
    let k = 8;
    let truth: Vec<usize> = exact_ranking(&data, &q).iter().take(k).map(|p| p.0).collect();
    let mut last_overlap = 0;
    for ef in [1, 2, 4, 8, 16, 32, 64, 128] {
        let r = index.search(&q, k, ef);
        let overlap = r.iter().filter(|p| truth.contains(&p.0)).count();
        assert!(overlap >= last_overlap);
        last_overlap = overlap;
    }
    // with a width at least the dataset the search is exhaustive
    assert_eq!(last_overlap, k);
}

#[test]
fn search_on_partially_built_index_sees_all_elements() {
    let mut b = HnswBuilder::new(config(), 2);
    b.add(vec![0, 0]).unwrap();
    b.add(vec![10, 10]).unwrap();
    b.build();
    // buffered but not yet linked
    b.add(vec![1, 1]).unwrap();
    let index = b.get_index();
    assert_eq!(index.len(), 3);
    let r = index.search(&vec![1, 1], 1, 8);
    assert_eq!(r, vec![(2, 0)]);
}

#[test]
fn incremental_build_links_only_new_elements() {
    let data = sample_data(10, 3);
    let mut staged = HnswBuilder::new(config(), 3);
    for v in &data[..6] {
        staged.add(v.clone()).unwrap();
    }
    staged.build();
    let first_topo = staged.index_bytes();
    for v in &data[6..] {
        staged.add(v.clone()).unwrap();
    }
    staged.build();
    let mut oneshot = HnswBuilder::new(config(), 3);
    for v in &data {
        oneshot.add(v.clone()).unwrap();
    }
    oneshot.build();
    // the already-linked elements kept their layer draws, so the staged
    // build reproduces the one-shot topology and payload exactly
    assert_eq!(staged.index_bytes(), oneshot.index_bytes());
    assert_eq!(staged.elements_bytes(), oneshot.elements_bytes());
    assert_ne!(staged.index_bytes(), first_topo);
    // every added element is searchable afterwards
    let index = staged.get_index();
    assert_eq!(index.len(), 10);
    let r = index.search(&vec![1, 2, 3], 10, 4);
    assert_eq!(r.len(), 10);
    for e in 0..10 {
        assert!(r.iter().any(|p| p.0 == e));
    }
}
