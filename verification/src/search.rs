use crate::metric::{distance, pair_before, pair_lt, spec_dist};
use crate::store::ElementStore;
use crate::topology::GraphTopology;
use vstd::prelude::*;

verus! {

/// Strictly sorted by distance ascending, ties broken by index ascending.
pub open spec fn sorted_pairs(s: Seq<(usize, u128)>) -> bool {
    forall|i: int, j: int| 0 <= i < j < s.len() ==> pair_lt(s[i], s[j])
}

/// Every pair holds a valid element index together with its exact distance
/// to the query.
pub open spec fn valid_pairs(s: Seq<(usize, u128)>, elems: Seq<Seq<i32>>, q: Seq<i32>) -> bool {
    forall|i: int|
        0 <= i < s.len() ==> (#[trigger] s[i]).0 < elems.len() && s[i].1 == spec_dist(
            q,
            elems[s[i].0 as int],
        )
}

/// Some pair of `s` carries the element index `e`.
pub open spec fn contains_idx(s: Seq<(usize, u128)>, e: int) -> bool {
    exists|i: int| 0 <= i < s.len() && (#[trigger] s[i]).0 == e
}

/// An exact ranking of the whole store: one pair per element, in strictly
/// ascending (distance, index) order.
pub open spec fn complete_ranking(s: Seq<(usize, u128)>, elems: Seq<Seq<i32>>, q: Seq<i32>) -> bool {
    &&& s.len() == elems.len()
    &&& sorted_pairs(s)
    &&& valid_pairs(s, elems, q)
    &&& forall|e: int| 0 <= e < elems.len() ==> contains_idx(s, e)
}

/// Inserts `x` at its sorted position.  The index of `x` must be fresh, so
/// strict sortedness is preserved.
#[verifier::loop_isolation(false)]
pub fn insert_pair(list: &mut Vec<(usize, u128)>, x: (usize, u128))
    requires
        sorted_pairs(old(list)@),
        forall|i: int| 0 <= i < old(list)@.len() ==> (#[trigger] old(list)@[i]).0 != x.0,
    ensures
        sorted_pairs(final(list)@),
        final(list)@.len() == old(list)@.len() + 1,
        final(list)@.contains(x),
        forall|i: int|
            0 <= i < old(list)@.len() ==> final(list)@.contains(#[trigger] old(list)@[i]),
        forall|i: int|
            0 <= i < final(list)@.len() ==> final(list)@[i] == x || old(list)@.contains(
                #[trigger] final(list)@[i],
            ),
{
    let mut pos: usize = 0;
    while pos < list.len() && pair_before(list[pos], x)
        invariant
            pos <= list@.len(),
            forall|i: int| 0 <= i < pos ==> pair_lt(#[trigger] list@[i], x),
        decreases list@.len() - pos,
    {
        pos = pos + 1;
    }
    proof {
        assert forall|i: int| pos <= i < list@.len() implies pair_lt(x, #[trigger] list@[i]) by {
            assert(!pair_lt(list@[pos as int], x));
            assert(list@[pos as int].0 != x.0);
            if i > pos {
                assert(pair_lt(list@[pos as int], list@[i]));
            }
        }
    }
    list.insert(pos, x);
    proof {
        assert forall|i: int| 0 <= i < list@.len() implies (if i < pos {
            list@[i] == old(list)@[i]
        } else if i == pos {
            list@[i] == x
        } else {
            list@[i] == old(list)@[i - 1]
        }) by {}
        assert(list@[pos as int] == x);
        assert(list@.contains(x));
        assert forall|i: int| 0 <= i < old(list)@.len() implies list@.contains(
            #[trigger] old(list)@[i],
        ) by {
            if i < pos {
                assert(list@[i] == old(list)@[i]);
            } else {
                assert(list@[i + 1] == old(list)@[i]);
            }
        }
        assert forall|i: int|
            0 <= i < list@.len() implies (list@[i] == x || old(list)@.contains(
            #[trigger] list@[i],
        )) by {
            if i < pos {
                assert(list@[i] == old(list)@[i]);
            } else if i > pos {
                assert(list@[i] == old(list)@[i - 1]);
            }
        }
    }
}

/// Sorted insertion that keeps at most `cap` entries, dropping the worst.
pub fn insert_pair_capped(list: &mut Vec<(usize, u128)>, x: (usize, u128), cap: usize)
    requires
        sorted_pairs(old(list)@),
        cap >= 1,
        old(list)@.len() <= cap,
        forall|i: int| 0 <= i < old(list)@.len() ==> (#[trigger] old(list)@[i]).0 != x.0,
    ensures
        sorted_pairs(final(list)@),
        final(list)@.len() == if old(list)@.len() < cap {
            old(list)@.len() as int + 1
        } else {
            cap as int
        },
        forall|i: int|
            0 <= i < final(list)@.len() ==> final(list)@[i] == x || old(list)@.contains(
                #[trigger] final(list)@[i],
            ),
{
    insert_pair(list, x);
    if list.len() > cap {
        let ghost pre = list@;
        let _ = list.pop();
        proof {
            assert(list@ =~= pre.subrange(0, pre.len() - 1));
        }
    }
}

/// Exact ranking of every stored element by distance to the query.
#[verifier::loop_isolation(false)]
pub fn exhaustive_ranking(store: &ElementStore, q: &Vec<i32>) -> (r: Vec<(usize, u128)>)
    requires
        store.wf(),
        q@.len() == store.dim,
    ensures
        complete_ranking(r@, store@, q@),
{
    let n = store.len();
    let mut r: Vec<(usize, u128)> = Vec::new();
    let mut i: usize = 0;
    while i < n
        invariant
            i <= n,
            sorted_pairs(r@),
            valid_pairs(r@, store@, q@),
            r@.len() == i,
            forall|e: int| 0 <= e < i ==> contains_idx(r@, e),
            forall|j: int| 0 <= j < r@.len() ==> (#[trigger] r@[j]).0 < i,
        decreases n - i,
    {
        let ghost prev = r@;
        let d = distance(q, store.get(i));
        insert_pair(&mut r, (i, d));
        proof {
            assert forall|j: int| 0 <= j < r@.len() implies (#[trigger] r@[j]).0 < i + 1
                && r@[j].0 < store@.len() && r@[j].1 == spec_dist(q@, store@[r@[j].0 as int]) by {
                if r@[j] != (i, d) {
                    assert(prev.contains(r@[j]));
                    let w = choose|w: int| 0 <= w < prev.len() && prev[w] == r@[j];
                    assert(prev[w].0 < i);
                }
            }
            assert forall|e: int| 0 <= e < i + 1 implies contains_idx(r@, e) by {
                if e < i {
                    assert(contains_idx(prev, e));
                    let w = choose|w: int| 0 <= w < prev.len() && (#[trigger] prev[w]).0 == e;
                    assert(r@.contains(prev[w]));
                    let w2 = choose|w2: int| 0 <= w2 < r@.len() && r@[w2] == prev[w];
                    assert((#[trigger] r@[w2]).0 == e);
                } else {
                    assert(r@.contains((i, d)));
                    let w2 = choose|w2: int| 0 <= w2 < r@.len() && r@[w2] == (i, d);
                    assert((#[trigger] r@[w2]).0 == e);
                }
            }
        }
        i = i + 1;
    }
    r
}

/// Greedy descent at one layer: repeatedly move to the closest neighbour
/// while it improves on the current element.
#[verifier::loop_isolation(false)]
pub fn descend_layer(
    store: &ElementStore,
    topo: &GraphTopology,
    count: usize,
    q: &Vec<i32>,
    entry: usize,
    layer: usize,
) -> (r: usize)
    requires
        store.wf(),
        topo.wf(count as nat),
        count <= store@.len(),
        entry < count,
        q@.len() == store.dim,
    ensures
        r < count,
        spec_dist(q@, store@[r as int]) <= spec_dist(q@, store@[entry as int]),
{
    let mut cur = entry;
    let mut curd = distance(q, store.get(cur));
    let mut steps: usize = 0;
    while steps < count
        invariant
            cur < count,
            steps <= count,
            curd == spec_dist(q@, store@[cur as int]),
            curd <= spec_dist(q@, store@[entry as int]),
        decreases count - steps,
    {
        steps = steps + 1;
        let mut best = cur;
        let mut bestd = curd;
        if layer <= topo.layers[cur] {
            proof {
                assert(topo.neighbors@.len() == topo.nbrs().len());
                assert(topo.nbrs()[cur as int].len() == topo.layers@[cur as int] + 1);
            }
            let row: &Vec<Vec<usize>> = &topo.neighbors[cur];
            proof {
                assert(row.deep_view() == topo.nbrs()[cur as int]);
                assert(row@.len() == row.deep_view().len());
            }
            let nbrs: &Vec<usize> = &row[layer];
            proof {
                assert(nbrs.deep_view() =~= nbrs@);
                assert(nbrs@ == topo.nbrs()[cur as int][layer as int]);
                assert forall|x: int| 0 <= x < nbrs@.len() implies (#[trigger] nbrs@[x])
                    < count by {
                    assert(topo.nbrs()[cur as int][layer as int][x] < count);
                }
            }
            let mut t: usize = 0;
            while t < nbrs.len()
                invariant
                    t <= nbrs@.len(),
                    best < count,
                    bestd == spec_dist(q@, store@[best as int]),
                    forall|x: int| 0 <= x < nbrs@.len() ==> (#[trigger] nbrs@[x]) < count,
                decreases nbrs@.len() - t,
            {
                let jn = nbrs[t];
                let dj = distance(q, store.get(jn));
                if dj < bestd {
                    best = jn;
                    bestd = dj;
                }
                t = t + 1;
            }
        }
        if bestd < curd {
            cur = best;
            curd = bestd;
        } else {
            break;
        }
    }
    cur
}

/// Best-first search at one layer with candidate width `width`, starting
/// from `entry`.  Returns between 1 and `width` candidates in strictly
/// ascending (distance, index) order, each with its exact distance.
#[verifier::loop_isolation(false)]
pub fn search_layer(
    store: &ElementStore,
    topo: &GraphTopology,
    count: usize,
    q: &Vec<i32>,
    entry: usize,
    layer: usize,
    width: usize,
) -> (r: Vec<(usize, u128)>)
    requires
        store.wf(),
        topo.wf(count as nat),
        count <= store@.len(),
        entry < count,
        width >= 1,
        q@.len() == store.dim,
    ensures
        sorted_pairs(r@),
        valid_pairs(r@, store@, q@),
        1 <= r@.len() <= width,
        forall|i: int| 0 <= i < r@.len() ==> (#[trigger] r@[i]).0 < count,
{
    let mut visited: Vec<bool> = vec![false; count];
    visited[entry] = true;
    let d0 = distance(q, store.get(entry));
    let mut results: Vec<(usize, u128)> = Vec::new();
    results.push((entry, d0));
    let mut frontier: Vec<(usize, u128)> = Vec::new();
    frontier.push((entry, d0));
    let mut steps: usize = 0;
    while steps < count && frontier.len() > 0
        invariant
            visited@.len() == count,
            sorted_pairs(results@),
            valid_pairs(results@, store@, q@),
            1 <= results@.len() <= width,
            forall|i: int|
                0 <= i < results@.len() ==> (#[trigger] results@[i]).0 < count
                    && visited@[results@[i].0 as int],
            forall|i: int|
                0 <= i < frontier@.len() ==> (#[trigger] frontier@[i]).0 < count
                    && frontier@[i].1 == spec_dist(q@, store@[frontier@[i].0 as int]),
            steps <= count,
        decreases count - steps,
    {
        steps = steps + 1;
        let mut bi: usize = 0;
        let mut j: usize = 1;
        while j < frontier.len()
            invariant
                bi < frontier@.len(),
                j <= frontier@.len(),
            decreases frontier@.len() - j,
        {
            if pair_before(frontier[j], frontier[bi]) {
                bi = j;
            }
            j = j + 1;
        }
        let ghost pre_frontier = frontier@;
        let cur = frontier.swap_remove(bi);
        proof {
            assert forall|i: int|
                0 <= i < frontier@.len() implies (#[trigger] frontier@[i]).0 < count
                && frontier@[i].1 == spec_dist(q@, store@[frontier@[i].0 as int]) by {
                if i == bi {
                    assert(frontier@[i] == pre_frontier[pre_frontier.len() - 1]);
                } else {
                    assert(frontier@[i] == pre_frontier[i]);
                }
            }
        }
        if results.len() == width {
            let worst = results[results.len() - 1];
            if pair_before(worst, cur) {
                break;
            }
        }
        let e = cur.0;
        if layer <= topo.layers[e] {
            proof {
                assert(topo.neighbors@.len() == topo.nbrs().len());
                assert(topo.nbrs()[e as int].len() == topo.layers@[e as int] + 1);
            }
            let row: &Vec<Vec<usize>> = &topo.neighbors[e];
            proof {
                assert(row.deep_view() == topo.nbrs()[e as int]);
                assert(row@.len() == row.deep_view().len());
            }
            let nbrs: &Vec<usize> = &row[layer];
            proof {
                assert(nbrs.deep_view() =~= nbrs@);
                assert(nbrs@ == topo.nbrs()[e as int][layer as int]);
                assert forall|x: int| 0 <= x < nbrs@.len() implies (#[trigger] nbrs@[x])
                    < count by {
                    assert(topo.nbrs()[e as int][layer as int][x] < count);
                }
            }
            let mut t: usize = 0;
            while t < nbrs.len()
                invariant
                    t <= nbrs@.len(),
                    visited@.len() == count,
                    sorted_pairs(results@),
                    valid_pairs(results@, store@, q@),
                    1 <= results@.len() <= width,
                    forall|i: int|
                        0 <= i < results@.len() ==> (#[trigger] results@[i]).0 < count
                            && visited@[results@[i].0 as int],
                    forall|i: int|
                        0 <= i < frontier@.len() ==> (#[trigger] frontier@[i]).0 < count
                            && frontier@[i].1 == spec_dist(q@, store@[frontier@[i].0 as int]),
                    forall|x: int| 0 <= x < nbrs@.len() ==> (#[trigger] nbrs@[x]) < count,
                decreases nbrs@.len() - t,
            {
                let jn = nbrs[t];
                if !visited[jn] {
                    proof {
                        assert forall|i: int|
                            0 <= i < results@.len() implies (#[trigger] results@[i]).0 != jn by {
                            assert(visited@[results@[i].0 as int]);
                        }
                    }
                    visited[jn] = true;
                    let dj = distance(q, store.get(jn));
                    let full = results.len() == width;
                    let keep = if full {
                        pair_before((jn, dj), results[results.len() - 1])
                    } else {
                        true
                    };
                    if keep {
                        insert_pair_capped(&mut results, (jn, dj), width);
                        frontier.push((jn, dj));
                        proof {
                            assert forall|i: int|
                                0 <= i < results@.len() implies (#[trigger] results@[i]).0 < count
                                && results@[i].1 == spec_dist(q@, store@[results@[i].0 as int])
                                && visited@[results@[i].0 as int] by {}
                        }
                    }
                }
                t = t + 1;
            }
        }
    }
    results
}

/// The layered query algorithm over the linked part of the graph, with a
/// brute-force sweep over any still-unlinked tail so every stored element is
/// considered.  Empty store: empty result.  `k` at least the element count:
/// the exact complete ranking.
#[verifier::loop_isolation(false)]
pub fn search_impl(
    store: &ElementStore,
    topo: &GraphTopology,
    linked: usize,
    q: &Vec<i32>,
    k: usize,
    ef_search: usize,
) -> (r: Vec<(usize, u128)>)
    requires
        store.wf(),
        topo.wf(linked as nat),
        linked <= store@.len(),
        q@.len() == store.dim,
        k >= 1,
    ensures
        sorted_pairs(r@),
        valid_pairs(r@, store@, q@),
        r@.len() <= k,
        store@.len() == 0 ==> r@.len() == 0,
        store@.len() > 0 ==> r@.len() >= 1,
        k >= store@.len() ==> complete_ranking(r@, store@, q@),
{
    let n = store.len();
    if n == 0 {
        return Vec::new();
    }
    if k >= n || linked == 0 {
        let mut r = exhaustive_ranking(store, q);
        if r.len() > k {
            let ghost pre = r@;
            r.truncate(k);
            proof {
                assert(r@ =~= pre.subrange(0, k as int));
            }
        }
        return r;
    }
    let mut ep = topo.entry_point;
    let mut l = topo.max_layer;
    while l > 0
        invariant
            ep < linked,
        decreases l,
    {
        ep = descend_layer(store, topo, linked, q, ep, l);
        l = l - 1;
    }
    let width = if ef_search > k {
        ef_search
    } else {
        k
    };
    let mut cands = search_layer(store, topo, linked, q, ep, 0, width);
    let mut i = linked;
    while i < n
        invariant
            linked <= i <= n,
            sorted_pairs(cands@),
            valid_pairs(cands@, store@, q@),
            cands@.len() >= 1,
            forall|j: int| 0 <= j < cands@.len() ==> (#[trigger] cands@[j]).0 < i,
        decreases n - i,
    {
        let ghost prev = cands@;
        let d = distance(q, store.get(i));
        insert_pair(&mut cands, (i, d));
        proof {
            assert forall|j: int| 0 <= j < cands@.len() implies (#[trigger] cands@[j]).0 < i + 1
                && cands@[j].0 < store@.len() && cands@[j].1 == spec_dist(
                q@,
                store@[cands@[j].0 as int],
            ) by {
                if cands@[j] != (i, d) {
                    assert(prev.contains(cands@[j]));
                    let w = choose|w: int| 0 <= w < prev.len() && prev[w] == cands@[j];
                    assert(prev[w].0 < i);
                }
            }
        }
        i = i + 1;
    }
    if cands.len() > k {
        let ghost pre = cands@;
        cands.truncate(k);
        proof {
            assert(cands@ =~= pre.subrange(0, k as int));
        }
    }
    cands
}


/// Two strictly sorted pair sequences with the same members are equal.
proof fn lemma_sorted_same_members_equal(s1: Seq<(usize, u128)>, s2: Seq<(usize, u128)>)
    requires
        sorted_pairs(s1),
        sorted_pairs(s2),
        forall|i: int| 0 <= i < s1.len() ==> s2.contains(#[trigger] s1[i]),
        forall|i: int| 0 <= i < s2.len() ==> s1.contains(#[trigger] s2[i]),
    ensures
        s1 == s2,
    decreases s1.len(),
{
    if s1.len() == 0 {
        if s2.len() > 0 {
            assert(s1.contains(s2[0]));
        }
        assert(s1 =~= s2);
    } else {
        assert(s2.contains(s1[0]));
        let w = choose|w: int| 0 <= w < s2.len() && s2[w] == s1[0];
        assert(s1.contains(s2[0]));
        let v = choose|v: int| 0 <= v < s1.len() && s1[v] == s2[0];
        // the heads are each other's minima
        assert(s1[0] == s2[0]) by {
            if s1[0] != s2[0] {
                assert(w != 0 && v != 0);
                assert(pair_lt(s2[0], s2[w]));
                assert(pair_lt(s1[0], s1[v]));
            }
        }
        let t1 = s1.drop_first();
        let t2 = s2.drop_first();
        assert forall|i: int| 0 <= i < t1.len() implies t2.contains(#[trigger] t1[i]) by {
            assert(t1[i] == s1[i + 1]);
            assert(s2.contains(s1[i + 1]));
            let w2 = choose|w2: int| 0 <= w2 < s2.len() && s2[w2] == s1[i + 1];
            assert(pair_lt(s1[0], s1[i + 1]));
            assert(w2 != 0);
            assert(t2[w2 - 1] == s1[i + 1]);
        }
        assert forall|i: int| 0 <= i < t2.len() implies t1.contains(#[trigger] t2[i]) by {
            assert(t2[i] == s2[i + 1]);
            assert(s1.contains(s2[i + 1]));
            let v2 = choose|v2: int| 0 <= v2 < s1.len() && s1[v2] == s2[i + 1];
            assert(pair_lt(s2[0], s2[i + 1]));
            assert(v2 != 0);
            assert(t1[v2 - 1] == s2[i + 1]);
        }
        lemma_sorted_same_members_equal(t1, t2);
        assert(s1 =~= s2) by {
            assert forall|i: int| 0 <= i < s1.len() implies s1[i] == s2[i] by {
                if i > 0 {
                    assert(s1[i] == t1[i - 1]);
                    assert(s2[i] == t2[i - 1]);
                }
            }
        }
    }
}

/// The complete ranking of a store is unique: any two results that rank
/// every element exactly are the same sequence.  In particular, once `k`
/// reaches the element count, `search` results do not depend on
/// `ef_search`, so the overlap with the true nearest set can never shrink
/// there.
pub proof fn lemma_complete_ranking_unique(
    r1: Seq<(usize, u128)>,
    r2: Seq<(usize, u128)>,
    elems: Seq<Seq<i32>>,
    q: Seq<i32>,
)
    requires
        complete_ranking(r1, elems, q),
        complete_ranking(r2, elems, q),
    ensures
        r1 == r2,
{
    assert forall|i: int| 0 <= i < r1.len() implies r2.contains(#[trigger] r1[i]) by {
        assert(contains_idx(r2, r1[i].0 as int));
        let w = choose|w: int| 0 <= w < r2.len() && (#[trigger] r2[w]).0 == r1[i].0;
        assert(r2[w].1 == spec_dist(q, elems[r1[i].0 as int]));
        assert(r2[w] == r1[i]);
    }
    assert forall|i: int| 0 <= i < r2.len() implies r1.contains(#[trigger] r2[i]) by {
        assert(contains_idx(r1, r2[i].0 as int));
        let w = choose|w: int| 0 <= w < r1.len() && (#[trigger] r1[w]).0 == r2[i].0;
        assert(r1[w].1 == spec_dist(q, elems[r2[i].0 as int]));
        assert(r1[w] == r2[i]);
    }
    lemma_sorted_same_members_equal(r1, r2);
}

} // verus!
