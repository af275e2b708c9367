use vstd::prelude::*;

verus! {

/// Largest vector dimension the library accepts; it keeps every
/// squared-distance sum comfortably inside `u128`.
pub const MAX_DIM: usize = 0x10_0000;

/// The square of an integer.
pub open spec fn sq(x: int) -> int {
    x * x
}

/// Sum of the squared coordinate differences over the first `n` coordinates.
pub open spec fn dist_prefix(a: Seq<i32>, b: Seq<i32>, n: nat) -> int
    decreases n,
{
    if n == 0 {
        0
    } else {
        dist_prefix(a, b, (n - 1) as nat) + sq(a[n - 1] as int - b[n - 1] as int)
    }
}

/// Squared Euclidean distance between two equal-length vectors.
pub open spec fn spec_dist(a: Seq<i32>, b: Seq<i32>) -> int {
    dist_prefix(a, b, a.len())
}

/// Every prefix sum of squared differences is non-negative and at most
/// `n * 2^64`.
pub proof fn lemma_dist_prefix_bounds(a: Seq<i32>, b: Seq<i32>, n: nat)
    requires
        n <= a.len(),
        n <= b.len(),
    ensures
        0 <= dist_prefix(a, b, n) <= n * 0x1_0000_0000_0000_0000,
    decreases n,
{
    if n > 0 {
        lemma_dist_prefix_bounds(a, b, (n - 1) as nat);
        let d = a[n - 1] as int - b[n - 1] as int;
        assert(-0xffff_ffff <= d <= 0xffff_ffff);
        assert(0 <= sq(d) < 0x1_0000_0000_0000_0000) by (nonlinear_arith)
            requires
                -0xffff_ffff <= d <= 0xffff_ffff,
        ;
        assert((n - 1) * 0x1_0000_0000_0000_0000 + 0x1_0000_0000_0000_0000
            == n * 0x1_0000_0000_0000_0000) by (nonlinear_arith);
    }
}

/// Exact squared Euclidean distance between two equal-length vectors.
#[verifier::loop_isolation(false)]
pub fn distance(a: &Vec<i32>, b: &Vec<i32>) -> (d: u128)
    requires
        a@.len() == b@.len(),
        a@.len() <= MAX_DIM,
    ensures
        d == spec_dist(a@, b@),
{
    let n = a.len();
    let mut acc: u128 = 0;
    let mut i: usize = 0;
    while i < n
        invariant
            i <= n,
            acc == dist_prefix(a@, b@, i as nat),
        decreases n - i,
    {
        proof {
            lemma_dist_prefix_bounds(a@, b@, (i + 1) as nat);
            assert((i + 1) * 0x1_0000_0000_0000_0000 <= 0x10_0000 * 0x1_0000_0000_0000_0000)
                by (nonlinear_arith)
                requires
                    i + 1 <= 0x10_0000,
            ;
        }
        let diff: i64 = (a[i] as i64) - (b[i] as i64);
        proof {
            assert(0 <= (diff as int) * (diff as int) <= 0xffff_ffff * 0xffff_ffff)
                by (nonlinear_arith)
                requires
                    -0xffff_ffff <= diff as int <= 0xffff_ffff,
            ;
        }
        let prod: i128 = (diff as i128) * (diff as i128);
        proof {
            assert(prod == sq(a@[i as int] as int - b@[i as int] as int)
                && 0 <= prod < 0x1_0000_0000_0000_0000) by (nonlinear_arith)
                requires
                    prod == (diff as i128) * (diff as i128),
                    diff == a@[i as int] as int - b@[i as int] as int,
                    -0xffff_ffff <= diff <= 0xffff_ffff,
            ;
        }
        acc = acc + (prod as u128);
        i = i + 1;
    }
    acc
}

/// Result pairs are ordered by distance ascending, ties broken by element
/// index ascending: a strict total order on pairs with distinct indices.
pub open spec fn pair_lt(x: (usize, u128), y: (usize, u128)) -> bool {
    x.1 < y.1 || (x.1 == y.1 && x.0 < y.0)
}

/// Executable comparison deciding `pair_lt`.
pub fn pair_before(x: (usize, u128), y: (usize, u128)) -> (r: bool)
    ensures
        r == pair_lt(x, y),
{
    x.1 < y.1 || (x.1 == y.1 && x.0 < y.0)
}

} // verus!
