//! The problem instance: a square symmetric matrix of integer distances.
//!
//! Distances of an instance built from user input are bounded by
//! `BASE_EDGE_MAX`; the decomposer builds sub-instances whose aggregate row
//! may hold sums of up to `MAX_N` such distances, so well-formedness allows
//! entries up to `EDGE_MAX = MAX_N * BASE_EDGE_MAX`.  With those bounds every
//! total the engine forms fits comfortably in `u128` and every objective
//! comparison stays within the exact range of `crate::ratio`.

use vstd::prelude::*;
use crate::sums::mat_wf;

verus! {

/// Largest number of vertices an instance may have: 2^16.
pub const MAX_N: usize = 0x10000;

/// Largest distance entry of any well-formed matrix: 2^46.
pub const EDGE_MAX: u64 = 0x400000000000;

/// Largest distance entry of an instance built from edges: 2^30.
pub const BASE_EDGE_MAX: u64 = 0x40000000;

/// A complete weighted graph on `n` vertices.
pub struct Instance {
    pub n: usize,
    pub d: Vec<Vec<u64>>,
}

/// The distance that a forward scan of `edges` leaves at `(i, j)`: the weight
/// of the last one-based edge covering the pair, in either orientation.
pub open spec fn edge_weight(edges: Seq<(usize, usize, u64)>, i: int, j: int) -> int
    decreases edges.len(),
{
    if edges.len() == 0 {
        0
    } else {
        let e = edges.last();
        if (e.0 - 1 == i && e.1 - 1 == j) || (e.0 - 1 == j && e.1 - 1 == i) {
            e.2 as int
        } else {
            edge_weight(edges.drop_last(), i, j)
        }
    }
}

/// Every edge joins two distinct one-based vertices within range, with a
/// weight a base instance accepts.
pub open spec fn edges_ok(edges: Seq<(usize, usize, u64)>) -> bool {
    forall|k: int| 0 <= k < edges.len() ==> {
        let e = #[trigger] edges[k];
        &&& 1 <= e.0 <= MAX_N
        &&& 1 <= e.1 <= MAX_N
        &&& e.0 != e.1
        &&& e.2 <= BASE_EDGE_MAX
    }
}

/// The largest one-based endpoint named by `edges` (0 when there are none).
pub open spec fn max_endpoint(edges: Seq<(usize, usize, u64)>) -> int
    decreases edges.len(),
{
    if edges.len() == 0 {
        0
    } else {
        let rest = max_endpoint(edges.drop_last());
        let e = edges.last();
        let m = if e.0 >= e.1 { e.0 as int } else { e.1 as int };
        if m >= rest {
            m
        } else {
            rest
        }
    }
}

pub proof fn lemma_edge_weight_sym(edges: Seq<(usize, usize, u64)>, i: int, j: int)
    ensures
        edge_weight(edges, i, j) == edge_weight(edges, j, i),
    decreases edges.len(),
{
    if edges.len() > 0 {
        lemma_edge_weight_sym(edges.drop_last(), i, j);
    }
}

pub proof fn lemma_edge_weight_diag(edges: Seq<(usize, usize, u64)>, i: int)
    requires
        edges_ok(edges),
    ensures
        edge_weight(edges, i, i) == 0,
    decreases edges.len(),
{
    if edges.len() > 0 {
        assert(edges[edges.len() - 1] == edges.last());
        lemma_edge_weight_diag(edges.drop_last(), i);
    }
}

pub proof fn lemma_edge_weight_bound(edges: Seq<(usize, usize, u64)>, i: int, j: int)
    requires
        edges_ok(edges),
    ensures
        0 <= edge_weight(edges, i, j) <= BASE_EDGE_MAX,
    decreases edges.len(),
{
    if edges.len() > 0 {
        assert(edges[edges.len() - 1] == edges.last());
        lemma_edge_weight_bound(edges.drop_last(), i, j);
    }
}

impl Instance {
    /// The matrix as a sequence of rows.
    pub open spec fn dm(self) -> Seq<Seq<u64>> {
        self.d@.map(|i: int, r: Vec<u64>| r@)
    }

    /// Square, symmetric, zero diagonal, entries at most `EDGE_MAX`.
    pub open spec fn wf(self) -> bool {
        &&& self.n == self.d@.len()
        &&& self.n <= MAX_N
        &&& mat_wf(self.dm(), self.n as int, EDGE_MAX as int)
    }

    /// Entries small enough that the decomposer may aggregate them.
    pub open spec fn base_bounded(self) -> bool {
        forall|i: int, j: int|
            0 <= i < self.n && 0 <= j < self.n ==> #[trigger] self.dm()[i][j] <= BASE_EDGE_MAX
    }

    /// Get the distance between vertices `i` and `j`.
    pub fn dist(&self, i: usize, j: usize) -> (r: u64)
        requires
            self.wf(),
            i < self.n,
            j < self.n,
        ensures
            r == self.dm()[i as int][j as int],
    {
        proof {
            assert(self.dm()[i as int] == self.d@[i as int]@);
        }
        self.d[i][j]
    }

    pub fn new(n: usize, d: Vec<Vec<u64>>) -> (r: Instance)
        requires
            n == d@.len(),
            n <= MAX_N,
            mat_wf(d@.map(|i: int, row: Vec<u64>| row@), n as int, EDGE_MAX as int),
        ensures
            r.wf(),
            r.n == n,
            r.dm() == d@.map(|i: int, row: Vec<u64>| row@),
    {
        Instance { n, d }
    }

    /// Build an instance from a list of one-based weighted edges, as a
    /// distance-matrix file lists them.  The instance has as many vertices as
    /// the largest endpoint; a pair listed twice keeps the last weight; every
    /// unlisted pair has distance zero.  Returns `None` exactly when some
    /// edge is out of range, joins a vertex to itself, or carries a weight
    /// above `BASE_EDGE_MAX`.
    pub fn from_edges(edges: &Vec<(usize, usize, u64)>) -> (r: Option<Instance>)
        ensures
            r.is_some() <==> edges_ok(edges@),
            match r {
                Some(inst) => {
                    &&& inst.wf()
                    &&& inst.base_bounded()
                    &&& inst.n == max_endpoint(edges@)
                    &&& forall|i: int, j: int|
                        0 <= i < inst.n && 0 <= j < inst.n
                            ==> #[trigger] inst.dm()[i][j] == edge_weight(edges@, i, j)
                },
                None => true,
            },
    {
        let mut n: usize = 0;
        let mut k: usize = 0;
        while k < edges.len()
            invariant
                0 <= k <= edges.len(),
                n == max_endpoint(edges@.take(k as int)),
                n <= MAX_N,
                edges_ok(edges@.take(k as int)),
                forall|q: int| 0 <= q < k ==> (#[trigger] edges@[q]).0 <= n && edges@[q].1 <= n,
            decreases edges.len() - k,
        {
            let (a, b, w) = edges[k];
            if a < 1 || b < 1 || a == b || a > MAX_N || b > MAX_N || w > BASE_EDGE_MAX {
                proof {
                    assert(edges@.take(edges@.len() as int) =~= edges@);
                    assert(!edges_ok(edges@)) by {
                        assert(edges@[k as int] == (a, b, w));
                    }
                }
                return None;
            }
            let m = if a >= b { a } else { b };
            if m > n {
                n = m;
            }
            proof {
                assert(edges@.take(k + 1).drop_last() =~= edges@.take(k as int));
                assert(edges@.take(k + 1).last() == edges@[k as int]);
                assert(edges@[k as int].0 <= n && edges@[k as int].1 <= n);
            }
            k = k + 1;
        }
        proof {
            assert(edges@.take(edges@.len() as int) =~= edges@);
        }

        // zero matrix of size n x n
        let mut d: Vec<Vec<u64>> = Vec::new();
        let mut i: usize = 0;
        while i < n
            invariant
                0 <= i <= n,
                d@.len() == i,
                forall|p: int| 0 <= p < i ==> (#[trigger] d@[p])@.len() == n,
                forall|p: int, q: int|
                    0 <= p < i && 0 <= q < n ==> #[trigger] d@[p]@[q] == 0,
            decreases n - i,
        {
            let row: Vec<u64> = vec![0u64; n];
            d.push(row);
            i = i + 1;
        }

        // fill from the edges, forward; the last write to a pair wins
        let mut k: usize = 0;
        while k < edges.len()
            invariant
                0 <= k <= edges.len(),
                edges_ok(edges@),
                n == max_endpoint(edges@),
                n <= MAX_N,
                forall|q: int| 0 <= q < edges@.len()
                    ==> (#[trigger] edges@[q]).0 <= n && edges@[q].1 <= n,
                d@.len() == n,
                forall|p: int| 0 <= p < n ==> (#[trigger] d@[p])@.len() == n,
                forall|p: int, q: int|
                    0 <= p < n && 0 <= q < n
                        ==> #[trigger] d@[p]@[q] == edge_weight(edges@.take(k as int), p, q),
            decreases edges.len() - k,
        {
            let (a, b, w) = edges[k];
            let ai = a - 1;
            let bi = b - 1;
            d[ai][bi] = w;
            d[bi][ai] = w;
            proof {
                assert(edges@.take(k + 1).drop_last() =~= edges@.take(k as int));
                assert(edges@.take(k + 1).last() == edges@[k as int]);
            }
            k = k + 1;
        }
        proof {
            assert(edges@.take(edges@.len() as int) =~= edges@);
        }

        let inst = Instance { n, d };
        proof {
            assert forall|p: int| 0 <= p < n implies (#[trigger] inst.dm()[p]).len() == n by {}
            assert forall|p: int, q: int| 0 <= p < n && 0 <= q < n implies
                #[trigger] inst.dm()[p][q] <= EDGE_MAX by {
                lemma_edge_weight_bound(edges@, p, q);
            }
            assert forall|p: int, q: int| 0 <= p < n && 0 <= q < n implies
                #[trigger] inst.dm()[p][q] == inst.dm()[q][p] by {
                lemma_edge_weight_sym(edges@, p, q);
            }
            assert forall|p: int| 0 <= p < n implies #[trigger] inst.dm()[p][p] == 0 by {
                lemma_edge_weight_diag(edges@, p);
            }
            assert forall|p: int, q: int| 0 <= p < n && 0 <= q < n implies
                #[trigger] inst.dm()[p][q] <= BASE_EDGE_MAX by {
                lemma_edge_weight_bound(edges@, p, q);
            }
        }
        Some(inst)
    }
}

} // verus!
