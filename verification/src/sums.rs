//! The mathematical model of costs: sums of distances over a member list.
//!
//! `row_sum` is the marginal cost of a vertex against a member list (the sum
//! of its distances to every member); `pair_sum` is the total cost of a member
//! list (every unordered pair counted exactly once).  Both recurse over the
//! list from the back, which matches how the engine grows solutions.

use vstd::prelude::*;
use vstd::seq_lib::*;
use vstd::set_lib::*;

verus! {

/// A well-formed `n` x `n` distance matrix: square, entries bounded by
/// `bound`, symmetric, and zero on the diagonal.
pub open spec fn mat_wf(d: Seq<Seq<u64>>, n: int, bound: int) -> bool {
    &&& d.len() == n
    &&& forall|i: int| 0 <= i < n ==> (#[trigger] d[i]).len() == n
    &&& forall|i: int, j: int| 0 <= i < n && 0 <= j < n ==> #[trigger] d[i][j] <= bound
    &&& forall|i: int, j: int| 0 <= i < n && 0 <= j < n ==> #[trigger] d[i][j] == d[j][i]
    &&& forall|i: int| 0 <= i < n ==> #[trigger] d[i][i] == 0
}

/// A valid member list over `n` vertices: distinct indices below `n`.
pub open spec fn valid_members(m: Seq<usize>, n: int) -> bool {
    &&& m.no_duplicates()
    &&& forall|k: int| 0 <= k < m.len() ==> #[trigger] m[k] < n
}

/// Sum of the distances from vertex `v` to every vertex of `m`.
pub open spec fn row_sum(d: Seq<Seq<u64>>, v: int, m: Seq<usize>) -> int
    decreases m.len(),
{
    if m.len() == 0 {
        0
    } else {
        row_sum(d, v, m.drop_last()) + d[v][m.last() as int]
    }
}

/// Sum of the distances over every unordered pair of vertices of `m`.
pub open spec fn pair_sum(d: Seq<Seq<u64>>, m: Seq<usize>) -> int
    decreases m.len(),
{
    if m.len() == 0 {
        0
    } else {
        pair_sum(d, m.drop_last()) + row_sum(d, m.last() as int, m.drop_last())
    }
}

pub proof fn lemma_row_sum_nonneg(d: Seq<Seq<u64>>, v: int, m: Seq<usize>)
    ensures
        row_sum(d, v, m) >= 0,
    decreases m.len(),
{
    if m.len() > 0 {
        lemma_row_sum_nonneg(d, v, m.drop_last());
    }
}

pub proof fn lemma_pair_sum_nonneg(d: Seq<Seq<u64>>, m: Seq<usize>)
    ensures
        pair_sum(d, m) >= 0,
    decreases m.len(),
{
    if m.len() > 0 {
        lemma_pair_sum_nonneg(d, m.drop_last());
        lemma_row_sum_nonneg(d, m.last() as int, m.drop_last());
    }
}

pub proof fn lemma_row_sum_bound(d: Seq<Seq<u64>>, n: int, bound: int, v: int, m: Seq<usize>)
    requires
        mat_wf(d, n, bound),
        0 <= v < n,
        forall|k: int| 0 <= k < m.len() ==> #[trigger] m[k] < n,
    ensures
        row_sum(d, v, m) <= m.len() * bound,
    decreases m.len(),
{
    if m.len() > 0 {
        lemma_row_sum_bound(d, n, bound, v, m.drop_last());
        assert(d[v][m.last() as int] <= bound);
        assert((m.len() - 1) * bound + bound == m.len() * bound) by (nonlinear_arith);
    }
}

pub proof fn lemma_pair_sum_bound(d: Seq<Seq<u64>>, n: int, bound: int, m: Seq<usize>)
    requires
        mat_wf(d, n, bound),
        bound >= 0,
        forall|k: int| 0 <= k < m.len() ==> #[trigger] m[k] < n,
    ensures
        pair_sum(d, m) <= m.len() * m.len() * bound,
    decreases m.len(),
{
    if m.len() > 0 {
        let m0 = m.drop_last();
        lemma_pair_sum_bound(d, n, bound, m0);
        lemma_row_sum_bound(d, n, bound, m.last() as int, m0);
        let l = m.len();
        assert((l - 1) * (l - 1) * bound + (l - 1) * bound <= l * l * bound) by (nonlinear_arith)
            requires l >= 1, bound >= 0,
        ;
    }
}

/// A list of distinct vertex indices below `n` has at most `n` entries.
pub proof fn lemma_members_in_range_len(m: Seq<usize>, n: int)
    requires
        m.no_duplicates() || m.len() == 0,
        forall|k: int| 0 <= k < m.len() ==> #[trigger] m[k] < n,
    ensures
        m.len() <= n || m.len() == 0,
{
    if m.len() == 0 {
        return;
    }
    assert(m[0] < n);
    let si = m.map_values(|x: usize| x as int);
    assert(si.no_duplicates()) by {
        assert forall|i: int, j: int|
            0 <= i < si.len() && 0 <= j < si.len() && i != j implies si[i] != si[j] by {
            assert(m[i] != m[j]);
        }
    }
    si.unique_seq_to_set();
    let r = set_int_range(0, n);
    lemma_int_range(0, n);
    assert(si.to_set().subset_of(r)) by {
        assert forall|e: int| si.to_set().contains(e) implies r.contains(e) by {
            let k = choose|k: int| 0 <= k < si.len() && si[k] == e;
            assert(m[k] < n);
        }
    }
    lemma_len_subset(si.to_set(), r);
}

pub proof fn lemma_row_sum_push(d: Seq<Seq<u64>>, v: int, m: Seq<usize>, u: usize)
    ensures
        row_sum(d, v, m.push(u)) == row_sum(d, v, m) + d[v][u as int],
{
    assert(m.push(u).drop_last() =~= m);
    assert(m.push(u).last() == u);
}

pub proof fn lemma_pair_sum_push(d: Seq<Seq<u64>>, m: Seq<usize>, u: usize)
    ensures
        pair_sum(d, m.push(u)) == pair_sum(d, m) + row_sum(d, u as int, m),
{
    assert(m.push(u).drop_last() =~= m);
    assert(m.push(u).last() == u);
}

pub proof fn lemma_row_sum_remove(d: Seq<Seq<u64>>, v: int, m: Seq<usize>, k: int)
    requires
        0 <= k < m.len(),
    ensures
        row_sum(d, v, m.remove(k)) == row_sum(d, v, m) - d[v][m[k] as int],
    decreases m.len(),
{
    if k == m.len() - 1 {
        assert(m.remove(k) =~= m.drop_last());
    } else {
        let m0 = m.drop_last();
        lemma_row_sum_remove(d, v, m0, k);
        assert(m.remove(k).drop_last() =~= m0.remove(k));
        assert(m.remove(k).last() == m.last());
    }
}

/// Removing one vertex from a member list lowers the total cost by exactly the
/// removed vertex's distances to the remaining members (symmetry is needed:
/// the removed vertex may appear on either side of a pair).
pub proof fn lemma_pair_sum_remove(
    d: Seq<Seq<u64>>,
    n: int,
    bound: int,
    m: Seq<usize>,
    k: int,
)
    requires
        mat_wf(d, n, bound),
        forall|q: int| 0 <= q < m.len() ==> #[trigger] m[q] < n,
        0 <= k < m.len(),
    ensures
        pair_sum(d, m.remove(k)) == pair_sum(d, m) - row_sum(d, m[k] as int, m.remove(k)),
    decreases m.len(),
{
    if k == m.len() - 1 {
        assert(m.remove(k) =~= m.drop_last());
    } else {
        let m0 = m.drop_last();
        let u = m0[k];
        lemma_pair_sum_remove(d, n, bound, m0, k);
        assert(m.remove(k).drop_last() =~= m0.remove(k));
        assert(m.remove(k).last() == m.last());
        // pair_sum(m.remove(k)) == pair_sum(m0.remove(k)) + row_sum(last, m0.remove(k))
        lemma_row_sum_remove(d, m.last() as int, m0, k);
        // row_sum(last, m0.remove(k)) == row_sum(last, m0) - d[last][u]
        lemma_row_sum_push(d, u as int, m0.remove(k), m.last());
        // row_sum(u, m0.remove(k).push(last)) == row_sum(u, m0.remove(k)) + d[u][last]
        assert(d[m.last() as int][u as int] == d[u as int][m.last() as int]);
    }
}

pub proof fn lemma_push_contains(m: Seq<usize>, u: usize, x: usize)
    ensures
        m.push(u).contains(x) <==> (m.contains(x) || x == u),
{
    if m.contains(x) {
        let k = choose|k: int| 0 <= k < m.len() && m[k] == x;
        assert(m.push(u)[k] == x);
    }
    if x == u {
        assert(m.push(u)[m.len() as int] == x);
    }
    if m.push(u).contains(x) && x != u {
        let k = choose|k: int| 0 <= k < m.push(u).len() && m.push(u)[k] == x;
        assert(k < m.len());
        assert(m[k] == x);
    }
}

pub proof fn lemma_push_no_dup(m: Seq<usize>, u: usize)
    requires
        m.no_duplicates(),
        !m.contains(u),
    ensures
        m.push(u).no_duplicates(),
{
    let p = m.push(u);
    assert forall|i: int, j: int|
        0 <= i < p.len() && 0 <= j < p.len() && i != j implies p[i] != p[j] by {
        if i < m.len() && j < m.len() {
            assert(m[i] != m[j]);
        } else if i < m.len() {
            if m[i] == u {
                assert(m.contains(u));
            }
        } else {
            if m[j] == u {
                assert(m.contains(u));
            }
        }
    }
}

pub proof fn lemma_concat_contains(a: Seq<usize>, b: Seq<usize>, x: usize)
    ensures
        (a + b).contains(x) <==> (a.contains(x) || b.contains(x)),
{
    if a.contains(x) {
        let k = choose|k: int| 0 <= k < a.len() && a[k] == x;
        assert((a + b)[k] == x);
    }
    if b.contains(x) {
        let k = choose|k: int| 0 <= k < b.len() && b[k] == x;
        assert((a + b)[a.len() + k] == x);
    }
    if (a + b).contains(x) {
        let k = choose|k: int| 0 <= k < (a + b).len() && (a + b)[k] == x;
        if k < a.len() {
            assert(a[k] == x);
        } else {
            assert(b[k - a.len()] == x);
        }
    }
}

pub proof fn lemma_concat_no_dup(a: Seq<usize>, b: Seq<usize>)
    requires
        a.no_duplicates(),
        b.no_duplicates(),
        forall|x: usize| a.contains(x) ==> !b.contains(x),
    ensures
        (a + b).no_duplicates(),
{
    let c = a + b;
    assert forall|i: int, j: int|
        0 <= i < c.len() && 0 <= j < c.len() && i != j implies c[i] != c[j] by {
        if i < a.len() && j < a.len() {
            assert(a[i] != a[j]);
        } else if i >= a.len() && j >= a.len() {
            assert(b[i - a.len()] != b[j - a.len()]);
        } else if i < a.len() {
            assert(c[i] == a[i] && c[j] == b[j - a.len()]);
            if a[i] == b[j - a.len()] {
                assert(a.contains(a[i]));
                assert(b.contains(a[i]));
            }
        } else {
            assert(c[j] == a[j] && c[i] == b[i - a.len()]);
            if a[j] == b[i - a.len()] {
                assert(a.contains(a[j]));
                assert(b.contains(a[j]));
            }
        }
    }
}

/// A sum over fewer vertices is no larger: `q`'s distinct entries all lie in
/// `m`, so summing `v`'s distances over `q` stays below the sum over `m`.
pub proof fn lemma_row_sum_subset(d: Seq<Seq<u64>>, v: int, q: Seq<usize>, m: Seq<usize>)
    requires
        q.no_duplicates(),
        forall|e: usize| q.contains(e) ==> m.contains(e),
    ensures
        row_sum(d, v, q) <= row_sum(d, v, m),
    decreases q.len(),
{
    if q.len() == 0 {
        lemma_row_sum_nonneg(d, v, m);
    } else {
        let e = q.last();
        let q0 = q.drop_last();
        assert(q[q.len() - 1] == e);
        assert(q.contains(e));
        let k = choose|k: int| 0 <= k < m.len() && m[k] == e;
        let m0 = m.remove(k);
        lemma_row_sum_remove(d, v, m, k);
        assert forall|y: usize| q0.contains(y) implies m0.contains(y) by {
            let i = choose|i: int| 0 <= i < q0.len() && q0[i] == y;
            assert(q[i] == y);
            if y == e {
                assert(q[i] == q[q.len() - 1] && i != q.len() - 1);
            }
            assert(m.contains(y));
            let j = choose|j: int| 0 <= j < m.len() && m[j] == y;
            assert(j != k);
            let j1 = if j < k { j } else { j - 1 };
            assert(m0[j1] == y);
        }
        assert(q0.no_duplicates()) by {
            assert forall|i: int, j: int|
                0 <= i < q0.len() && 0 <= j < q0.len() && i != j implies q0[i] != q0[j] by {
                assert(q[i] == q0[i] && q[j] == q0[j]);
            }
        }
        lemma_row_sum_subset(d, v, q0, m0);
    }
}

/// A distinct list whose entries all occur in another distinct list is no
/// longer than it.
pub proof fn lemma_subseq_len(q: Seq<usize>, m: Seq<usize>)
    requires
        q.no_duplicates(),
        m.no_duplicates(),
        forall|e: usize| q.contains(e) ==> m.contains(e),
    ensures
        q.len() <= m.len(),
{
    broadcast use vstd::seq_lib::seq_to_set_is_finite;

    q.unique_seq_to_set();
    m.unique_seq_to_set();
    assert(q.to_set().subset_of(m.to_set())) by {
        assert forall|x: usize| q.to_set().contains(x) implies m.to_set().contains(x) by {
            assert(q.contains(x));
            assert(m.contains(x));
        }
    }
    lemma_len_subset(q.to_set(), m.to_set());
}

/// A distinct list that leaves out some entry of a longer distinct list
/// misses one of its entries.
pub proof fn lemma_subseq_missing(q: Seq<usize>, m: Seq<usize>)
    requires
        q.no_duplicates(),
        m.no_duplicates(),
        forall|e: usize| q.contains(e) ==> m.contains(e),
        q.len() < m.len(),
    ensures
        exists|x: usize| m.contains(x) && !q.contains(x),
{
    broadcast use vstd::seq_lib::seq_to_set_is_finite;

    q.unique_seq_to_set();
    m.unique_seq_to_set();
    if forall|x: usize| m.contains(x) ==> q.contains(x) {
        assert(m.to_set().subset_of(q.to_set())) by {
            assert forall|x: usize| m.to_set().contains(x) implies q.to_set().contains(x) by {
                assert(m.contains(x));
                assert(q.contains(x));
            }
        }
        lemma_len_subset(m.to_set(), q.to_set());
        assert(false);
    }
    let x = choose|x: usize| m.contains(x) && !q.contains(x);
    assert(m.contains(x) && !q.contains(x));
}

/// The identity list `0, 1, ..., n-1`.
pub open spec fn range_seq(n: int) -> Seq<usize> {
    Seq::new(n as nat, |i: int| i as usize)
}

/// A distinct list of fewer than `n` vertices below `n` misses some vertex.
pub proof fn lemma_missing_vertex(q: Seq<usize>, n: int)
    requires
        q.no_duplicates(),
        forall|k: int| 0 <= k < q.len() ==> #[trigger] q[k] < n,
        0 < n <= usize::MAX,
    ensures
        q.len() < n ==> exists|x: usize| x < n && !q.contains(x),
{
    if q.len() >= n {
        return;
    }
    let m = range_seq(n);
    assert(m.no_duplicates()) by {
        assert forall|i: int, j: int|
            0 <= i < m.len() && 0 <= j < m.len() && i != j implies m[i] != m[j] by {
            assert(m[i] == i as usize && m[j] == j as usize);
        }
    }
    assert forall|e: usize| q.contains(e) implies m.contains(e) by {
        let k = choose|k: int| 0 <= k < q.len() && q[k] == e;
        assert(q[k] < n);
        assert(m[e as int] == e);
    }
    lemma_subseq_missing(q, m);
    let x = choose|x: usize| m.contains(x) && !q.contains(x);
    assert(m.contains(x));
    let i = choose|i: int| 0 <= i < m.len() && m[i] == x;
    assert(x < n && !q.contains(x));
}

pub proof fn lemma_row_sum_concat(d: Seq<Seq<u64>>, v: int, a: Seq<usize>, b: Seq<usize>)
    ensures
        row_sum(d, v, a + b) == row_sum(d, v, a) + row_sum(d, v, b),
    decreases b.len(),
{
    if b.len() == 0 {
        assert(a + b =~= a);
    } else {
        assert((a + b).drop_last() =~= a + b.drop_last());
        assert((a + b).last() == b.last());
        lemma_row_sum_concat(d, v, a, b.drop_last());
    }
}

/// A row sum does not depend on the order of a duplicate-free member list.
pub proof fn lemma_row_sum_perm(d: Seq<Seq<u64>>, v: int, a: Seq<usize>, b: Seq<usize>)
    requires
        a.no_duplicates(),
        b.no_duplicates(),
        forall|x: usize| a.contains(x) <==> b.contains(x),
    ensures
        row_sum(d, v, a) == row_sum(d, v, b),
    decreases a.len(),
{
    if a.len() == 0 {
        if b.len() > 0 {
            assert(b.contains(b[0]));
            assert(a.contains(b[0]));
            assert(false);
        }
    } else {
        let x = a.last();
        let a0 = a.drop_last();
        assert(a[a.len() - 1] == x);
        assert(a.contains(x));
        assert(b.contains(x));
        let k = choose|k: int| 0 <= k < b.len() && b[k] == x;
        lemma_row_sum_remove(d, v, b, k);
        let b0 = b.remove(k);
        assert(a0.no_duplicates()) by {
            assert forall|i: int, j: int|
                0 <= i < a0.len() && 0 <= j < a0.len() && i != j implies a0[i] != a0[j] by {
                assert(a[i] == a0[i] && a[j] == a0[j]);
            }
        }
        assert(b0.no_duplicates()) by {
            assert forall|i: int, j: int|
                0 <= i < b0.len() && 0 <= j < b0.len() && i != j implies b0[i] != b0[j] by {
                let i0 = if i < k { i } else { i + 1 };
                let j0 = if j < k { j } else { j + 1 };
                assert(b0[i] == b[i0] && b0[j] == b[j0]);
            }
        }
        assert forall|y: usize| a0.contains(y) <==> b0.contains(y) by {
            if a0.contains(y) {
                let i = choose|i: int| 0 <= i < a0.len() && a0[i] == y;
                assert(a[i] == y);
                assert(a.contains(y));
                if y == x {
                    assert(a[i] == a[a.len() - 1] && i != a.len() - 1);
                }
                assert(b.contains(y));
                let j = choose|j: int| 0 <= j < b.len() && b[j] == y;
                assert(j != k);
                let j1 = if j < k { j } else { j - 1 };
                assert(b0[j1] == y);
            }
            if b0.contains(y) {
                let j = choose|j: int| 0 <= j < b0.len() && b0[j] == y;
                let j0 = if j < k { j } else { j + 1 };
                assert(b[j0] == y);
                assert(b.contains(y));
                if y == x {
                    assert(b[j0] == b[k] && j0 != k);
                }
                assert(a.contains(y));
                let i = choose|i: int| 0 <= i < a.len() && a[i] == y;
                assert(i != a.len() - 1);
                assert(a0[i] == y);
            }
        }
        lemma_row_sum_perm(d, v, a0, b0);
    }
}

/// For a symmetric matrix the total cost does not depend on the order of a
/// duplicate-free member list.
pub proof fn lemma_pair_sum_perm(
    d: Seq<Seq<u64>>,
    n: int,
    bound: int,
    a: Seq<usize>,
    b: Seq<usize>,
)
    requires
        mat_wf(d, n, bound),
        a.no_duplicates(),
        b.no_duplicates(),
        forall|k: int| 0 <= k < a.len() ==> #[trigger] a[k] < n,
        forall|k: int| 0 <= k < b.len() ==> #[trigger] b[k] < n,
        forall|x: usize| a.contains(x) <==> b.contains(x),
    ensures
        pair_sum(d, a) == pair_sum(d, b),
    decreases a.len(),
{
    if a.len() == 0 {
        if b.len() > 0 {
            assert(b.contains(b[0]));
            assert(a.contains(b[0]));
            assert(false);
        }
    } else {
        let x = a.last();
        let a0 = a.drop_last();
        assert(a[a.len() - 1] == x);
        assert(a.contains(x));
        assert(b.contains(x));
        let k = choose|k: int| 0 <= k < b.len() && b[k] == x;
        lemma_pair_sum_remove(d, n, bound, b, k);
        let b0 = b.remove(k);
        assert(a0.no_duplicates()) by {
            assert forall|i: int, j: int|
                0 <= i < a0.len() && 0 <= j < a0.len() && i != j implies a0[i] != a0[j] by {
                assert(a[i] == a0[i] && a[j] == a0[j]);
            }
        }
        assert(b0.no_duplicates()) by {
            assert forall|i: int, j: int|
                0 <= i < b0.len() && 0 <= j < b0.len() && i != j implies b0[i] != b0[j] by {
                let i0 = if i < k { i } else { i + 1 };
                let j0 = if j < k { j } else { j + 1 };
                assert(b0[i] == b[i0] && b0[j] == b[j0]);
            }
        }
        assert forall|y: usize| a0.contains(y) <==> b0.contains(y) by {
            if a0.contains(y) {
                let i = choose|i: int| 0 <= i < a0.len() && a0[i] == y;
                assert(a[i] == y);
                assert(a.contains(y));
                if y == x {
                    assert(a[i] == a[a.len() - 1] && i != a.len() - 1);
                }
                assert(b.contains(y));
                let j = choose|j: int| 0 <= j < b.len() && b[j] == y;
                assert(j != k);
                let j1 = if j < k { j } else { j - 1 };
                assert(b0[j1] == y);
            }
            if b0.contains(y) {
                let j = choose|j: int| 0 <= j < b0.len() && b0[j] == y;
                let j0 = if j < k { j } else { j + 1 };
                assert(b[j0] == y);
                assert(b.contains(y));
                if y == x {
                    assert(b[j0] == b[k] && j0 != k);
                }
                assert(a.contains(y));
                let i = choose|i: int| 0 <= i < a.len() && a[i] == y;
                assert(i != a.len() - 1);
                assert(a0[i] == y);
            }
        }
        lemma_pair_sum_perm(d, n, bound, a0, b0);
        lemma_row_sum_perm(d, x as int, a0, b0);
    }
}

/// Distances between free slots of a compact matrix copy the outer matrix,
/// so mapped row sums agree.
pub proof fn lemma_mapped_row_sum(
    d: Seq<Seq<u64>>,
    ds: Seq<Seq<u64>>,
    ns: int,
    map: Seq<usize>,
    x: int,
    q: Seq<usize>,
)
    requires
        map.len() == ns,
        1 <= x < ns,
        forall|k: int| 0 <= k < q.len() ==> 1 <= #[trigger] q[k] < ns,
        forall|j: int, k: int|
            1 <= j < ns && 1 <= k < ns ==> #[trigger] ds[j][k] == d[map[j] as int][map[k] as int],
    ensures
        row_sum(d, map[x] as int, q.map_values(|sl: usize| map[sl as int]))
            == row_sum(ds, x, q),
    decreases q.len(),
{
    let f = |sl: usize| map[sl as int];
    if q.len() == 0 {
        assert(q.map_values(f) =~= Seq::<usize>::empty());
    } else {
        let q0 = q.drop_last();
        assert(q[q.len() - 1] == q.last());
        assert(q.map_values(f).drop_last() =~= q0.map_values(f));
        assert(q.map_values(f).last() == f(q.last()));
        lemma_mapped_row_sum(d, ds, ns, map, x, q0);
        assert(ds[x][q.last() as int] == d[map[x] as int][map[q.last() as int] as int]);
    }
}

/// Compression fidelity: collapsing `core` into slot 0 of a compact matrix —
/// with the aggregate row holding the exact sums of outer distances to the
/// core and the inner block copying the outer distances — preserves total
/// costs exactly.  A sub-solution holding slot 0 and free slots `q` has, up
/// to the precomputed core cost, the same total as its mapped-back member
/// list.
pub proof fn lemma_compression(
    d: Seq<Seq<u64>>,
    n: int,
    bound: int,
    ds: Seq<Seq<u64>>,
    ns: int,
    core: Seq<usize>,
    map: Seq<usize>,
    ccost: int,
    q: Seq<usize>,
)
    requires
        mat_wf(d, n, bound),
        mat_wf(ds, ns, bound),
        map.len() == ns,
        ccost == pair_sum(d, core),
        forall|k: int| 1 <= k < ns ==> #[trigger] ds[0][k] as int == row_sum(d, map[k] as int, core),
        forall|j: int, k: int|
            1 <= j < ns && 1 <= k < ns ==> #[trigger] ds[j][k] == d[map[j] as int][map[k] as int],
        forall|k: int| 0 <= k < q.len() ==> 1 <= #[trigger] q[k] < ns,
    ensures
        pair_sum(d, core + q.map_values(|sl: usize| map[sl as int]))
            == ccost + pair_sum(ds, seq![0usize] + q),
    decreases q.len(),
{
    let f = |sl: usize| map[sl as int];
    if q.len() == 0 {
        assert(core + q.map_values(f) =~= core);
        let s0 = seq![0usize] + q;
        assert(s0 =~= seq![0usize]);
        assert(s0.len() == 1 && s0.last() == 0usize);
        assert(s0.drop_last() =~= Seq::<usize>::empty());
        assert(pair_sum(ds, s0.drop_last()) == 0);
        lemma_row_sum_nonneg(ds, 0, s0.drop_last());
        assert(row_sum(ds, 0, s0.drop_last()) == 0);
        assert(pair_sum(ds, s0) == pair_sum(ds, s0.drop_last()) + row_sum(
            ds,
            s0.last() as int,
            s0.drop_last(),
        ));
        assert(pair_sum(ds, s0) == 0);
    } else {
        let q0 = q.drop_last();
        let x = q.last();
        assert(q[q.len() - 1] == x);
        assert(1 <= x < ns);
        lemma_compression(d, n, bound, ds, ns, core, map, ccost, q0);
        // the mapped member list grows by map[x]
        assert(core + q.map_values(f) =~= (core + q0.map_values(f)).push(f(x)));
        lemma_pair_sum_push(d, core + q0.map_values(f), f(x));
        lemma_row_sum_concat(d, f(x) as int, core, q0.map_values(f));
        assert(row_sum(d, map[x as int] as int, core) == ds[0][x as int]);
        lemma_mapped_row_sum(d, ds, ns, map, x as int, q0);
        // the sub member list grows by slot x
        assert(seq![0usize] + q =~= (seq![0usize] + q0).push(x));
        lemma_pair_sum_push(ds, seq![0usize] + q0, x);
        lemma_row_sum_concat(ds, x as int, seq![0usize], q0);
        let s0 = seq![0usize];
        assert(s0.len() == 1 && s0.last() == 0usize);
        assert(s0.drop_last() =~= Seq::<usize>::empty());
        assert(row_sum(ds, x as int, s0) == row_sum(ds, x as int, s0.drop_last())
            + ds[x as int][s0.last() as int]);
        assert(row_sum(ds, x as int, s0.drop_last()) == 0);
        assert(row_sum(ds, x as int, s0) == ds[x as int][0]);
        assert(ds[x as int][0] == ds[0][x as int]);
    }
}

/// The sum over a prefix extended by one entry.
pub proof fn lemma_row_sum_take_step(d: Seq<Seq<u64>>, v: int, m: Seq<usize>, k: int)
    requires
        0 <= k < m.len(),
    ensures
        row_sum(d, v, m.take(k + 1)) == row_sum(d, v, m.take(k)) + d[v][m[k] as int],
{
    assert(m.take(k + 1).drop_last() =~= m.take(k));
    assert(m.take(k + 1).last() == m[k]);
}

pub proof fn lemma_pair_sum_take_step(d: Seq<Seq<u64>>, m: Seq<usize>, k: int)
    requires
        0 <= k < m.len(),
    ensures
        pair_sum(d, m.take(k + 1)) == pair_sum(d, m.take(k))
            + row_sum(d, m[k] as int, m.take(k)),
{
    assert(m.take(k + 1).drop_last() =~= m.take(k));
    assert(m.take(k + 1).last() == m[k]);
}

} // verus!
