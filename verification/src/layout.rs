//! Shapes and index layouts: validation of distribution and barycenter inputs,
//! the choice between the one-dimensional and the general methods, the initial
//! support selection of the multi-dimensional barycenter, and pairwise tables
//! such as cost matrices.
use vstd::prelude::*;

verus! {

/// Why a list of weights and a list of support points cannot form a distribution.
#[derive(Debug, Clone, Copy, PartialEq, Eq, Structural)]
pub enum ShapeError {
    /// The two lists have different lengths.
    LengthMismatch,
    /// The lists are empty.
    Empty,
}

/// Checks that `n_weights` weights and `n_points` support points can form a
/// distribution: the lengths must agree (checked first) and be positive.
pub fn check_distribution_shape(n_weights: usize, n_points: usize) -> (res: Result<(), ShapeError>)
    ensures
        res == Err::<(), ShapeError>(ShapeError::LengthMismatch) <==> n_weights != n_points,
        res == Err::<(), ShapeError>(ShapeError::Empty) <==> (n_weights == n_points && n_points
            == 0),
        res is Ok <==> (n_weights == n_points && n_points > 0),
{
    if n_weights != n_points {
        Err(ShapeError::LengthMismatch)
    } else if n_points == 0 {
        Err(ShapeError::Empty)
    } else {
        Ok(())
    }
}

/// Why a barycenter problem is malformed.
#[derive(Debug, Clone, Copy, PartialEq, Eq, Structural)]
pub enum BarycenterShapeError {
    /// The number of distributions differs from the number of weights.
    LengthMismatch,
    /// There is no distribution.
    NoDistributions,
    /// The barycenter was asked for no support point.
    NoSupport,
}

/// Checks the sizes of a barycenter problem, in this order: as many weights as
/// distributions, at least one distribution, at least one support point.
pub fn check_barycenter_shape(
    n_distributions: usize,
    n_weights: usize,
    n_support: usize,
) -> (res: Result<(), BarycenterShapeError>)
    ensures
        res == Err::<(), BarycenterShapeError>(BarycenterShapeError::LengthMismatch)
            <==> n_distributions != n_weights,
        res == Err::<(), BarycenterShapeError>(BarycenterShapeError::NoDistributions) <==> (
        n_distributions == n_weights && n_distributions == 0),
        res == Err::<(), BarycenterShapeError>(BarycenterShapeError::NoSupport) <==> (
        n_distributions == n_weights && n_distributions > 0 && n_support == 0),
        res is Ok <==> (n_distributions == n_weights && n_distributions > 0 && n_support > 0),
{
    if n_distributions != n_weights {
        Err(BarycenterShapeError::LengthMismatch)
    } else if n_distributions == 0 {
        Err(BarycenterShapeError::NoDistributions)
    } else if n_support == 0 {
        Err(BarycenterShapeError::NoSupport)
    } else {
        Ok(())
    }
}

/// How a computation over several distributions proceeds, decided by the
/// dimension of their support.
#[derive(Debug, Clone, Copy, PartialEq, Eq, Structural)]
pub enum Method {
    /// Every distribution lives on the line: work with sorted positions and quantiles.
    OneDimensional,
    /// Some distribution has points of another dimension: work point by point.
    General,
}

/// The method for a list of distributions whose first support points have the
/// dimensions `first_dims`: the one-dimensional method exactly when every
/// dimension is 1.
pub fn choose_method(first_dims: &Vec<usize>) -> (m: Method)
    ensures
        m == Method::OneDimensional <==> forall|i: int|
            0 <= i < first_dims.len() ==> #[trigger] first_dims@[i] == 1,
{
    let mut i: usize = 0;
    while i < first_dims.len()
        invariant
            i <= first_dims.len(),
            forall|t: int| 0 <= t < i ==> #[trigger] first_dims@[t] == 1,
        decreases first_dims.len() - i,
    {
        if first_dims[i] != 1 {
            return Method::General;
        }
        i = i + 1;
    }
    Method::OneDimensional
}

/// The stride between the initial support points of the multi-dimensional
/// barycenter: the number of pooled points per support point, at least 1.
pub open spec fn support_stride(total_points: nat, n_support: nat) -> nat {
    if total_points / n_support >= 1 {
        total_points / n_support
    } else {
        1
    }
}

/// The pooled point that initial support point `i` copies: every stride-th point,
/// clamped to the last one.
pub open spec fn support_index(total_points: nat, n_support: nat, i: nat) -> nat {
    let at: nat = i * support_stride(total_points, n_support);
    if at < total_points {
        at
    } else {
        (total_points - 1) as nat
    }
}

/// The indices, into the pooled support points of all distributions, of the
/// initial support of the multi-dimensional barycenter.
pub fn initial_support_indices(total_points: usize, n_support: usize) -> (idx: Vec<usize>)
    requires
        total_points >= 1,
        n_support >= 1,
    ensures
        idx.len() == n_support,
        forall|i: int|
            0 <= i < n_support ==> #[trigger] idx@[i] == support_index(
                total_points as nat,
                n_support as nat,
                i as nat,
            ),
        forall|i: int| 0 <= i < n_support ==> #[trigger] idx@[i] < total_points,
        total_points >= n_support ==> forall|i: int|
            0 <= i < n_support ==> #[trigger] idx@[i] == i * (total_points / n_support),
        total_points < n_support ==> forall|i: int|
            0 <= i < n_support ==> #[trigger] idx@[i] == if i < total_points {
                i
            } else {
                total_points - 1
            },
{
    let q: usize = total_points / n_support;
    let stride: usize = if q >= 1 {
        q
    } else {
        1
    };
    assert(stride == support_stride(total_points as nat, n_support as nat));
    assert(q * n_support <= total_points) by (nonlinear_arith)
        requires
            q == total_points / n_support,
            n_support >= 1,
    ;
    let mut idx: Vec<usize> = Vec::new();
    let mut i: usize = 0;
    while i < n_support
        invariant
            i <= n_support,
            n_support >= 1,
            total_points >= 1,
            stride == support_stride(total_points as nat, n_support as nat),
            stride == 1 || stride * n_support <= total_points,
            idx.len() == i,
            forall|t: int|
                0 <= t < i ==> #[trigger] idx@[t] == support_index(
                    total_points as nat,
                    n_support as nat,
                    t as nat,
                ),
            forall|t: int| 0 <= t < i ==> #[trigger] idx@[t] < total_points,
        decreases n_support - i,
    {
        proof {
            if stride == 1 {
                assert(i * stride == i) by (nonlinear_arith)
                    requires
                        stride == 1,
                ;
            } else {
                assert(i * stride <= n_support * stride) by (nonlinear_arith)
                    requires
                        i < n_support,
                ;
            }
        }
        let at: usize = i * stride;
        let chosen: usize = if at < total_points {
            at
        } else {
            total_points - 1
        };
        idx.push(chosen);
        i = i + 1;
    }
    proof {
        if total_points >= n_support {
            let d: nat = (total_points / n_support) as nat;
            lemma_floor_div_bounds(total_points as nat, n_support as nat);
            assert forall|t: int| 0 <= t < n_support implies #[trigger] idx@[t] == t * (
            total_points / n_support) by {
                lemma_support_index_in_blocks(total_points as nat, n_support as nat, d, t as nat);
            }
        } else {
            assert forall|t: int| 0 <= t < n_support implies #[trigger] idx@[t] == if t
                < total_points {
                t
            } else {
                total_points - 1
            } by {
                lemma_support_index_few_points(total_points as nat, n_support as nat, t as nat);
            }
        }
    }
    idx
}

proof fn lemma_floor_div_bounds(total: nat, n: nat)
    requires
        n >= 1,
        total >= n,
    ensures
        total / n >= 1,
        (total / n) * n <= total < (total / n) * n + n,
{
    vstd::arithmetic::div_mod::lemma_fundamental_div_mod(total as int, n as int);
    vstd::arithmetic::div_mod::lemma_mod_bound(total as int, n as int);
    assert((total / n) * n == n * (total / n)) by (nonlinear_arith);
    if total / n < 1 {
        assert(total / n == 0);
        assert(n * (total / n) == 0) by (nonlinear_arith)
            requires
                total / n == 0,
        ;
    }
}

/// With at least as many pooled points as support points, the initial support
/// takes the pooled points in `n_support` equal blocks of `d` points, `d` being
/// the largest count with `d * n_support <= total_points`: support point `i` is the
/// first point of block `i`, consecutive support points are exactly `d` apart, and
/// the last one lies in the final block, so the whole pool is covered.
pub proof fn lemma_support_index_in_blocks(total_points: nat, n_support: nat, d: nat, i: nat)
    requires
        n_support >= 1,
        d >= 1,
        d * n_support <= total_points < d * n_support + n_support,
        i < n_support,
    ensures
        support_index(total_points, n_support, i) == i * d,
        i + 1 < n_support ==> support_index(total_points, n_support, i + 1) == support_index(
            total_points,
            n_support,
            i,
        ) + d,
        i + 1 == n_support ==> total_points - d - n_support < support_index(total_points, n_support, i)
            < total_points,
{
    assert(total_points / n_support == d) by (nonlinear_arith)
        requires
            n_support >= 1,
            d * n_support <= total_points < d * n_support + n_support,
    {
        vstd::arithmetic::div_mod::lemma_fundamental_div_mod(total_points as int, n_support as int);
        vstd::arithmetic::div_mod::lemma_mod_bound(total_points as int, n_support as int);
    }
    assert(i * d < total_points) by (nonlinear_arith)
        requires
            i < n_support,
            d >= 1,
            d * n_support <= total_points,
    ;
    assert((i + 1) * d == i * d + d) by (nonlinear_arith);
    if i + 1 < n_support {
        assert((i + 1) * d < total_points) by (nonlinear_arith)
            requires
                i + 1 < n_support,
                d >= 1,
                d * n_support <= total_points,
        ;
    }
    if i + 1 == n_support {
        assert(i * d + d == d * n_support) by (nonlinear_arith)
            requires
                i + 1 == n_support,
        ;
    }
}

/// With fewer pooled points than support points, the initial support takes every
/// pooled point in turn and repeats the last one for the remaining support points.
pub proof fn lemma_support_index_few_points(total_points: nat, n_support: nat, i: nat)
    requires
        1 <= total_points < n_support,
        i < n_support,
    ensures
        support_index(total_points, n_support, i) == if i < total_points {
            i
        } else {
            (total_points - 1) as nat
        },
{
    assert(total_points / n_support == 0) by (nonlinear_arith)
        requires
            0 <= total_points < n_support,
    {
        vstd::arithmetic::div_mod::lemma_basic_div(total_points as int, n_support as int);
    }
}

/// The table of `f` over all pairs: row `i`, column `j` holds `f(rows[i], cols[j])`
/// (a cost matrix when `f` is a cost between points).
pub fn pairwise_table<A, B, C, F>(rows: &[A], cols: &[B], f: F) -> (table: Vec<Vec<C>>) where
    F: Fn(&A, &B) -> C,

    requires
        forall|a: A, b: B| call_requires(f, (&a, &b)),
    ensures
        table.len() == rows.len(),
        forall|i: int| 0 <= i < rows.len() ==> #[trigger] table@[i].len() == cols.len(),
        forall|i: int, j: int|
            0 <= i < rows.len() && 0 <= j < cols.len() ==> call_ensures(
                f,
                (&rows@[i], &cols@[j]),
                #[trigger] table@[i]@[j],
            ),
{
    let mut table: Vec<Vec<C>> = Vec::new();
    let mut i: usize = 0;
    while i < rows.len()
        invariant
            i <= rows.len(),
            forall|a: A, b: B| call_requires(f, (&a, &b)),
            table.len() == i,
            forall|t: int| 0 <= t < i ==> #[trigger] table@[t].len() == cols.len(),
            forall|t: int, j: int|
                0 <= t < i && 0 <= j < cols.len() ==> call_ensures(
                    f,
                    (&rows@[t], &cols@[j]),
                    #[trigger] table@[t]@[j],
                ),
        decreases rows.len() - i,
    {
        let mut row: Vec<C> = Vec::new();
        let mut j: usize = 0;
        while j < cols.len()
            invariant
                i < rows.len(),
                j <= cols.len(),
                forall|a: A, b: B| call_requires(f, (&a, &b)),
                row.len() == j,
                forall|s: int|
                    0 <= s < j ==> call_ensures(f, (&rows@[i as int], &cols@[s]), #[trigger] row@[s]),
            decreases cols.len() - j,
        {
            let c = f(&rows[i], &cols[j]);
            row.push(c);
            j = j + 1;
        }
        table.push(row);
        i = i + 1;
    }
    table
}

} // verus!
