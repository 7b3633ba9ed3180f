//! Integer random walks and first-hitting stopping times.

use vstd::prelude::*;

verus! {

/// Position of the walk after its first `k` steps, starting from `0`:
/// `X_k = X_{k-1} + Z_k`.
pub open spec fn walk_position(steps: Seq<i32>, k: int) -> int
    decreases k,
{
    if k <= 0 {
        0
    } else {
        walk_position(steps, k - 1) + steps[k - 1]
    }
}

/// Every position of the walk, from `X_0` to `X_n`, is an `i32`.
pub open spec fn walk_fits_i32(steps: Seq<i32>) -> bool {
    forall|k: int|
        0 <= k <= steps.len() ==> i32::MIN <= #[trigger] walk_position(steps, k) <= i32::MAX
}

/// Each step is `+1` or `-1`.
pub open spec fn unit_steps(steps: Seq<i32>) -> bool {
    forall|k: int| 0 <= k < steps.len() ==> #[trigger] steps[k] == 1 || steps[k] == -1
}

/// Quadratic variation `[X]_k = Σ_{i<k} (X_{i+1} - X_i)²` of the walk.
pub open spec fn quadratic_variation(steps: Seq<i32>, k: int) -> int
    decreases k,
{
    if k <= 0 {
        0
    } else {
        let d = walk_position(steps, k) - walk_position(steps, k - 1);
        quadratic_variation(steps, k - 1) + d * d
    }
}

/// The positions `X_0 = 0, X_1, ..., X_n` of the walk with the given steps,
/// or `None` where a position does not fit in an `i32`.
pub fn random_walk_positions(steps: &Vec<i32>) -> (r: Option<Vec<i32>>)
    ensures
        r is Some <==> walk_fits_i32(steps@),
        r matches Some(v) ==> {
            &&& v.len() == steps.len() + 1
            &&& forall|k: int| 0 <= k <= steps.len() ==> #[trigger] v@[k] == walk_position(steps@, k)
        },
{
    let mut v: Vec<i32> = Vec::new();
    v.push(0);
    let mut pos: i32 = 0;
    let mut i: usize = 0;
    while i < steps.len()
        invariant
            i <= steps.len(),
            v.len() == i + 1,
            pos == walk_position(steps@, i as int),
            forall|k: int| 0 <= k <= i ==> #[trigger] v@[k] == walk_position(steps@, k),
        decreases steps.len() - i,
    {
        let next: i64 = pos as i64 + steps[i] as i64;
        if next < i32::MIN as i64 || next > i32::MAX as i64 {
            assert(!walk_fits_i32(steps@)) by {
                assert(walk_position(steps@, i + 1) == next);
            }
            return None;
        }
        pos = next as i32;
        v.push(pos);
        i = i + 1;
    }
    assert(walk_fits_i32(steps@)) by {
        assert forall|k: int| 0 <= k <= steps.len() implies i32::MIN <= #[trigger] walk_position(steps@, k) <= i32::MAX by {
            assert(v@[k] == walk_position(steps@, k));
        }
    }
    Some(v)
}

/// The increments of a walk are its steps: `X_{k+1} - X_k = Z_{k+1}`.
pub proof fn lemma_walk_increments(steps: Seq<i32>, k: int)
    requires
        0 <= k < steps.len(),
    ensures
        walk_position(steps, k + 1) - walk_position(steps, k) == steps[k],
{
}

/// A walk of `n` unit steps has quadratic variation `n`.
pub proof fn lemma_unit_walk_quadratic_variation(steps: Seq<i32>, k: int)
    requires
        unit_steps(steps),
        0 <= k <= steps.len(),
    ensures
        quadratic_variation(steps, k) == k,
    decreases k,
{
    if k > 0 {
        lemma_unit_walk_quadratic_variation(steps, k - 1);
        let d = walk_position(steps, k) - walk_position(steps, k - 1);
        assert(d == 1 || d == -1) by {
            assert(steps[k - 1] == 1 || steps[k - 1] == -1);
        }
        assert(d * d == 1) by (nonlinear_arith)
            requires
                d == 1 || d == -1,
        ;
    }
}

/// A walk of unit steps stays within `n` of its start, so one of at most
/// `i32::MAX` unit steps always fits in an `i32`.
pub proof fn lemma_unit_walk_fits(steps: Seq<i32>)
    requires
        unit_steps(steps),
        steps.len() <= i32::MAX,
    ensures
        walk_fits_i32(steps),
{
    assert forall|k: int| 0 <= k <= steps.len() implies i32::MIN <= #[trigger] walk_position(steps, k) <= i32::MAX by {
        lemma_unit_walk_bound(steps, k);
    }
}

proof fn lemma_unit_walk_bound(steps: Seq<i32>, k: int)
    requires
        unit_steps(steps),
        0 <= k <= steps.len(),
    ensures
        -k <= walk_position(steps, k) <= k,
    decreases k,
{
    if k > 0 {
        lemma_unit_walk_bound(steps, k - 1);
        assert(steps[k - 1] == 1 || steps[k - 1] == -1);
    }
}

/// `t` is the first index at which `hits` holds, or `hits.len()` where it
/// never does: `t = min{n : hits[n]}`.
pub open spec fn is_first_hit(hits: Seq<bool>, t: int) -> bool {
    &&& 0 <= t <= hits.len()
    &&& forall|i: int| 0 <= i < t ==> !#[trigger] hits[i]
    &&& t < hits.len() ==> hits[t]
}

/// The first time at which the stopping condition holds, or `hits.len()`
/// where it never does: `τ = min{n : hits[n]}`.
///
/// With `hits[n]` meaning `X_n ≥ a` this is the first passage time of `a`;
/// with `X_n ∉ (a, b)`, the first exit time from `(a, b)`.
pub fn first_hit(hits: &Vec<bool>) -> (t: usize)
    ensures
        is_first_hit(hits@, t as int),
{
    let mut i: usize = 0;
    while i < hits.len()
        invariant
            i <= hits.len(),
            forall|k: int| 0 <= k < i ==> !#[trigger] hits@[k],
        decreases hits.len() - i,
    {
        if hits[i] {
            return i;
        }
        i = i + 1;
    }
    i
}

/// A first-hitting time is a stopping time: whether `τ ≤ n`, and if so the
/// value of `τ`, depends only on the condition at times `0..=n`.
///
/// Two histories that agree up to time `n` stop at or before `n` together,
/// and then at the same time.
pub proof fn lemma_first_hit_is_stopping_time(
    h1: Seq<bool>,
    h2: Seq<bool>,
    t1: int,
    t2: int,
    n: int,
)
    requires
        is_first_hit(h1, t1),
        is_first_hit(h2, t2),
        0 <= n < h1.len(),
        n < h2.len(),
        forall|i: int| 0 <= i <= n ==> h1[i] == h2[i],
    ensures
        t1 <= n <==> t2 <= n,
        t1 <= n ==> t1 == t2,
{
    if t1 <= n {
        assert(h2[t1]);
        if t2 < t1 {
            assert(h1[t2]);
        }
    }
    if t2 <= n {
        assert(h1[t2]);
        if t1 < t2 {
            assert(h2[t1]);
        }
    }
}

} // verus!
