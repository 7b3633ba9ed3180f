//! The transition graph of a finite Markov chain.
//!
//! A chain on states `0..n` is described here by its support: `adj[i][j]`
//! holds exactly when the transition probability `P(i, j)` is positive.
//! Which states can reach which, and hence irreducibility, depend on this
//! table alone.

use vstd::prelude::*;
use vstd::string::StringExecFns;
use vstd::arithmetic::div_mod::{lemma_mod_add_multiples_vanish, lemma_small_mod, lemma_sub_mod_noop};

verus! {

/// The support table as a sequence of rows.
pub open spec fn table(adj: &Vec<Vec<bool>>) -> Seq<Seq<bool>> {
    adj@.map_values(|r: Vec<bool>| r@)
}

/// Every row has one entry per state.
pub open spec fn is_square(t: Seq<Seq<bool>>) -> bool {
    forall|i: int| 0 <= i < t.len() ==> (#[trigger] t[i]).len() == t.len()
}

/// One transition `u -> v` of the chain (`forward`), or of the reversed
/// chain (`!forward`), in which `u -> v` stands for the original `v -> u`.
pub open spec fn step(t: Seq<Seq<bool>>, forward: bool, u: int, v: int) -> bool {
    if forward {
        t[u][v]
    } else {
        t[v][u]
    }
}

/// The `k`-th transition of the walk `p` is possible.
pub open spec fn link(t: Seq<Seq<bool>>, forward: bool, p: Seq<int>, k: int) -> bool {
    step(t, forward, p[k], p[k + 1])
}

/// `p` is a finite walk through states of the chain, each move possible.
pub open spec fn is_walk(t: Seq<Seq<bool>>, forward: bool, p: Seq<int>) -> bool {
    &&& p.len() >= 1
    &&& forall|k: int| 0 <= k < p.len() ==> 0 <= #[trigger] p[k] < t.len()
    &&& forall|k: int| 0 <= k < p.len() - 1 ==> #[trigger] link(t, forward, p, k)
}

/// State `j` can be reached from state `i` in zero or more moves.
pub open spec fn reaches(t: Seq<Seq<bool>>, forward: bool, i: int, j: int) -> bool {
    exists|p: Seq<int>| #[trigger] is_walk(t, forward, p) && p[0] == i && p[p.len() - 1] == j
}

/// State `j` can be reached from state `i` in exactly `len` moves.
pub open spec fn reaches_in(t: Seq<Seq<bool>>, forward: bool, i: int, j: int, len: int) -> bool {
    exists|p: Seq<int>| #[trigger] is_walk(t, forward, p) && p.len() == len + 1 && p[0] == i && p[len] == j
}

/// State `i` can return to itself in exactly `n >= 1` moves.
pub open spec fn returns_in(t: Seq<Seq<bool>>, i: int, n: int) -> bool {
    n >= 1 && reaches_in(t, true, i, i, n)
}

/// Every return time of state `i` is a multiple of `d`.
pub open spec fn divides_all_returns(t: Seq<Seq<bool>>, i: int, d: int) -> bool {
    forall|n: int| #[trigger] returns_in(t, i, n) ==> n % d == 0
}

/// Every state has period one: for each state, no `d > 1` divides all of
/// its return times.
pub open spec fn aperiodic(t: Seq<Seq<bool>>) -> bool {
    forall|i: int, d: int|
        0 <= i < t.len() && d > 1 ==> !#[trigger] divides_all_returns(t, i, d)
}

/// Every state leads to every state: all states communicate.
pub open spec fn all_communicate(t: Seq<Seq<bool>>) -> bool {
    forall|i: int, j: int|
        0 <= i < t.len() && 0 <= j < t.len() ==> #[trigger] reaches(t, true, i, j)
}

/// Every state reaches itself, by the walk of no moves.
pub proof fn lemma_reaches_self(t: Seq<Seq<bool>>, forward: bool, i: int)
    requires
        0 <= i < t.len(),
    ensures
        reaches(t, forward, i, i),
{
    let p = seq![i];
    assert(is_walk(t, forward, p));
}

proof fn lemma_reaches_in_step(t: Seq<Seq<bool>>, forward: bool, i: int, u: int, v: int, len: int)
    requires
        reaches_in(t, forward, i, u, len),
        step(t, forward, u, v),
        0 <= v < t.len(),
    ensures
        reaches_in(t, forward, i, v, len + 1),
{
    let p = choose|p: Seq<int>| #[trigger] is_walk(t, forward, p) && p.len() == len + 1 && p[0] == i && p[len] == u;
    lemma_walk_push(t, forward, p, v);
    assert(is_walk(t, forward, p.push(v)) && p.push(v)[len + 1] == v);
}

proof fn lemma_reaches_in_reaches(t: Seq<Seq<bool>>, forward: bool, i: int, j: int, len: int)
    requires
        reaches_in(t, forward, i, j, len),
    ensures
        reaches(t, forward, i, j),
{
    let p = choose|p: Seq<int>| #[trigger] is_walk(t, forward, p) && p.len() == len + 1 && p[0] == i && p[len] == j;
    assert(p[p.len() - 1] == j);
}

/// A walk extended by one possible move is a walk.
proof fn lemma_walk_push(t: Seq<Seq<bool>>, forward: bool, p: Seq<int>, v: int)
    requires
        is_walk(t, forward, p),
        step(t, forward, p[p.len() - 1], v),
        0 <= v < t.len(),
    ensures
        is_walk(t, forward, p.push(v)),
{
    let q = p.push(v);
    assert forall|k: int| 0 <= k < q.len() - 1 implies #[trigger] link(t, forward, q, k) by {
        if k < p.len() - 1 {
            assert(link(t, forward, p, k));
        }
    }
    assert forall|k: int| 0 <= k < q.len() implies 0 <= #[trigger] q[k] < t.len() by {
        if k < p.len() {
            assert(0 <= p[k] < t.len());
        }
    }
}

/// A contiguous part of a walk is a walk.
proof fn lemma_subwalk(t: Seq<Seq<bool>>, forward: bool, p: Seq<int>, a: int, b: int)
    requires
        is_walk(t, forward, p),
        0 <= a < b <= p.len(),
    ensures
        is_walk(t, forward, p.subrange(a, b)),
{
    let q = p.subrange(a, b);
    assert forall|k: int| 0 <= k < q.len() implies 0 <= #[trigger] q[k] < t.len() by {
        assert(q[k] == p[a + k]);
        assert(0 <= p[a + k] < t.len());
    }
    assert forall|k: int| 0 <= k < q.len() - 1 implies #[trigger] link(t, forward, q, k) by {
        assert(link(t, forward, p, a + k));
        assert(q[k] == p[a + k]);
        assert(q[k + 1] == p[a + k + 1]);
    }
}

/// Two walks, the second starting where the first ends, make one walk.
proof fn lemma_walk_concat(t: Seq<Seq<bool>>, forward: bool, p: Seq<int>, q: Seq<int>)
    requires
        is_walk(t, forward, p),
        is_walk(t, forward, q),
        p[p.len() - 1] == q[0],
    ensures
        is_walk(t, forward, p + q.subrange(1, q.len() as int)),
        (p + q.subrange(1, q.len() as int)).len() == p.len() + q.len() - 1,
        (p + q.subrange(1, q.len() as int))[0] == p[0],
        (p + q.subrange(1, q.len() as int))[p.len() + q.len() - 2] == q[q.len() - 1],
{
    let w = p + q.subrange(1, q.len() as int);
    assert forall|k: int| 0 <= k < w.len() implies 0 <= #[trigger] w[k] < t.len() by {
        if k < p.len() {
            assert(0 <= p[k] < t.len());
        } else {
            assert(w[k] == q[k - p.len() + 1]);
            assert(0 <= q[k - p.len() + 1] < t.len());
        }
    }
    assert forall|k: int| 0 <= k < w.len() - 1 implies #[trigger] link(t, forward, w, k) by {
        if k < p.len() - 1 {
            assert(link(t, forward, p, k));
        } else if k == p.len() - 1 {
            assert(link(t, forward, q, 0));
            assert(w[k] == q[0]);
            assert(w[k + 1] == q[1]);
        } else {
            let m2 = k - p.len() + 1;
            assert(link(t, forward, q, m2));
            assert(w[k] == q[m2]);
            assert(w[k + 1] == q[m2 + 1]);
        }
    }
}

/// A set of states that holds `start` and is closed under moves holds every
/// state of every walk from `start`.
proof fn lemma_closed_holds_walk(
    t: Seq<Seq<bool>>,
    forward: bool,
    s: Seq<bool>,
    start: int,
    p: Seq<int>,
)
    requires
        s.len() == t.len(),
        0 <= start < t.len(),
        s[start],
        forall|u: int, v: int|
            0 <= u < t.len() && 0 <= v < t.len() && s[u] && #[trigger] step(t, forward, u, v)
                ==> s[v],
        is_walk(t, forward, p),
        p[0] == start,
    ensures
        s[p[p.len() - 1]],
    decreases p.len(),
{
    if p.len() > 1 {
        let q = p.drop_last();
        assert forall|k: int| 0 <= k < q.len() - 1 implies #[trigger] link(t, forward, q, k) by {
            assert(link(t, forward, p, k));
        }
        assert forall|k: int| 0 <= k < q.len() implies 0 <= #[trigger] q[k] < t.len() by {
            assert(0 <= p[k] < t.len());
        }
        lemma_closed_holds_walk(t, forward, s, start, q);
        assert(link(t, forward, p, p.len() - 2));
        assert(0 <= p[p.len() - 2] < t.len());
        assert(0 <= p[p.len() - 1] < t.len());
    }
}

/// A walk read backwards is a walk of the reversed chain.
proof fn lemma_reverse_walk(t: Seq<Seq<bool>>, forward: bool, p: Seq<int>)
    requires
        is_walk(t, forward, p),
    ensures
        is_walk(t, !forward, Seq::new(p.len(), |k: int| p[p.len() - 1 - k])),
{
    let r = Seq::new(p.len(), |k: int| p[p.len() - 1 - k]);
    assert forall|k: int| 0 <= k < r.len() implies 0 <= #[trigger] r[k] < t.len() by {
        assert(0 <= p[p.len() - 1 - k] < t.len());
    }
    let back = !forward;
    assert forall|k: int| 0 <= k < r.len() - 1 implies #[trigger] link(t, back, r, k) by {
        let m = p.len() - 2 - k;
        assert(link(t, forward, p, m));
        assert(r[k] == p[m + 1]);
        assert(r[k + 1] == p[m]);
    }
    assert(is_walk(t, back, r));
}

/// A walk of the chain is a walk of the reversed chain read backwards.
pub proof fn lemma_reaches_reverse(t: Seq<Seq<bool>>, forward: bool, i: int, j: int)
    requires
        reaches(t, forward, i, j),
    ensures
        reaches(t, !forward, j, i),
{
    let p = choose|p: Seq<int>| #[trigger] is_walk(t, forward, p) && p[0] == i && p[p.len() - 1] == j;
    lemma_reverse_walk(t, forward, p);
    let r = Seq::new(p.len(), |k: int| p[p.len() - 1 - k]);
    assert(is_walk(t, !forward, r) && r[0] == j && r[r.len() - 1] == i);
}

/// Reachability is transitive: walks compose.
pub proof fn lemma_reaches_trans(t: Seq<Seq<bool>>, forward: bool, i: int, m: int, j: int)
    requires
        reaches(t, forward, i, m),
        reaches(t, forward, m, j),
    ensures
        reaches(t, forward, i, j),
{
    let p = choose|p: Seq<int>| #[trigger] is_walk(t, forward, p) && p[0] == i && p[p.len() - 1] == m;
    let q = choose|q: Seq<int>| #[trigger] is_walk(t, forward, q) && q[0] == m && q[q.len() - 1] == j;
    lemma_walk_concat(t, forward, p, q);
    let w = p + q.subrange(1, q.len() as int);
    assert(w[w.len() - 1] == q[q.len() - 1]);
}

/// All states communicate exactly when state `0` reaches every state and
/// every state reaches state `0`.
pub proof fn lemma_all_communicate_through_zero(t: Seq<Seq<bool>>)
    requires
        t.len() > 0,
    ensures
        all_communicate(t) <==> forall|j: int|
            0 <= j < t.len() ==> #[trigger] reaches(t, true, 0, j) && reaches(t, true, j, 0),
{
    if forall|j: int| 0 <= j < t.len() ==> #[trigger] reaches(t, true, 0, j) && reaches(t, true, j, 0) {
        lemma_communicate_via_zero(t);
    }
    if all_communicate(t) {
        assert forall|j: int| 0 <= j < t.len() implies #[trigger] reaches(t, true, 0, j) && reaches(t, true, j, 0) by {
            assert(reaches(t, true, 0, j));
            assert(reaches(t, true, j, 0));
        }
    }
}

proof fn lemma_communicate_via_zero(t: Seq<Seq<bool>>)
    requires
        t.len() > 0,
        forall|j: int| 0 <= j < t.len() ==> #[trigger] reaches(t, true, 0, j) && reaches(t, true, j, 0),
    ensures
        all_communicate(t),
{
    assert forall|a: int, c: int| 0 <= a < t.len() && 0 <= c < t.len() implies #[trigger] reaches(t, true, a, c) by {
        assert(reaches(t, true, 0, a) && reaches(t, true, a, 0));
        assert(reaches(t, true, 0, c) && reaches(t, true, c, 0));
        lemma_reaches_trans(t, true, a, 0, c);
    }
}

/// Number of marked entries.
spec fn num_marked(s: Seq<bool>) -> nat
    decreases s.len(),
{
    if s.len() == 0 {
        0
    } else {
        num_marked(s.drop_last()) + if s[s.len() - 1] {
            1nat
        } else {
            0nat
        }
    }
}

proof fn lemma_num_marked_bound(s: Seq<bool>)
    ensures
        num_marked(s) <= s.len(),
    decreases s.len(),
{
    if s.len() > 0 {
        lemma_num_marked_bound(s.drop_last());
    }
}

proof fn lemma_num_marked_none(s: Seq<bool>)
    requires
        forall|k: int| 0 <= k < s.len() ==> !s[k],
    ensures
        num_marked(s) == 0,
    decreases s.len(),
{
    if s.len() > 0 {
        lemma_num_marked_none(s.drop_last());
    }
}

proof fn lemma_num_marked_set(s: Seq<bool>, i: int)
    requires
        0 <= i < s.len(),
        !s[i],
    ensures
        num_marked(s.update(i, true)) == num_marked(s) + 1,
    decreases s.len(),
{
    let u = s.update(i, true);
    if i == s.len() - 1 {
        assert(u.drop_last() =~= s.drop_last());
    } else {
        assert(u.drop_last() =~= s.drop_last().update(i, true));
        lemma_num_marked_set(s.drop_last(), i);
    }
}

/// The states reachable from `start`, along moves of the chain (`forward`)
/// or of the reversed chain (`!forward`), by depth-first search.
/// Alongside, for each state found, the number of moves of one walk that
/// reaches it, less than the number of states.
fn reachable_from(adj: &Vec<Vec<bool>>, start: usize, forward: bool) -> (res: (Vec<bool>, Vec<usize>))
    requires
        is_square(table(adj)),
        start < adj.len(),
    ensures
        res.0.len() == adj.len(),
        res.1.len() == adj.len(),
        forall|j: int|
            0 <= j < adj.len() ==> (res.0@[j] <==> reaches(table(adj), forward, start as int, j)),
        forall|j: int|
            0 <= j < adj.len() && res.0@[j] ==> res.1@[j] < adj.len() && reaches_in(
                table(adj),
                forward,
                start as int,
                j,
                res.1@[j] as int,
            ),
{
    let ghost t = table(adj);
    let n = adj.len();
    let mut visited: Vec<bool> = Vec::new();
    let mut lev: Vec<usize> = Vec::new();
    for i in 0..n
        invariant
            visited.len() == i,
            lev.len() == i,
            forall|k: int| 0 <= k < i ==> !visited@[k],
            forall|k: int| 0 <= k < i ==> lev@[k] == 0,
    {
        visited.push(false);
        lev.push(0);
    }
    proof {
        lemma_num_marked_none(visited@);
    }
    proof {
        lemma_num_marked_set(visited@, start as int);
        assert(is_walk(t, forward, seq![start as int]));
        assert(reaches_in(t, forward, start as int, start as int, 0));
    }
    visited.set(start, true);
    assert(forall|j: int| 0 <= j < n && visited@[j] ==> j == start as int);
    assert(lev@[start as int] == 0);
    let mut stack: Vec<usize> = Vec::new();
    stack.push(start);
    assert forall|u: int|
        0 <= u < n && #[trigger] visited@[u] implies stack@.contains(u as usize) || (forall|v: int|
            0 <= v < n && step(t, forward, u, v) ==> visited@[v]) by {
        if u == start as int {
            assert(stack@[0] == start);
        }
    }
    while stack.len() > 0
        invariant
            t == table(adj),
            n == adj.len(),
            is_square(t),
            start < n,
            visited.len() == n,
            visited@[start as int],
            num_marked(visited@) <= n,
            forall|k: int| 0 <= k < stack.len() ==> #[trigger] stack@[k] < n && visited@[stack@[k] as int],
            lev.len() == n,
            forall|j: int|
                0 <= j < n && visited@[j] ==> lev@[j] < num_marked(visited@) && reaches_in(
                    t,
                    forward,
                    start as int,
                    j,
                    lev@[j] as int,
                ),
            forall|u: int|
                0 <= u < n && #[trigger] visited@[u] ==> stack@.contains(u as usize) || (forall|v: int|
                    0 <= v < n && step(t, forward, u, v) ==> visited@[v]),
        decreases n - num_marked(visited@), stack.len(),
    {
        let ghost marked0 = num_marked(visited@);
        let ghost stack0 = stack@;
        let s = stack.pop().unwrap();
        assert(stack0 == stack@.push(s));
        assert(s < n && visited@[s as int]) by {
            assert(stack0[stack0.len() - 1] == s);
        }
        let row = &adj[s];
        assert(row@ == t[s as int]);
        for j in 0..n
            invariant
                t == table(adj),
                n == adj.len(),
                is_square(t),
                start < n,
                s < n,
                row@ == t[s as int],
                row@.len() == n,
                visited.len() == n,
                visited@[start as int],
                visited@[s as int],
                num_marked(visited@) <= n,
                num_marked(visited@) >= marked0,
                num_marked(visited@) == marked0 ==> stack.len() == stack0.len() - 1,
                forall|k: int| 0 <= k < stack.len() ==> #[trigger] stack@[k] < n && visited@[stack@[k] as int],
                lev.len() == n,
                forall|v: int|
                    0 <= v < n && visited@[v] ==> lev@[v] < num_marked(visited@) && reaches_in(
                        t,
                        forward,
                        start as int,
                        v,
                        lev@[v] as int,
                    ),
                forall|v: int| 0 <= v < j && step(t, forward, s as int, v) ==> visited@[v],
                forall|u: int|
                    0 <= u < n && #[trigger] visited@[u] ==> u == s || stack@.contains(u as usize) || (forall|v: int|
                        0 <= v < n && step(t, forward, u, v) ==> visited@[v]),
        {
            let e = if forward {
                row[j]
            } else {
                let other = &adj[j];
                assert(other@ == t[j as int]);
                other[s]
            };
            assert(e == step(t, forward, s as int, j as int));
            if e && !visited[j] {
                proof {
                    lemma_reaches_in_step(t, forward, start as int, s as int, j as int, lev@[s as int] as int);
                    lemma_num_marked_set(visited@, j as int);
                    lemma_num_marked_bound(visited@.update(j as int, true));
                }
                let ghost old_stack = stack@;
                let level = lev[s] + 1;
                visited.set(j, true);
                lev.set(j, level);
                stack.push(j);
                assert forall|u: int|
                    0 <= u < n && #[trigger] visited@[u] implies u == s || stack@.contains(u as usize) || (forall|v: int|
                        0 <= v < n && step(t, forward, u, v) ==> visited@[v]) by {
                    if u == j {
                        assert(stack@[stack@.len() - 1] == j);
                    } else if u != s && old_stack.contains(u as usize) {
                        let k = choose|k: int| 0 <= k < old_stack.len() && old_stack[k] == u as usize;
                        assert(stack@[k] == u as usize);
                    }
                }
            }
        }
        assert forall|u: int|
            0 <= u < n && #[trigger] visited@[u] implies stack@.contains(u as usize) || (forall|v: int|
                0 <= v < n && step(t, forward, u, v) ==> visited@[v]) by {}
    }
    proof {
        assert forall|u: int, v: int|
            0 <= u < n && 0 <= v < n && visited@[u] && #[trigger] step(t, forward, u, v) implies visited@[v] by {
            assert(visited@[u]);
        }
        assert forall|j: int| 0 <= j < n && reaches(t, forward, start as int, j) implies visited@[j] by {
            let p = choose|p: Seq<int>| #[trigger] is_walk(t, forward, p) && p[0] == start as int && p[p.len() - 1] == j;
            lemma_closed_holds_walk(t, forward, visited@, start as int, p);
        }
        assert forall|j: int| 0 <= j < n && visited@[j] implies reaches(t, forward, start as int, j) by {
            lemma_reaches_in_reaches(t, forward, start as int, j, lev@[j] as int);
        }
    }
    (visited, lev)
}

/// Whether the chain is irreducible: all states communicate, each one
/// reachable from each other along transitions of positive probability.
///
/// Every state reaches state `0` and state `0` reaches every state exactly
/// when all pairs communicate; both are found by one search each, the
/// first along the reversed chain.
pub fn is_irreducible(adj: &Vec<Vec<bool>>) -> (b: bool)
    requires
        adj.len() > 0,
        is_square(table(adj)),
    ensures
        b == all_communicate(table(adj)),
{
    let ghost t = table(adj);
    let n = adj.len();
    let (from_zero, _) = reachable_from(adj, 0, true);
    let (to_zero, _) = reachable_from(adj, 0, false);
    let mut i: usize = 0;
    while i < n
        invariant
            t == table(adj),
            n == adj.len(),
            is_square(t),
            from_zero.len() == n,
            to_zero.len() == n,
            forall|j: int| 0 <= j < n ==> (from_zero@[j] <==> reaches(t, true, 0, j)),
            forall|j: int| 0 <= j < n ==> (to_zero@[j] <==> reaches(t, false, 0, j)),
            i <= n,
            forall|k: int| 0 <= k < i ==> from_zero@[k] && to_zero@[k],
        decreases n - i,
    {
        if !from_zero[i] {
            proof {
                lemma_all_communicate_through_zero(t);
                assert(!reaches(t, true, 0, i as int));
            }
            return false;
        }
        if !to_zero[i] {
            proof {
                lemma_all_communicate_through_zero(t);
                if reaches(t, true, i as int, 0) {
                    lemma_reaches_reverse(t, true, i as int, 0);
                }
            }
            return false;
        }
        i = i + 1;
    }
    proof {
        assert forall|j: int| 0 <= j < t.len() implies #[trigger] reaches(t, true, 0, j) && reaches(t, true, j, 0) by {
            assert(from_zero@[j] && to_zero@[j]);
            lemma_reaches_reverse(t, false, 0, j);
        }
        lemma_all_communicate_through_zero(t);
    }
    true
}

proof fn lemma_dvd_sub(x: int, y: int, d: int)
    requires
        d > 0,
        x % d == 0,
        y % d == 0,
    ensures
        (x - y) % d == 0,
{
    lemma_sub_mod_noop(x, y, d);
    lemma_small_mod(0, d as nat);
}

/// A multiple of `d` strictly between `-d` and `d` is zero.
proof fn lemma_dvd_small(e: int, d: int)
    requires
        d > 0,
        -d < e < d,
        e % d == 0,
    ensures
        e == 0,
{
    if e >= 0 {
        lemma_small_mod(e as nat, d as nat);
    } else {
        lemma_mod_add_multiples_vanish(e, d);
        lemma_small_mod((d + e) as nat, d as nat);
    }
}

/// Both ends of the move `u -> v` lie in the strongly connected class of
/// the state that `from` and `to` were searched from, and the move's
/// offset `lev[u] + 1 - lev[v]` is a multiple of `d`.
spec fn class_move_ok(
    t: Seq<Seq<bool>>,
    from: Seq<bool>,
    to: Seq<bool>,
    lev: Seq<usize>,
    d: int,
    u: int,
    v: int,
) -> bool {
    from[u] && to[u] && from[v] && to[v] && t[u][v] ==> (lev[u] + 1 - lev[v]) % d == 0
}

/// Every move inside the class has an offset that is a multiple of `d`.
spec fn class_offsets_divisible(
    t: Seq<Seq<bool>>,
    from: Seq<bool>,
    to: Seq<bool>,
    lev: Seq<usize>,
    d: int,
) -> bool {
    forall|u: int, v: int|
        0 <= u < t.len() && 0 <= v < t.len() ==> #[trigger] class_move_ok(t, from, to, lev, d, u, v)
}

/// What the two searches from state `i` found: `from` the states it reaches,
/// with `lev` the length of a walk to each, and `to` the states that reach it.
spec fn searched_from(
    t: Seq<Seq<bool>>,
    i: int,
    from: Seq<bool>,
    to: Seq<bool>,
    lev: Seq<usize>,
) -> bool {
    &&& 0 <= i < t.len()
    &&& from.len() == t.len()
    &&& to.len() == t.len()
    &&& lev.len() == t.len()
    &&& forall|j: int| 0 <= j < t.len() ==> (#[trigger] from[j] <==> reaches(t, true, i, j))
    &&& forall|j: int| 0 <= j < t.len() ==> (#[trigger] to[j] <==> reaches(t, false, i, j))
    &&& forall|j: int|
        0 <= j < t.len() && #[trigger] from[j] ==> lev[j] < t.len() && reaches_in(t, true, i, j, lev[j] as int)
}

/// Every state of a closed walk through `i` lies in the class of `i`.
proof fn lemma_closed_walk_in_class(
    t: Seq<Seq<bool>>,
    i: int,
    from: Seq<bool>,
    to: Seq<bool>,
    lev: Seq<usize>,
    p: Seq<int>,
    n: int,
    k: int,
)
    requires
        searched_from(t, i, from, to, lev),
        is_walk(t, true, p),
        p.len() == n + 1,
        p[0] == i,
        p[n] == i,
        0 <= k <= n,
    ensures
        from[p[k]],
        to[p[k]],
{
    assert(0 <= p[k] < t.len());
    lemma_subwalk(t, true, p, 0, k + 1);
    let a = p.subrange(0, k + 1);
    assert(a[0] == i && a[a.len() - 1] == p[k]);
    lemma_subwalk(t, true, p, k, n + 1);
    let b = p.subrange(k, n + 1);
    assert(b[0] == p[k] && b[b.len() - 1] == i);
    assert(reaches(t, true, p[k], i));
    lemma_reaches_reverse(t, true, p[k], i);
}

/// Along a closed walk through `i` whose moves all have offsets divisible
/// by `d`, the level after `m` moves differs from `lev[i] + m` by a multiple
/// of `d`.
proof fn lemma_level_drift(
    t: Seq<Seq<bool>>,
    i: int,
    from: Seq<bool>,
    to: Seq<bool>,
    lev: Seq<usize>,
    d: int,
    p: Seq<int>,
    n: int,
    m: int,
)
    requires
        searched_from(t, i, from, to, lev),
        class_offsets_divisible(t, from, to, lev, d),
        d > 0,
        is_walk(t, true, p),
        p.len() == n + 1,
        p[0] == i,
        p[n] == i,
        0 <= m <= n,
    ensures
        (lev[p[m]] - lev[i] - m) % d == 0,
    decreases m,
{
    if m == 0 {
        lemma_small_mod(0, d as nat);
    } else {
        lemma_level_drift(t, i, from, to, lev, d, p, n, m - 1);
        let u = p[m - 1];
        let v = p[m];
        assert(link(t, true, p, m - 1));
        assert(0 <= u < t.len() && 0 <= v < t.len());
        lemma_closed_walk_in_class(t, i, from, to, lev, p, n, m - 1);
        lemma_closed_walk_in_class(t, i, from, to, lev, p, n, m);
        assert(class_move_ok(t, from, to, lev, d, u, v));
        lemma_dvd_sub(lev[u] - lev[i] - (m - 1), lev[u] + 1 - lev[v], d);
    }
}

/// If every move inside the class of `i` has an offset divisible by `d`,
/// so is every return time of `i`.
proof fn lemma_returns_from_offsets(
    t: Seq<Seq<bool>>,
    i: int,
    from: Seq<bool>,
    to: Seq<bool>,
    lev: Seq<usize>,
    d: int,
)
    requires
        searched_from(t, i, from, to, lev),
        class_offsets_divisible(t, from, to, lev, d),
        d > 0,
    ensures
        divides_all_returns(t, i, d),
{
    assert forall|n: int| #[trigger] returns_in(t, i, n) implies n % d == 0 by {
        let p = choose|p: Seq<int>| #[trigger] is_walk(t, true, p) && p.len() == n + 1 && p[0] == i && p[n] == i;
        lemma_level_drift(t, i, from, to, lev, d, p, n, n);
        lemma_small_mod(0, d as nat);
        lemma_dvd_sub(0, lev[p[n]] - lev[i] - n, d);
    }
}

/// If `d` divides every return time of `i`, it divides the offset of every
/// move inside the class of `i`: the offset is the difference of the lengths
/// of two closed walks through `i`.
proof fn lemma_offsets_from_returns(
    t: Seq<Seq<bool>>,
    i: int,
    from: Seq<bool>,
    to: Seq<bool>,
    lev: Seq<usize>,
    d: int,
)
    requires
        searched_from(t, i, from, to, lev),
        divides_all_returns(t, i, d),
        d > 0,
    ensures
        class_offsets_divisible(t, from, to, lev, d),
{
    assert forall|u: int, v: int| 0 <= u < t.len() && 0 <= v < t.len() implies #[trigger] class_move_ok(
        t,
        from,
        to,
        lev,
        d,
        u,
        v,
    ) by {
        if from[u] && to[u] && from[v] && to[v] && t[u][v] {
            let lu = lev[u] as int;
            let lv = lev[v] as int;
            // a walk from `v` back to `i`
            lemma_reaches_reverse(t, false, i, v);
            let q = choose|q: Seq<int>| #[trigger] is_walk(t, true, q) && q[0] == v && q[q.len() - 1] == i;
            let c = q.len() - 1;
            // i ~> u -> v ~> i
            let p1 = choose|p: Seq<int>| #[trigger] is_walk(t, true, p) && p.len() == lu + 1 && p[0] == i && p[lu] == u;
            assert(step(t, true, p1[p1.len() - 1], v));
            lemma_walk_push(t, true, p1, v);
            let p1v = p1.push(v);
            lemma_walk_concat(t, true, p1v, q);
            let w1 = p1v + q.subrange(1, q.len() as int);
            assert(is_walk(t, true, w1) && w1.len() == lu + 1 + c + 1 && w1[0] == i && w1[lu + 1 + c] == i);
            assert(returns_in(t, i, lu + 1 + c));
            // i ~> v ~> i
            let p2 = choose|p: Seq<int>| #[trigger] is_walk(t, true, p) && p.len() == lv + 1 && p[0] == i && p[lv] == v;
            lemma_walk_concat(t, true, p2, q);
            let w2 = p2 + q.subrange(1, q.len() as int);
            assert(is_walk(t, true, w2) && w2.len() == lv + c + 1 && w2[0] == i && w2[lv + c] == i);
            if lv + c >= 1 {
                assert(returns_in(t, i, lv + c));
            } else {
                lemma_small_mod(0, d as nat);
            }
            lemma_dvd_sub(lu + 1 + c, lv + c, d);
        }
    }
}

/// Whether every move inside the class has an offset divisible by `d`.
fn class_offsets_divisible_exec(
    adj: &Vec<Vec<bool>>,
    from: &Vec<bool>,
    to: &Vec<bool>,
    lev: &Vec<usize>,
    d: usize,
) -> (b: bool)
    requires
        is_square(table(adj)),
        from.len() == adj.len(),
        to.len() == adj.len(),
        lev.len() == adj.len(),
        forall|j: int| 0 <= j < adj.len() && #[trigger] from@[j] ==> lev@[j] < adj.len(),
        d > 0,
    ensures
        b == class_offsets_divisible(table(adj), from@, to@, lev@, d as int),
{
    let ghost t = table(adj);
    let n = adj.len();
    let mut u: usize = 0;
    while u < n
        invariant
            t == table(adj),
            n == adj.len(),
            is_square(t),
            from.len() == n,
            to.len() == n,
            lev.len() == n,
            forall|j: int| 0 <= j < n && #[trigger] from@[j] ==> lev@[j] < n,
            d > 0,
            u <= n,
            forall|a: int, c: int|
                0 <= a < u && 0 <= c < n ==> #[trigger] class_move_ok(t, from@, to@, lev@, d as int, a, c),
        decreases n - u,
    {
        let row = &adj[u];
        assert(row@ == t[u as int]);
        let mut v: usize = 0;
        while v < n
            invariant
                t == table(adj),
                n == adj.len(),
                is_square(t),
                from.len() == n,
                to.len() == n,
                lev.len() == n,
                forall|j: int| 0 <= j < n && #[trigger] from@[j] ==> lev@[j] < n,
                d > 0,
                u < n,
                v <= n,
                row@ == t[u as int],
                forall|a: int, c: int|
                    0 <= a < u && 0 <= c < n ==> #[trigger] class_move_ok(t, from@, to@, lev@, d as int, a, c),
                forall|c: int| 0 <= c < v ==> #[trigger] class_move_ok(t, from@, to@, lev@, d as int, u as int, c),
            decreases n - v,
        {
            if from[u] && to[u] && from[v] && to[v] && row[v] {
                let a = lev[u] + 1;
                let c = lev[v];
                let ok = if a >= c {
                    (a - c) % d == 0
                } else {
                    proof {
                        lemma_small_mod(0, d as nat);
                        if (c - a) % (d as int) == 0 {
                            lemma_dvd_sub(0, c - a, d as int);
                        }
                        if (a - c) % (d as int) == 0 {
                            lemma_dvd_sub(0, a - c, d as int);
                        }
                    }
                    (c - a) % d == 0
                };
                assert(ok == ((lev@[u as int] + 1 - lev@[v as int]) % (d as int) == 0));
                if !ok {
                    assert(!class_move_ok(t, from@, to@, lev@, d as int, u as int, v as int));
                    return false;
                }
            }
            assert(class_move_ok(t, from@, to@, lev@, d as int, u as int, v as int));
            v = v + 1;
        }
        u = u + 1;
    }
    true
}

/// Whether state `i` has period one: no `d > 1` divides all its return times.
///
/// With `lev` the lengths of walks from `i` found by a search, `d` divides
/// all return times exactly when it divides the offset `lev[u] + 1 - lev[v]`
/// of every move `u -> v` inside the strongly connected class of `i`.
/// Offsets lie strictly between `-n` and `n + 1`, so a `d > n` divides them
/// all only when they are all zero, and then `2` does too; hence only
/// `d = 2..=max(n, 2)` need be tried.
fn state_is_aperiodic(adj: &Vec<Vec<bool>>, i: usize) -> (b: bool)
    requires
        is_square(table(adj)),
        i < adj.len(),
    ensures
        b == forall|d: int| d > 1 ==> !#[trigger] divides_all_returns(table(adj), i as int, d),
{
    let ghost t = table(adj);
    let n = adj.len();
    let (from, lev) = reachable_from(adj, i, true);
    let (to, _) = reachable_from(adj, i, false);
    assert(searched_from(t, i as int, from@, to@, lev@));
    let top: usize = if n < 2 {
        2
    } else {
        n
    };
    let mut d: usize = 2;
    loop
        invariant
            t == table(adj),
            n == adj.len(),
            is_square(t),
            i < n,
            searched_from(t, i as int, from@, to@, lev@),
            top >= 2,
            top >= n,
            2 <= d <= top,
            forall|e: int| 2 <= e < d ==> !class_offsets_divisible(t, from@, to@, lev@, e),
        ensures
            forall|e: int| 2 <= e <= top ==> !class_offsets_divisible(t, from@, to@, lev@, e),
        decreases top - d,
    {
        if class_offsets_divisible_exec(adj, &from, &to, &lev, d) {
            proof {
                lemma_returns_from_offsets(t, i as int, from@, to@, lev@, d as int);
            }
            return false;
        }
        if d >= top {
            break;
        }
        d = d + 1;
    }
    assert forall|e: int| e > 1 implies !#[trigger] divides_all_returns(t, i as int, e) by {
        if divides_all_returns(t, i as int, e) {
            lemma_offsets_from_returns(t, i as int, from@, to@, lev@, e);
            if e > top {
                assert forall|u: int, v: int| 0 <= u < t.len() && 0 <= v < t.len() implies #[trigger] class_move_ok(
                    t,
                    from@,
                    to@,
                    lev@,
                    2,
                    u,
                    v,
                ) by {
                    assert(class_move_ok(t, from@, to@, lev@, e, u, v));
                    if from@[u] && to@[u] && from@[v] && to@[v] && t[u][v] {
                        lemma_dvd_small(lev@[u] + 1 - lev@[v], e);
                        lemma_small_mod(0, 2);
                    }
                }
                assert(class_offsets_divisible(t, from@, to@, lev@, 2));
            }
        }
    }
    true
}

/// Whether the chain is aperiodic: every state has period one, that is, for
/// each state no `d > 1` divides the lengths of all walks that return to it.
///
/// A state that can never return has no period one, so a chain with such a
/// state is not aperiodic.
pub fn is_aperiodic(adj: &Vec<Vec<bool>>) -> (b: bool)
    requires
        is_square(table(adj)),
    ensures
        b == aperiodic(table(adj)),
{
    let ghost t = table(adj);
    let n = adj.len();
    let mut i: usize = 0;
    while i < n
        invariant
            t == table(adj),
            n == adj.len(),
            is_square(t),
            i <= n,
            forall|k: int, d: int| 0 <= k < i && d > 1 ==> !#[trigger] divides_all_returns(t, k, d),
        decreases n - i,
    {
        if !state_is_aperiodic(adj, i) {
            return false;
        }
        i = i + 1;
    }
    true
}

/// The states `0..n` other than `target`, in increasing order: the unknowns
/// of the linear system for expected hitting times of `target`.
pub fn states_except(n: usize, target: usize) -> (r: Vec<usize>)
    requires
        target < n,
    ensures
        r.len() == n - 1,
        forall|k: int| 0 <= k < n - 1 ==> #[trigger] r@[k] == if k < target { k } else { k + 1 },
{
    let mut r: Vec<usize> = Vec::new();
    let mut s: usize = 0;
    while s < n
        invariant
            target < n,
            s <= n,
            r.len() == if s <= target { s as int } else { s - 1 },
            forall|k: int| 0 <= k < r.len() ==> #[trigger] r@[k] == if k < target { k } else { k + 1 },
        decreases n - s,
    {
        if s != target {
            r.push(s);
        }
        s = s + 1;
    }
    r
}

/// Recovers the most likely state sequence from the Viterbi back-pointers.
///
/// `psi[t][j]` is the best predecessor at time `t - 1` of state `j` at time
/// `t`, and `last` the best final state; the path ends in `last` and each
/// earlier state is the back-pointer of the one after it.
pub fn viterbi_backtrace(psi: &Vec<Vec<usize>>, n_states: usize, last: usize) -> (path: Vec<usize>)
    requires
        psi.len() > 0,
        last < n_states,
        forall|t: int| 0 <= t < psi.len() ==> (#[trigger] psi@[t])@.len() == n_states,
        forall|t: int, j: int|
            0 <= t < psi.len() && 0 <= j < n_states ==> #[trigger] psi@[t]@[j] < n_states,
    ensures
        path.len() == psi.len(),
        path@[path.len() - 1] == last,
        forall|t: int| 0 <= t < path.len() ==> #[trigger] path@[t] < n_states,
        forall|t: int|
            0 <= t < path.len() - 1 ==> #[trigger] path@[t] == psi@[t + 1]@[path@[t + 1] as int],
{
    let n = psi.len();
    let mut path: Vec<usize> = Vec::new();
    let mut i: usize = 0;
    while i < n
        invariant
            i <= n,
            path.len() == i,
            forall|t: int| 0 <= t < i ==> #[trigger] path@[t] == last,
        decreases n - i,
    {
        path.push(last);
        i = i + 1;
    }
    let mut k: usize = n - 1;
    while k > 0
        invariant
            n == psi.len(),
            k < n,
            path.len() == n,
            last < n_states,
            path@[n - 1] == last,
            forall|t: int| 0 <= t < psi.len() ==> (#[trigger] psi@[t])@.len() == n_states,
            forall|t: int, j: int|
                0 <= t < psi.len() && 0 <= j < n_states ==> #[trigger] psi@[t]@[j] < n_states,
            forall|t: int| k <= t < n ==> #[trigger] path@[t] < n_states,
            forall|t: int|
                k <= t < n - 1 ==> #[trigger] path@[t] == psi@[t + 1]@[path@[t + 1] as int],
        decreases k,
    {
        let row = &psi[k];
        let nxt = path[k];
        assert(nxt < n_states);
        let prev = row[nxt];
        path.set(k - 1, prev);
        k = k - 1;
    }
    path
}

/// The decimal digit `d` as a character.
pub open spec fn digit_char(d: nat) -> char {
    (d + 48) as char
}

/// The decimal digits of `n`, most significant first, without leading zeros.
pub open spec fn decimal(n: nat) -> Seq<char>
    decreases n,
{
    if n < 10 {
        seq![digit_char(n)]
    } else {
        decimal(n / 10).push(digit_char(n % 10))
    }
}

/// `c` is one of the characters `0` to `9`.
pub open spec fn is_digit(c: char) -> bool {
    48 <= c as int <= 57
}

/// The number that a string of decimal digits denotes, read most
/// significant digit first.
pub open spec fn digits_value(s: Seq<char>) -> int
    decreases s.len(),
{
    if s.len() == 0 {
        0
    } else {
        digits_value(s.drop_last()) * 10 + (s[s.len() - 1] as int - 48)
    }
}

/// The decimal form of `n` reads back as `n`: it is a non-empty string of
/// digits whose value, most significant digit first, is `n`, and it has no
/// leading zero unless `n` is zero.
pub proof fn lemma_decimal_reads_back(n: nat)
    ensures
        decimal(n).len() >= 1,
        forall|k: int| 0 <= k < decimal(n).len() ==> #[trigger] is_digit(decimal(n)[k]),
        digits_value(decimal(n)) == n,
        n > 0 ==> decimal(n)[0] != '0',
    decreases n,
{
    if n < 10 {
        let s = decimal(n);
        assert(s == seq![digit_char(n)]);
        assert(s.drop_last() =~= Seq::<char>::empty());
        assert(digits_value(s.drop_last()) == 0);
        assert(digit_char(n) as int == n + 48);
        assert(digits_value(s) == digits_value(s.drop_last()) * 10 + (s[0] as int - 48));
    } else {
        lemma_decimal_reads_back(n / 10);
        let h = decimal(n / 10);
        let c = digit_char(n % 10);
        let s = decimal(n);
        assert(s == h.push(c));
        assert(s.drop_last() =~= h);
        assert(c as int == n % 10 + 48);
        assert(digits_value(s) == digits_value(h) * 10 + (c as int - 48));
        assert forall|k: int| 0 <= k < s.len() implies #[trigger] is_digit(s[k]) by {
            if k < h.len() {
                assert(is_digit(h[k]));
            }
        }
        assert(n == (n / 10) * 10 + n % 10) by (nonlinear_arith);
        assert(s[0] == h[0]);
    }
}

/// The decimal form is the only way to write `n` in digits without a
/// leading zero: any such string that reads back as `n` is `decimal(n)`.
pub proof fn lemma_decimal_unique(s: Seq<char>, n: nat)
    requires
        s.len() >= 1,
        forall|k: int| 0 <= k < s.len() ==> #[trigger] is_digit(s[k]),
        s.len() > 1 ==> s[0] != '0',
        digits_value(s) == n,
    ensures
        s == decimal(n),
    decreases s.len(),
{
    let last = s[s.len() - 1];
    assert(is_digit(last));
    let d = last as int - 48;
    assert(digits_value(s) == digits_value(s.drop_last()) * 10 + d);
    if s.len() == 1 {
        assert(s.drop_last() =~= Seq::<char>::empty());
        assert(digits_value(s.drop_last()) == 0);
        assert(n == d);
        assert(digit_char(n) == last);
        assert(s =~= seq![last]);
    } else {
        let h = s.drop_last();
        assert forall|k: int| 0 <= k < h.len() implies #[trigger] is_digit(h[k]) by {
            assert(is_digit(s[k]));
        }
        lemma_digits_value_nonneg(h);
        let m = digits_value(h);
        assert(n == m * 10 + d);
        assert(h[0] == s[0]);
        if h.len() > 1 {
            assert(h[0] != '0');
        }
        lemma_leading_digit_positive(h);
        assert(m >= 1);
        assert(n / 10 == m && n % 10 == d) by (nonlinear_arith)
            requires
                n == m * 10 + d,
                0 <= d < 10,
                m >= 0,
        ;
        lemma_decimal_unique(h, m as nat);
        assert(n >= 10);
        assert(digit_char((n % 10) as nat) == last);
        assert(s =~= h.push(last));
    }
}

proof fn lemma_digits_value_nonneg(s: Seq<char>)
    requires
        forall|k: int| 0 <= k < s.len() ==> #[trigger] is_digit(s[k]),
    ensures
        digits_value(s) >= 0,
    decreases s.len(),
{
    if s.len() > 0 {
        let h = s.drop_last();
        assert forall|k: int| 0 <= k < h.len() implies #[trigger] is_digit(h[k]) by {
            assert(is_digit(s[k]));
        }
        lemma_digits_value_nonneg(h);
        assert(is_digit(s[s.len() - 1]));
    }
}

/// A digit string whose first digit is not zero denotes a positive number.
proof fn lemma_leading_digit_positive(s: Seq<char>)
    requires
        s.len() >= 1,
        forall|k: int| 0 <= k < s.len() ==> #[trigger] is_digit(s[k]),
        s[0] != '0',
    ensures
        digits_value(s) >= 1,
    decreases s.len(),
{
    let h = s.drop_last();
    assert forall|k: int| 0 <= k < h.len() implies #[trigger] is_digit(h[k]) by {
        assert(is_digit(s[k]));
    }
    assert(is_digit(s[s.len() - 1]));
    assert(digits_value(s) == digits_value(h) * 10 + (s[s.len() - 1] as int - 48));
    if s.len() == 1 {
        assert(h =~= Seq::<char>::empty());
        assert(digits_value(h) == 0);
        assert(s[0] as int != 48);
    } else {
        assert(h[0] == s[0]);
        lemma_leading_digit_positive(h);
    }
}

/// The default label of state `k` is `s` followed by a digit string without
/// leading zeros that reads back as `k`; no two states share a label.
pub proof fn lemma_state_labels_read_back(j: nat, k: nat)
    ensures
        (seq!['s'] + decimal(k))[0] == 's',
        digits_value((seq!['s'] + decimal(k)).subrange(1, (seq!['s'] + decimal(k)).len() as int)) == k,
        k > 0 ==> (seq!['s'] + decimal(k))[1] != '0',
        j != k ==> seq!['s'] + decimal(j) != seq!['s'] + decimal(k),
{
    lemma_decimal_reads_back(k);
    lemma_decimal_reads_back(j);
    let l = seq!['s'] + decimal(k);
    assert(l.subrange(1, l.len() as int) =~= decimal(k));
    if j != k && seq!['s'] + decimal(j) == l {
        let lj = seq!['s'] + decimal(j);
        assert(lj.subrange(1, lj.len() as int) =~= decimal(j));
    }
}

/// The character of the decimal digit `d`.
fn digit_str(d: usize) -> (s: &'static str)
    requires
        d < 10,
    ensures
        s@ == seq![digit_char(d as nat)],
{
    proof {
        reveal_strlit("0");
        reveal_strlit("1");
        reveal_strlit("2");
        reveal_strlit("3");
        reveal_strlit("4");
        reveal_strlit("5");
        reveal_strlit("6");
        reveal_strlit("7");
        reveal_strlit("8");
        reveal_strlit("9");
    }
    if d == 0 {
        "0"
    } else if d == 1 {
        "1"
    } else if d == 2 {
        "2"
    } else if d == 3 {
        "3"
    } else if d == 4 {
        "4"
    } else if d == 5 {
        "5"
    } else if d == 6 {
        "6"
    } else if d == 7 {
        "7"
    } else if d == 8 {
        "8"
    } else {
        "9"
    }
}

/// The decimal form of `i`: its digits, most significant first, without
/// leading zeros (`0` for zero).
fn decimal_string(i: usize) -> (s: String)
    ensures
        s@ == decimal(i as nat),
    decreases i,
{
    if i < 10 {
        String::from_str(digit_str(i))
    } else {
        let head = decimal_string(i / 10);
        let last = digit_str(i % 10);
        let s = head.concat(last);
        assert(s@ =~= decimal((i / 10) as nat).push(digit_char((i % 10) as nat)));
        s
    }
}

/// The label of state `i`: the letter `s` followed by the digits of `i`.
fn state_label(i: usize) -> (s: String)
    ensures
        s@ == seq!['s'] + decimal(i as nat),
{
    let digits = decimal_string(i);
    proof {
        reveal_strlit("s");
    }
    let prefix = String::from_str("s");
    prefix.concat(digits.as_str())
}

/// The default labels `s0, s1, ..., s{n-1}` of a chain's states.
pub fn default_state_labels(n: usize) -> (labels: Vec<String>)
    ensures
        labels.len() == n,
        forall|k: int| 0 <= k < n ==> (#[trigger] labels@[k])@ == seq!['s'] + decimal(k as nat),
{
    let mut labels: Vec<String> = Vec::new();
    let mut i: usize = 0;
    while i < n
        invariant
            i <= n,
            labels.len() == i,
            forall|k: int| 0 <= k < i ==> (#[trigger] labels@[k])@ == seq!['s'] + decimal(k as nat),
        decreases n - i,
    {
        labels.push(state_label(i));
        i = i + 1;
    }
    labels
}

} // verus!
