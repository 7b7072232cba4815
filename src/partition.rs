//! Splitting an ordered list of units into near-equal, non-empty batches.

use vstd::arithmetic::div_mod::{lemma_div_is_ordered, lemma_div_plus_one, lemma_fundamental_div_mod};
use vstd::prelude::*;

verus! {

/// `n / j` rounded up.
pub open spec fn ceil_div(n: nat, j: nat) -> nat
    recommends
        j > 0,
{
    ((n + j - 1) as nat) / j
}

/// Number of batches that `n` units are split into under a job budget `jobs`.
pub fn batch_count(n: usize, jobs: usize) -> (r: usize)
    requires
        jobs >= 1,
    ensures
        r == ceil_div(n as nat, jobs as nat),
{
    let q = n / jobs;
    proof {
        lemma_fundamental_div_mod(n as int, jobs as int);
        assert(n % jobs != 0 ==> q < usize::MAX) by (nonlinear_arith)
            requires
                n as int == jobs * q + n % jobs,
                jobs >= 1,
                n <= usize::MAX,
                0 <= n % jobs < jobs,
        ;
    }
    let r: usize = if n % jobs == 0 { q } else { q + 1 };
    proof {
        let (nn, jj) = (n as int, jobs as int);
        assert((nn + jj - 1) / jj == if nn % jj == 0 { nn / jj } else { nn / jj + 1 }) by (nonlinear_arith)
            requires jj > 0, nn >= 0, nn == jj * (nn / jj) + nn % jj, 0 <= nn % jj < jj;
    }
    r
}

/// Index of the first unit of batch `i` when `n` units form `k` batches.
/// Batch `i` holds the units from `batch_start(n, k, i)` up to, not including,
/// `batch_start(n, k, i + 1)`.
pub open spec fn batch_start(n: nat, k: nat, i: nat) -> nat
    recommends
        k > 0,
{
    (i * n) / k
}

/// The batches that `items` is split into under a job budget `jobs`:
/// `ceil(n / jobs)` consecutive runs of near-equal length, in order.
pub open spec fn batches_of<T>(items: Seq<T>, jobs: nat) -> Seq<Seq<T>> {
    let n = items.len();
    let k = ceil_div(n, jobs);
    Seq::new(
        k,
        |b: int| items.subrange(batch_start(n, k, b as nat) as int, batch_start(n, k, (b + 1) as nat) as int),
    )
}

pub proof fn lemma_ceil_div_bounds(n: nat, j: nat)
    requires
        j >= 1,
    ensures
        ceil_div(n, j) <= n,
        n > 0 ==> ceil_div(n, j) >= 1,
        n > j ==> ceil_div(n, j) >= 2,
        j >= 2 && n > 1 ==> ceil_div(n, j) < n,
{
    let c = ceil_div(n, j);
    assert(c * j >= n && (c - 1) * j < n) by (nonlinear_arith)
        requires c == ((n + j - 1) as nat) / j, j >= 1;
    assert(c <= n) by (nonlinear_arith)
        requires (c - 1) * j < n, j >= 1, c >= 0;
    assert(j >= 2 && n > 1 ==> c < n) by (nonlinear_arith)
        requires (c - 1) * j < n, j >= 1, c >= 0, c * j >= n;
    assert(n > j ==> c >= 2) by (nonlinear_arith)
        requires c * j >= n, j >= 1, c >= 0;
    assert(n > 0 ==> c >= 1) by (nonlinear_arith)
        requires c * j >= n, j >= 1, c >= 0;
}

proof fn lemma_batch_start(n: nat, k: nat, i: nat)
    requires
        0 < k <= n,
        i < k,
    ensures
        batch_start(n, k, 0) == 0,
        batch_start(n, k, k) == n,
        batch_start(n, k, i) + 1 <= batch_start(n, k, i + 1) <= n,
{
    assert(0 * n == 0) by (nonlinear_arith);
    assert(k * n / k == n) by (nonlinear_arith)
        requires k > 0;
    assert((i + 1) * n == i * n + n) by (nonlinear_arith);
    lemma_div_is_ordered((i * n + k) as int, (i * n + n) as int, k as int);
    lemma_div_plus_one((i * n) as int, k as int);
    assert((i + 1) * n <= k * n) by (nonlinear_arith)
        requires i < k;
    lemma_div_is_ordered(((i + 1) * n) as int, (k * n) as int, k as int);
}

proof fn lemma_prefix_flatten<T>(items: Seq<T>, jobs: nat, m: nat)
    requires
        jobs >= 1,
        0 < ceil_div(items.len(), jobs) <= items.len(),
        m <= ceil_div(items.len(), jobs),
    ensures
        batches_of(items, jobs).take(m as int).flatten() == items.subrange(
            0,
            batch_start(items.len(), ceil_div(items.len(), jobs), m) as int,
        ),
    decreases m,
{
    let n = items.len();
    let k = ceil_div(n, jobs);
    let bs = batches_of(items, jobs);
    lemma_batch_start(n, k, 0);
    if m == 0 {
        assert(bs.take(0).flatten() =~= items.subrange(0, 0));
    } else {
        let p = (m - 1) as nat;
        lemma_prefix_flatten(items, jobs, p);
        lemma_batch_start(n, k, p);
        assert(bs.take(m as int) =~= bs.take(p as int).push(bs[p as int]));
        bs.take(p as int).lemma_flatten_push(bs[p as int]);
        assert(items.subrange(0, batch_start(n, k, m) as int) =~= items.subrange(0, batch_start(n, k, p) as int)
            + bs[p as int]);
    }
}

/// Splitting is exact: under any job budget of at least one, `n` units form
/// `ceil(n / jobs)` batches, none of them empty, and the batches laid end to end
/// give back the units in order, so each unit lands in exactly one batch.
pub proof fn lemma_partition_exact<T>(items: Seq<T>, jobs: nat)
    requires
        jobs >= 1,
    ensures
        batches_of(items, jobs).len() == ceil_div(items.len(), jobs),
        forall|b: int| 0 <= b < batches_of(items, jobs).len() ==> #[trigger] batches_of(items, jobs)[b].len() > 0,
        batches_of(items, jobs).flatten() == items,
        batches_of(items, jobs).flatten().to_multiset() == items.to_multiset(),
{
    let n = items.len();
    let k = ceil_div(n, jobs);
    let bs = batches_of(items, jobs);
    lemma_ceil_div_bounds(n, jobs);
    assert forall|b: int| 0 <= b < bs.len() implies #[trigger] bs[b].len() > 0 by {
        lemma_batch_start(n, k, b as nat);
    }
    if k == 0 {
        assert(n == 0);
        assert(bs.flatten() =~= items);
    } else {
        lemma_prefix_flatten(items, jobs, k);
        lemma_batch_start(n, k, 0);
        assert(bs.take(k as int) =~= bs);
        assert(items.subrange(0, n as int) =~= items);
    }
}

/// Position at which batch `i` of `k` starts, for `n` units.
fn batch_start_exec(n: usize, k: usize, i: usize) -> (r: usize)
    requires
        0 < k <= n,
        i <= k,
    ensures
        r == batch_start(n as nat, k as nat, i as nat),
{
    assert((i as nat) * (n as nat) <= (k as nat) * (n as nat)) by (nonlinear_arith)
        requires i <= k;
    assert((k as nat) * (n as nat) <= u128::MAX) by (nonlinear_arith)
        requires k <= usize::MAX, n <= usize::MAX, usize::MAX < u128::MAX, usize::MAX * usize::MAX <= u128::MAX;
    let p: u128 = (i as u128) * (n as u128);
    let q: u128 = p / (k as u128);
    proof {
        lemma_div_is_ordered(p as int, (k * n) as int, k as int);
        assert((k * n) as int / k as int == n) by (nonlinear_arith)
            requires k > 0;
    }
    q as usize
}

/// Splits `items` into `ceil(len / jobs)` consecutive, non-empty batches of
/// near-equal length.
pub fn split_batches<T: Copy>(items: &Vec<T>, jobs: usize) -> (batches: Vec<Vec<T>>)
    requires
        jobs >= 1,
    ensures
        batches@.map_values(|v: Vec<T>| v@) == batches_of(items@, jobs as nat),
        batches@.len() == batches_of(items@, jobs as nat).len(),
        forall|b: int| 0 <= b < batches@.len() ==> #[trigger] batches@[b]@ == batches_of(items@, jobs as nat)[b],
{
    let n = items.len();
    let k = batch_count(n, jobs);
    proof {
        lemma_ceil_div_bounds(n as nat, jobs as nat);
    }
    let mut out: Vec<Vec<T>> = Vec::new();
    let mut b: usize = 0;
    while b < k
        invariant
            n == items@.len(),
            k == ceil_div(n as nat, jobs as nat),
            k <= n,
            b <= k,
            out@.len() == b,
            forall|x: int| 0 <= x < b ==> #[trigger] out@[x]@ == batches_of(items@, jobs as nat)[x],
        decreases k - b,
    {
        let s = batch_start_exec(n, k, b);
        let e = batch_start_exec(n, k, b + 1);
        proof {
            lemma_batch_start(n as nat, k as nat, b as nat);
        }
        let mut batch: Vec<T> = Vec::new();
        let mut i: usize = s;
        while i < e
            invariant
                s <= i <= e <= n,
                n == items@.len(),
                batch@ == items@.subrange(s as int, i as int),
            decreases e - i,
        {
            batch.push(items[i]);
            assert(items@.subrange(s as int, i + 1) =~= items@.subrange(s as int, i as int).push(items@[i as int]));
            i = i + 1;
        }
        out.push(batch);
        b = b + 1;
    }
    assert(out@.map_values(|v: Vec<T>| v@) =~= batches_of(items@, jobs as nat));
    out
}

} // verus!
