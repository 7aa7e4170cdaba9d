//! Summary statistics over a window of the sample log: extrema, mean,
//! population standard deviation (jitter), nearest-rank 95th percentile, and
//! the timeout count. All aggregates are derived from the reachable latencies
//! alone; timeouts contribute only to `timeouts`. An empty window yields a
//! defined all-zero result rather than an error.

use vstd::arithmetic::div_mod::{
    lemma_div_by_multiple, lemma_div_is_ordered, lemma_fundamental_div_mod,
};
use vstd::prelude::*;

use crate::sample::Sample;

verus! {

/// The cached summary of one series. `timeouts` counts the unreachable
/// samples of the considered window; every other field is derived from the
/// reachable latencies of that window, and is zero when there are none.
#[derive(Clone, Copy, Debug, PartialEq, Eq, Structural)]
pub struct PingStatistics {
    pub last: u32,
    pub min: u32,
    pub max: u32,
    pub avg: u32,
    pub jitter: u32,
    pub p95: u32,
    pub timeouts: usize,
}

impl PingStatistics {
    /// The defined result for a window with no reachable latency: all numeric
    /// fields zero, with the given timeout count.
    pub open spec fn all_zero(timeouts: nat) -> PingStatistics {
        PingStatistics {
            last: 0,
            min: 0,
            max: 0,
            avg: 0,
            jitter: 0,
            p95: 0,
            timeouts: timeouts as usize,
        }
    }
}

impl Default for PingStatistics {
    fn default() -> (r: PingStatistics)
        ensures
            r == PingStatistics::all_zero(0),
    {
        PingStatistics { last: 0, min: 0, max: 0, avg: 0, jitter: 0, p95: 0, timeouts: 0 }
    }
}

/// The reachable latencies of a log window, in log order.
pub open spec fn latencies_of(s: Seq<Sample>) -> Seq<u32>
    decreases s.len(),
{
    if s.len() == 0 {
        Seq::empty()
    } else if s.last().is_reachable() {
        latencies_of(s.drop_last()).push(s.last().lat())
    } else {
        latencies_of(s.drop_last())
    }
}

/// How many samples of the window are unreachable.
pub open spec fn timeout_count_of(s: Seq<Sample>) -> nat
    decreases s.len(),
{
    if s.len() == 0 {
        0
    } else if s.last().is_reachable() {
        timeout_count_of(s.drop_last())
    } else {
        timeout_count_of(s.drop_last()) + 1
    }
}

pub open spec fn sum_of(s: Seq<u32>) -> int
    decreases s.len(),
{
    if s.len() == 0 {
        0
    } else {
        sum_of(s.drop_last()) + s.last()
    }
}

pub open spec fn min_of(s: Seq<u32>) -> u32
    decreases s.len(),
{
    if s.len() == 0 {
        0
    } else if s.len() == 1 {
        s[0]
    } else if s.last() < min_of(s.drop_last()) {
        s.last()
    } else {
        min_of(s.drop_last())
    }
}

pub open spec fn max_of(s: Seq<u32>) -> u32
    decreases s.len(),
{
    if s.len() == 0 {
        0
    } else if s.last() > max_of(s.drop_last()) {
        s.last()
    } else {
        max_of(s.drop_last())
    }
}

pub open spec fn last_of(s: Seq<u32>) -> u32 {
    if s.len() == 0 {
        0
    } else {
        s.last()
    }
}

/// Arithmetic mean of the latencies, rounded towards zero; 0 on an empty
/// window.
pub open spec fn avg_of(s: Seq<u32>) -> u32 {
    if s.len() == 0 {
        0
    } else {
        (sum_of(s) / (s.len() as int)) as u32
    }
}

/// Sum of squared deviations from `m`.
pub open spec fn sq_dev_sum(s: Seq<u32>, m: int) -> int
    decreases s.len(),
{
    if s.len() == 0 {
        0
    } else {
        sq_dev_sum(s.drop_last(), m) + (s.last() - m) * (s.last() - m)
    }
}

/// Population variance around the truncated mean, itself rounded towards
/// zero; 0 on an empty window.
pub open spec fn variance_of(s: Seq<u32>) -> int {
    if s.len() == 0 {
        0
    } else {
        sq_dev_sum(s, avg_of(s) as int) / (s.len() as int)
    }
}

/// The integer square root: the largest `r` with `r * r <= n`.
pub open spec fn isqrt_spec(n: nat) -> nat
    decreases n,
{
    if n == 0 {
        0
    } else {
        let r = isqrt_spec((n - 1) as nat);
        if (r + 1) * (r + 1) <= n {
            r + 1
        } else {
            r
        }
    }
}

/// Jitter is the population standard deviation of the window's latencies,
/// rounded down to an integer latency unit.
pub open spec fn jitter_of(s: Seq<u32>) -> u32 {
    isqrt_spec(variance_of(s) as nat) as u32
}

pub proof fn lemma_isqrt_spec_bounds(n: nat)
    ensures
        isqrt_spec(n) * isqrt_spec(n) <= n,
        n < (isqrt_spec(n) + 1) * (isqrt_spec(n) + 1),
    decreases n,
{
    if n == 0 {
        assert(isqrt_spec(0) == 0);
        assert(n < (isqrt_spec(n) + 1) * (isqrt_spec(n) + 1)) by (nonlinear_arith)
            requires
                n == 0,
                isqrt_spec(n) == 0,
        ;
    } else {
        lemma_isqrt_spec_bounds((n - 1) as nat);
        let r = isqrt_spec((n - 1) as nat);
        if (r + 1) * (r + 1) <= n {
            assert(isqrt_spec(n) == r + 1);
            assert(n < (r + 2) * (r + 2)) by (nonlinear_arith)
                requires
                    n <= (r + 1) * (r + 1),
                    r >= 0,
            ;
            assert(n < (isqrt_spec(n) + 1) * (isqrt_spec(n) + 1));
        } else {
            assert(isqrt_spec(n) == r);
            assert(n < (isqrt_spec(n) + 1) * (isqrt_spec(n) + 1));
        }
    }
}

pub proof fn lemma_isqrt_unique(n: nat, r: nat)
    requires
        r * r <= n,
        n < (r + 1) * (r + 1),
    ensures
        r == isqrt_spec(n),
{
    lemma_isqrt_spec_bounds(n);
    let q = isqrt_spec(n);
    if r < q {
        assert((r + 1) * (r + 1) <= q * q) by (nonlinear_arith)
            requires
                0 <= r,
                r + 1 <= q,
        ;
    }
    if q < r {
        assert((q + 1) * (q + 1) <= r * r) by (nonlinear_arith)
            requires
                0 <= q,
                q + 1 <= r,
        ;
    }
}

/// The mean of a single value is that value.
pub proof fn lemma_avg_singleton(v: u32)
    ensures
        avg_of(seq![v]) == v,
{
    assert(seq![v].len() == 1);
    assert(seq![v].last() == v);
    assert(seq![v].drop_last() =~= Seq::<u32>::empty());
    assert(sum_of(seq![v]) == sum_of(seq![v].drop_last()) + v);
    assert(sum_of(Seq::<u32>::empty()) == 0);
    vstd::arithmetic::div_mod::lemma_div_basics(v as int);
}

pub proof fn lemma_sum_of_bounds(s: Seq<u32>)
    ensures
        0 <= sum_of(s) <= s.len() * 0xffff_ffff,
    decreases s.len(),
{
    if s.len() > 0 {
        lemma_sum_of_bounds(s.drop_last());
    }
}

pub proof fn lemma_sq_dev_sum_bounds(s: Seq<u32>, m: int)
    requires
        0 <= m <= 0xffff_ffff,
    ensures
        0 <= sq_dev_sum(s, m) <= s.len() * 0xffff_fffe_0000_0001,
    decreases s.len(),
{
    if s.len() > 0 {
        lemma_sq_dev_sum_bounds(s.drop_last(), m);
        let d = s.last() - m;
        assert(0 <= d * d <= 0xffff_fffe_0000_0001) by (nonlinear_arith)
            requires
                -0xffff_ffff <= d <= 0xffff_ffff,
        ;
    }
}

fn sum_latencies(data: &Vec<u32>) -> (s: u128)
    ensures
        s == sum_of(data@),
{
    let mut s: u128 = 0;
    let mut i: usize = 0;
    while i < data.len()
        invariant
            i <= data.len(),
            s == sum_of(data@.subrange(0, i as int)),
            s <= i * 0xffff_ffff,
        decreases data.len() - i,
    {
        proof {
            assert(data@.subrange(0, i + 1).drop_last() =~= data@.subrange(0, i as int));
            assert(data@.subrange(0, i + 1).last() == data@[i as int]);
        }
        s = s + data[i] as u128;
        i = i + 1;
    }
    proof {
        assert(data@.subrange(0, data@.len() as int) =~= data@);
    }
    s
}

/// The arithmetic mean of the values, rounded towards zero; nothing when
/// there are none.
pub fn mean(data: &Vec<u32>) -> (r: Option<u32>)
    ensures
        data@.len() == 0 <==> r is None,
        data@.len() > 0 ==> r == Some(avg_of(data@)),
{
    let n = data.len();
    if n == 0 {
        return None;
    }
    let s = sum_latencies(data);
    proof {
        lemma_sum_of_bounds(data@);
        lemma_div_is_ordered(s as int, n * 0xffff_ffff, n as int);
        lemma_div_by_multiple(0xffff_ffff, n as int);
        assert(n * 0xffff_ffff == 0xffff_ffff * n);
    }
    Some((s / (n as u128)) as u32)
}

fn sq_dev_total(data: &Vec<u32>, m: u32) -> (q: u128)
    ensures
        q == sq_dev_sum(data@, m as int),
{
    let mut q: u128 = 0;
    let mut i: usize = 0;
    while i < data.len()
        invariant
            i <= data.len(),
            q == sq_dev_sum(data@.subrange(0, i as int), m as int),
            q <= i * 0xffff_fffe_0000_0001,
        decreases data.len() - i,
    {
        proof {
            assert(data@.subrange(0, i + 1).drop_last() =~= data@.subrange(0, i as int));
            assert(data@.subrange(0, i + 1).last() == data@[i as int]);
        }
        let x = data[i];
        let d: u64 = if x >= m {
            (x - m) as u64
        } else {
            (m - x) as u64
        };
        proof {
            assert((d as int) * (d as int) == ((x as int) - (m as int)) * ((x as int) - (m
                as int)) && d * d <= 0xffff_fffe_0000_0001u64) by (nonlinear_arith)
                requires
                    d == if x >= m {
                        (x - m) as int
                    } else {
                        (m - x) as int
                    },
                    x <= 0xffff_ffffu32,
                    m <= 0xffff_ffffu32,
            ;
        }
        q = q + (d as u128) * (d as u128);
        i = i + 1;
    }
    proof {
        assert(data@.subrange(0, data@.len() as int) =~= data@);
    }
    q
}

/// The population standard deviation of the values, rounded towards zero;
/// nothing when there are none.
pub fn std_deviation(data: &Vec<u32>) -> (r: Option<u32>)
    ensures
        data@.len() == 0 <==> r is None,
        data@.len() > 0 ==> r == Some(jitter_of(data@)),
{
    let n = data.len();
    let m = match mean(data) {
        None => {
            return None;
        },
        Some(m) => m,
    };
    let q = sq_dev_total(data, m);
    proof {
        lemma_sq_dev_sum_bounds(data@, m as int);
        lemma_div_is_ordered(q as int, n * 0xffff_fffe_0000_0001, n as int);
        lemma_div_by_multiple(0xffff_fffe_0000_0001, n as int);
        assert(n * 0xffff_fffe_0000_0001 == 0xffff_fffe_0000_0001 * n);
    }
    let v: u64 = (q / (n as u128)) as u64;
    let r = isqrt64(v);
    proof {
        lemma_isqrt_spec_bounds(v as nat);
        assert(isqrt_spec(v as nat) <= 0xffff_ffff) by (nonlinear_arith)
            requires
                isqrt_spec(v as nat) * isqrt_spec(v as nat) <= v,
                v <= 0xffff_fffe_0000_0001u64,
        ;
    }
    Some(r as u32)
}

/// The integer square root at runtime, by bisection.
pub fn isqrt64(n: u64) -> (r: u64)
    ensures
        r == isqrt_spec(n as nat),
{
    let mut lo: u64 = 0;
    let mut hi: u64 = 0xffff_ffff;
    proof {
        assert((lo * lo) as int <= n as int);
        assert((n as int) < (hi + 1) * (hi + 1)) by (nonlinear_arith)
            requires
                n <= 0xffff_ffff_ffff_ffffu64,
                hi == 0xffff_ffffu64,
        ;
    }
    while lo < hi
        invariant
            lo <= hi <= 0xffff_ffff,
            (lo * lo) as int <= n as int,
            (n as int) < (hi + 1) * (hi + 1),
        decreases hi - lo,
    {
        let mid: u64 = lo + (hi - lo + 1) / 2;
        proof {
            assert(mid * mid <= 0xffff_fffe_0000_0001u64) by (nonlinear_arith)
                requires
                    mid <= 0xffff_ffffu64,
            ;
        }
        if mid * mid <= n {
            lo = mid;
        } else {
            hi = mid - 1;
        }
    }
    proof {
        lemma_isqrt_unique(n as nat, lo as nat);
    }
    lo
}

/// Ascending order, duplicates allowed.
pub open spec fn sorted_le(s: Seq<u32>) -> bool {
    forall|i: int, j: int| 0 <= i <= j < s.len() ==> s[i] <= s[j]
}

/// Where a value lands when slid into a sequence: before the first element
/// it does not exceed.
pub open spec fn insert_sorted(x: u32, s: Seq<u32>) -> Seq<u32>
    decreases s.len(),
{
    if s.len() == 0 {
        seq![x]
    } else if x <= s[0] {
        seq![x] + s
    } else {
        seq![s[0]] + insert_sorted(x, s.drop_first())
    }
}

/// The ascending order of a latency list, as insertion sort produces it.
pub open spec fn sort_lats(s: Seq<u32>) -> Seq<u32>
    decreases s.len(),
{
    if s.len() == 0 {
        Seq::empty()
    } else {
        insert_sorted(s[0], sort_lats(s.drop_first()))
    }
}

pub proof fn lemma_insert_sorted_len(x: u32, s: Seq<u32>)
    ensures
        insert_sorted(x, s).len() == s.len() + 1,
    decreases s.len(),
{
    if s.len() > 0 && !(x <= s[0]) {
        lemma_insert_sorted_len(x, s.drop_first());
    }
}

pub proof fn lemma_sort_lats_len(s: Seq<u32>)
    ensures
        sort_lats(s).len() == s.len(),
    decreases s.len(),
{
    if s.len() > 0 {
        lemma_sort_lats_len(s.drop_first());
        lemma_insert_sorted_len(s[0], sort_lats(s.drop_first()));
    }
}

proof fn lemma_insert_sorted_at(x: u32, s: Seq<u32>, j: int)
    requires
        0 <= j <= s.len(),
        forall|k: int| 0 <= k < j ==> s[k] < x,
        j < s.len() ==> x <= s[j],
    ensures
        insert_sorted(x, s) =~= s.subrange(0, j) + seq![x] + s.subrange(j, s.len() as int),
    decreases j,
{
    if j == 0 {
        if s.len() == 0 {
            assert(insert_sorted(x, s) =~= seq![x]);
        } else {
            assert(s.subrange(0, s.len() as int) =~= s);
        }
    } else {
        assert(s[0] < x);
        let t = s.drop_first();
        lemma_insert_sorted_at(x, t, j - 1);
        assert(t.subrange(0, j - 1) =~= s.subrange(1, j));
        assert(t.subrange(j - 1, t.len() as int) =~= s.subrange(j, s.len() as int));
        assert(insert_sorted(x, s) =~= seq![s[0]] + insert_sorted(x, t));
    }
}

fn insert_into_sorted(out: &mut Vec<u32>, x: u32)
    ensures
        final(out)@ == insert_sorted(x, old(out)@),
        final(out)@.to_multiset() == old(out)@.to_multiset().insert(x),
        sorted_le(old(out)@) ==> sorted_le(final(out)@),
{
    let mut j: usize = 0;
    while j < out.len() && out[j] < x
        invariant
            j <= out@.len(),
            *out == *old(out),
            forall|k: int| 0 <= k < j ==> out@[k] < x,
        decreases out@.len() - j,
    {
        j = j + 1;
    }
    proof {
        lemma_insert_sorted_at(x, out@, j as int);
    }
    out.insert(j, x);
    proof {
        broadcast use vstd::seq_lib::group_to_multiset_ensures;

        let pre = old(out)@;
        let jj = j as int;
        assert(final(out)@ =~= pre.subrange(0, jj) + seq![x] + pre.subrange(jj, pre.len() as int));
        assert(final(out)@ =~= pre.insert(jj, x));
        assert(pre.insert(jj, x).to_multiset() == pre.to_multiset().insert(x));
        if sorted_le(pre) {
            let post = final(out)@;
            assert forall|a: int, b: int| 0 <= a <= b < post.len() implies post[a] <= post[b] by {
                assert(forall|k: int| 0 <= k < jj ==> post[k] == pre[k]);
                assert(post[jj] == x);
                assert(forall|k: int| jj < k < post.len() ==> post[k] == pre[k - 1]);
                if a < jj && jj < b {
                    assert(pre[a] < x);
                    assert(x <= pre[jj] <= pre[b - 1]);
                }
                if a == jj && jj < b {
                    assert(x <= pre[jj] <= pre[b - 1]);
                }
            }
        }
    }
}

/// An ascending copy of the values: the runtime counterpart of
/// `sort_lats`, which it proves to be a true sort — ordered, and a
/// permutation of its input.
pub fn sorted_copy(data: &Vec<u32>) -> (r: Vec<u32>)
    ensures
        r@ == sort_lats(data@),
        r@.to_multiset() == data@.to_multiset(),
        sorted_le(r@),
{
    let mut r: Vec<u32> = Vec::new();
    let mut i: usize = data.len();
    proof {
        broadcast use vstd::seq_lib::group_to_multiset_ensures;

        assert(Seq::<u32>::empty().to_multiset() =~= data@.subrange(
            data@.len() as int,
            data@.len() as int,
        ).to_multiset());
    }
    while i > 0
        invariant
            i <= data.len(),
            r@ == sort_lats(data@.subrange(i as int, data@.len() as int)),
            r@.to_multiset() == data@.subrange(i as int, data@.len() as int).to_multiset(),
            sorted_le(r@),
        decreases i,
    {
        i = i - 1;
        insert_into_sorted(&mut r, data[i]);
        proof {
            broadcast use vstd::seq_lib::group_to_multiset_ensures;

            let s = data@.subrange(i as int, data@.len() as int);
            assert(s[0] == data@[i as int]);
            assert(s.drop_first() =~= data@.subrange(i + 1, data@.len() as int));
            assert(s =~= s.drop_first().insert(0, data@[i as int]));
            assert(s.drop_first().insert(0, data@[i as int]).to_multiset() == s.drop_first()
                .to_multiset().insert(data@[i as int]));
        }
    }
    proof {
        assert(data@.subrange(0, data@.len() as int) =~= data@);
    }
    r
}

/// The 1-based nearest rank of the 95th percentile over `n` values:
/// `ceil(0.95 * n)`, at least 1.
pub open spec fn p95_rank(n: nat) -> nat {
    ((19 * n + 19) / 20) as nat
}

/// Nearest-rank 95th percentile of the values, taken on their ascending
/// order; 0 when there are none.
pub open spec fn p95_of(s: Seq<u32>) -> u32 {
    if s.len() == 0 {
        0
    } else {
        sort_lats(s)[p95_rank(s.len()) - 1]
    }
}

pub proof fn lemma_p95_rank_in_range(n: nat)
    requires
        n >= 1,
    ensures
        1 <= p95_rank(n) <= n,
{
    let x: int = 19 * (n as int) + 19;
    lemma_fundamental_div_mod(x, 20);
    assert(x == 20 * (x / 20) + x % 20);
    assert(0 <= x % 20 < 20);
}

fn p95_latency(data: &Vec<u32>) -> (r: u32)
    ensures
        r == p95_of(data@),
{
    let n = data.len();
    if n == 0 {
        return 0;
    }
    let sorted = sorted_copy(data);
    proof {
        lemma_sort_lats_len(data@);
        lemma_p95_rank_in_range(n as nat);
    }
    let rank: usize = ((19 * (n as u128) + 19) / 20) as usize;
    sorted[rank - 1]
}

/// What `compute`-style queries return for a window of the log: every
/// numeric field a function of the window's reachable latencies, and
/// `timeouts` the number of its unreachable samples.
pub open spec fn stats_of(samples: Seq<Sample>) -> PingStatistics {
    let l = latencies_of(samples);
    PingStatistics {
        last: last_of(l),
        min: min_of(l),
        max: max_of(l),
        avg: avg_of(l),
        jitter: jitter_of(l),
        p95: p95_of(l),
        timeouts: timeout_count_of(samples) as usize,
    }
}

/// The reachable latencies of the window, at runtime.
pub fn reachable_latencies(rawdata: &Vec<Sample>) -> (r: Vec<u32>)
    ensures
        r@ == latencies_of(rawdata@),
{
    let mut r: Vec<u32> = Vec::new();
    let mut i: usize = 0;
    while i < rawdata.len()
        invariant
            i <= rawdata.len(),
            r@ == latencies_of(rawdata@.subrange(0, i as int)),
        decreases rawdata.len() - i,
    {
        proof {
            assert(rawdata@.subrange(0, i + 1).drop_last() =~= rawdata@.subrange(0, i as int));
            assert(rawdata@.subrange(0, i + 1).last() == rawdata@[i as int]);
        }
        match rawdata[i] {
            Sample::Reachable { latency, .. } => r.push(latency),
            Sample::Unreachable { .. } => (),
        }
        i = i + 1;
    }
    proof {
        assert(rawdata@.subrange(0, rawdata@.len() as int) =~= rawdata@);
    }
    r
}

pub(crate) fn count_timeouts(rawdata: &Vec<Sample>) -> (n: usize)
    ensures
        n == timeout_count_of(rawdata@),
{
    let mut n: usize = 0;
    let mut i: usize = 0;
    while i < rawdata.len()
        invariant
            i <= rawdata.len(),
            n == timeout_count_of(rawdata@.subrange(0, i as int)),
            n <= i,
        decreases rawdata.len() - i,
    {
        proof {
            assert(rawdata@.subrange(0, i + 1).drop_last() =~= rawdata@.subrange(0, i as int));
            assert(rawdata@.subrange(0, i + 1).last() == rawdata@[i as int]);
        }
        match rawdata[i] {
            Sample::Reachable { .. } => (),
            Sample::Unreachable { .. } => n = n + 1,
        }
        i = i + 1;
    }
    proof {
        assert(rawdata@.subrange(0, rawdata@.len() as int) =~= rawdata@);
    }
    n
}

fn min_latency(data: &Vec<u32>) -> (r: u32)
    ensures
        r == min_of(data@),
{
    let mut r: u32 = 0;
    let mut i: usize = 0;
    while i < data.len()
        invariant
            i <= data.len(),
            r == min_of(data@.subrange(0, i as int)),
        decreases data.len() - i,
    {
        proof {
            assert(data@.subrange(0, i + 1).drop_last() =~= data@.subrange(0, i as int));
            assert(data@.subrange(0, i + 1).last() == data@[i as int]);
        }
        let x = data[i];
        if i == 0 || x < r {
            r = x;
        }
        i = i + 1;
    }
    proof {
        assert(data@.subrange(0, data@.len() as int) =~= data@);
    }
    r
}

pub(crate) fn max_latency(data: &Vec<u32>) -> (r: u32)
    ensures
        r == max_of(data@),
{
    let mut r: u32 = 0;
    let mut i: usize = 0;
    while i < data.len()
        invariant
            i <= data.len(),
            r == max_of(data@.subrange(0, i as int)),
        decreases data.len() - i,
    {
        proof {
            assert(data@.subrange(0, i + 1).drop_last() =~= data@.subrange(0, i as int));
            assert(data@.subrange(0, i + 1).last() == data@[i as int]);
        }
        let x = data[i];
        if x > r {
            r = x;
        }
        i = i + 1;
    }
    proof {
        assert(data@.subrange(0, data@.len() as int) =~= data@);
    }
    r
}

/// Summary statistics of a window of the log, computed afresh: the pure
/// `compute` of the engine. Mutates nothing; callers decide when to cache
/// the result.
pub fn pingstat_from_rawdata(rawdata: &Vec<Sample>) -> (r: PingStatistics)
    ensures
        r == stats_of(rawdata@),
{
    let lats = reachable_latencies(rawdata);
    let timeouts = count_timeouts(rawdata);
    let (avg, jitter) = match (mean(&lats), std_deviation(&lats)) {
        (Some(a), Some(j)) => (a, j),
        _ => (0, 0),
    };
    PingStatistics {
        last: if lats.len() == 0 {
            0
        } else {
            lats[lats.len() - 1]
        },
        min: min_latency(&lats),
        max: max_latency(&lats),
        avg,
        jitter,
        p95: p95_latency(&lats),
        timeouts,
    }
}

/// On a window with no reachable sample — empty, or timeouts throughout —
/// the statistics are the defined zero values, with `timeouts` counting the
/// window's unreachable entries.
pub proof fn lemma_stats_empty_window(samples: Seq<Sample>)
    requires
        forall|i: int| 0 <= i < samples.len() ==> !(#[trigger] samples[i]).is_reachable(),
    ensures
        latencies_of(samples) == Seq::<u32>::empty(),
        timeout_count_of(samples) == samples.len(),
        stats_of(samples) == PingStatistics::all_zero(samples.len()),
    decreases samples.len(),
{
    if samples.len() == 0 {
        assert(latencies_of(samples) =~= Seq::<u32>::empty());
    } else {
        assert(forall|i: int|
            0 <= i < samples.drop_last().len() ==> !(#[trigger] samples.drop_last()[
            i]).is_reachable()) by {
            assert(forall|i: int|
                0 <= i < samples.drop_last().len() ==> samples.drop_last()[i] == samples[i]);
        }
        lemma_stats_empty_window(samples.drop_last());
        assert(!samples.last().is_reachable());
        assert(latencies_of(samples) == latencies_of(samples.drop_last()));
        assert(timeout_count_of(samples) == samples.len());
    }
}

} // verus!
