//! One target's time series: the append-only sample log, the index-aligned
//! smoothed log, the cached statistics snapshot, and the colour index the
//! renderer uses for the target's line.

use vstd::prelude::*;

use crate::sample::Sample;
use crate::sma::{sma_slide, Sma};
use crate::stats::{
    avg_of, count_timeouts, latencies_of, max_of, max_latency, pingstat_from_rawdata, stats_of,
    timeout_count_of, PingStatistics,
};

verus! {

/// Width of the default smoothing window: how many of the newest reachable
/// latencies the moving average runs over.
pub const SMA_WINDOW: usize = 3;

/// Index of the first sample strictly newer than `t`; the length of the log
/// when there is none.
pub open spec fn first_newer(s: Seq<Sample>, t: u64) -> int
    decreases s.len(),
{
    if s.len() == 0 {
        0
    } else if s[0].ts() > t {
        0
    } else {
        1 + first_newer(s.drop_first(), t)
    }
}

/// The suffix of the log strictly newer than `t` — and the whole log when no
/// sample is newer, so that a stale series keeps showing its most recent
/// known state instead of blanking.
pub open spec fn window_of(s: Seq<Sample>, t: u64) -> Seq<Sample> {
    let i = first_newer(s, t);
    if i < s.len() {
        s.subrange(i, s.len() as int)
    } else {
        s
    }
}

/// An optionally windowed view of the log: the whole retained log when no
/// bound is given.
pub open spec fn windowed(s: Seq<Sample>, time: Option<u64>) -> Seq<Sample> {
    match time {
        Option::None => s,
        Option::Some(t) => window_of(s, t),
    }
}

pub proof fn lemma_first_newer_range(s: Seq<Sample>, t: u64)
    ensures
        0 <= first_newer(s, t) <= s.len(),
        forall|k: int| 0 <= k < first_newer(s, t) ==> (#[trigger] s[k]).ts() <= t,
        first_newer(s, t) < s.len() ==> s[first_newer(s, t)].ts() > t,
    decreases s.len(),
{
    if s.len() > 0 && !(s[0].ts() > t) {
        lemma_first_newer_range(s.drop_first(), t);
        assert forall|k: int| 0 <= k < first_newer(s, t) implies (#[trigger] s[k]).ts() <= t by {
            if k >= 1 {
                assert(s.drop_first()[k - 1] == s[k]);
                assert(s.drop_first()[k - 1].ts() <= t);
            }
        }
    }
}

proof fn lemma_first_newer_unique(s: Seq<Sample>, t: u64, i: int)
    requires
        0 <= i <= s.len(),
        forall|k: int| 0 <= k < i ==> (#[trigger] s[k]).ts() <= t,
        i < s.len() ==> s[i].ts() > t,
    ensures
        i == first_newer(s, t),
    decreases s.len(),
{
    if s.len() == 0 {
    } else if s[0].ts() > t {
        assert(i == 0);
    } else {
        assert(s[0].ts() <= t);
        assert(i >= 1);
        let r = s.drop_first();
        assert(forall|k: int| 0 <= k < i - 1 ==> (#[trigger] r[k]).ts() <= t) by {
            assert(forall|k: int| 0 <= k < r.len() ==> r[k] == s[k + 1]);
        }
        assert(i - 1 < r.len() ==> r[i - 1].ts() > t);
        lemma_first_newer_unique(r, t, i - 1);
    }
}

/// The cut position of a window bound at runtime.
fn cut_index(samples: &Vec<Sample>, t: u64) -> (i: usize)
    ensures
        i == first_newer(samples@, t),
{
    let mut i: usize = 0;
    while i < samples.len() && samples[i].timestamp() <= t
        invariant
            i <= samples@.len(),
            forall|k: int| 0 <= k < i ==> (#[trigger] samples@[k]).ts() <= t,
        decreases samples@.len() - i,
    {
        i = i + 1;
    }
    proof {
        lemma_first_newer_unique(samples@, t, i as int);
    }
    i
}

/// A copy of a suffix of the vector.
fn suffix_copy<T: Copy>(v: &Vec<T>, i: usize) -> (r: Vec<T>)
    requires
        i <= v@.len(),
    ensures
        r@ == v@.subrange(i as int, v@.len() as int),
{
    let mut r: Vec<T> = Vec::new();
    let mut j: usize = i;
    while j < v.len()
        invariant
            i <= j <= v@.len(),
            r@ == v@.subrange(i as int, j as int),
        decreases v@.len() - j,
    {
        r.push(v[j]);
        j = j + 1;
        proof {
            assert(v@.subrange(i as int, j as int) =~= v@.subrange(i as int, j - 1).push(
                v@[j - 1],
            ));
        }
    }
    r
}

/// How appending the sample `s` takes a series from `pre` to `post`: the
/// raw log grows by `s`; a reachable sample runs its latency through the
/// smoothing filter and records the filter's output, an unreachable one
/// leaves the filter untouched and records a gap; the cached statistics
/// and the colour index stay.
pub open spec fn append_rel(pre: Series, post: Series, s: Sample) -> bool {
    &&& post.samples@ == pre.samples@.push(s)
    &&& post.stats == pre.stats
    &&& post.linecol_idx == pre.linecol_idx
    &&& post.filter.cap == pre.filter.cap
    &&& (s.is_reachable() ==> post.filter.window@ == sma_slide(
        pre.filter.window@,
        pre.filter.cap as nat,
        s.lat(),
    ) && post.smoothed@ == pre.smoothed@.push(Some(avg_of(post.filter.window@))))
    &&& (!s.is_reachable() ==> post.filter == pre.filter && post.smoothed@ == pre.smoothed@.push(
        Option::<u32>::None,
    ))
}

/// How evicting at horizon `t` and refreshing takes a series from `pre` to
/// `post`: both logs lose the prefix at or older than `t` (nothing, when no
/// sample is newer), and the cached statistics are recomputed from the
/// remaining full log, so they never reflect dropped samples.
pub open spec fn evict_refresh_rel(pre: Series, post: Series, t: u64) -> bool {
    &&& post.samples@ == window_of(pre.samples@, t)
    &&& post.smoothed@ == ({
        let i = first_newer(pre.samples@, t);
        if i < pre.samples@.len() {
            pre.smoothed@.subrange(i, pre.smoothed@.len() as int)
        } else {
            pre.smoothed@
        }
    })
    &&& post.stats == stats_of(window_of(pre.samples@, t))
    &&& post.linecol_idx == pre.linecol_idx
    &&& post.filter == pre.filter
}

/// What a just-created series holds right after its first sample.
pub open spec fn fresh_appended(post: Series, s: Sample, idx: u8) -> bool {
    &&& post.samples@ == seq![s]
    &&& post.stats == PingStatistics::all_zero(0)
    &&& post.linecol_idx == idx
    &&& post.filter.cap == SMA_WINDOW
    &&& (s.is_reachable() ==> post.filter.window@ == seq![s.lat()] && post.smoothed@ == seq![
        Some(s.lat()),
    ])
    &&& (!s.is_reachable() ==> post.filter.window@ == Seq::<u32>::empty() && post.smoothed@
        == seq![Option::<u32>::None])
}

/// One target's series: the raw log, the smoothed parallel log, the cached
/// statistics, and the renderer's colour index for the target.
pub struct Series {
    pub samples: Vec<Sample>,
    pub smoothed: Vec<Option<u32>>,
    pub stats: PingStatistics,
    pub linecol_idx: u8,
    pub filter: Sma,
}

impl Series {
    /// The structural invariant: the smoothed log mirrors the raw log index
    /// for index, holding a value exactly at the reachable samples, and the
    /// filter window is intact.
    pub open spec fn wf(self) -> bool {
        &&& self.smoothed@.len() == self.samples@.len()
        &&& forall|i: int|
            0 <= i < self.samples@.len() ==> ((#[trigger] self.smoothed@[i]) is Some
                <==> self.samples@[i].is_reachable())
        &&& self.filter.wf()
    }

    /// The statistics a refresh over the given window would store.
    pub open spec fn pingstat_spec(self, time: Option<u64>) -> PingStatistics {
        stats_of(windowed(self.samples@, time))
    }

    /// A fresh series: empty logs, zeroed statistics, a fresh filter.
    pub open spec fn is_fresh(self, idx: u8) -> bool {
        &&& self.samples@ == Seq::<Sample>::empty()
        &&& self.smoothed@ == Seq::<Option<u32>>::empty()
        &&& self.stats == PingStatistics::all_zero(0)
        &&& self.linecol_idx == idx
        &&& self.filter.window@ == Seq::<u32>::empty()
        &&& self.filter.cap == SMA_WINDOW
    }

    pub fn with_idxcolor(idx: u8) -> (r: Series)
        ensures
            r.wf(),
            r.is_fresh(idx),
    {
        Series {
            samples: Vec::new(),
            smoothed: Vec::new(),
            stats: PingStatistics::default(),
            linecol_idx: idx,
            filter: Sma::new(SMA_WINDOW),
        }
    }

    /// Append one probe outcome. The raw log grows by the sample; a
    /// reachable sample also runs through the smoothing filter, an
    /// unreachable one leaves the filter untouched and records a gap.
    /// The cached statistics deliberately lag until the next refresh.
    pub fn push(&mut self, s: Sample)
        requires
            old(self).wf(),
        ensures
            final(self).wf(),
            append_rel(*old(self), *final(self), s),
    {
        match s {
            Sample::Reachable { latency, .. } => {
                let out = self.filter.next(latency);
                self.smoothed.push(Some(out));
            },
            Sample::Unreachable { .. } => {
                self.smoothed.push(None);
            },
        }
        self.samples.push(s);
    }

    /// The optionally windowed log, copied out.
    pub fn get(&self, time: Option<u64>) -> (r: Vec<Sample>)
        ensures
            r@ == windowed(self.samples@, time),
    {
        match time {
            None => suffix_copy(&self.samples, 0),
            Some(t) => {
                let i = cut_index(&self.samples, t);
                proof {
                    lemma_first_newer_range(self.samples@, t);
                }
                if i < self.samples.len() {
                    suffix_copy(&self.samples, i)
                } else {
                    suffix_copy(&self.samples, 0)
                }
            },
        }
    }

    /// The samples strictly newer than `t` — the whole log when none is.
    pub fn get_younger_than(&self, t: u64) -> (r: Vec<Sample>)
        ensures
            r@ == window_of(self.samples@, t),
    {
        self.get(Some(t))
    }

    /// The reachable latencies of the windowed log.
    pub fn get_valueonly(&self, time: Option<u64>) -> (r: Vec<u32>)
        ensures
            r@ == latencies_of(windowed(self.samples@, time)),
    {
        let w = self.get(time);
        crate::stats::reachable_latencies(&w)
    }

    /// The highest reachable latency of the windowed log; 0 when it has
    /// none.
    pub fn get_highest_value(&self, time: Option<u64>) -> (r: u32)
        ensures
            r == max_of(latencies_of(windowed(self.samples@, time))),
    {
        let v = self.get_valueonly(time);
        max_latency(&v)
    }

    /// The highest reachable latency among samples newer than `t`.
    pub fn get_highest_value_youngerthan(&self, t: u64) -> (r: u32)
        ensures
            r == max_of(latencies_of(window_of(self.samples@, t))),
    {
        self.get_highest_value(Some(t))
    }

    /// How many samples of the whole retained log are unreachable.
    pub fn timeout_count(&self) -> (n: usize)
        ensures
            n == timeout_count_of(self.samples@),
    {
        count_timeouts(&self.samples)
    }

    /// Fresh statistics over the windowed log. Pure: the cached `stats`
    /// field is left as it is, so ad hoc windowed queries never corrupt the
    /// cache.
    pub fn get_pingstat(&self, time: Option<u64>) -> (r: PingStatistics)
        ensures
            r == self.pingstat_spec(time),
    {
        let w = self.get(time);
        pingstat_from_rawdata(&w)
    }

    /// Refresh the cached statistics from the windowed log. Nothing else
    /// changes.
    pub fn update_pingstat(&mut self, time: Option<u64>)
        requires
            old(self).wf(),
        ensures
            final(self).wf(),
            final(self).stats == old(self).pingstat_spec(time),
            final(self).samples == old(self).samples,
            final(self).smoothed == old(self).smoothed,
            final(self).linecol_idx == old(self).linecol_idx,
            final(self).filter == old(self).filter,
    {
        self.stats = self.get_pingstat(time);
    }

    /// Drop every sample at or older than `t`: the retained log becomes the
    /// suffix from the first sample strictly newer than `t`, with the
    /// smoothed log cut at the same index. When no sample is newer the log
    /// is left untouched rather than emptied. The cached statistics are not
    /// refreshed here; the eviction component refreshes right after.
    pub fn remove_older_than(&mut self, t: u64)
        requires
            old(self).wf(),
        ensures
            final(self).wf(),
            final(self).samples@ == window_of(old(self).samples@, t),
            final(self).smoothed@ == ({
                let i = first_newer(old(self).samples@, t);
                if i < old(self).samples@.len() {
                    old(self).smoothed@.subrange(i, old(self).smoothed@.len() as int)
                } else {
                    old(self).smoothed@
                }
            }),
            final(self).stats == old(self).stats,
            final(self).linecol_idx == old(self).linecol_idx,
            final(self).filter == old(self).filter,
    {
        let i = cut_index(&self.samples, t);
        proof {
            lemma_first_newer_range(self.samples@, t);
        }
        if i > 0 && i < self.samples.len() {
            self.samples = suffix_copy(&self.samples, i);
            self.smoothed = suffix_copy(&self.smoothed, i);
        } else {
            proof {
                assert(self.samples@.subrange(0, self.samples@.len() as int) =~= self.samples@);
            }
        }
    }

    /// `remove_older_than` under the name the streaming variant of the
    /// series used: both logs lose the same prefix, and when no sample is
    /// newer than the bound both are left completely untouched.
    pub fn remove_olderthan(&mut self, t: u64)
        requires
            old(self).wf(),
        ensures
            final(self).wf(),
            final(self).samples@ == window_of(old(self).samples@, t),
            final(self).smoothed@ == ({
                let i = first_newer(old(self).samples@, t);
                if i < old(self).samples@.len() {
                    old(self).smoothed@.subrange(i, old(self).smoothed@.len() as int)
                } else {
                    old(self).smoothed@
                }
            }),
            final(self).stats == old(self).stats,
            final(self).linecol_idx == old(self).linecol_idx,
            final(self).filter == old(self).filter,
    {
        self.remove_older_than(t)
    }
}

impl Default for Series {
    fn default() -> (r: Series)
        ensures
            r.wf(),
            r.is_fresh(0),
    {
        Series::with_idxcolor(0)
    }
}

/// The segmentation of a log window: the maximal contiguous runs of
/// reachable points, in order, each point a (timestamp, latency) pair. The
/// unreachable samples bound the runs and appear in none of them; an empty
/// window has no segment.
pub open spec fn segments_of(s: Seq<Sample>) -> Seq<Seq<(u64, u32)>>
    decreases s.len(),
{
    if s.len() == 0 {
        Seq::empty()
    } else {
        let rest = segments_of(s.drop_last());
        match s.last() {
            Sample::Unreachable { .. } => rest,
            Sample::Reachable { at, latency } => {
                if s.len() >= 2 && s[s.len() - 2].is_reachable() {
                    rest.update(rest.len() - 1, rest.last().push((at, latency)))
                } else {
                    rest.push(seq![(at, latency)])
                }
            },
        }
    }
}

/// A log that ends in a reachable sample ends in a non-empty segment.
pub proof fn lemma_segments_open_run(s: Seq<Sample>)
    requires
        s.len() > 0,
        s.last().is_reachable(),
    ensures
        segments_of(s).len() >= 1,
        segments_of(s).last().len() >= 1,
    decreases s.len(),
{
    if s.len() >= 2 && s[s.len() - 2].is_reachable() {
        lemma_segments_open_run(s.drop_last());
    }
}

/// The per-segment views of a vector of runs.
pub open spec fn seg_views(v: Seq<Vec<(u64, u32)>>) -> Seq<Seq<(u64, u32)>> {
    v.map_values(|x: Vec<(u64, u32)>| x@)
}

impl Series {
    /// The windowed log split at its gaps: zero or more runs of reachable
    /// points for the renderer to draw as separate lines.
    pub fn get_splitted(&self, time: Option<u64>) -> (r: Vec<Vec<(u64, u32)>>)
        ensures
            seg_views(r@) == segments_of(windowed(self.samples@, time)),
    {
        let w = self.get(time);
        let mut segs: Vec<Vec<(u64, u32)>> = Vec::new();
        let mut i: usize = 0;
        while i < w.len()
            invariant
                i <= w@.len(),
                seg_views(segs@) =~= segments_of(w@.subrange(0, i as int)),
            decreases w@.len() - i,
        {
            let ghost pre = w@.subrange(0, i as int);
            let ghost cur = w@.subrange(0, i + 1);
            proof {
                assert(cur.drop_last() =~= pre);
                assert(cur.last() == w@[i as int]);
            }
            match w[i] {
                Sample::Unreachable { .. } => (),
                Sample::Reachable { at, latency } => {
                    if i > 0 && w[i - 1].reachable() {
                        proof {
                            assert(pre.last() == w@[i - 1]);
                            lemma_segments_open_run(pre);
                        }
                        let mut lastseg = match segs.pop() {
                            Some(v) => v,
                            None => {
                                proof {
                                    assert(false);
                                }
                                Vec::new()
                            },
                        };
                        lastseg.push((at, latency));
                        segs.push(lastseg);
                        proof {
                            assert(seg_views(segs@) =~= segments_of(cur));
                        }
                    } else {
                        let mut run: Vec<(u64, u32)> = Vec::new();
                        run.push((at, latency));
                        segs.push(run);
                        proof {
                            assert(run@ =~= seq![(at, latency)]);
                            assert(seg_views(segs@) =~= segments_of(cur));
                        }
                    }
                },
            }
            i = i + 1;
        }
        proof {
            assert(w@.subrange(0, w@.len() as int) =~= w@);
        }
        segs
    }
}

/// The filter window left behind after a run of samples has been ingested:
/// each reachable sample slides its latency in, gaps leave it alone.
pub open spec fn filter_window_after(w: Seq<u32>, cap: nat, inputs: Seq<Sample>) -> Seq<u32>
    decreases inputs.len(),
{
    if inputs.len() == 0 {
        w
    } else {
        let h = inputs[0];
        let w2 = if h.is_reachable() {
            sma_slide(w, cap, h.lat())
        } else {
            w
        };
        filter_window_after(w2, cap, inputs.drop_first())
    }
}

/// The smoothed outputs a run of samples produces, starting from the filter
/// window `w`: one averaged value per reachable sample, a gap per
/// unreachable one.
pub open spec fn smoothed_trace(w: Seq<u32>, cap: nat, inputs: Seq<Sample>) -> Seq<Option<u32>>
    decreases inputs.len(),
{
    if inputs.len() == 0 {
        Seq::empty()
    } else {
        let h = inputs[0];
        if h.is_reachable() {
            let w2 = sma_slide(w, cap, h.lat());
            seq![Some(avg_of(w2))] + smoothed_trace(w2, cap, inputs.drop_first())
        } else {
            seq![Option::<u32>::None] + smoothed_trace(w, cap, inputs.drop_first())
        }
    }
}

pub proof fn lemma_smoothed_trace_len(w: Seq<u32>, cap: nat, inputs: Seq<Sample>)
    ensures
        smoothed_trace(w, cap, inputs).len() == inputs.len(),
    decreases inputs.len(),
{
    if inputs.len() > 0 {
        let h = inputs[0];
        if h.is_reachable() {
            lemma_smoothed_trace_len(sma_slide(w, cap, h.lat()), cap, inputs.drop_first());
        } else {
            lemma_smoothed_trace_len(w, cap, inputs.drop_first());
        }
    }
}

/// A trace splits at any point: the outputs of a concatenation are the
/// outputs of the head run followed by the outputs of the tail run, the
/// latter starting from the window the head run left behind.
pub proof fn lemma_smoothed_trace_concat(w: Seq<u32>, cap: nat, a: Seq<Sample>, b: Seq<Sample>)
    ensures
        smoothed_trace(w, cap, a + b) =~= smoothed_trace(w, cap, a) + smoothed_trace(
            filter_window_after(w, cap, a),
            cap,
            b,
        ),
        filter_window_after(w, cap, a + b) == filter_window_after(
            filter_window_after(w, cap, a),
            cap,
            b,
        ),
    decreases a.len(),
{
    if a.len() == 0 {
        assert(a + b =~= b);
    } else {
        let h = a[0];
        let w2 = if h.is_reachable() {
            sma_slide(w, cap, h.lat())
        } else {
            w
        };
        assert((a + b)[0] == h);
        assert((a + b).drop_first() =~= a.drop_first() + b);
        lemma_smoothed_trace_concat(w2, cap, a.drop_first(), b);
    }
}

/// One append is one step of the trace: a series taken from `pre` to
/// `post` by appending `s` extends its smoothed log by exactly the outputs
/// of the one-sample trace from `pre`'s filter window, and leaves its
/// filter in the window that trace leaves behind.
pub proof fn lemma_append_rel_traces(pre: Series, post: Series, s: Sample)
    requires
        append_rel(pre, post, s),
    ensures
        post.smoothed@ =~= pre.smoothed@ + smoothed_trace(
            pre.filter.window@,
            pre.filter.cap as nat,
            seq![s],
        ),
        post.filter.window@ == filter_window_after(
            pre.filter.window@,
            pre.filter.cap as nat,
            seq![s],
        ),
{
    let w = pre.filter.window@;
    let cap = pre.filter.cap as nat;
    assert(seq![s].drop_first() =~= Seq::<Sample>::empty());
    assert(seq![s][0] == s);
    if s.is_reachable() {
        let w2 = sma_slide(w, cap, s.lat());
        assert(smoothed_trace(w2, cap, Seq::<Sample>::empty()) == Seq::<Option<u32>>::empty());
        assert(filter_window_after(w2, cap, Seq::<Sample>::empty()) == w2);
        assert(smoothed_trace(w, cap, seq![s]) =~= seq![Some(avg_of(w2))]);
        assert(filter_window_after(w, cap, seq![s]) == w2);
    } else {
        assert(smoothed_trace(w, cap, Seq::<Sample>::empty()) == Seq::<Option<u32>>::empty());
        assert(filter_window_after(w, cap, Seq::<Sample>::empty()) == w);
        assert(smoothed_trace(w, cap, seq![s]) =~= seq![Option::<u32>::None]);
        assert(filter_window_after(w, cap, seq![s]) == w);
    }
}

/// Gaps are transparent to the smoothing filter: an unreachable sample
/// anywhere in a run inserts a gap into the smoothed outputs and changes
/// nothing else — every later smoothed value is computed from the same
/// filter state as if the gap had never been seen.
pub proof fn lemma_smoothing_gap_transparent(
    w: Seq<u32>,
    cap: nat,
    pre: Seq<Sample>,
    gap: Sample,
    rest: Seq<Sample>,
)
    requires
        !gap.is_reachable(),
    ensures
        smoothed_trace(w, cap, pre + seq![gap] + rest) =~= smoothed_trace(
            w,
            cap,
            pre + rest,
        ).insert(pre.len() as int, Option::<u32>::None),
{
    let wa = filter_window_after(w, cap, pre);
    assert(pre + seq![gap] + rest =~= pre + (seq![gap] + rest));
    lemma_smoothed_trace_concat(w, cap, pre, seq![gap] + rest);
    assert((seq![gap] + rest)[0] == gap);
    assert((seq![gap] + rest).drop_first() =~= rest);
    assert(smoothed_trace(wa, cap, seq![gap] + rest) =~= seq![Option::<u32>::None]
        + smoothed_trace(wa, cap, rest));
    lemma_smoothed_trace_concat(w, cap, pre, rest);
    lemma_smoothed_trace_len(w, cap, pre);
}

/// Refreshing the cached statistics is idempotent: a series that just had
/// its statistics refreshed over some window, and whose log has not moved
/// since, would store the same statistics again.
pub proof fn lemma_refresh_idempotent(before: Series, after: Series, time: Option<u64>)
    requires
        after.samples@ == before.samples@,
        after.stats == before.pingstat_spec(time),
    ensures
        after.pingstat_spec(time) == after.stats,
{
}

} // verus!
