//! The shared store: the map from target name to its series, together with
//! the pool of colour indices handed to targets as they first appear. One
//! store instance is the sole owner of every series; callers wrap it in
//! whatever synchronization they need and get at it only through these
//! methods, so every read sees one consistent state of a target's series.

use rand::seq::SliceRandom;
use vstd::prelude::*;

use crate::sample::Sample;
use crate::series::{
    append_rel, evict_refresh_rel, fresh_appended, seg_views, segments_of, windowed, Series,
};
use crate::stats::{latencies_of, lemma_avg_singleton, max_of, PingStatistics};

verus! {

/// The colour indices `0 .. n`, in ascending order: what the pool holds
/// before it is shuffled.
pub open spec fn palette_init(n: u8) -> Seq<u8> {
    Seq::new(n as nat, |i: int| i as u8)
}

/// Relies on rand's `SliceRandom::shuffle` (a Fisher-Yates pass of in-place
/// swaps driven by the thread-local generator): it permutes the elements
/// and does nothing else. Which order comes out is chance; only the
/// permutation property is stated.
#[verifier::external_body]
fn shuffle_in_place(v: &mut Vec<u8>)
    ensures
        final(v)@.to_multiset() == old(v)@.to_multiset(),
        final(v)@.len() == old(v)@.len(),
{
    v.shuffle(&mut rand::thread_rng());
}

/// What one frame of the renderer reads for one target: its name, its
/// line-colour index, the statistics as last refreshed, and the segmented
/// point runs of the visible window — all taken from the same state of the
/// series.
pub struct TargetSnapshot {
    pub target: String,
    pub linecol_idx: u8,
    pub stats: PingStatistics,
    pub segments: Vec<Vec<(u64, u32)>>,
}

/// The store itself: an association list from target name to series, with
/// names unique, plus the remaining colour pool.
pub struct Store {
    pub entries: Vec<(String, Series)>,
    pub palette: Vec<u8>,
}

impl Store {
    /// Names are unique and every series is structurally sound.
    pub open spec fn wf(self) -> bool {
        &&& forall|i: int, j: int|
            0 <= i < j < self.entries@.len() ==> (#[trigger] self.entries@[i]).0@ != (
            #[trigger] self.entries@[j]).0@
        &&& forall|i: int| 0 <= i < self.entries@.len() ==> (#[trigger] self.entries@[i]).1.wf()
    }

    pub open spec fn has_target(self, name: Seq<char>) -> bool {
        exists|i: int| 0 <= i < self.entries@.len() && (#[trigger] self.entries@[i]).0@ == name
    }

    pub open spec fn index_of(self, name: Seq<char>) -> int {
        choose|i: int| 0 <= i < self.entries@.len() && (#[trigger] self.entries@[i]).0@ == name
    }

    pub open spec fn series_of(self, name: Seq<char>) -> Series {
        self.entries@[self.index_of(name)].1
    }

    /// A store with no series yet and a freshly shuffled pool of `n_colors`
    /// colour indices.
    pub fn new(n_colors: u8) -> (r: Store)
        ensures
            r.wf(),
            r.entries@.len() == 0,
            r.palette@.to_multiset() == palette_init(n_colors).to_multiset(),
    {
        let mut palette: Vec<u8> = Vec::new();
        let mut i: u8 = 0;
        while i < n_colors
            invariant
                i <= n_colors,
                palette@ =~= palette_init(n_colors).subrange(0, i as int),
            decreases n_colors - i,
        {
            palette.push(i);
            i = i + 1;
        }
        proof {
            assert(palette_init(n_colors).subrange(0, n_colors as int) =~= palette_init(n_colors));
        }
        shuffle_in_place(&mut palette);
        Store { entries: Vec::new(), palette }
    }

    fn find(&self, target: &String) -> (r: Option<usize>)
        ensures
            match r {
                Some(i) => i < self.entries@.len() && self.entries@[i as int].0@ == target@,
                None => !self.has_target(target@),
            },
    {
        let mut i: usize = 0;
        while i < self.entries.len()
            invariant
                i <= self.entries@.len(),
                forall|k: int| 0 <= k < i ==> (#[trigger] self.entries@[k]).0@ != target@,
            decreases self.entries@.len() - i,
        {
            if self.entries[i].0 == *target {
                return Some(i);
            }
            i = i + 1;
        }
        None
    }

    /// The series of a target, when the store knows it.
    pub fn get_series(&self, target: &String) -> (r: Option<&Series>)
        requires
            self.wf(),
        ensures
            r is Some <==> self.has_target(target@),
            match r {
                Some(s) => *s == self.series_of(target@),
                None => true,
            },
    {
        match self.find(target) {
            Some(i) => {
                proof {
                    lemma_index_of_agrees(*self, target@, i as int);
                }
                Some(&self.entries[i].1)
            },
            None => None,
        }
    }

    /// Ingest one probe outcome for a target. A target seen for the first
    /// time gets a fresh series, coloured from the pool, before the sample
    /// lands; every other target's series is left exactly as it was.
    pub fn upsert_and_append(&mut self, target: &String, sample: Sample)
        requires
            old(self).wf(),
        ensures
            final(self).wf(),
            final(self).has_target(target@),
            forall|n: Seq<char>|
                n != target@ ==> (final(self).has_target(n) <==> old(self).has_target(n)),
            forall|n: Seq<char>|
                n != target@ && old(self).has_target(n) ==> final(self).series_of(n) == old(
                    self,
                ).series_of(n),
            old(self).has_target(target@) ==> {
                &&& append_rel(
                    old(self).series_of(target@),
                    final(self).series_of(target@),
                    sample,
                )
                &&& final(self).entries@.len() == old(self).entries@.len()
                &&& final(self).palette@ == old(self).palette@
            },
            !old(self).has_target(target@) ==> {
                &&& fresh_appended(
                    final(self).series_of(target@),
                    sample,
                    if old(self).palette@.len() > 0 {
                        old(self).palette@.last()
                    } else {
                        0
                    },
                )
                &&& final(self).entries@.len() == old(self).entries@.len() + 1
                &&& final(self).palette@ == (if old(self).palette@.len() > 0 {
                    old(self).palette@.drop_last()
                } else {
                    old(self).palette@
                })
            },
    {
        match self.find(target) {
            Some(i) => {
                proof {
                    lemma_index_of_agrees(*old(self), target@, i as int);
                }
                self.entries[i].1.push(sample);
                proof {
                    lemma_store_update(*old(self), *self, i as int, target@);
                }
            },
            None => {
                let idx = match self.palette.pop() {
                    Some(c) => c,
                    None => 0,
                };
                let mut series = Series::with_idxcolor(idx);
                series.push(sample);
                proof {
                    assert(series.samples@ =~= seq![sample]);
                    if sample.is_reachable() {
                        assert(Seq::<u32>::empty().push(sample.lat()) =~= seq![sample.lat()]);
                        lemma_avg_singleton(sample.lat());
                        assert(series.smoothed@ =~= seq![Some(sample.lat())]);
                    } else {
                        assert(series.smoothed@ =~= seq![Option::<u32>::None]);
                    }
                    assert(fresh_appended(series, sample, idx));
                }
                let name = target.clone();
                self.entries.push((name, series));
                proof {
                    let n = self.entries@.len() - 1;
                    assert(self.entries@[n].0@ == target@);
                    lemma_store_update(*old(self), *self, n, target@);
                }
            },
        }
    }

    /// Evict one target's stale samples and refresh its statistics, leaving
    /// every other target untouched. A target the store does not know is no
    /// error: nothing changes.
    pub fn evict_target(&mut self, target: &String, older_than: u64)
        requires
            old(self).wf(),
        ensures
            final(self).wf(),
            final(self).palette@ == old(self).palette@,
            final(self).entries@.len() == old(self).entries@.len(),
            forall|n: Seq<char>| final(self).has_target(n) <==> old(self).has_target(n),
            forall|n: Seq<char>|
                n != target@ && old(self).has_target(n) ==> final(self).series_of(n) == old(
                    self,
                ).series_of(n),
            old(self).has_target(target@) ==> evict_refresh_rel(
                old(self).series_of(target@),
                final(self).series_of(target@),
                older_than,
            ),
            !old(self).has_target(target@) ==> final(self).entries@ == old(self).entries@,
    {
        match self.find(target) {
            Some(i) => {
                proof {
                    lemma_index_of_agrees(*old(self), target@, i as int);
                }
                self.entries[i].1.remove_older_than(older_than);
                self.entries[i].1.update_pingstat(None);
                proof {
                    lemma_store_update(*old(self), *self, i as int, target@);
                    assert(evict_refresh_rel(
                        old(self).entries@[i as int].1,
                        self.entries@[i as int].1,
                        older_than,
                    ));
                }
            },
            None => (),
        }
    }
}

/// The highest in-window reachable latency over a row of series; 0 when no
/// series has in-window data.
pub open spec fn highest_of(entries: Seq<(String, Series)>, time: Option<u64>) -> u32
    decreases entries.len(),
{
    if entries.len() == 0 {
        0
    } else {
        let h = max_of(latencies_of(windowed(entries.last().1.samples@, time)));
        let rest = highest_of(entries.drop_last(), time);
        if h > rest {
            h
        } else {
            rest
        }
    }
}

impl Store {
    /// One tick of the eviction task over every target: each series loses
    /// its samples at or older than the horizon and has its statistics
    /// refreshed from what remains, so a reader never pairs fresh logs with
    /// statistics over evicted samples.
    pub fn evict_older_than(&mut self, older_than: u64)
        requires
            old(self).wf(),
        ensures
            final(self).wf(),
            final(self).palette@ == old(self).palette@,
            final(self).entries@.len() == old(self).entries@.len(),
            forall|i: int|
                0 <= i < old(self).entries@.len() ==> (#[trigger] final(self).entries@[i]).0 == old(
                    self,
                ).entries@[i].0 && evict_refresh_rel(
                    old(self).entries@[i].1,
                    final(self).entries@[i].1,
                    older_than,
                ),
    {
        let n = self.entries.len();
        let mut i: usize = 0;
        while i < n
            invariant
                i <= n,
                n == self.entries@.len() == old(self).entries@.len(),
                self.palette@ == old(self).palette@,
                forall|k: int| i <= k < n ==> (#[trigger] self.entries@[k]) == old(self).entries@[k],
                forall|k: int|
                    0 <= k < i ==> (#[trigger] self.entries@[k]).0 == old(self).entries@[k].0
                        && evict_refresh_rel(
                        old(self).entries@[k].1,
                        self.entries@[k].1,
                        older_than,
                    ) && self.entries@[k].1.wf(),
                old(self).wf(),
            decreases n - i,
        {
            self.entries[i].1.remove_older_than(older_than);
            self.entries[i].1.update_pingstat(None);
            i = i + 1;
        }
        proof {
            assert forall|a: int, b: int| 0 <= a < b < self.entries@.len() implies (
            #[trigger] self.entries@[a]).0@ != (#[trigger] self.entries@[b]).0@ by {
                assert(self.entries@[a].0 == old(self).entries@[a].0);
                assert(self.entries@[b].0 == old(self).entries@[b].0);
            }
        }
    }

    /// One consistent frame for the renderer: per known target its name,
    /// colour index, cached statistics, and the segment runs of the visible
    /// window — all read from the same store state.
    pub fn snapshot(&self, time: Option<u64>) -> (r: Vec<TargetSnapshot>)
        ensures
            r@.len() == self.entries@.len(),
            forall|i: int|
                0 <= i < r@.len() ==> {
                    let e = #[trigger] self.entries@[i];
                    &&& r@[i].target@ == e.0@
                    &&& r@[i].linecol_idx == e.1.linecol_idx
                    &&& r@[i].stats == e.1.stats
                    &&& seg_views(r@[i].segments@) == segments_of(windowed(e.1.samples@, time))
                },
    {
        let mut r: Vec<TargetSnapshot> = Vec::new();
        let mut i: usize = 0;
        while i < self.entries.len()
            invariant
                i <= self.entries@.len(),
                r@.len() == i,
                forall|k: int|
                    0 <= k < i ==> {
                        let e = #[trigger] self.entries@[k];
                        &&& r@[k].target@ == e.0@
                        &&& r@[k].linecol_idx == e.1.linecol_idx
                        &&& r@[k].stats == e.1.stats
                        &&& seg_views(r@[k].segments@) == segments_of(
                            windowed(e.1.samples@, time),
                        )
                    },
            decreases self.entries@.len() - i,
        {
            let e = &self.entries[i];
            let snap = TargetSnapshot {
                target: e.0.clone(),
                linecol_idx: e.1.linecol_idx,
                stats: e.1.stats,
                segments: e.1.get_splitted(time),
            };
            r.push(snap);
            i = i + 1;
        }
        r
    }

    /// The highest reachable latency any target shows in the window; what
    /// sizes the chart's vertical extent. 0 when no target has in-window
    /// data.
    pub fn get_highest_value(&self, time: Option<u64>) -> (r: u32)
        ensures
            r == highest_of(self.entries@, time),
    {
        let mut r: u32 = 0;
        let mut i: usize = 0;
        while i < self.entries.len()
            invariant
                i <= self.entries@.len(),
                r == highest_of(self.entries@.subrange(0, i as int), time),
            decreases self.entries@.len() - i,
        {
            proof {
                assert(self.entries@.subrange(0, i + 1).drop_last() =~= self.entries@.subrange(
                    0,
                    i as int,
                ));
                assert(self.entries@.subrange(0, i + 1).last() == self.entries@[i as int]);
            }
            let h = self.entries[i].1.get_highest_value(time);
            if h > r {
                r = h;
            }
            i = i + 1;
        }
        proof {
            assert(self.entries@.subrange(0, self.entries@.len() as int) =~= self.entries@);
        }
        r
    }

    /// The highest reachable latency any target shows among samples newer
    /// than `t`.
    pub fn get_highest_value_youngerthan(&self, t: u64) -> (r: u32)
        ensures
            r == highest_of(self.entries@, Some(t)),
    {
        self.get_highest_value(Some(t))
    }
}

/// Replacing or appending the entry of one name changes nothing a
/// well-formed store says of any other name.
proof fn lemma_store_update(pre: Store, post: Store, i: int, target: Seq<char>)
    requires
        pre.wf(),
        0 <= i < post.entries@.len(),
        i <= pre.entries@.len(),
        post.entries@.len() == if i < pre.entries@.len() {
            pre.entries@.len() as int
        } else {
            pre.entries@.len() as int + 1
        },
        i < pre.entries@.len() ==> pre.entries@[i].0@ == target,
        i == pre.entries@.len() ==> !pre.has_target(target),
        forall|k: int| 0 <= k < pre.entries@.len() && k != i ==> post.entries@[k] == pre.entries@[k],
        post.entries@[i].0@ == target,
        post.entries@[i].1.wf(),
    ensures
        post.wf(),
        post.has_target(target),
        post.index_of(target) == i,
        post.series_of(target) == post.entries@[i].1,
        forall|n: Seq<char>| n != target ==> (post.has_target(n) <==> pre.has_target(n)),
        forall|n: Seq<char>|
            n != target && pre.has_target(n) ==> post.series_of(n) == pre.series_of(n),
{
    assert forall|k: int| 0 <= k < post.entries@.len() && k != i implies (
    #[trigger] post.entries@[k]).0@ != target by {
        assert(post.entries@[k] == pre.entries@[k]);
        if i < pre.entries@.len() {
            assert(pre.entries@[k].0@ != pre.entries@[i].0@);
        }
    }
    assert(post.wf()) by {
        assert forall|a: int, b: int| 0 <= a < b < post.entries@.len() implies (
        #[trigger] post.entries@[a]).0@ != (#[trigger] post.entries@[b]).0@ by {
            if a != i && b != i {
                assert(post.entries@[a] == pre.entries@[a]);
                assert(post.entries@[b] == pre.entries@[b]);
            }
        }
        assert forall|k: int| 0 <= k < post.entries@.len() implies (
        #[trigger] post.entries@[k]).1.wf() by {
            if k != i {
                assert(post.entries@[k] == pre.entries@[k]);
            }
        }
    }
    lemma_index_of_agrees(post, target, i);
    assert forall|n: Seq<char>| n != target implies (post.has_target(n) <==> pre.has_target(
        n,
    )) by {
        if pre.has_target(n) {
            let k = pre.index_of(n);
            assert(pre.entries@[k].0@ == n);
            assert(k != i || i == pre.entries@.len());
            assert(post.entries@[k].0@ == n);
            assert(post.has_target(n));
        }
        if post.has_target(n) {
            let k = post.index_of(n);
            assert(post.entries@[k].0@ == n);
            assert(k != i);
            assert(pre.entries@[k].0@ == n);
            assert(pre.has_target(n));
        }
    }
    assert forall|n: Seq<char>| n != target && pre.has_target(n) implies post.series_of(n)
        == pre.series_of(n) by {
        let kpre = pre.index_of(n);
        assert(pre.entries@[kpre].0@ == n);
        assert(kpre != i || i == pre.entries@.len());
        assert(post.entries@[kpre].0@ == n);
        lemma_index_of_agrees(post, n, kpre);
        assert(pre.series_of(n) == pre.entries@[kpre].1);
        assert(post.series_of(n) == post.entries@[kpre].1);
        assert(post.entries@[kpre] == pre.entries@[kpre]);
    }
}

/// In a well-formed store any index holding `name` is the index the spec
/// functions pick.
proof fn lemma_index_of_agrees(s: Store, name: Seq<char>, i: int)
    requires
        s.wf(),
        0 <= i < s.entries@.len(),
        s.entries@[i].0@ == name,
    ensures
        s.has_target(name),
        s.index_of(name) == i,
        s.series_of(name) == s.entries@[i].1,
{
    assert(s.has_target(name));
    let j = s.index_of(name);
    if i != j {
        assert(s.entries@[i].0@ != s.entries@[j].0@);
    }
}

} // verus!
