//! The stage profiler's accounting: per-stage totals of time spent and of
//! scopes closed, kept as integers.
//!
//! A scope is opened for one stage at a start time and closed at an end
//! time; closing adds the elapsed nanoseconds and one call to that stage's
//! bucket. The clock, the thread-local table and the printing of
//! milliseconds belong to the caller.

use vstd::prelude::*;

verus! {

/// Encoder: filtering a row.
pub const ENC_FILTER: usize = 0;

/// Encoder: DEFLATE.
pub const ENC_DEFLATE: usize = 1;

/// Encoder: chunk framing.
pub const ENC_CHUNK: usize = 2;

/// Decoder: inflate.
pub const DEC_INFLATE: usize = 3;

/// Decoder: unfiltering a row.
pub const DEC_UNFILTER: usize = 4;

/// Decoder: pixel transforms.
pub const DEC_TRANSFORM: usize = 5;

/// The number of stage buckets. Kept a fixed list so that lookup is an
/// index, not a hash.
pub const STAGE_COUNT: usize = 6;

/// The name of stage `idx`.
pub open spec fn stage_name_spec(idx: int) -> Seq<char> {
    if idx == ENC_FILTER {
        "enc.filter"@
    } else if idx == ENC_DEFLATE {
        "enc.deflate"@
    } else if idx == ENC_CHUNK {
        "enc.chunk"@
    } else if idx == DEC_INFLATE {
        "dec.inflate"@
    } else if idx == DEC_UNFILTER {
        "dec.unfilter"@
    } else {
        "dec.transform"@
    }
}

/// The name under which stage `idx` is reported.
pub fn stage_name(idx: usize) -> (name: &'static str)
    requires
        idx < STAGE_COUNT,
    ensures
        name@ == stage_name_spec(idx as int),
{
    if idx == ENC_FILTER {
        "enc.filter"
    } else if idx == ENC_DEFLATE {
        "enc.deflate"
    } else if idx == ENC_CHUNK {
        "enc.chunk"
    } else if idx == DEC_INFLATE {
        "dec.inflate"
    } else if idx == DEC_UNFILTER {
        "dec.unfilter"
    } else {
        "dec.transform"
    }
}

/// Every bucket empty: no time, no calls.
pub open spec fn empty_totals() -> Seq<(u64, u64)> {
    Seq::new(STAGE_COUNT as nat, |i: int| (0u64, 0u64))
}

/// The buckets of stages `0..n` that have at least one call, in stage
/// order, each as `(stage, nanoseconds, calls)`.
pub open spec fn listed_upto(t: Seq<(u64, u64)>, n: int) -> Seq<(usize, u64, u64)>
    decreases n,
{
    if n <= 0 {
        Seq::empty()
    } else {
        listed_upto(t, n - 1) + if t[n - 1].1 > 0 {
            seq![((n - 1) as usize, t[n - 1].0, t[n - 1].1)]
        } else {
            Seq::empty()
        }
    }
}

/// The non-empty buckets of `t`, in stage order.
pub open spec fn listed(t: Seq<(u64, u64)>) -> Seq<(usize, u64, u64)> {
    listed_upto(t, t.len() as int)
}

/// The accumulators: for each stage, the nanoseconds spent in it and the
/// number of scopes closed on it.
pub struct StageTotals {
    buckets: Vec<(u64, u64)>,
}

impl StageTotals {
    /// One bucket per stage: every function that makes or changes the
    /// totals also states `buckets_view().len() == STAGE_COUNT`.
    pub closed spec fn wf(self) -> bool {
        self.buckets@.len() == STAGE_COUNT
    }

    /// The buckets, indexed by stage: `(nanoseconds, calls)`.
    pub closed spec fn buckets_view(self) -> Seq<(u64, u64)> {
        self.buckets@
    }

    /// All buckets empty.
    pub fn new() -> (t: Self)
        ensures
            t.wf(),
            t.buckets_view().len() == STAGE_COUNT,
            t.buckets_view() == empty_totals(),
    {
        let mut buckets: Vec<(u64, u64)> = Vec::new();
        let mut i: usize = 0;
        while i < STAGE_COUNT
            invariant
                i <= STAGE_COUNT,
                buckets@ == Seq::new(i as nat, |k: int| (0u64, 0u64)),
            decreases STAGE_COUNT - i,
        {
            buckets.push((0u64, 0u64));
            i = i + 1;
            assert(buckets@ =~= Seq::new(i as nat, |k: int| (0u64, 0u64)));
        }
        assert(buckets@ =~= empty_totals());
        StageTotals { buckets }
    }

    /// The bucket of stage `idx`: `(nanoseconds, calls)`.
    pub fn bucket(&self, idx: usize) -> (b: (u64, u64))
        requires
            self.wf(),
            idx < STAGE_COUNT,
        ensures
            b == self.buckets_view()[idx as int],
    {
        self.buckets[idx]
    }

    /// `(stage, nanoseconds, calls)` for every non-empty bucket, in stage
    /// order.
    pub fn nonempty_stages(&self) -> (r: Vec<(usize, u64, u64)>)
        requires
            self.wf(),
        ensures
            r@ == listed(self.buckets_view()),
    {
        let mut r: Vec<(usize, u64, u64)> = Vec::new();
        let mut i: usize = 0;
        while i < STAGE_COUNT
            invariant
                i <= STAGE_COUNT,
                self.buckets@.len() == STAGE_COUNT,
                r@ == listed_upto(self.buckets@, i as int),
            decreases STAGE_COUNT - i,
        {
            let (ns, calls) = self.buckets[i];
            if calls > 0 {
                r.push((i, ns, calls));
            }
            i = i + 1;
            assert(r@ =~= listed_upto(self.buckets@, i as int));
        }
        r
    }
}

/// Clears all buckets. Call between timed repetitions.
pub fn reset(totals: &mut StageTotals)
    ensures
        final(totals).wf(),
        final(totals).buckets_view().len() == STAGE_COUNT,
        final(totals).buckets_view() == empty_totals(),
        listed(final(totals).buckets_view()) == Seq::<(usize, u64, u64)>::empty(),
{
    *totals = StageTotals::new();
    proof {
        lemma_empty_lists_nothing(STAGE_COUNT as int);
    }
}

/// An open stage scope: the stage it times and when it started, in
/// nanoseconds on the caller's clock.
pub struct Scope {
    idx: usize,
    start_nanos: u64,
}

impl Scope {
    #[verifier::type_invariant]
    spec fn names_a_stage(self) -> bool {
        self.idx < STAGE_COUNT
    }

    /// The stage this scope times.
    pub closed spec fn stage(self) -> usize {
        self.idx
    }

    /// When this scope was opened.
    pub closed spec fn started(self) -> u64 {
        self.start_nanos
    }

    /// The stage this scope times.
    pub fn stage_index(&self) -> (i: usize)
        ensures
            i == self.stage(),
            i < STAGE_COUNT,
    {
        proof {
            use_type_invariant(self);
        }
        self.idx
    }

    /// Opens a scope on stage `idx` at `start_nanos`.
    pub fn new(idx: usize, start_nanos: u64) -> (s: Scope)
        requires
            idx < STAGE_COUNT,
        ensures
            s.stage() == idx,
            s.started() == start_nanos,
    {
        Scope { idx, start_nanos }
    }

    /// Closes the scope at `now_nanos`: its stage's bucket gains the time
    /// elapsed since the start (none if the clock reads earlier) and one
    /// call; the other buckets are unchanged. Time saturates at `u64::MAX`.
    pub fn close(self, totals: &mut StageTotals, now_nanos: u64)
        requires
            old(totals).wf(),
            old(totals).buckets_view()[self.stage() as int].1 < u64::MAX,
        ensures
            self.stage() < STAGE_COUNT,
            final(totals).wf(),
            final(totals).buckets_view().len() == STAGE_COUNT,
            final(totals).buckets_view() == after_close(
                old(totals).buckets_view(),
                self.stage(),
                self.started(),
                now_nanos,
            ),
    {
        proof {
            use_type_invariant(&self);
        }
        let i = self.idx;
        let (ns, calls) = totals.buckets[i];
        let elapsed = now_nanos.saturating_sub(self.start_nanos);
        let bucket = (ns.saturating_add(elapsed), calls + 1);
        totals.buckets.set(i, bucket);
    }
}

/// The buckets `t` after closing a scope on `stage` opened at `start` at
/// `now`: that stage's bucket gains the elapsed time and one call.
pub open spec fn after_close(t: Seq<(u64, u64)>, stage: usize, start: u64, now: u64) -> Seq<(u64, u64)> {
    t.update(stage as int, (elapsed_total(t[stage as int].0, start, now), (t[stage as int].1 + 1) as u64))
}

/// The buckets `t` after closing, in order, the scopes `scopes`, each given
/// as `(stage, start, end)`.
pub open spec fn after_closes(t: Seq<(u64, u64)>, scopes: Seq<(usize, u64, u64)>) -> Seq<(u64, u64)>
    decreases scopes.len(),
{
    if scopes.len() == 0 {
        t
    } else {
        let s = scopes.last();
        after_close(after_closes(t, scopes.drop_last()), s.0, s.1, s.2)
    }
}

/// How many of `scopes` time stage `i`.
pub open spec fn scopes_on(scopes: Seq<(usize, u64, u64)>, i: int) -> nat
    decreases scopes.len(),
{
    if scopes.len() == 0 {
        0
    } else {
        scopes_on(scopes.drop_last(), i) + if scopes.last().0 == i {
            1nat
        } else {
            0nat
        }
    }
}

/// After a reset and a run of closed scopes, each stage's call count is the
/// number of those scopes that timed it.
pub proof fn lemma_calls_count_closed_scopes(scopes: Seq<(usize, u64, u64)>)
    requires
        scopes.len() < u64::MAX,
        forall|k: int| 0 <= k < scopes.len() ==> #[trigger] scopes[k].0 < STAGE_COUNT,
    ensures
        after_closes(empty_totals(), scopes).len() == STAGE_COUNT,
        forall|i: int|
            0 <= i < STAGE_COUNT ==> #[trigger] after_closes(empty_totals(), scopes)[i].1 == scopes_on(
                scopes,
                i,
            ),
    decreases scopes.len(),
{
    if scopes.len() > 0 {
        let front = scopes.drop_last();
        assert forall|k: int| 0 <= k < front.len() implies #[trigger] front[k].0 < STAGE_COUNT by {
            assert(front[k] == scopes[k]);
        }
        lemma_calls_count_closed_scopes(front);
        lemma_scopes_on_bounded(front);
        let s = scopes.last();
        assert(s == scopes[scopes.len() - 1]);
        let prev = after_closes(empty_totals(), front);
        assert forall|i: int| 0 <= i < STAGE_COUNT implies #[trigger] after_closes(
            empty_totals(),
            scopes,
        )[i].1 == scopes_on(scopes, i) by {
            assert(prev[i].1 == scopes_on(front, i));
            assert(scopes_on(front, i) <= front.len());
        }
    }
}

proof fn lemma_scopes_on_bounded(scopes: Seq<(usize, u64, u64)>)
    ensures
        forall|i: int| #[trigger] scopes_on(scopes, i) <= scopes.len(),
    decreases scopes.len(),
{
    if scopes.len() > 0 {
        lemma_scopes_on_bounded(scopes.drop_last());
        assert forall|i: int| #[trigger] scopes_on(scopes, i) <= scopes.len() by {
            assert(scopes_on(scopes.drop_last(), i) <= scopes.drop_last().len());
        }
    }
}

/// The total time that `scopes` spend on stage `i`: each scope counts the
/// span from its start to its end, none if the end reads earlier.
pub open spec fn time_on(scopes: Seq<(usize, u64, u64)>, i: int) -> nat
    decreases scopes.len(),
{
    if scopes.len() == 0 {
        0
    } else {
        let s = scopes.last();
        time_on(scopes.drop_last(), i) + if s.0 == i && s.2 >= s.1 {
            (s.2 - s.1) as nat
        } else {
            0nat
        }
    }
}

/// After a reset and a run of closed scopes, each stage's time is the sum
/// of the spans of the scopes that timed it, capped at `u64::MAX`: no span
/// is lost or counted twice, and the total saturates rather than wraps.
pub proof fn lemma_time_sums_closed_scopes(scopes: Seq<(usize, u64, u64)>)
    requires
        forall|k: int| 0 <= k < scopes.len() ==> #[trigger] scopes[k].0 < STAGE_COUNT,
    ensures
        after_closes(empty_totals(), scopes).len() == STAGE_COUNT,
        forall|i: int|
            0 <= i < STAGE_COUNT ==> #[trigger] after_closes(empty_totals(), scopes)[i].0 == if time_on(
                scopes,
                i,
            ) > u64::MAX {
                u64::MAX as nat
            } else {
                time_on(scopes, i)
            },
    decreases scopes.len(),
{
    if scopes.len() > 0 {
        let front = scopes.drop_last();
        assert forall|k: int| 0 <= k < front.len() implies #[trigger] front[k].0 < STAGE_COUNT by {
            assert(front[k] == scopes[k]);
        }
        lemma_time_sums_closed_scopes(front);
        let s = scopes.last();
        assert(s == scopes[scopes.len() - 1]);
        let prev = after_closes(empty_totals(), front);
        assert forall|i: int| 0 <= i < STAGE_COUNT implies #[trigger] after_closes(
            empty_totals(),
            scopes,
        )[i].0 == if time_on(scopes, i) > u64::MAX {
            u64::MAX as nat
        } else {
            time_on(scopes, i)
        } by {
            assert(prev[i].0 == if time_on(front, i) > u64::MAX {
                u64::MAX as nat
            } else {
                time_on(front, i)
            });
        }
    }
}

/// A bucket's time after adding the span from `start` to `now`: saturating
/// at both ends.
pub open spec fn elapsed_total(ns: u64, start: u64, now: u64) -> u64 {
    let elapsed: u64 = if now >= start {
        (now - start) as u64
    } else {
        0
    };
    if ns + elapsed > u64::MAX {
        u64::MAX
    } else {
        (ns + elapsed) as u64
    }
}

/// With every bucket empty, nothing is listed.
pub proof fn lemma_empty_lists_nothing(n: int)
    requires
        n <= STAGE_COUNT,
    ensures
        listed_upto(empty_totals(), n) == Seq::<(usize, u64, u64)>::empty(),
    decreases n,
{
    if n > 0 {
        lemma_empty_lists_nothing(n - 1);
        assert(listed_upto(empty_totals(), n) =~= Seq::<(usize, u64, u64)>::empty());
    }
}

/// The listing holds a stage exactly when its bucket has calls, with that
/// bucket's time and calls, and lists stages in increasing order.
pub proof fn lemma_listed_exactly_nonempty(t: Seq<(u64, u64)>)
    requires
        t.len() <= usize::MAX,
    ensures
        forall|i: int|
            0 <= i < t.len() ==> (t[i].1 > 0 <==> exists|k: int|
                0 <= k < listed(t).len() && #[trigger] listed(t)[k] == (i as usize, t[i].0, t[i].1)),
        forall|k: int| 0 <= k < listed(t).len() ==> #[trigger] listed(t)[k].0 < t.len(),
        forall|k: int, l: int|
            0 <= k < l < listed(t).len() ==> #[trigger] listed(t)[k].0 < #[trigger] listed(t)[l].0,
{
    lemma_listed_upto(t, t.len() as int);
    let l = listed(t);
    assert(l == listed_upto(t, t.len() as int));
    assert forall|i: int| 0 <= i < t.len() implies (t[i].1 > 0 <==> exists|k: int|
        0 <= k < l.len() && #[trigger] l[k] == (i as usize, t[i].0, t[i].1)) by {
        if t[i].1 > 0 {
            let k = choose|k: int|
                0 <= k < listed_upto(t, t.len() as int).len() && #[trigger] listed_upto(
                    t,
                    t.len() as int,
                )[k] == (i as usize, t[i].0, t[i].1);
            assert(l[k] == (i as usize, t[i].0, t[i].1));
        }
        if exists|k: int| 0 <= k < l.len() && #[trigger] l[k] == (i as usize, t[i].0, t[i].1) {
            let k = choose|k: int| 0 <= k < l.len() && #[trigger] l[k] == (i as usize, t[i].0, t[i].1);
            assert(listed_upto(t, t.len() as int)[k] == (i as usize, t[i].0, t[i].1));
        }
    }
}

proof fn lemma_listed_upto(t: Seq<(u64, u64)>, n: int)
    requires
        0 <= n <= t.len(),
        t.len() <= usize::MAX,
    ensures
        forall|i: int|
            0 <= i < n ==> (t[i].1 > 0 <==> exists|k: int|
                0 <= k < listed_upto(t, n).len() && #[trigger] listed_upto(t, n)[k] == (
                    i as usize,
                    t[i].0,
                    t[i].1,
                )),
        forall|k: int|
            0 <= k < listed_upto(t, n).len() ==> #[trigger] listed_upto(t, n)[k].0 < n,
        forall|k: int, l: int|
            0 <= k < l < listed_upto(t, n).len() ==> #[trigger] listed_upto(t, n)[k].0
                < #[trigger] listed_upto(t, n)[l].0,
    decreases n,
{
    if n > 0 {
        lemma_listed_upto(t, n - 1);
        let prev = listed_upto(t, n - 1);
        let cur = listed_upto(t, n);
        let tail: Seq<(usize, u64, u64)> = if t[n - 1].1 > 0 {
            seq![((n - 1) as usize, t[n - 1].0, t[n - 1].1)]
        } else {
            Seq::empty()
        };
        assert(cur == prev + tail);
        assert forall|k: int| 0 <= k < prev.len() implies #[trigger] cur[k] == prev[k] by {}
        assert forall|k: int| 0 <= k < cur.len() implies #[trigger] cur[k].0 < n by {
            if k >= prev.len() {
                assert(cur[k] == tail[k - prev.len()]);
            }
        }
        assert forall|i: int| 0 <= i < n implies (t[i].1 > 0 <==> exists|k: int|
            0 <= k < cur.len() && #[trigger] cur[k] == (i as usize, t[i].0, t[i].1)) by {
            if i < n - 1 {
                if t[i].1 > 0 {
                    let k = choose|k: int|
                        0 <= k < prev.len() && #[trigger] prev[k] == (i as usize, t[i].0, t[i].1);
                    assert(cur[k] == prev[k]);
                }
                if exists|k: int| 0 <= k < cur.len() && #[trigger] cur[k] == (i as usize, t[i].0, t[i].1) {
                    let k = choose|k: int|
                        0 <= k < cur.len() && #[trigger] cur[k] == (i as usize, t[i].0, t[i].1);
                    if k >= prev.len() {
                        assert(cur[k] == tail[k - prev.len()]);
                        assert(cur[k].0 == (n - 1) as usize);
                        assert(false);
                    } else {
                        assert(prev[k] == cur[k]);
                    }
                }
            } else {
                if t[i].1 > 0 {
                    assert(cur[prev.len() as int] == tail[0]);
                }
                if exists|k: int| 0 <= k < cur.len() && #[trigger] cur[k] == (i as usize, t[i].0, t[i].1) {
                    let k = choose|k: int|
                        0 <= k < cur.len() && #[trigger] cur[k] == (i as usize, t[i].0, t[i].1);
                    if k < prev.len() {
                        assert(prev[k] == cur[k]);
                        assert(prev[k].0 < n - 1);
                        assert(false);
                    }
                }
            }
        }
        assert forall|k: int, l: int| 0 <= k < l < cur.len() implies #[trigger] cur[k].0
            < #[trigger] cur[l].0 by {
            if l >= prev.len() {
                assert(cur[l] == tail[l - prev.len()]);
                if k < prev.len() {
                    assert(cur[k] == prev[k]);
                }
            } else {
                assert(cur[k] == prev[k]);
                assert(cur[l] == prev[l]);
            }
        }
    }
}

} // verus!
