use vstd::prelude::*;
use crate::image::CountImage;
use crate::packets::{decoded_events, decoded_frame};
use crate::polarity_value;

verus! {

/// Hard cap on the number of events one run may absorb; it keeps every
/// accumulator cell provably inside `i64` however the events fall.
pub const MAX_EVENTS: u64 = 0x1_0000_0000_0000;

/// Coefficients are carried in thousandths; 1000 stands for 1.0.
pub const COEFF_DENOM: u32 = 1000;

/// One per-pixel brightness-change notification.
#[derive(Clone, Copy, Debug)]
pub struct Event {
    pub x: i16,
    pub y: i16,
    pub t: i64,
    pub on: bool,
}

/// One fixed-duration accumulation buffer of the interval store. `idx` is
/// its absolute position in the output cadence since the epoch.
pub struct Interval {
    pub idx: u64,
    pub counts: CountImage,
}

/// A reconstructed output frame in the log domain: the actual image is
/// `exp(base(anchor) + log_delta / 1000)`, where `base(anchor)` is the
/// latent image reconstructed at the pivot of the `anchor`-th resolved
/// exposure window (zero before the first window resolves).
pub struct LatentImage {
    pub anchor: u64,
    pub log_delta: CountImage,
}

/// An event that fell strictly inside the open exposure, kept for the
/// edge-boundary accumulator: its weight is `exp(-|delta_t| / interval_t)`,
/// signed by polarity, applied by the energy-metric consumer.
#[derive(Clone, Copy, Debug)]
pub struct EdgeSample {
    pub x: i16,
    pub y: i16,
    pub on: bool,
    pub delta_t: i64,
}

/// Partial-interval accounting at one edge of an exposure window.
pub struct Bookend {
    /// Absolute index of the interval the exposure edge falls into.
    pub interval_idx: u64,
    /// Where inside that interval the edge sits, in event-time units.
    pub boundary_offset: i64,
    /// Events of this interval inside the exposure.
    pub during: CountImage,
    /// Events of this interval outside the exposure.
    pub outside: CountImage,
    /// Every event observed in this interval while the window was open.
    pub observed: u64,
}

/// Everything the engine tracks for one captured reference frame.
pub struct BlurInfo {
    /// Reference frame pixels, row-major, one byte per pixel.
    pub blurred: Vec<u8>,
    pub exposure_begin_t: i64,
    pub exposure_end_t: i64,
    pub begin_bookend: Bookend,
    pub end_bookend: Bookend,
    /// Absolute index of the mid-window pivot interval.
    pub pivot_idx: u64,
}

/// Midpoint pivot of the window spanning intervals `begin ..= end`.
pub open spec fn pivot_of(begin: int, end: int) -> int {
    begin + (end - begin) / 2
}

/// Sum of the ghost magnitude bounds of a run of intervals.
pub open spec fn sum_bounds(s: Seq<Interval>) -> int
    decreases s.len(),
{
    if s.len() == 0 {
        0
    } else {
        sum_bounds(s.drop_last()) + s.last().counts.bound()
    }
}

pub proof fn lemma_sum_bounds_push(s: Seq<Interval>, x: Interval)
    ensures
        sum_bounds(s.push(x)) == sum_bounds(s) + x.counts.bound(),
{
    assert(s.push(x).drop_last() =~= s);
}

pub proof fn lemma_sum_bounds_update(s: Seq<Interval>, i: int, x: Interval)
    requires
        0 <= i < s.len(),
    ensures
        sum_bounds(s.update(i, x)) == sum_bounds(s) - s[i].counts.bound() + x.counts.bound(),
    decreases s.len(),
{
    if i == s.len() - 1 {
        assert(s.update(i, x).drop_last() =~= s.drop_last());
    } else {
        lemma_sum_bounds_update(s.drop_last(), i, x);
        assert(s.update(i, x).drop_last() =~= s.drop_last().update(i, x));
        assert(s.update(i, x).last() == s.last());
    }
}

pub proof fn lemma_sum_bounds_drop_first(s: Seq<Interval>)
    requires
        s.len() > 0,
    ensures
        sum_bounds(s) == s[0].counts.bound() + sum_bounds(s.remove(0)),
    decreases s.len(),
{
    if s.len() == 1 {
        assert(s.remove(0) =~= Seq::<Interval>::empty());
    } else {
        lemma_sum_bounds_drop_first(s.drop_last());
        assert(s.remove(0).drop_last() =~= s.drop_last().remove(0));
        assert(s.remove(0).last() == s.last());
    }
}

/// With non-negative bounds the sum is non-negative.
pub proof fn lemma_sum_bounds_nonneg(s: Seq<Interval>)
    requires
        forall|j: int| 0 <= j < s.len() ==> #[trigger] s[j].counts.bound() >= 0,
    ensures
        0 <= sum_bounds(s),
    decreases s.len(),
{
    if s.len() > 0 {
        assert forall|j: int|
            0 <= j < s.drop_last().len() implies #[trigger] s.drop_last()[j].counts.bound()
            >= 0 by {
            assert(s.drop_last()[j] == s[j]);
        }
        lemma_sum_bounds_nonneg(s.drop_last());
    }
}

/// With non-negative bounds, each element's bound is at most the sum.
pub proof fn lemma_sum_bounds_elem(s: Seq<Interval>, i: int)
    requires
        0 <= i < s.len(),
        forall|j: int| 0 <= j < s.len() ==> #[trigger] s[j].counts.bound() >= 0,
    ensures
        0 <= s[i].counts.bound() <= sum_bounds(s),
        0 <= sum_bounds(s),
    decreases s.len(),
{
    assert forall|j: int|
        0 <= j < s.drop_last().len() implies #[trigger] s.drop_last()[j].counts.bound() >= 0 by {
        assert(s.drop_last()[j] == s[j]);
    }
    if i == s.len() - 1 {
        lemma_sum_bounds_nonneg(s.drop_last());
    } else {
        lemma_sum_bounds_elem(s.drop_last(), i);
        assert(s.last().counts.bound() >= 0);
    }
}

/// The windowed event-accumulation engine: owns the interval store, the
/// open exposure window and its bookends, the running latent accumulator,
/// and the queue of finished latent images.
pub struct EventAdder {
    t_shift: i64,
    interval_t: i64,
    height: usize,
    width: usize,
    interval_count: u64,
    intervals_popped: u64,
    latent_delta: CountImage,
    anchor: u64,
    return_queue: Vec<LatentImage>,
    event_intervals: Vec<Interval>,
    blur_info: Option<BlurInfo>,
    next_blur_info: Option<BlurInfo>,
    edge_samples: Vec<EdgeSample>,
    events_before: Vec<Event>,
    events_during: Vec<Event>,
    events_after: Vec<Event>,
    pending: Option<WindowPlan>,
    current_c: u32,
    optimize_c: bool,
    optimize_c_frequency: u32,
    events_absorbed: u64,
}

/// Snapshot taken when an exposure window has seen all its events: the raw
/// accumulators of the window's intervals, waiting for a coefficient before
/// the latent images are emitted. The snapshot does not depend on the
/// coefficient, so one snapshot serves every candidate the optimizer tries.
pub struct WindowPlan {
    /// Absolute indices of the first and last interval of the window, and
    /// of the pivot the integration is anchored at.
    pub begin_idx: u64,
    pub end_idx: u64,
    pub pivot_idx: u64,
    /// Intra-interval offsets of the true exposure edges.
    pub begin_offset: i64,
    pub end_offset: i64,
    pub interval_t: i64,
    /// Raw accumulators of intervals `begin_idx ..= end_idx`, in order.
    pub counts: Vec<CountImage>,
    /// The window's reference frame.
    pub blurred: Vec<u8>,
}

impl WindowPlan {
    pub open spec fn wf(self, w: int, h: int) -> bool {
        &&& self.begin_idx <= self.pivot_idx <= self.end_idx
        &&& self.pivot_idx == pivot_of(self.begin_idx as int, self.end_idx as int)
        &&& self.counts@.len() == self.end_idx - self.begin_idx + 1
        &&& forall|i: int|
            0 <= i < self.counts@.len() ==> (#[trigger] self.counts@[i]).wf()
                && self.counts@[i].spec_width() == w && self.counts@[i].spec_height() == h
        &&& plan_total_bound(self.counts@) <= MAX_EVENTS
        &&& 0 < self.interval_t
    }
}

/// Sum of the magnitude bounds of the snapshot accumulators.
pub open spec fn plan_total_bound(s: Seq<CountImage>) -> int
    decreases s.len(),
{
    if s.len() == 0 {
        0
    } else {
        plan_total_bound(s.drop_last()) + s.last().bound()
    }
}

/// `c` times the sum of cell `px` over the first `k` intervals of a run.
pub open spec fn scaled_prefix(ivs: Seq<Interval>, c: int, k: int, px: int) -> int
    decreases k,
{
    if k <= 0 {
        0
    } else {
        scaled_prefix(ivs, c, k - 1, px) + c * ivs[k - 1].counts.grid()[px]
    }
}

/// `c` times the sum of cell `px` over the first `k` intervals the store
/// hosts, reading zero where it has not grown that far yet.
pub open spec fn scaled_prefix_z(o: EventAdder, c: int, k: int, px: int) -> int
    decreases k,
{
    if k <= 0 {
        0
    } else {
        scaled_prefix_z(o, c, k - 1, px) + c * old_grid_or_zero(o, k - 1, px)
    }
}

/// A run of intervals that agrees cell-by-cell with the store's prefix has
/// the same scaled prefix sums.
pub proof fn lemma_scaled_prefix_agree(ivs: Seq<Interval>, o: EventAdder, c: int, k: int, px: int)
    requires
        0 <= k,
        forall|i: int|
            0 <= i < k ==> (#[trigger] ivs[i]).counts.grid()[px] as int == old_grid_or_zero(
                o,
                i,
                px,
            ),
    ensures
        scaled_prefix(ivs, c, k, px) == scaled_prefix_z(o, c, k, px),
    decreases k,
{
    if k > 0 {
        lemma_scaled_prefix_agree(ivs, o, c, k - 1, px);
    }
}

/// `c` times the sum of cell `px` over the hosted intervals at offsets
/// `from .. to`, reading zero where the store has not grown that far yet.
pub open spec fn scaled_range_z(o: EventAdder, c: int, from: int, to: int, px: int) -> int
    decreases to - from,
{
    if from >= to {
        0
    } else {
        c * old_grid_or_zero(o, from, px) + scaled_range_z(o, c, from + 1, to, px)
    }
}

/// A snapshot that agrees cell-by-cell with a run of the store has the same
/// scaled window sums.
pub proof fn lemma_scaled_range_agree(
    counts: Seq<CountImage>,
    o: EventAdder,
    c: int,
    base: int,
    from: int,
    to: int,
    px: int,
)
    requires
        0 <= from,
        forall|j: int|
            from <= j < to ==> (#[trigger] counts[j]).grid()[px] as int == old_grid_or_zero(
                o,
                base + j,
                px,
            ),
    ensures
        scaled_window(counts, c, from, to, px) == scaled_range_z(o, c, base + from, base + to, px),
    decreases to - from,
{
    if from < to {
        lemma_scaled_range_agree(counts, o, c, base, from + 1, to, px);
        assert(scaled_range_z(o, c, base + from, base + to, px) == c * old_grid_or_zero(
            o,
            base + from,
            px,
        ) + scaled_range_z(o, c, base + from + 1, base + to, px));
    }
}

/// `c` times the sum of cell `px` over snapshot accumulators `from .. to`.
pub open spec fn scaled_window(counts: Seq<CountImage>, c: int, from: int, to: int, px: int) -> int
    decreases to - from,
{
    if from >= to {
        0
    } else {
        c * counts[from].grid()[px] + scaled_window(counts, c, from + 1, to, px)
    }
}

/// Sum of the magnitude bounds of snapshot accumulators `from .. to`.
pub open spec fn bound_window(s: Seq<CountImage>, from: int, to: int) -> int
    decreases to - from,
{
    if from >= to {
        0
    } else {
        s[from].bound() + bound_window(s, from + 1, to)
    }
}

pub proof fn lemma_bw_nonneg(s: Seq<CountImage>, from: int, to: int)
    requires
        0 <= from,
        to <= s.len(),
        forall|j: int| from <= j < to ==> (#[trigger] s[j]).bound() >= 0,
    ensures
        0 <= bound_window(s, from, to),
    decreases to - from,
{
    if from < to {
        assert(s[from].bound() >= 0);
        lemma_bw_nonneg(s, from + 1, to);
    }
}

pub proof fn lemma_bw_split(s: Seq<CountImage>, a: int, b: int, c: int)
    requires
        a <= b <= c,
    ensures
        bound_window(s, a, c) == bound_window(s, a, b) + bound_window(s, b, c),
    decreases b - a,
{
    if a < b {
        lemma_bw_split(s, a + 1, b, c);
    }
}

/// The bound mass of any sub-run is at most the whole snapshot's mass.
pub proof fn lemma_bw_le_total(s: Seq<CountImage>, from: int, to: int)
    requires
        0 <= from <= to <= s.len(),
        forall|j: int| 0 <= j < s.len() ==> (#[trigger] s[j]).bound() >= 0,
    ensures
        0 <= bound_window(s, from, to) <= bound_window(s, 0, s.len() as int),
{
    lemma_bw_split(s, 0, from, to);
    lemma_bw_split(s, 0, to, s.len() as int);
    lemma_bw_nonneg(s, from, to);
    lemma_bw_nonneg(s, 0, from);
    lemma_bw_nonneg(s, to, s.len() as int);
}

/// The two ways of summing a whole snapshot agree.
pub proof fn lemma_bw_total(s: Seq<CountImage>)
    ensures
        bound_window(s, 0, s.len() as int) == plan_total_bound(s),
    decreases s.len(),
{
    if s.len() > 0 {
        lemma_bw_total(s.drop_last());
        lemma_bw_drop_last(s, 0);
        lemma_bw_split(s, 0, s.len() - 1, s.len() as int);
        assert(bound_window(s, s.len() - 1, s.len() as int) == s[s.len() - 1].bound()
            + bound_window(s, s.len() as int, s.len() as int));
    }
}

proof fn lemma_bw_drop_last(s: Seq<CountImage>, from: int)
    requires
        0 <= from,
        s.len() > 0,
    ensures
        bound_window(s, from, s.len() - 1) == bound_window(s.drop_last(), from, s.len() - 1),
    decreases s.len() - from,
{
    if from < s.len() - 1 {
        lemma_bw_drop_last(s, from + 1);
    }
}

/// Extending a scaled window sum by one accumulator on the right.
pub proof fn lemma_scaled_window_extend(
    counts: Seq<CountImage>,
    c: int,
    from: int,
    to: int,
    px: int,
)
    requires
        from < to,
    ensures
        scaled_window(counts, c, from, to, px) == scaled_window(counts, c, from, to - 1, px) + c
            * counts[to - 1].grid()[px],
    decreases to - from,
{
    if from < to - 1 {
        lemma_scaled_window_extend(counts, c, from + 1, to, px);
        assert(scaled_window(counts, c, from, to, px) == c * counts[from].grid()[px]
            + scaled_window(counts, c, from + 1, to, px));
        assert(scaled_window(counts, c, from, to - 1, px) == c * counts[from].grid()[px]
            + scaled_window(counts, c, from + 1, to - 1, px));
    } else {
        assert(scaled_window(counts, c, from, to, px) == c * counts[from].grid()[px]
            + scaled_window(counts, c, from + 1, to, px));
        assert(scaled_window(counts, c, from + 1, to, px) == 0);
        assert(scaled_window(counts, c, from, to - 1, px) == 0);
    }
}

/// Bound mass of a pending snapshot, not counting its final (still live)
/// interval; zero when nothing is pending.
pub open spec fn pending_bound(p: Option<WindowPlan>) -> int {
    if p is Some {
        plan_total_bound(p.unwrap().counts@.drop_last())
    } else {
        0
    }
}

/// With non-negative bounds the snapshot mass is non-negative.
pub proof fn lemma_plan_total_nonneg(s: Seq<CountImage>)
    requires
        forall|j: int| 0 <= j < s.len() ==> (#[trigger] s[j]).bound() >= 0,
    ensures
        0 <= plan_total_bound(s),
    decreases s.len(),
{
    if s.len() > 0 {
        assert forall|j: int|
            0 <= j < s.drop_last().len() implies (#[trigger] s.drop_last()[j]).bound() >= 0 by {
            assert(s.drop_last()[j] == s[j]);
        }
        lemma_plan_total_nonneg(s.drop_last());
    }
}

/// A well-formed pending snapshot has non-negative bound mass.
pub proof fn lemma_pending_bound_nonneg(p: Option<WindowPlan>, w: int, h: int)
    requires
        p is Some ==> p.unwrap().wf(w, h),
    ensures
        pending_bound(p) >= 0,
{
    if p is Some {
        let s = p.unwrap().counts@;
        assert forall|j: int|
            0 <= j < s.drop_last().len() implies (#[trigger] s.drop_last()[j]).bound() >= 0 by {
            assert(s.drop_last()[j] == s[j]);
            assert(s[j].wf());
        }
        lemma_plan_total_nonneg(s.drop_last());
    }
}

pub proof fn lemma_plan_total_push(s: Seq<CountImage>, x: CountImage)
    ensures
        plan_total_bound(s.push(x)) == plan_total_bound(s) + x.bound(),
{
    assert(s.push(x).drop_last() =~= s);
}

/// The count at `(x, y)` of the interval at offset `off` of the store, or
/// zero where the store has not grown that far yet.
pub open spec fn old_cell_or_zero(a: EventAdder, off: int, x: int, y: int) -> int {
    if off < a.intervals().len() {
        a.intervals()[off].counts.cell(x, y)
    } else {
        0
    }
}

/// The flat cell `j` of the interval at offset `off`, or zero where the
/// store has not grown that far yet.
pub open spec fn old_grid_or_zero(a: EventAdder, off: int, j: int) -> int {
    if off < a.intervals().len() {
        a.intervals()[off].counts.grid()[j] as int
    } else {
        0
    }
}

impl BlurInfo {
    /// Lays out the bookend accounting for one captured reference frame:
    /// which output intervals the exposure edges fall into, where inside
    /// them they sit, and the mid-window pivot.
    pub fn new(
        image: Vec<u8>,
        exposure_begin_t: i64,
        exposure_end_t: i64,
        t_shift: i64,
        interval_t: i64,
        height: usize,
        width: usize,
    ) -> (r: BlurInfo)
        requires
            0 < interval_t,
            0 <= t_shift <= exposure_begin_t <= exposure_end_t,
            width * height <= usize::MAX,
        ensures
            r.blurred == image,
            r.exposure_begin_t == exposure_begin_t,
            r.exposure_end_t == exposure_end_t,
            r.begin_bookend.interval_idx == (exposure_begin_t - t_shift) as int / interval_t as int,
            r.begin_bookend.boundary_offset == (exposure_begin_t - t_shift) as int
                % interval_t as int,
            r.end_bookend.interval_idx == (exposure_end_t - t_shift) as int / interval_t as int,
            r.end_bookend.boundary_offset == (exposure_end_t - t_shift) as int % interval_t as int,
            r.pivot_idx == pivot_of(
                r.begin_bookend.interval_idx as int,
                r.end_bookend.interval_idx as int,
            ),
            r.begin_bookend.interval_idx <= r.end_bookend.interval_idx,
            0 <= r.begin_bookend.boundary_offset < interval_t,
            0 <= r.end_bookend.boundary_offset < interval_t,
            r.begin_bookend.during.bound() == 0,
            r.begin_bookend.outside.bound() == 0,
            r.end_bookend.during.bound() == 0,
            r.end_bookend.outside.bound() == 0,
            r.begin_bookend.observed == 0,
            r.end_bookend.observed == 0,
            r.begin_bookend.during.wf() && r.begin_bookend.during.spec_width() == width
                && r.begin_bookend.during.spec_height() == height,
            r.begin_bookend.outside.wf() && r.begin_bookend.outside.spec_width() == width
                && r.begin_bookend.outside.spec_height() == height,
            r.end_bookend.during.wf() && r.end_bookend.during.spec_width() == width
                && r.end_bookend.during.spec_height() == height,
            r.end_bookend.outside.wf() && r.end_bookend.outside.spec_width() == width
                && r.end_bookend.outside.spec_height() == height,
            r.pivot_idx as int * interval_t as int <= exposure_end_t - t_shift,
    {
        let local_begin = exposure_begin_t - t_shift;
        let local_end = exposure_end_t - t_shift;
        let begin_idx = (local_begin / interval_t) as u64;
        let end_idx = (local_end / interval_t) as u64;
        let begin_bookend = Bookend {
            interval_idx: begin_idx,
            boundary_offset: local_begin % interval_t,
            during: CountImage::zeros(width, height),
            outside: CountImage::zeros(width, height),
            observed: 0,
        };
        let end_bookend = Bookend {
            interval_idx: end_idx,
            boundary_offset: local_end % interval_t,
            during: CountImage::zeros(width, height),
            outside: CountImage::zeros(width, height),
            observed: 0,
        };
        proof {
            vstd::arithmetic::div_mod::lemma_div_is_ordered(
                local_begin as int,
                local_end as int,
                interval_t as int,
            );
        }
        let pivot_idx = begin_idx + (end_idx - begin_idx) / 2;
        proof {
            vstd::arithmetic::div_mod::lemma_fundamental_div_mod(
                local_end as int,
                interval_t as int,
            );
            vstd::arithmetic::div_mod::lemma_mod_division_less_than_divisor(
                local_end as int,
                interval_t as int,
            );
            vstd::arithmetic::div_mod::lemma_mod_division_less_than_divisor(
                local_begin as int,
                interval_t as int,
            );
            assert(pivot_idx <= end_idx);
            assert(pivot_idx as int * interval_t as int <= end_idx as int * interval_t as int)
                by (nonlinear_arith)
                requires
                    0 <= pivot_idx as int <= end_idx as int,
                    0 < interval_t as int,
            ;
            assert(end_idx as int * interval_t as int <= local_end as int) by (nonlinear_arith)
                requires
                    local_end as int == interval_t as int * (local_end as int / interval_t as int)
                        + local_end as int % interval_t as int,
                    end_idx as int == local_end as int / interval_t as int,
                    0 <= local_end as int % interval_t as int,
            ;
        }
        BlurInfo {
            blurred: image,
            exposure_begin_t,
            exposure_end_t,
            begin_bookend,
            end_bookend,
            pivot_idx,
        }
    }
}

/// An independent copy of a byte vector.
fn copy_bytes(v: &Vec<u8>) -> (r: Vec<u8>)
    ensures
        r@ == v@,
{
    let n = v.len();
    let mut data: Vec<u8> = Vec::new();
    for k in 0..n
        invariant
            n == v@.len(),
            data@.len() == k,
            forall|i: int| 0 <= i < k ==> data@[i] == v@[i],
    {
        data.push(v[k]);
    }
    proof {
        assert(data@ =~= v@);
    }
    data
}

/// One bookend took the event on its "outside" (`to_outside` true) or
/// "during" (false) side; everything else about it is unchanged.
pub open spec fn bookend_routed(ob: Bookend, nb: Bookend, e: Event, w: int, to_outside: bool) -> bool {
    &&& nb.interval_idx == ob.interval_idx
    &&& nb.boundary_offset == ob.boundary_offset
    &&& nb.observed == ob.observed + 1
    &&& (to_outside ==> nb.outside.grid() == ob.outside.grid().update(
        e.y as int * w + e.x as int,
        (ob.outside.cell(e.x as int, e.y as int) + polarity_value(e.on)) as i64,
    ) && nb.during == ob.during)
    &&& (!to_outside ==> nb.during.grid() == ob.during.grid().update(
        e.y as int * w + e.x as int,
        (ob.during.cell(e.x as int, e.y as int) + polarity_value(e.on)) as i64,
    ) && nb.outside == ob.outside)
}

/// The two exposure windows agree except for their bookend accumulators.
pub open spec fn same_blur_frame(a: BlurInfo, b: BlurInfo) -> bool {
    &&& a.blurred == b.blurred
    &&& a.exposure_begin_t == b.exposure_begin_t
    &&& a.exposure_end_t == b.exposure_end_t
    &&& a.pivot_idx == b.pivot_idx
}

/// What processing one post-epoch event does to the engine.
pub open spec fn spec_processed(o: EventAdder, n: EventAdder, e: Event) -> bool {
    let idx = o.spec_event_idx(e.t as int);
    let local = e.t - o.spec_t_shift();
    let trigger = o.blur() is Some && idx > o.blur().unwrap().end_bookend.interval_idx;
    let in_exposure = o.blur() is Some && o.blur().unwrap().exposure_begin_t <= e.t
        < o.blur().unwrap().exposure_end_t;
    &&& same_config(o, n)
    &&& n.spec_events_absorbed() == o.spec_events_absorbed() + 1
    // the event lands at its floor index, which the store now hosts
    &&& n.spec_popped() + n.intervals().len() > idx
    &&& idx >= n.spec_popped()
    &&& n.intervals()[idx - n.spec_popped()].counts.cell(e.x as int, e.y as int)
        == old_cell_or_zero(o, idx - o.spec_popped(), e.x as int, e.y as int) + polarity_value(e.on)
    // the rest of the event's interval is exactly as before
    &&& ({
        let tg = n.intervals()[idx - n.spec_popped()].counts.grid();
        &&& tg.len() == n.spec_width() * n.spec_height()
        &&& forall|j: int|
            0 <= j < tg.len() && j != e.y as int * o.spec_width() + e.x as int
                ==> #[trigger] tg[j] == old_grid_or_zero(o, idx - o.spec_popped(), j)
    })
    // every other hosted interval is untouched (newly grown ones zero),
    // shifted only by what the step consumed
    &&& forall|i: int|
        0 <= i < n.intervals().len() && i + n.spec_popped() != idx ==> (forall|j: int|
            0 <= j < (#[trigger] n.intervals()[i]).counts.grid().len()
                ==> n.intervals()[i].counts.grid()[j] == old_grid_or_zero(
                o,
                i + n.spec_popped() - o.spec_popped(),
                j,
            ))
    // the store's span after the step is pinned
    &&& n.spec_popped() + n.intervals().len() == (if idx + 1 > o.spec_popped()
        + o.intervals().len() {
        idx + 1
    } else {
        o.spec_popped() + o.intervals().len()
    })
    // events inside the open exposure feed the edge-boundary samples
    &&& (in_exposure ==> n.edge() == o.edge().push(
        EdgeSample {
            x: e.x,
            y: e.y,
            on: e.on,
            delta_t: (o.blur().unwrap().pivot_idx as int * o.spec_interval_t() - local) as i64,
        },
    ))
    &&& (!in_exposure ==> n.edge() == o.edge())
    // bookend partition of the boundary intervals
    &&& (o.blur() is Some ==> n.blur() is Some && same_blur_frame(
        o.blur().unwrap(),
        n.blur().unwrap(),
    ) && {
        let b = o.blur().unwrap();
        let nb = n.blur().unwrap();
        &&& (idx == b.begin_bookend.interval_idx ==> bookend_routed(
            b.begin_bookend,
            nb.begin_bookend,
            e,
            o.spec_width(),
            local % o.spec_interval_t() <= b.begin_bookend.boundary_offset,
        ) && nb.end_bookend == b.end_bookend)
        &&& (idx != b.begin_bookend.interval_idx && idx == b.end_bookend.interval_idx
            ==> bookend_routed(
            b.end_bookend,
            nb.end_bookend,
            e,
            o.spec_width(),
            !(local % o.spec_interval_t() < b.end_bookend.boundary_offset),
        ) && nb.begin_bookend == b.begin_bookend)
        &&& (idx != b.begin_bookend.interval_idx && idx != b.end_bookend.interval_idx
            ==> nb.begin_bookend == b.begin_bookend && nb.end_bookend == b.end_bookend)
    })
    &&& (o.blur() is None ==> n.blur() is None)
    // the event joins its partition of the open exposure
    &&& (o.blur() is Some ==> {
        let b = o.blur().unwrap();
        &&& (e.t < b.exposure_begin_t ==> n.partition_before() == o.partition_before().push(e)
            && n.partition_during() == o.partition_during() && n.partition_after()
            == o.partition_after())
        &&& (b.exposure_begin_t <= e.t < b.exposure_end_t ==> n.partition_during()
            == o.partition_during().push(e) && n.partition_before() == o.partition_before()
            && n.partition_after() == o.partition_after())
        &&& (e.t >= b.exposure_end_t ==> n.partition_after() == o.partition_after().push(e)
            && n.partition_before() == o.partition_before() && n.partition_during()
            == o.partition_during())
    })
    &&& (o.blur() is None ==> same_partitions(o, n))
    // once the event index passes the end bookend, the window resolves:
    // everything before the window is popped and the snapshot is pending
    &&& (trigger ==> n.plan() is Some && n.spec_popped() == o.blur().unwrap().end_bookend.interval_idx
        && n.plan().unwrap().begin_idx == o.blur().unwrap().begin_bookend.interval_idx
        && n.plan().unwrap().end_idx == o.blur().unwrap().end_bookend.interval_idx
        && n.plan().unwrap().pivot_idx == o.blur().unwrap().pivot_idx
        && n.output().len() == o.output().len() + (o.blur().unwrap().begin_bookend.interval_idx
        - o.spec_popped()))
    // on the trigger, every interval strictly before the window is popped
    // FIFO under the current coefficient, each appending its latent image,
    // and the snapshot holds the window's raw accumulators exactly
    &&& (trigger ==> {
        let b = o.blur().unwrap();
        let begin = b.begin_bookend.interval_idx as int;
        let n_pops = begin - o.spec_popped();
        let c = o.spec_current_c();
        let p = n.plan().unwrap();
        &&& forall|i: int| 0 <= i < o.output().len() ==> n.output()[i] == o.output()[i]
        &&& forall|k: int|
            0 <= k < n_pops ==> {
                let img = #[trigger] n.output()[o.output().len() + k];
                &&& img.anchor == o.spec_anchor()
                &&& img.log_delta.grid().len() == o.latent().grid().len()
                &&& forall|px: int|
                    0 <= px < img.log_delta.grid().len() ==> #[trigger] img.log_delta.grid()[px]
                        == o.latent().grid()[px] + scaled_prefix_z(o, c, k + 1, px)
            }
        &&& n.latent().grid().len() == o.latent().grid().len()
        &&& forall|px: int|
            0 <= px < n.latent().grid().len() ==> #[trigger] n.latent().grid()[px]
                == o.latent().grid()[px] + scaled_prefix_z(o, c, n_pops, px)
        &&& p.begin_offset == b.begin_bookend.boundary_offset
        &&& p.end_offset == b.end_bookend.boundary_offset
        &&& p.interval_t == o.spec_interval_t()
        &&& p.blurred@ == b.blurred@
        &&& p.counts@.len() == b.end_bookend.interval_idx as int - begin + 1
        &&& forall|k: int|
            0 <= k < p.counts@.len() ==> {
                let g = (#[trigger] p.counts@[k]).grid();
                &&& g.len() == o.spec_width() * o.spec_height()
                &&& forall|px: int|
                    0 <= px < g.len() ==> #[trigger] g[px] == old_grid_or_zero(
                        o,
                        begin - o.spec_popped() + k,
                        px,
                    )
            }
    })
    &&& (!trigger ==> n.plan() is None && n.spec_popped() == o.spec_popped() && n.output()
        == o.output() && n.latent() == o.latent())
    &&& n.next_blur() == o.next_blur()
    &&& n.spec_anchor() == o.spec_anchor()
    &&& n.spec_current_c() == o.spec_current_c()
}

/// How many of the decoded events `from .. to` are at or after the epoch
/// and therefore get routed (earlier ones are ignored).
pub open spec fn routed_count(
    evs: Seq<(i16, i16, i64, bool)>,
    t_shift: int,
    from: int,
    to: int,
) -> int
    decreases to - from,
{
    if from >= to {
        0
    } else {
        (if evs[from].2 >= t_shift {
            1int
        } else {
            0int
        }) + routed_count(evs, t_shift, from + 1, to)
    }
}

/// The checks the packet drivers make before absorbing one decoded event:
/// it sits on the sensor, and a post-epoch event lands at or beyond the
/// consumed part of the stream, within addressable reach.
pub open spec fn event_acceptable(o: EventAdder, ev: (i16, i16, i64, bool)) -> bool {
    &&& 0 <= ev.0 < o.spec_width()
    &&& 0 <= ev.1 < o.spec_height()
    &&& (ev.2 >= o.spec_t_shift() ==> o.spec_event_idx(ev.2 as int) >= o.spec_popped()
        && o.spec_event_idx(ev.2 as int) - o.spec_popped() < usize::MAX)
}

/// A packet the fixed-coefficient driver is sure to absorb whole: every
/// event sits on the sensor and lands at or beyond the consumed part of
/// the stream, the timestamps never decrease (the stream is
/// timestamp-ordered), and the event capacity suffices.
pub open spec fn packet_admissible(o: EventAdder, evs: Seq<(i16, i16, i64, bool)>) -> bool {
    &&& forall|i: int| 0 <= i < evs.len() ==> event_acceptable(o, #[trigger] evs[i])
    &&& forall|i: int, j: int|
        0 <= i <= j < evs.len() ==> (#[trigger] evs[i]).2 <= (#[trigger] evs[j]).2
    &&& o.spec_events_absorbed() + evs.len() <= MAX_EVENTS
}

pub proof fn lemma_routed_count_le(evs: Seq<(i16, i16, i64, bool)>, t_shift: int, from: int, to: int)
    requires
        from <= to,
    ensures
        0 <= routed_count(evs, t_shift, from, to) <= to - from,
    decreases to - from,
{
    if from < to {
        lemma_routed_count_le(evs, t_shift, from + 1, to);
    }
}

pub proof fn lemma_routed_count_split(
    evs: Seq<(i16, i16, i64, bool)>,
    t_shift: int,
    a: int,
    b: int,
    c: int,
)
    requires
        a <= b <= c,
    ensures
        routed_count(evs, t_shift, a, c) == routed_count(evs, t_shift, a, b) + routed_count(
            evs,
            t_shift,
            b,
            c,
        ),
    decreases b - a,
{
    if a < b {
        lemma_routed_count_split(evs, t_shift, a + 1, b, c);
    }
}

/// When a step leaves the interval store, the output queue and the
/// consumed counter untouched, their well-formedness quantifiers carry
/// over to the new engine state.
pub proof fn lemma_frame_preserves_store(o: EventAdder, n: EventAdder)
    requires
        o.wf(),
        n.intervals() == o.intervals(),
        n.output() == o.output(),
        n.spec_popped() == o.spec_popped(),
        n.spec_width() == o.spec_width(),
        n.spec_height() == o.spec_height(),
    ensures
        forall|i: int|
            0 <= i < n.intervals().len() ==> n.image_wf((#[trigger] n.intervals()[i]).counts)
                && n.intervals()[i].idx == n.spec_popped() + i,
        forall|i: int|
            0 <= i < n.output().len() ==> n.image_wf((#[trigger] n.output()[i]).log_delta),
{
    assert forall|i: int|
        0 <= i < n.intervals().len() implies n.image_wf((#[trigger] n.intervals()[i]).counts)
        && n.intervals()[i].idx == n.spec_popped() + i by {
        assert(n.intervals()[i] == o.intervals()[i]);
    }
    assert forall|i: int|
        0 <= i < n.output().len() implies n.image_wf((#[trigger] n.output()[i]).log_delta) by {
        assert(n.output()[i] == o.output()[i]);
    }
}

/// The effect of routing one event into the store: the signed polarity
/// lands at the event's pixel of the interval its timestamp falls into
/// (grown into existence if needed), and nothing else moves.
pub open spec fn routed_effect(o: EventAdder, n: EventAdder, e: Event) -> bool {
    let idx = o.spec_event_idx(e.t as int);
    let off = idx - o.spec_popped();
    &&& same_config(o, n)
    &&& same_windows(o, n)
    &&& n.spec_popped() == o.spec_popped()
    &&& n.latent() == o.latent()
    &&& n.output() == o.output()
    &&& n.spec_events_absorbed() == o.spec_events_absorbed() + 1
    &&& n.intervals().len() > off
    &&& n.intervals().len() == (if off + 1 > o.intervals().len() {
        off + 1
    } else {
        o.intervals().len() as int
    })
    &&& n.intervals()[off].counts.cell(e.x as int, e.y as int) == old_cell_or_zero(
        o,
        off,
        e.x as int,
        e.y as int,
    ) + polarity_value(e.on)
    &&& n.intervals()[off].counts.grid().len() == n.spec_width() * n.spec_height()
    &&& forall|j: int|
        0 <= j < n.intervals()[off].counts.grid().len() && j != e.y as int * n.spec_width()
            + e.x as int ==> n.intervals()[off].counts.grid()[j] == old_grid_or_zero(o, off, j)
    &&& forall|i: int|
        0 <= i < o.intervals().len() && i != off ==> n.intervals()[i] == o.intervals()[i]
    &&& forall|i: int|
        o.intervals().len() <= i < n.intervals().len() && i != off ==> (forall|j: int|
            0 <= j < (#[trigger] n.intervals()[i]).counts.grid().len()
                ==> n.intervals()[i].counts.grid()[j] == 0)
}

/// The effect of emitting a resolved window with coefficient `c_milli`:
/// backward differences before the pivot, the pivot anchor itself, forward
/// sums after it, all appended in temporal order under a fresh anchor; the
/// staged window is swapped in and the edge samples are cleared.
pub open spec fn emitted_effect(o: EventAdder, n: EventAdder, c_milli: u32) -> bool {
    let p = o.plan().unwrap();
    let m = p.counts@.len() as int;
    let piv = p.pivot_idx - p.begin_idx;
    let c = c_milli as int;
    let base = o.output().len() as int;
    &&& same_config(o, n)
    &&& o.plan() is Some
    &&& n.plan() is None
    &&& n.spec_current_c() == c_milli
    &&& n.spec_anchor() == o.spec_anchor() + 1
    &&& n.edge().len() == 0
    &&& n.blur() == o.next_blur()
    &&& n.next_blur() is None
    &&& n.intervals() == o.intervals()
    &&& n.spec_popped() == o.spec_popped()
    &&& n.spec_events_absorbed() == o.spec_events_absorbed()
    &&& n.output().len() == base + m
    &&& forall|i: int| 0 <= i < base ==> n.output()[i] == o.output()[i]
    &&& forall|k: int|
        base <= k < base + m ==> (#[trigger] n.output()[k]).anchor == o.spec_anchor() + 1
    &&& forall|k: int|
        base <= k < base + m ==> (#[trigger] n.output()[k]).log_delta.grid().len()
            == n.spec_width() * n.spec_height()
    &&& forall|k: int|
        0 <= k < piv ==> (forall|px: int|
            0 <= px < (#[trigger] n.output()[base + k]).log_delta.grid().len()
                ==> #[trigger] n.output()[base + k].log_delta.grid()[px] == -scaled_window(
                p.counts@,
                c,
                k,
                piv as int,
                px,
            ))
    &&& (forall|px: int|
        0 <= px < (#[trigger] n.output()[base + piv]).log_delta.grid().len()
            ==> #[trigger] n.output()[base + piv].log_delta.grid()[px] == 0)
    &&& forall|k: int|
        piv < k < m ==> (forall|px: int|
            0 <= px < (#[trigger] n.output()[base + k]).log_delta.grid().len()
                ==> #[trigger] n.output()[base + k].log_delta.grid()[px] == scaled_window(
                p.counts@,
                c,
                piv as int,
                k,
                px,
            ))
    &&& n.latent().grid().len() == n.spec_width() * n.spec_height()
    &&& forall|px: int|
        0 <= px < n.latent().grid().len() ==> #[trigger] n.latent().grid()[px] == scaled_window(
            p.counts@,
            c,
            piv as int,
            m - 1,
            px,
        )
}

/// The before/during/after event partitions of two engine states agree.
pub open spec fn same_partitions(a: EventAdder, b: EventAdder) -> bool {
    &&& a.partition_before() == b.partition_before()
    &&& a.partition_during() == b.partition_during()
    &&& a.partition_after() == b.partition_after()
}

/// The static configuration of two engine states agrees.
pub open spec fn same_config(a: EventAdder, b: EventAdder) -> bool {
    &&& a.spec_width() == b.spec_width()
    &&& a.spec_height() == b.spec_height()
    &&& a.spec_t_shift() == b.spec_t_shift()
    &&& a.spec_interval_t() == b.spec_interval_t()
    &&& a.spec_optimize() == b.spec_optimize()
}

/// The exposure-window state (current, staged, plan, coefficient, anchor
/// and edge samples) of two engine states agrees.
pub open spec fn same_windows(a: EventAdder, b: EventAdder) -> bool {
    &&& a.blur() == b.blur()
    &&& a.next_blur() == b.next_blur()
    &&& a.plan() == b.plan()
    &&& a.edge() == b.edge()
    &&& a.spec_current_c() == b.spec_current_c()
    &&& a.spec_anchor() == b.spec_anchor()
}

impl EventAdder {
    pub closed spec fn spec_width(self) -> int {
        self.width as int
    }

    pub closed spec fn spec_height(self) -> int {
        self.height as int
    }

    pub closed spec fn spec_t_shift(self) -> int {
        self.t_shift as int
    }

    pub closed spec fn spec_interval_t(self) -> int {
        self.interval_t as int
    }

    pub closed spec fn spec_popped(self) -> int {
        self.intervals_popped as int
    }

    pub closed spec fn spec_interval_count(self) -> int {
        self.interval_count as int
    }

    pub closed spec fn spec_anchor(self) -> int {
        self.anchor as int
    }

    pub closed spec fn spec_current_c(self) -> int {
        self.current_c as int
    }

    pub closed spec fn spec_optimize(self) -> bool {
        self.optimize_c
    }

    /// Once per how many resolved frames the coefficient search runs.
    pub closed spec fn spec_frequency(self) -> int {
        self.optimize_c_frequency as int
    }

    pub closed spec fn spec_events_absorbed(self) -> int {
        self.events_absorbed as int
    }

    pub closed spec fn intervals(self) -> Seq<Interval> {
        self.event_intervals@
    }

    pub closed spec fn latent(self) -> CountImage {
        self.latent_delta
    }

    pub closed spec fn output(self) -> Seq<LatentImage> {
        self.return_queue@
    }

    pub closed spec fn blur(self) -> Option<BlurInfo> {
        self.blur_info
    }

    pub closed spec fn next_blur(self) -> Option<BlurInfo> {
        self.next_blur_info
    }

    pub closed spec fn edge(self) -> Seq<EdgeSample> {
        self.edge_samples@
    }

    /// Events seen before the open exposure began.
    pub closed spec fn partition_before(self) -> Seq<Event> {
        self.events_before@
    }

    /// Events seen inside the open exposure.
    pub closed spec fn partition_during(self) -> Seq<Event> {
        self.events_during@
    }

    /// Events seen after the open exposure ended.
    pub closed spec fn partition_after(self) -> Seq<Event> {
        self.events_after@
    }

    pub closed spec fn plan(self) -> Option<WindowPlan> {
        self.pending
    }

    /// The interval index an event timestamp falls into.
    pub open spec fn spec_event_idx(self, t: int) -> int {
        (t - self.spec_t_shift()) / self.spec_interval_t()
    }

    pub open spec fn image_wf(self, img: CountImage) -> bool {
        img.wf() && img.spec_width() == self.spec_width() && img.spec_height()
            == self.spec_height()
    }

    pub open spec fn bookend_wf(self, b: Bookend) -> bool {
        &&& self.image_wf(b.during)
        &&& self.image_wf(b.outside)
        &&& 0 <= b.boundary_offset < self.spec_interval_t()
        &&& b.during.bound() + b.outside.bound() == b.observed
        &&& b.observed <= MAX_EVENTS
    }

    pub open spec fn blur_wf(self, b: BlurInfo) -> bool {
        &&& self.bookend_wf(b.begin_bookend)
        &&& self.bookend_wf(b.end_bookend)
        &&& b.begin_bookend.interval_idx <= b.end_bookend.interval_idx
        &&& b.end_bookend.interval_idx - b.begin_bookend.interval_idx < usize::MAX
        &&& b.pivot_idx == pivot_of(
            b.begin_bookend.interval_idx as int,
            b.end_bookend.interval_idx as int,
        )
        &&& b.blurred@.len() == self.spec_width() * self.spec_height()
        &&& self.spec_t_shift() <= b.exposure_begin_t <= b.exposure_end_t
        &&& b.pivot_idx as int * self.spec_interval_t() <= b.exposure_end_t - self.spec_t_shift()
        &&& b.end_bookend.interval_idx == self.spec_event_idx(b.exposure_end_t as int)
        &&& b.begin_bookend.observed <= self.spec_events_absorbed()
        &&& b.end_bookend.observed <= self.spec_events_absorbed()
    }

    /// The interval store, accumulators and counters are consistent.
    pub open spec fn store_wf(self) -> bool {
        &&& 0 < self.spec_interval_t()
        &&& 0 <= self.spec_t_shift()
        &&& self.spec_width() * self.spec_height() <= usize::MAX
        &&& self.spec_interval_count() == self.spec_popped() + self.intervals().len()
        &&& forall|i: int|
            0 <= i < self.intervals().len() ==> self.image_wf(
                (#[trigger] self.intervals()[i]).counts,
            )
        &&& forall|i: int|
            0 <= i < self.intervals().len() ==> (#[trigger] self.intervals()[i]).idx
                == self.spec_popped() + i
        &&& self.image_wf(self.latent())
        &&& self.spec_current_c() <= COEFF_DENOM
        &&& self.spec_events_absorbed() <= MAX_EVENTS
        &&& forall|i: int|
            0 <= i < self.output().len() ==> self.image_wf(
                (#[trigger] self.output()[i]).log_delta,
            )
    }

    /// The open and staged exposure windows are consistent.
    pub open spec fn windows_wf(self) -> bool {
        &&& (self.blur() is Some ==> self.blur_wf(self.blur().unwrap()))
        &&& (self.next_blur() is Some ==> self.blur() is Some)
        &&& (self.next_blur() is Some ==> self.blur_wf(self.next_blur().unwrap())
            && self.next_blur().unwrap().begin_bookend.interval_idx
            >= self.blur().unwrap().end_bookend.interval_idx)
    }

    /// Every cell of every accumulator stays within `i64` because the
    /// total bound mass is covered by the events absorbed so far.
    pub open spec fn budget_ok(self) -> bool {
        self.latent().bound() + (COEFF_DENOM as int) * (sum_bounds(self.intervals())
            + pending_bound(self.plan())) <= (COEFF_DENOM as int) * self.spec_events_absorbed()
    }

    pub open spec fn wf(self) -> bool {
        &&& self.store_wf()
        &&& self.windows_wf()
        &&& self.budget_ok()
        &&& (self.blur() is Some && self.plan() is None
            ==> self.blur().unwrap().begin_bookend.interval_idx >= self.spec_popped())
        &&& (self.plan() is Some ==> self.plan().unwrap().wf(
            self.spec_width(),
            self.spec_height(),
        ))
        &&& (self.plan() is Some ==> self.blur() is Some
            && self.blur().unwrap().end_bookend.interval_idx == self.plan().unwrap().end_idx
            && self.plan().unwrap().end_idx == self.spec_popped())
        &&& self.spec_anchor() <= self.spec_events_absorbed()
        &&& (self.plan() is Some ==> self.spec_anchor() < self.spec_events_absorbed())
    }

    pub fn width(&self) -> (w: usize)
        ensures
            w == self.spec_width(),
    {
        self.width
    }

    pub fn height(&self) -> (h: usize)
        ensures
            h == self.spec_height(),
    {
        self.height
    }

    pub fn intervals_popped(&self) -> (n: u64)
        ensures
            n == self.spec_popped(),
    {
        self.intervals_popped
    }

    pub fn current_coefficient(&self) -> (c: u32)
        ensures
            c == self.spec_current_c(),
    {
        self.current_c
    }

    pub fn has_pending(&self) -> (b: bool)
        ensures
            b == (self.plan() is Some),
    {
        self.pending.is_some()
    }

    pub fn new(height: usize, width: usize, t_shift: i64, output_frame_length: i64) -> (r:
        EventAdder)
        requires
            0 < output_frame_length,
            0 <= t_shift,
            width * height <= usize::MAX,
        ensures
            r.wf(),
            r.spec_width() == width,
            r.spec_height() == height,
            r.spec_t_shift() == t_shift,
            r.spec_interval_t() == output_frame_length,
            r.spec_popped() == 0,
            r.spec_interval_count() == 0,
            r.intervals().len() == 0,
            r.output().len() == 0,
            r.blur() is None,
            r.next_blur() is None,
            r.plan() is None,
            r.edge().len() == 0,
            r.partition_before().len() == 0,
            r.partition_during().len() == 0,
            r.partition_after().len() == 0,
            r.spec_anchor() == 0,
            r.spec_frequency() == 1,
            r.spec_current_c() == 300,
            r.spec_events_absorbed() == 0,
            forall|i: int| 0 <= i < r.latent().grid().len() ==> r.latent().grid()[i] == 0,
    {
        EventAdder {
            t_shift,
            interval_t: output_frame_length,
            height,
            width,
            interval_count: 0,
            intervals_popped: 0,
            latent_delta: CountImage::zeros(width, height),
            anchor: 0,
            return_queue: Vec::new(),
            event_intervals: Vec::new(),
            blur_info: None,
            next_blur_info: None,
            edge_samples: Vec::new(),
            events_before: Vec::new(),
            events_during: Vec::new(),
            events_after: Vec::new(),
            pending: None,
            current_c: 300,
            optimize_c: false,
            optimize_c_frequency: 1,
            events_absorbed: 0,
        }
    }

    /// Appends a zero-initialized interval with the next sequential index.
    fn push_interval(&mut self)
        requires
            old(self).wf(),
            old(self).spec_interval_count() < u64::MAX,
        ensures
            final(self).wf(),
            same_config(*old(self), *final(self)),
            same_windows(*old(self), *final(self)),
            same_partitions(*old(self), *final(self)),
            final(self).spec_interval_count() == old(self).spec_interval_count() + 1,
            final(self).spec_popped() == old(self).spec_popped(),
            final(self).latent() == old(self).latent(),
            final(self).output() == old(self).output(),
            final(self).spec_events_absorbed() == old(self).spec_events_absorbed(),
            final(self).intervals().len() == old(self).intervals().len() + 1,
            forall|i: int|
                0 <= i < old(self).intervals().len() ==> final(self).intervals()[i] == old(
                    self,
                ).intervals()[i],
            final(self).intervals().last().idx == old(self).spec_interval_count(),
            final(self).intervals().last().counts.bound() == 0,
            forall|i: int|
                0 <= i < final(self).intervals().last().counts.grid().len()
                    ==> final(self).intervals().last().counts.grid()[i] == 0,
    {
        let counts = CountImage::zeros(self.width, self.height);
        let iv = Interval { idx: self.interval_count, counts };
        let ghost giv = iv;
        proof {
            lemma_sum_bounds_push(self.intervals(), giv);
        }
        self.event_intervals.push(iv);
        self.interval_count = self.interval_count + 1;
        proof {
            assert forall|i: int|
                0 <= i < self.intervals().len() implies self.image_wf(
                (#[trigger] self.intervals()[i]).counts,
            ) && self.intervals()[i].idx == self.spec_popped() + i by {
                if i < old(self).intervals().len() {
                    assert(self.intervals()[i] == old(self).intervals()[i]);
                }
            }
            assert forall|i: int|
                0 <= i < self.output().len() implies self.image_wf(
                (#[trigger] self.output()[i]).log_delta,
            ) by {
                assert(self.output()[i] == old(self).output()[i]);
            }
        }
    }

    /// Grows the store until interval `idx` is representable.
    fn grow_until(&mut self, idx: u64)
        requires
            old(self).wf(),
            idx >= old(self).spec_popped(),
            idx - old(self).spec_popped() < usize::MAX,
            idx < u64::MAX,
        ensures
            final(self).wf(),
            same_config(*old(self), *final(self)),
            same_windows(*old(self), *final(self)),
            same_partitions(*old(self), *final(self)),
            final(self).spec_popped() == old(self).spec_popped(),
            final(self).latent() == old(self).latent(),
            final(self).output() == old(self).output(),
            final(self).spec_events_absorbed() == old(self).spec_events_absorbed(),
            final(self).intervals().len() >= old(self).intervals().len(),
            final(self).intervals().len() > idx - old(self).spec_popped(),
            final(self).intervals().len() == (if idx - old(self).spec_popped() + 1 > old(
                self,
            ).intervals().len() {
                idx - old(self).spec_popped() + 1
            } else {
                old(self).intervals().len() as int
            }),
            forall|i: int|
                0 <= i < old(self).intervals().len() ==> final(self).intervals()[i] == old(
                    self,
                ).intervals()[i],
            forall|i: int|
                old(self).intervals().len() <= i < final(self).intervals().len() ==> (
                forall|j: int|
                    0 <= j < (#[trigger] final(self).intervals()[i]).counts.grid().len()
                        ==> final(self).intervals()[i].counts.grid()[j] == 0),
    {
        while idx - self.intervals_popped >= self.event_intervals.len() as u64
            invariant
                self.wf(),
                same_config(*old(self), *self),
                same_windows(*old(self), *self),
                same_partitions(*old(self), *self),
                self.spec_popped() == old(self).spec_popped(),
                self.latent() == old(self).latent(),
                self.output() == old(self).output(),
                self.spec_events_absorbed() == old(self).spec_events_absorbed(),
                idx >= self.spec_popped(),
                idx - self.spec_popped() < usize::MAX,
                idx < u64::MAX,
                self.intervals().len() >= old(self).intervals().len(),
                self.intervals().len() > old(self).intervals().len() ==> self.intervals().len()
                    <= idx - self.spec_popped() + 1,
                forall|i: int|
                    0 <= i < old(self).intervals().len() ==> self.intervals()[i] == old(
                        self,
                    ).intervals()[i],
                forall|i: int|
                    old(self).intervals().len() <= i < self.intervals().len() ==> (
                    forall|j: int|
                        0 <= j < (#[trigger] self.intervals()[i]).counts.grid().len()
                            ==> self.intervals()[i].counts.grid()[j] == 0),
            decreases idx - self.spec_popped() - self.intervals().len() + 1,
        {
            proof {
                assert(self.spec_interval_count() == self.spec_popped() + self.intervals().len());
            }
            self.push_interval();
        }
    }

    /// Removes the head interval (strictly FIFO: its index always equals
    /// the number of intervals consumed so far), folds its
    /// coefficient-scaled accumulator into the running latent-log
    /// accumulator, and records the result as a finished latent image.
    pub fn pop_interval(&mut self)
        requires
            old(self).wf(),
            old(self).plan() is None,
            old(self).intervals().len() > 0,
            old(self).blur() is Some ==> old(self).spec_popped() < old(
                self,
            ).blur().unwrap().begin_bookend.interval_idx,
        ensures
            final(self).wf(),
            same_config(*old(self), *final(self)),
            same_windows(*old(self), *final(self)),
            same_partitions(*old(self), *final(self)),
            old(self).intervals()[0].idx == old(self).spec_popped(),
            final(self).spec_popped() == old(self).spec_popped() + 1,
            final(self).spec_interval_count() == old(self).spec_interval_count(),
            final(self).spec_events_absorbed() == old(self).spec_events_absorbed(),
            final(self).intervals() == old(self).intervals().remove(0),
            final(self).latent().grid().len() == old(self).latent().grid().len(),
            forall|i: int|
                0 <= i < final(self).latent().grid().len() ==> final(self).latent().grid()[i]
                    == old(self).latent().grid()[i] + old(self).spec_current_c() * old(
                    self,
                ).intervals()[0].counts.grid()[i],
            final(self).output().len() == old(self).output().len() + 1,
            forall|i: int|
                0 <= i < old(self).output().len() ==> final(self).output()[i] == old(
                    self,
                ).output()[i],
            final(self).output().last().anchor == old(self).spec_anchor(),
            final(self).output().last().log_delta.grid() == final(self).latent().grid(),
            final(self).output().last().log_delta.spec_width() == final(self).spec_width(),
            final(self).output().last().log_delta.spec_height() == final(self).spec_height(),
    {
        proof {
            lemma_pending_bound_nonneg(self.plan(), self.spec_width(), self.spec_height());
            assert forall|j: int|
                0 <= j < self.intervals().len() implies #[trigger] self.intervals()[j].counts.bound()
                >= 0 by {
                assert(self.image_wf(self.intervals()[j].counts));
            }
            lemma_sum_bounds_elem(self.intervals(), 0);
            assert(self.spec_current_c() * self.intervals()[0].counts.bound() <= COEFF_DENOM as int
                * self.intervals()[0].counts.bound()) by (nonlinear_arith)
                requires
                    0 <= self.spec_current_c() <= COEFF_DENOM as int,
                    0 <= self.intervals()[0].counts.bound(),
            ;
            assert(COEFF_DENOM as int * self.intervals()[0].counts.bound() <= COEFF_DENOM as int
                * sum_bounds(self.intervals())) by (nonlinear_arith)
                requires
                    0 <= self.intervals()[0].counts.bound() <= sum_bounds(self.intervals()),
            ;
            lemma_sum_bounds_drop_first(self.intervals());
        }
        let iv = self.event_intervals.remove(0);
        self.intervals_popped = self.intervals_popped + 1;
        let c = self.current_c as i64;
        self.latent_delta.add_scaled(&iv.counts, c);
        let img = LatentImage { anchor: self.anchor, log_delta: self.latent_delta.duplicate() };
        self.return_queue.push(img);
        proof {
            assert forall|i: int|
                0 <= i < self.intervals().len() implies self.image_wf(
                (#[trigger] self.intervals()[i]).counts,
            ) && self.intervals()[i].idx == self.spec_popped() + i by {
                assert(self.intervals()[i] == old(self).intervals()[i + 1]);
            }
            assert forall|i: int|
                0 <= i < self.output().len() implies self.image_wf(
                (#[trigger] self.output()[i]).log_delta,
            ) by {
                if i < old(self).output().len() {
                    assert(self.output()[i] == old(self).output()[i]);
                }
            }
            assert(sum_bounds(self.intervals()) == sum_bounds(old(self).intervals()) - old(
                self,
            ).intervals()[0].counts.bound());
        }
    }

    /// Routes one event: grows the store until the event's interval index
    /// is representable, then adds the signed polarity at the event's pixel
    /// of that interval's raw accumulator.
    pub fn route_event(&mut self, e: &Event)
        requires
            old(self).wf(),
            0 <= e.x < old(self).spec_width(),
            0 <= e.y < old(self).spec_height(),
            e.t >= old(self).spec_t_shift(),
            old(self).spec_event_idx(e.t as int) >= old(self).spec_popped(),
            old(self).spec_event_idx(e.t as int) - old(self).spec_popped() < usize::MAX,
            old(self).spec_event_idx(e.t as int) < u64::MAX,
            old(self).spec_events_absorbed() < MAX_EVENTS,
        ensures
            final(self).wf(),
            routed_effect(*old(self), *final(self), *e),
            same_config(*old(self), *final(self)),
            same_windows(*old(self), *final(self)),
            same_partitions(*old(self), *final(self)),
            final(self).spec_popped() == old(self).spec_popped(),
            final(self).latent() == old(self).latent(),
            final(self).output() == old(self).output(),
            final(self).spec_events_absorbed() == old(self).spec_events_absorbed() + 1,
            // the store holds enough intervals to host the index
            final(self).intervals().len() > old(self).spec_event_idx(e.t as int) - old(
                self,
            ).spec_popped(),
            // the event's interval accumulator takes the signed polarity at (x, y)
            ({
                let off = old(self).spec_event_idx(e.t as int) - old(self).spec_popped();
                let target = final(self).intervals()[off].counts;
                &&& target.cell(e.x as int, e.y as int) == old_cell_or_zero(
                    *old(self),
                    off,
                    e.x as int,
                    e.y as int,
                ) + polarity_value(e.on)
                &&& target.grid().len() == final(self).spec_width() * final(self).spec_height()
                &&& forall|j: int|
                    0 <= j < target.grid().len() && j != e.y as int * final(self).spec_width()
                        + e.x as int ==> target.grid()[j] == old_grid_or_zero(*old(self), off, j)
            }),
            // every other interval is untouched (newly grown ones are zero)
            forall|i: int|
                0 <= i < old(self).intervals().len() && i != old(self).spec_event_idx(e.t as int)
                    - old(self).spec_popped() ==> final(self).intervals()[i] == old(
                    self,
                ).intervals()[i],
            forall|i: int|
                old(self).intervals().len() <= i < final(self).intervals().len() && i != old(
                    self,
                ).spec_event_idx(e.t as int) - old(self).spec_popped() ==> (forall|j: int|
                    0 <= j < (#[trigger] final(self).intervals()[i]).counts.grid().len()
                        ==> final(self).intervals()[i].counts.grid()[j] == 0),
    {
        let local_t = e.t - self.t_shift;
        let idx_i = local_t / self.interval_t;
        proof {
            assert(0 <= local_t);
            assert(idx_i == old(self).spec_event_idx(e.t as int));
        }
        let idx = idx_i as u64;
        self.grow_until(idx);
        let off = (idx - self.intervals_popped) as usize;
        let ghost pre = *self;
        proof {
            lemma_pending_bound_nonneg(self.plan(), self.spec_width(), self.spec_height());
            assert forall|j: int|
                0 <= j < self.intervals().len() implies #[trigger] self.intervals()[j].counts.bound()
                >= 0 by {
                assert(self.image_wf(self.intervals()[j].counts));
            }
            lemma_sum_bounds_elem(self.intervals(), off as int);
            lemma_sum_bounds_nonneg(self.intervals());
        }
        let x = e.x as usize;
        let y = e.y as usize;
        self.event_intervals[off].counts.bump(x, y, e.on);
        self.events_absorbed = self.events_absorbed + 1;
        proof {
            let ghost ivs = pre.intervals();
            let ghost updated = Interval { idx: ivs[off as int].idx, counts: self.intervals()[off as int].counts };
            assert(self.intervals() =~= ivs.update(off as int, updated));
            lemma_sum_bounds_update(ivs, off as int, updated);
            assert forall|i: int|
                0 <= i < self.intervals().len() implies self.image_wf(
                (#[trigger] self.intervals()[i]).counts,
            ) && self.intervals()[i].idx == self.spec_popped() + i by {
                if i != off as int {
                    assert(self.intervals()[i] == pre.intervals()[i]);
                }
            }
            assert forall|i: int|
                0 <= i < self.output().len() implies self.image_wf(
                (#[trigger] self.output()[i]).log_delta,
            ) by {
                assert(self.output()[i] == pre.output()[i]);
            }
            let off_i = off as int;
            let w = self.spec_width();
            let h = self.spec_height();
            let pos = e.y as int * w + e.x as int;
            crate::image::lemma_row_major(e.x as int, e.y as int, w, h);
            if off_i < old(self).intervals().len() {
                assert(pre.intervals()[off_i] == old(self).intervals()[off_i]);
            } else {
                assert(pre.intervals()[off_i].counts.grid()[pos] == 0);
            }
            assert(self.intervals()[off_i].counts.grid() == pre.intervals()[off_i].counts.grid()
                .update(
                pos,
                (pre.intervals()[off_i].counts.cell(e.x as int, e.y as int) + polarity_value(
                    e.on,
                )) as i64,
            ));
            assert forall|j: int|
                0 <= j < self.intervals()[off_i].counts.grid().len() && j != pos implies self.intervals()[off_i].counts.grid()[j]
                == old_grid_or_zero(*old(self), off_i, j) by {
                assert(self.intervals()[off_i].counts.grid()[j] == pre.intervals()[off_i].counts.grid()[j]);
                if off_i >= old(self).intervals().len() {
                    assert(pre.intervals()[off_i].counts.grid()[j] == 0);
                }
            }
        }
    }

    /// The integration trigger, first half: pops every interval strictly
    /// before the window, then moves the window's raw accumulators into a
    /// pending snapshot that waits for this exposure's coefficient.
    fn begin_resolution(&mut self)
        requires
            old(self).wf(),
            old(self).blur() is Some,
            old(self).plan() is None,
            old(self).spec_interval_count() > old(self).blur().unwrap().end_bookend.interval_idx,
            old(self).spec_anchor() < old(self).spec_events_absorbed(),
        ensures
            final(self).wf(),
            same_config(*old(self), *final(self)),
            same_partitions(*old(self), *final(self)),
            final(self).blur() == old(self).blur(),
            final(self).next_blur() == old(self).next_blur(),
            final(self).edge() == old(self).edge(),
            final(self).spec_current_c() == old(self).spec_current_c(),
            final(self).spec_anchor() == old(self).spec_anchor(),
            final(self).spec_events_absorbed() == old(self).spec_events_absorbed(),
            final(self).spec_popped() == old(self).blur().unwrap().end_bookend.interval_idx,
            final(self).spec_interval_count() == old(self).spec_interval_count(),
            final(self).plan() is Some,
            ({
                let b = old(self).blur().unwrap();
                let n_pops = b.begin_bookend.interval_idx - old(self).spec_popped();
                let c = old(self).spec_current_c();
                &&& final(self).output().len() == old(self).output().len() + n_pops
                &&& forall|i: int|
                    0 <= i < old(self).output().len() ==> final(self).output()[i] == old(
                        self,
                    ).output()[i]
                &&& forall|k: int|
                    0 <= k < n_pops ==> {
                        let img = #[trigger] final(self).output()[old(self).output().len() + k];
                        &&& img.anchor == old(self).spec_anchor()
                        &&& img.log_delta.grid().len() == old(self).latent().grid().len()
                        &&& forall|px: int|
                            0 <= px < img.log_delta.grid().len()
                                ==> #[trigger] img.log_delta.grid()[px] == old(
                                self,
                            ).latent().grid()[px] + scaled_prefix(old(self).intervals(), c, k + 1, px)
                    }
                &&& final(self).latent().grid().len() == old(self).latent().grid().len()
                &&& forall|px: int|
                    0 <= px < final(self).latent().grid().len()
                        ==> #[trigger] final(self).latent().grid()[px] == old(
                        self,
                    ).latent().grid()[px] + scaled_prefix(old(self).intervals(), c, n_pops, px)
            }),
            ({
                let b = old(self).blur().unwrap();
                let p = final(self).plan().unwrap();
                let base = b.begin_bookend.interval_idx - old(self).spec_popped();
                &&& p.begin_idx == b.begin_bookend.interval_idx
                &&& p.end_idx == b.end_bookend.interval_idx
                &&& p.pivot_idx == b.pivot_idx
                &&& p.begin_offset == b.begin_bookend.boundary_offset
                &&& p.end_offset == b.end_bookend.boundary_offset
                &&& p.interval_t == old(self).spec_interval_t()
                &&& p.blurred@ == b.blurred@
                &&& p.counts@.len() == b.end_bookend.interval_idx - b.begin_bookend.interval_idx
                    + 1
                &&& forall|j: int|
                    0 <= j < p.counts@.len() ==> (#[trigger] p.counts@[j]).grid() == old(
                        self,
                    ).intervals()[base + j].counts.grid()
            }),
            final(self).intervals().len() == old(self).intervals().len() - (old(
                self,
            ).blur().unwrap().end_bookend.interval_idx - old(self).spec_popped()),
            forall|i: int|
                0 <= i < final(self).intervals().len() ==> final(self).intervals()[i] == old(
                    self,
                ).intervals()[i + (old(self).blur().unwrap().end_bookend.interval_idx - old(
                    self,
                ).spec_popped())],
    {
        let ghost o = *old(self);
        let (begin_idx, end_idx, pivot_idx, begin_off, end_off) = match &self.blur_info {
            Some(b) => (
                b.begin_bookend.interval_idx,
                b.end_bookend.interval_idx,
                b.pivot_idx,
                b.begin_bookend.boundary_offset,
                b.end_bookend.boundary_offset,
            ),
            None => (0, 0, 0, 0, 0),
        };
        // 1. pop every interval strictly before the begin bookend
        while self.intervals_popped < begin_idx
            invariant
                self.wf(),
                same_config(o, *self),
                same_windows(o, *self),
                same_partitions(o, *self),
                o.blur() is Some,
                begin_idx == o.blur().unwrap().begin_bookend.interval_idx,
                end_idx == o.blur().unwrap().end_bookend.interval_idx,
                o.spec_popped() <= self.spec_popped() <= begin_idx,
                self.spec_interval_count() == o.spec_interval_count(),
                self.spec_interval_count() > end_idx,
                self.spec_events_absorbed() == o.spec_events_absorbed(),
                self.intervals().len() == o.intervals().len() - (self.spec_popped()
                    - o.spec_popped()),
                forall|i: int|
                    0 <= i < self.intervals().len() ==> self.intervals()[i] == o.intervals()[i
                        + (self.spec_popped() - o.spec_popped())],
                self.output().len() == o.output().len() + (self.spec_popped() - o.spec_popped()),
                forall|i: int|
                    0 <= i < o.output().len() ==> self.output()[i] == o.output()[i],
                forall|k: int|
                    0 <= k < self.spec_popped() - o.spec_popped() ==> {
                        let img = #[trigger] self.output()[o.output().len() + k];
                        &&& img.anchor == o.spec_anchor()
                        &&& img.log_delta.grid().len() == o.latent().grid().len()
                        &&& forall|px: int|
                            0 <= px < img.log_delta.grid().len()
                                ==> #[trigger] img.log_delta.grid()[px] == o.latent().grid()[px]
                                + scaled_prefix(o.intervals(), o.spec_current_c(), k + 1, px)
                    },
                self.latent().grid().len() == o.latent().grid().len(),
                forall|px: int|
                    0 <= px < self.latent().grid().len()
                        ==> #[trigger] self.latent().grid()[px] == o.latent().grid()[px]
                        + scaled_prefix(
                        o.intervals(),
                        o.spec_current_c(),
                        self.spec_popped() - o.spec_popped(),
                        px,
                    ),
            decreases begin_idx - self.spec_popped(),
        {
            let ghost pre = *self;
            let ghost k = pre.spec_popped() - o.spec_popped();
            self.pop_interval();
            proof {
                assert(pre.intervals()[0] == o.intervals()[k]);
                assert forall|px: int|
                    0 <= px < self.latent().grid().len()
                        implies #[trigger] self.latent().grid()[px] == o.latent().grid()[px]
                        + scaled_prefix(o.intervals(), o.spec_current_c(), k + 1, px) by {
                    assert(self.latent().grid()[px] == pre.latent().grid()[px]
                        + pre.spec_current_c() * pre.intervals()[0].counts.grid()[px]);
                }
                assert forall|i: int|
                    0 <= i < self.intervals().len() implies self.intervals()[i] == o.intervals()[i
                        + (self.spec_popped() - o.spec_popped())] by {
                    assert(self.intervals()[i] == pre.intervals()[i + 1]);
                }
            }
        }
        let ghost after_pops = *self;
        // 2. move the window's intervals [begin, end) into the snapshot
        let m = (end_idx - begin_idx) as usize;
        let mut counts: Vec<CountImage> = Vec::new();
        let ghost base = begin_idx as int - o.spec_popped();
        for k in 0..m
            invariant
                same_config(after_pops, *self),
                same_windows(after_pops, *self),
                same_partitions(after_pops, *self),
                o.blur() is Some,
                self.store_wf(),
                self.windows_wf(),
                self.blur() is Some,
                self.plan() is None,
                m == end_idx - begin_idx,
                begin_idx == after_pops.spec_popped(),
                self.spec_popped() == begin_idx + k,
                self.spec_interval_count() == after_pops.spec_interval_count(),
                self.spec_interval_count() > end_idx,
                self.spec_events_absorbed() == after_pops.spec_events_absorbed(),
                self.latent() == after_pops.latent(),
                self.output() == after_pops.output(),
                self.intervals().len() == after_pops.intervals().len() - k,
                forall|i: int|
                    0 <= i < self.intervals().len() ==> self.intervals()[i]
                        == after_pops.intervals()[i + k],
                counts@.len() == k,
                forall|j: int|
                    0 <= j < k ==> counts@[j] == after_pops.intervals()[j].counts,
                self.latent().bound() + (COEFF_DENOM as int) * (sum_bounds(self.intervals())
                    + plan_total_bound(counts@)) <= (COEFF_DENOM as int)
                    * self.spec_events_absorbed(),
        {
            proof {
                lemma_sum_bounds_drop_first(self.intervals());
                lemma_plan_total_push(counts@, self.intervals()[0].counts);
            }
            let iv = self.event_intervals.remove(0);
            self.intervals_popped = self.intervals_popped + 1;
            counts.push(iv.counts);
            proof {
                assert forall|i: int|
                    0 <= i < self.intervals().len() implies self.intervals()[i]
                        == after_pops.intervals()[i + k + 1] by {}
            }
        }
        // 3. include a snapshot of the (still live) end-bookend interval
        let ghost counts_nodup = counts@;
        let dup = self.event_intervals[0].counts.duplicate();
        proof {
            lemma_plan_total_push(counts@, dup);
        }
        counts.push(dup);
        // 4. record the plan
        let blurred = match &self.blur_info {
            Some(b) => copy_bytes(&b.blurred),
            None => Vec::new(),
        };
        let interval_t = self.interval_t;
        let ghost pre_plan = *self;
        self.pending = Some(
            WindowPlan {
                begin_idx,
                end_idx,
                pivot_idx,
                begin_offset: begin_off,
                end_offset: end_off,
                interval_t,
                counts,
                blurred,
            },
        );
        proof {
            let pc = self.plan().unwrap().counts@;
            assert(pc =~= counts_nodup.push(dup));
            assert(pc.drop_last() =~= counts_nodup);
            // each snapshot accumulator is well-formed with the sensor shape
            assert forall|j: int|
                0 <= j < pc.len() implies (#[trigger] pc[j]).wf() && pc[j].spec_width()
                == self.spec_width() && pc[j].spec_height() == self.spec_height() by {
                if j < pc.len() - 1 {
                    assert(pc[j] == after_pops.intervals()[j].counts);
                    assert(after_pops.image_wf(after_pops.intervals()[j].counts));
                } else {
                    assert(pre_plan.image_wf(pre_plan.intervals()[0].counts));
                }
            }
            // the snapshot's bound mass is covered by the events absorbed
            assert forall|j: int|
                0 <= j < self.intervals().len() implies #[trigger] self.intervals()[j].counts.bound()
                >= 0 by {
                assert(self.image_wf(self.intervals()[j].counts));
            }
            lemma_sum_bounds_nonneg(self.intervals());
            lemma_sum_bounds_elem(self.intervals(), 0);
            lemma_sum_bounds_drop_first(self.intervals());
            assert(plan_total_bound(pc) == plan_total_bound(counts_nodup) + dup.bound());
            assert(dup.bound() == self.intervals()[0].counts.bound());
            assert(plan_total_bound(counts_nodup) + sum_bounds(self.intervals())
                <= self.spec_events_absorbed()) by {
                assert(self.latent().bound() >= 0);
                assert((COEFF_DENOM as int) * (sum_bounds(self.intervals()) + plan_total_bound(
                    counts_nodup,
                )) <= (COEFF_DENOM as int) * self.spec_events_absorbed());
                assert(sum_bounds(self.intervals()) + plan_total_bound(counts_nodup)
                    <= self.spec_events_absorbed()) by (nonlinear_arith)
                    requires
                        (COEFF_DENOM as int) * (sum_bounds(self.intervals()) + plan_total_bound(
                            counts_nodup,
                        )) <= (COEFF_DENOM as int) * self.spec_events_absorbed(),
                ;
            }
            assert(plan_total_bound(pc) <= MAX_EVENTS);
            assert forall|j: int|
                0 <= j < pc.len() implies (#[trigger] pc[j]).grid() == o.intervals()[base
                + j].counts.grid() by {
                if j < pc.len() - 1 {
                    assert(pc[j] == after_pops.intervals()[j].counts);
                    assert(after_pops.intervals()[j] == o.intervals()[j + base]);
                } else {
                    assert(pre_plan.intervals()[0] == after_pops.intervals()[(m as int)]);
                    assert(after_pops.intervals()[(m as int)] == o.intervals()[base + m]);
                }
            }
        }
    }

    /// The integration trigger, second half: fixes this exposure's
    /// coefficient, rebuilds the window's latent images around the pivot
    /// (backward differences before it, the pivot anchor itself, forward
    /// sums after it), publishes them in temporal order, swaps in the
    /// pre-staged next exposure window, and clears the edge-boundary
    /// samples.
    pub fn emit_window(&mut self, c_milli: u32)
        requires
            old(self).wf(),
            old(self).plan() is Some,
            c_milli <= COEFF_DENOM,
        ensures
            final(self).wf(),
            emitted_effect(*old(self), *final(self), c_milli),
            same_partitions(*old(self), *final(self)),
            same_config(*old(self), *final(self)),
            final(self).plan() is None,
            final(self).spec_current_c() == c_milli,
            final(self).spec_anchor() == old(self).spec_anchor() + 1,
            final(self).edge().len() == 0,
            final(self).blur() == old(self).next_blur(),
            final(self).next_blur() is None,
            final(self).intervals() == old(self).intervals(),
            final(self).spec_popped() == old(self).spec_popped(),
            final(self).spec_interval_count() == old(self).spec_interval_count(),
            final(self).spec_events_absorbed() == old(self).spec_events_absorbed(),
            ({
                let p = old(self).plan().unwrap();
                let m = p.counts@.len() as int;
                let piv = p.pivot_idx - p.begin_idx;
                let c = c_milli as int;
                let base = old(self).output().len() as int;
                &&& final(self).output().len() == base + m
                &&& forall|i: int| 0 <= i < base ==> final(self).output()[i] == old(self).output()[i]
                &&& forall|k: int|
                    base <= k < base + m ==> (#[trigger] final(self).output()[k]).anchor == old(
                        self,
                    ).spec_anchor() + 1
                &&& forall|k: int|
                    base <= k < base + m ==> (#[trigger] final(self).output()[k]).log_delta.grid().len()
                        == final(self).spec_width() * final(self).spec_height()
                // backward pass: progressively earlier latent images
                &&& forall|k: int|
                    0 <= k < piv ==> (forall|px: int|
                        0 <= px < (#[trigger] final(self).output()[base + k]).log_delta.grid().len()
                            ==> #[trigger] final(self).output()[base + k].log_delta.grid()[px]
                            == -scaled_window(p.counts@, c, k, piv as int, px))
                // the pivot's latent image, unchanged
                &&& (forall|px: int|
                    0 <= px < (#[trigger] final(self).output()[base + piv]).log_delta.grid().len()
                        ==> #[trigger] final(self).output()[base + piv].log_delta.grid()[px] == 0)
                // forward pass: the normal add rule from the pivot on
                &&& forall|k: int|
                    piv < k < m ==> (forall|px: int|
                        0 <= px < (#[trigger] final(self).output()[base + k]).log_delta.grid().len()
                            ==> #[trigger] final(self).output()[base + k].log_delta.grid()[px]
                            == scaled_window(p.counts@, c, piv as int, k, px))
                // the running accumulator stops just before the end bookend
                &&& final(self).latent().grid().len() == final(self).spec_width()
                    * final(self).spec_height()
                &&& forall|px: int|
                    0 <= px < final(self).latent().grid().len()
                        ==> #[trigger] final(self).latent().grid()[px] == scaled_window(
                        p.counts@,
                        c,
                        piv as int,
                        m - 1,
                        px,
                    )
            }),
    {
        let p = self.pending.take().unwrap();
        let ghost o = *old(self);
        let ghost pc = p.counts@;
        let w = self.width;
        let h = self.height;
        let m = p.counts.len();
        proof {
            assert(p == o.plan().unwrap());
            assert(pc.len() == m);
            assert(p.pivot_idx - p.begin_idx < m);
        }
        let piv = (p.pivot_idx - p.begin_idx) as usize;
        let c = c_milli as i64;
        let new_anchor = self.anchor + 1;
        proof {
            assert forall|j: int| 0 <= j < pc.len() implies (#[trigger] pc[j]).bound() >= 0 by {
                assert(pc[j].wf());
            }
            lemma_bw_total(pc);
            lemma_bw_le_total(pc, piv as int, piv as int);
        }
        let mut emitted: Vec<LatentImage> = Vec::new();
        // backward pass, collected in reverse and kept chronological
        let mut temp = CountImage::zeros(w, h);
        let mut i = piv;
        while i > 0
            invariant
                o.wf(),
                o.plan() is Some,
                pc == o.plan().unwrap().counts@,
                o.plan().unwrap().wf(o.spec_width(), o.spec_height()),
                p == o.plan().unwrap(),
                m == pc.len(),
                w == o.spec_width(),
                h == o.spec_height(),
                w * h <= usize::MAX,
                c == c_milli as int,
                0 <= c <= COEFF_DENOM,
                0 <= i <= piv,
                piv < pc.len(),
                temp.wf(),
                temp.spec_width() == w,
                temp.spec_height() == h,
                temp.bound() <= (COEFF_DENOM as int) * bound_window(pc, i as int, piv as int),
                forall|px: int|
                    0 <= px < temp.grid().len() ==> #[trigger] temp.grid()[px] == -scaled_window(
                        pc,
                        c as int,
                        i as int,
                        piv as int,
                        px,
                    ),
                emitted@.len() == piv - i,
                forall|k: int|
                    0 <= k < emitted@.len() ==> (#[trigger] emitted@[k]).anchor == new_anchor,
                forall|k: int|
                    0 <= k < emitted@.len() ==> (#[trigger] emitted@[k]).log_delta.wf()
                        && emitted@[k].log_delta.spec_width() == w
                        && emitted@[k].log_delta.spec_height() == h,
                forall|k: int|
                    0 <= k < emitted@.len() ==> (forall|px: int|
                        0 <= px < (#[trigger] emitted@[k]).log_delta.grid().len()
                            ==> #[trigger] emitted@[k].log_delta.grid()[px] == -scaled_window(
                            pc,
                            c as int,
                            i + k,
                            piv as int,
                            px,
                        )),
            decreases i,
        {
            i = i - 1;
            proof {
                assert forall|j: int| 0 <= j < pc.len() implies (#[trigger] pc[j]).bound() >= 0 by {
                    assert(pc[j].wf());
                }
                lemma_bw_total(pc);
                assert(pc[i as int].wf());
                assert(bound_window(pc, i as int, piv as int) == pc[i as int].bound()
                    + bound_window(pc, i + 1, piv as int));
                lemma_bw_le_total(pc, i as int, piv as int);
                assert((COEFF_DENOM as int) * bound_window(pc, i + 1, piv as int) + c
                    * pc[i as int].bound() <= (COEFF_DENOM as int) * bound_window(
                    pc,
                    i as int,
                    piv as int,
                )) by (nonlinear_arith)
                    requires
                        0 <= c <= COEFF_DENOM as int,
                        0 <= pc[i as int].bound(),
                        bound_window(pc, i as int, piv as int) == pc[i as int].bound()
                            + bound_window(pc, i + 1, piv as int),
                ;
                assert((COEFF_DENOM as int) * bound_window(pc, i as int, piv as int)
                    <= (COEFF_DENOM as int) * plan_total_bound(pc)) by (nonlinear_arith)
                    requires
                        bound_window(pc, i as int, piv as int) <= plan_total_bound(pc),
                ;
                assert(plan_total_bound(pc) <= MAX_EVENTS);
            }
            temp.sub_scaled(&p.counts[i], c);
            emitted.insert(0, LatentImage { anchor: new_anchor, log_delta: temp.duplicate() });
        }
        // the pivot's latent image, unchanged
        emitted.push(LatentImage { anchor: new_anchor, log_delta: CountImage::zeros(w, h) });
        // forward pass
        let mut fwd = CountImage::zeros(w, h);
        let mut f = piv;
        while f + 1 < m
            invariant
                o.wf(),
                o.plan() is Some,
                pc == o.plan().unwrap().counts@,
                o.plan().unwrap().wf(o.spec_width(), o.spec_height()),
                p == o.plan().unwrap(),
                w == o.spec_width(),
                h == o.spec_height(),
                w * h <= usize::MAX,
                c == c_milli as int,
                0 <= c <= COEFF_DENOM,
                m == pc.len(),
                piv == p.pivot_idx - p.begin_idx,
                piv <= f < m,
                fwd.wf(),
                fwd.spec_width() == w,
                fwd.spec_height() == h,
                fwd.bound() <= (COEFF_DENOM as int) * bound_window(pc, piv as int, f as int),
                forall|px: int|
                    0 <= px < fwd.grid().len() ==> #[trigger] fwd.grid()[px] == scaled_window(
                        pc,
                        c as int,
                        piv as int,
                        f as int,
                        px,
                    ),
                emitted@.len() == piv + 1 + (f - piv),
                forall|k: int|
                    0 <= k < emitted@.len() ==> (#[trigger] emitted@[k]).anchor == new_anchor,
                forall|k: int|
                    0 <= k < emitted@.len() ==> (#[trigger] emitted@[k]).log_delta.wf()
                        && emitted@[k].log_delta.spec_width() == w
                        && emitted@[k].log_delta.spec_height() == h,
                forall|k: int|
                    0 <= k < piv ==> (forall|px: int|
                        0 <= px < (#[trigger] emitted@[k]).log_delta.grid().len()
                            ==> #[trigger] emitted@[k].log_delta.grid()[px] == -scaled_window(
                            pc,
                            c as int,
                            k,
                            piv as int,
                            px,
                        )),
                forall|px: int|
                    0 <= px < (#[trigger] emitted@[piv as int]).log_delta.grid().len()
                        ==> #[trigger] emitted@[piv as int].log_delta.grid()[px] == 0,
                forall|k: int|
                    piv < k < emitted@.len() ==> (forall|px: int|
                        0 <= px < (#[trigger] emitted@[k]).log_delta.grid().len()
                            ==> #[trigger] emitted@[k].log_delta.grid()[px] == scaled_window(
                            pc,
                            c as int,
                            piv as int,
                            k,
                            px,
                        )),
            decreases m - f,
        {
            proof {
                assert forall|j: int| 0 <= j < pc.len() implies (#[trigger] pc[j]).bound() >= 0 by {
                    assert(pc[j].wf());
                }
                lemma_bw_total(pc);
                assert(pc[f as int].wf());
                assert(bound_window(pc, piv as int, f + 1) == bound_window(pc, piv as int, f as int)
                    + pc[f as int].bound()) by {
                    lemma_bw_split(pc, piv as int, f as int, f + 1);
                    assert(bound_window(pc, f as int, f + 1) == pc[f as int].bound()
                        + bound_window(pc, f + 1, f + 1));
                }
                lemma_bw_le_total(pc, piv as int, f + 1);
                assert((COEFF_DENOM as int) * bound_window(pc, piv as int, f as int) + c
                    * pc[f as int].bound() <= (COEFF_DENOM as int) * bound_window(
                    pc,
                    piv as int,
                    f + 1,
                )) by (nonlinear_arith)
                    requires
                        0 <= c <= COEFF_DENOM as int,
                        0 <= pc[f as int].bound(),
                        bound_window(pc, piv as int, f + 1) == bound_window(
                            pc,
                            piv as int,
                            f as int,
                        ) + pc[f as int].bound(),
                ;
                assert((COEFF_DENOM as int) * bound_window(pc, piv as int, f + 1)
                    <= (COEFF_DENOM as int) * plan_total_bound(pc)) by (nonlinear_arith)
                    requires
                        bound_window(pc, piv as int, f + 1) <= plan_total_bound(pc),
                ;
                assert(plan_total_bound(pc) <= MAX_EVENTS);
            }
            fwd.add_scaled(&p.counts[f], c);
            f = f + 1;
            emitted.push(LatentImage { anchor: new_anchor, log_delta: fwd.duplicate() });
            proof {
                assert forall|px: int|
                    0 <= px < fwd.grid().len() implies #[trigger] fwd.grid()[px] == scaled_window(
                    pc,
                    c as int,
                    piv as int,
                    f as int,
                    px,
                ) by {
                    lemma_scaled_window_extend(pc, c as int, piv as int, f as int, px);
                }
            }
        }
        // publish, swap in the staged window, reset the edge accumulator
        let ghost emitted_snapshot = emitted@;
        self.return_queue.append(&mut emitted);
        self.latent_delta = fwd;
        self.current_c = c_milli;
        self.anchor = new_anchor;
        self.blur_info = self.next_blur_info.take();
        self.edge_samples = Vec::new();
        proof {
            assert forall|idx: int|
                0 <= idx < self.output().len() implies self.image_wf(
                (#[trigger] self.output()[idx]).log_delta,
            ) by {
                if idx < o.output().len() {
                    assert(self.output()[idx] == o.output()[idx]);
                } else {
                    assert(self.output()[idx] == emitted_snapshot[idx - o.output().len()]);
                }
            }
            assert forall|j: int|
                0 <= j < self.intervals().len() implies #[trigger] self.intervals()[j].counts.bound()
                >= 0 by {
                assert(self.image_wf(self.intervals()[j].counts));
            }
            lemma_sum_bounds_nonneg(self.intervals());
            assert(fwd.bound() <= (COEFF_DENOM as int) * bound_window(pc, piv as int, m - 1));
            lemma_bw_le_total(pc, piv as int, m - 1);
            assert((COEFF_DENOM as int) * bound_window(pc, piv as int, m - 1) <= (COEFF_DENOM as int)
                * plan_total_bound(pc.drop_last())) by {
                lemma_bw_total(pc.drop_last());
                lemma_bw_drop_last(pc, piv as int);
                lemma_bw_split(pc.drop_last(), 0, piv as int, m - 1);
                assert forall|j: int|
                    0 <= j < pc.drop_last().len() implies (#[trigger] pc.drop_last()[j]).bound()
                    >= 0 by {
                    assert(pc.drop_last()[j] == pc[j]);
                    assert(pc[j].wf());
                }
                lemma_bw_nonneg(pc.drop_last(), 0, piv as int);
                assert(bound_window(pc, piv as int, m - 1) <= bound_window(
                    pc.drop_last(),
                    0,
                    m - 1,
                )) by (nonlinear_arith)
                    requires
                        bound_window(pc, piv as int, m - 1) == bound_window(
                            pc.drop_last(),
                            piv as int,
                            m - 1,
                        ),
                        bound_window(pc.drop_last(), 0, m - 1) == bound_window(
                            pc.drop_last(),
                            0,
                            piv as int,
                        ) + bound_window(pc.drop_last(), piv as int, m - 1),
                        0 <= bound_window(pc.drop_last(), 0, piv as int),
                ;
                assert((COEFF_DENOM as int) * bound_window(pc, piv as int, m - 1)
                    <= (COEFF_DENOM as int) * bound_window(pc.drop_last(), 0, m - 1))
                    by (nonlinear_arith)
                    requires
                        bound_window(pc, piv as int, m - 1) <= bound_window(pc.drop_last(), 0, m
                            - 1),
                ;
                assert(pc.drop_last().len() == m - 1);
            }
        }
    }

    /// Absorbs one event: routes it to its interval (growing the store as
    /// needed), updates the open window's edge samples and bookend
    /// partitions, and, when the event's index passes the end bookend,
    /// starts the window's resolution.
    pub fn process_event(&mut self, e: &Event)
        requires
            old(self).wf(),
            old(self).plan() is None,
            0 <= e.x < old(self).spec_width(),
            0 <= e.y < old(self).spec_height(),
            e.t >= old(self).spec_t_shift() ==> old(self).spec_event_idx(e.t as int) >= old(
                self,
            ).spec_popped(),
            e.t >= old(self).spec_t_shift() ==> old(self).spec_event_idx(e.t as int) - old(
                self,
            ).spec_popped() < usize::MAX,
            e.t >= old(self).spec_t_shift() ==> old(self).spec_event_idx(e.t as int) < u64::MAX,
            old(self).spec_events_absorbed() < MAX_EVENTS,
        ensures
            final(self).wf(),
            same_config(*old(self), *final(self)),
            e.t < old(self).spec_t_shift() ==> *final(self) == *old(self),
            e.t >= old(self).spec_t_shift() ==> spec_processed(*old(self), *final(self), *e),
    {
        if e.t < self.t_shift {
            return ;
        }
        let ghost o = *old(self);
        let local_t = e.t - self.t_shift;
        let idx_i = local_t / self.interval_t;
        proof {
            assert(idx_i == o.spec_event_idx(e.t as int));
        }
        let idx = idx_i as u64;
        // route the event to its interval first; the bookends and the
        // trigger are independent of the store
        self.route_event(e);
        let ghost routed = *self;
        let mut did_trigger = false;
        if self.blur_info.is_some() {
            let mut b = self.blur_info.take().unwrap();
            let ghost ob = b;
            if e.t >= b.exposure_begin_t && e.t < b.exposure_end_t {
                proof {
                    assert(b.pivot_idx as int * self.spec_interval_t() <= b.exposure_end_t
                        - self.spec_t_shift());
                    assert(b.pivot_idx as int <= b.pivot_idx as int * self.spec_interval_t())
                        by (nonlinear_arith)
                        requires
                            0 <= b.pivot_idx as int,
                            1 <= self.spec_interval_t(),
                    ;
                }
                let mid_t = (b.pivot_idx as i64) * self.interval_t;
                self.edge_samples.push(
                    EdgeSample { x: e.x, y: e.y, on: e.on, delta_t: mid_t - local_t },
                );
            }
            if e.t < b.exposure_begin_t {
                self.events_before.push(*e);
            } else if e.t < b.exposure_end_t {
                self.events_during.push(*e);
            } else {
                self.events_after.push(*e);
            }
            let x = e.x as usize;
            let y = e.y as usize;
            let intra = local_t % self.interval_t;
            if idx == b.begin_bookend.interval_idx {
                if intra <= b.begin_bookend.boundary_offset {
                    b.begin_bookend.outside.bump(x, y, e.on);
                } else {
                    b.begin_bookend.during.bump(x, y, e.on);
                }
                b.begin_bookend.observed = b.begin_bookend.observed + 1;
            } else if idx == b.end_bookend.interval_idx {
                if intra < b.end_bookend.boundary_offset {
                    b.end_bookend.during.bump(x, y, e.on);
                } else {
                    b.end_bookend.outside.bump(x, y, e.on);
                }
                b.end_bookend.observed = b.end_bookend.observed + 1;
            } else if idx > b.end_bookend.interval_idx {
                did_trigger = true;
            }
            self.blur_info = Some(b);
            proof {
                assert(self.blur_wf(self.blur().unwrap()));
                assert(self.wf());
            }
            if did_trigger {
                self.begin_resolution();
            }
        }
        proof {
            let idxi = o.spec_event_idx(e.t as int);
            let off = idxi - o.spec_popped();
            // every interval but the event's own reads, through the routing
            // step, exactly as it did before (zero where newly grown)
            assert forall|i: int|
                0 <= i < routed.intervals().len() && i != off implies (forall|j: int|
                    0 <= j < (#[trigger] routed.intervals()[i]).counts.grid().len()
                        ==> routed.intervals()[i].counts.grid()[j] == old_grid_or_zero(
                        o,
                        i,
                        j,
                    )) by {
                if i < o.intervals().len() {
                    assert(routed.intervals()[i] == o.intervals()[i]);
                }
            }
            if o.blur() is Some {
                let bidx = o.blur().unwrap().end_bookend.interval_idx;
                if idx > bidx {
                    let begin = o.blur().unwrap().begin_bookend.interval_idx as int;
                    let n_pops = begin - o.spec_popped();
                    let c = o.spec_current_c();
                    let shift = bidx - routed.spec_popped();
                    assert(self.intervals()[idx - self.spec_popped()] == routed.intervals()[(idx
                        - self.spec_popped()) + shift]);
                    // the store frame, shifted by the consumed window
                    assert forall|i: int|
                        0 <= i < self.intervals().len() && i + self.spec_popped() != idxi implies (
                    forall|j: int|
                        0 <= j < (#[trigger] self.intervals()[i]).counts.grid().len()
                            ==> self.intervals()[i].counts.grid()[j] == old_grid_or_zero(
                            o,
                            i + self.spec_popped() - o.spec_popped(),
                            j,
                        )) by {
                        assert(self.intervals()[i] == routed.intervals()[i + shift]);
                    }
                    // the pre-window pops' latent images, cell by cell
                    assert forall|i2: int|
                        0 <= i2 < n_pops + 1 && i2 < routed.intervals().len() && i2 != off implies (
                    forall|px: int|
                        0 <= px < (#[trigger] routed.intervals()[i2]).counts.grid().len()
                            ==> routed.intervals()[i2].counts.grid()[px] == old_grid_or_zero(
                            o,
                            i2,
                            px,
                        )) by {}
                    assert forall|k: int|
                        0 <= k < n_pops implies {
                        let img = #[trigger] self.output()[o.output().len() + k];
                        &&& img.anchor == o.spec_anchor()
                        &&& img.log_delta.grid().len() == o.latent().grid().len()
                        &&& forall|px: int|
                            0 <= px < img.log_delta.grid().len()
                                ==> #[trigger] img.log_delta.grid()[px] == o.latent().grid()[px]
                                + scaled_prefix_z(o, c, k + 1, px)
                    } by {
                        let img = self.output()[o.output().len() + k];
                        assert forall|px: int|
                            0 <= px < img.log_delta.grid().len()
                                implies #[trigger] img.log_delta.grid()[px]
                            == o.latent().grid()[px] + scaled_prefix_z(o, c, k + 1, px) by {
                            assert forall|i2: int|
                                0 <= i2 < k + 1 implies (#[trigger] routed.intervals()[i2]).counts.grid()[px]
                                as int == old_grid_or_zero(o, i2, px) by {
                                assert(o.wf());
                            }
                            lemma_scaled_prefix_agree(routed.intervals(), o, c, k + 1, px);
                        }
                    }
                    // the running accumulator after the pops
                    assert forall|px: int|
                        0 <= px < self.latent().grid().len() implies #[trigger] self.latent().grid()[px]
                        == o.latent().grid()[px] + scaled_prefix_z(o, c, n_pops, px) by {
                        assert forall|i2: int|
                            0 <= i2 < n_pops implies (#[trigger] routed.intervals()[i2]).counts.grid()[px]
                            as int == old_grid_or_zero(o, i2, px) by {}
                        lemma_scaled_prefix_agree(routed.intervals(), o, c, n_pops, px);
                    }
                    // the snapshot holds the window's raw accumulators
                    let pp = self.plan().unwrap();
                    assert forall|k: int|
                        0 <= k < pp.counts@.len() implies {
                        let g = (#[trigger] pp.counts@[k]).grid();
                        &&& g.len() == o.spec_width() * o.spec_height()
                        &&& forall|px: int|
                            0 <= px < g.len() ==> #[trigger] g[px] == old_grid_or_zero(
                                o,
                                begin - o.spec_popped() + k,
                                px,
                            )
                    } by {
                        assert(pp.counts@[k].grid() == routed.intervals()[n_pops + k].counts.grid());
                        assert(n_pops + k != off);
                    }
                } else {
                    assert forall|i: int|
                        0 <= i < self.intervals().len() && i + self.spec_popped() != idxi implies (
                    forall|j: int|
                        0 <= j < (#[trigger] self.intervals()[i]).counts.grid().len()
                            ==> self.intervals()[i].counts.grid()[j] == old_grid_or_zero(
                            o,
                            i + self.spec_popped() - o.spec_popped(),
                            j,
                        )) by {
                        assert(self.intervals()[i] == routed.intervals()[i]);
                    }
                }
            } else {
                assert forall|i: int|
                    0 <= i < self.intervals().len() && i + self.spec_popped() != idxi implies (
                forall|j: int|
                    0 <= j < (#[trigger] self.intervals()[i]).counts.grid().len()
                        ==> self.intervals()[i].counts.grid()[j] == old_grid_or_zero(
                        o,
                        i + self.spec_popped() - o.spec_popped(),
                        j,
                    )) by {
                    assert(self.intervals()[i] == routed.intervals()[i]);
                }
            }
            assert(spec_processed(o, *self, *e));
        }
    }

    /// Whether a captured frame with this pixel count and exposure span can
    /// be staged on the engine in its current state.
    pub open spec fn stageable(self, image_len: int, begin_t: int, end_t: int) -> bool {
        &&& image_len == self.spec_width() * self.spec_height()
        &&& self.spec_t_shift() <= begin_t <= end_t
        &&& self.spec_event_idx(end_t) - self.spec_event_idx(begin_t) < usize::MAX
        &&& (self.blur() is None ==> self.spec_event_idx(begin_t) >= self.spec_popped())
        &&& (self.blur() is Some ==> self.next_blur() is None && self.spec_event_idx(begin_t)
            >= self.blur().unwrap().end_bookend.interval_idx)
    }

    /// The staged window carries this frame with fresh bookends.
    pub open spec fn fresh_window(self, b: BlurInfo, image: Seq<u8>, begin_t: int, end_t: int) -> bool {
        &&& b.blurred@ == image
        &&& b.exposure_begin_t == begin_t
        &&& b.exposure_end_t == end_t
        &&& b.begin_bookend.interval_idx == self.spec_event_idx(begin_t)
        &&& b.end_bookend.interval_idx == self.spec_event_idx(end_t)
        &&& b.begin_bookend.boundary_offset == (begin_t - self.spec_t_shift())
            % self.spec_interval_t()
        &&& b.end_bookend.boundary_offset == (end_t - self.spec_t_shift())
            % self.spec_interval_t()
        &&& b.pivot_idx == pivot_of(
            b.begin_bookend.interval_idx as int,
            b.end_bookend.interval_idx as int,
        )
        &&& b.begin_bookend.observed == 0
        &&& b.end_bookend.observed == 0
        &&& b.begin_bookend.during.bound() == 0
        &&& b.begin_bookend.outside.bound() == 0
        &&& b.end_bookend.during.bound() == 0
        &&& b.end_bookend.outside.bound() == 0
    }

    /// Stages a captured reference frame: it becomes the current exposure
    /// window if none is open, or the pre-staged next window otherwise.
    /// Returns false, changing nothing, when the frame cannot be accepted
    /// (wrong pixel count, exposure out of order or before the epoch, or a
    /// next window already staged).
    pub fn try_stage_frame(&mut self, image: Vec<u8>, exposure_begin_t: i64, exposure_end_t: i64)
        -> (ok: bool)
        requires
            old(self).wf(),
        ensures
            final(self).wf(),
            same_config(*old(self), *final(self)),
            same_partitions(*old(self), *final(self)),
            ok == old(self).stageable(
                image@.len() as int,
                exposure_begin_t as int,
                exposure_end_t as int,
            ),
            !ok ==> *final(self) == *old(self),
            ok ==> {
                &&& final(self).intervals() == old(self).intervals()
                &&& final(self).latent() == old(self).latent()
                &&& final(self).output() == old(self).output()
                &&& final(self).edge() == old(self).edge()
                &&& final(self).plan() == old(self).plan()
                &&& final(self).spec_popped() == old(self).spec_popped()
                &&& final(self).spec_events_absorbed() == old(self).spec_events_absorbed()
                &&& final(self).spec_anchor() == old(self).spec_anchor()
                &&& final(self).spec_current_c() == old(self).spec_current_c()
                &&& (old(self).blur() is None ==> final(self).blur() is Some
                    && old(self).fresh_window(
                    final(self).blur().unwrap(),
                    image@,
                    exposure_begin_t as int,
                    exposure_end_t as int,
                ) && final(self).next_blur() is None)
                &&& (old(self).blur() is Some ==> final(self).blur() == old(self).blur()
                    && final(self).next_blur() is Some && old(self).fresh_window(
                    final(self).next_blur().unwrap(),
                    image@,
                    exposure_begin_t as int,
                    exposure_end_t as int,
                ))
            },
    {
        let w = self.width;
        let h = self.height;
        if image.len() != w * h {
            return false;
        }
        if !(self.t_shift <= exposure_begin_t && exposure_begin_t <= exposure_end_t) {
            return false;
        }
        let begin_idx = ((exposure_begin_t - self.t_shift) / self.interval_t) as u64;
        let end_idx = ((exposure_end_t - self.t_shift) / self.interval_t) as u64;
        proof {
            vstd::arithmetic::div_mod::lemma_div_is_ordered(
                (exposure_begin_t - self.t_shift) as int,
                (exposure_end_t - self.t_shift) as int,
                self.spec_interval_t(),
            );
        }
        if end_idx - begin_idx >= usize::MAX as u64 {
            return false;
        }
        let staged_ok = match &self.blur_info {
            None => begin_idx >= self.intervals_popped,
            Some(b) => self.next_blur_info.is_none() && begin_idx
                >= b.end_bookend.interval_idx,
        };
        if !staged_ok {
            return false;
        }
        let b = BlurInfo::new(
            image,
            exposure_begin_t,
            exposure_end_t,
            self.t_shift,
            self.interval_t,
            h,
            w,
        );
        if self.blur_info.is_none() {
            self.blur_info = Some(b);
        } else {
            self.next_blur_info = Some(b);
        }
        proof {
            lemma_frame_preserves_store(*old(self), *self);
        }
        true
    }

    /// Runs the bounded search of the Coefficient Optimizer over the
    /// supplied candidate energies (one per evenly spread coefficient in
    /// the search interval) and fixes the found coefficient for the next
    /// emission. Returns the chosen candidate index.
    pub fn optimize_c(&mut self, energies: &Vec<i64>) -> (k: usize)
        requires
            old(self).wf(),
            2 <= energies@.len() <= u32::MAX,
        ensures
            final(self).wf(),
            same_config(*old(self), *final(self)),
            k < energies@.len(),
            crate::optimize::unimodal(energies@) ==> forall|j: int|
                0 <= j < energies@.len() ==> energies@[k as int] <= #[trigger] energies@[j],
            final(self).spec_current_c() == (k as int * crate::optimize::COEFF_SEARCH_MAX as int)
                / (energies@.len() - 1),
            final(self).intervals() == old(self).intervals(),
            final(self).latent() == old(self).latent(),
            final(self).output() == old(self).output(),
            final(self).edge() == old(self).edge(),
            same_partitions(*old(self), *final(self)),
            final(self).blur() == old(self).blur(),
            final(self).next_blur() == old(self).next_blur(),
            final(self).plan() == old(self).plan(),
            final(self).spec_popped() == old(self).spec_popped(),
            final(self).spec_events_absorbed() == old(self).spec_events_absorbed(),
            final(self).spec_anchor() == old(self).spec_anchor(),
    {
        let k = crate::optimize::min_unimodal_index(energies);
        let c = crate::optimize::candidate_coefficient(k, energies.len());
        self.current_c = c;
        proof {
            lemma_frame_preserves_store(*old(self), *self);
        }
        k
    }

    /// Hands out the finished latent images, leaving the queue empty.
    pub fn take_output(&mut self) -> (r: Vec<LatentImage>)
        requires
            old(self).wf(),
        ensures
            final(self).wf(),
            same_config(*old(self), *final(self)),
            same_windows(*old(self), *final(self)),
            same_partitions(*old(self), *final(self)),
            r@ == old(self).output(),
            final(self).output().len() == 0,
            final(self).intervals() == old(self).intervals(),
            final(self).latent() == old(self).latent(),
            final(self).spec_popped() == old(self).spec_popped(),
            final(self).spec_events_absorbed() == old(self).spec_events_absorbed(),
    {
        let mut r: Vec<LatentImage> = Vec::new();
        core::mem::swap(&mut r, &mut self.return_queue);
        r
    }

    pub fn edge_sample_count(&self) -> (n: usize)
        ensures
            n == self.edge().len(),
    {
        self.edge_samples.len()
    }

    pub fn edge_sample(&self, i: usize) -> (s: EdgeSample)
        requires
            i < self.edge().len(),
        ensures
            s == self.edge()[i as int],
    {
        self.edge_samples[i]
    }

    /// The pending window snapshot, if a resolution is waiting for its
    /// coefficient.
    pub fn pending_plan(&self) -> (r: &Option<WindowPlan>)
        ensures
            *r == self.plan(),
    {
        &self.pending
    }

    pub fn set_optimize(&mut self, optimize: bool, frequency: u32)
        requires
            old(self).wf(),
        ensures
            final(self).wf(),
            final(self).spec_optimize() == optimize,
            final(self).spec_frequency() == frequency,
            final(self).spec_width() == old(self).spec_width(),
            final(self).spec_height() == old(self).spec_height(),
            final(self).spec_t_shift() == old(self).spec_t_shift(),
            final(self).spec_interval_t() == old(self).spec_interval_t(),
            final(self).spec_interval_count() == old(self).spec_interval_count(),
            final(self).intervals() == old(self).intervals(),
            final(self).latent() == old(self).latent(),
            final(self).output() == old(self).output(),
            final(self).edge() == old(self).edge(),
            same_partitions(*old(self), *final(self)),
            final(self).blur() == old(self).blur(),
            final(self).next_blur() == old(self).next_blur(),
            final(self).plan() == old(self).plan(),
            final(self).spec_popped() == old(self).spec_popped(),
            final(self).spec_events_absorbed() == old(self).spec_events_absorbed(),
            final(self).spec_anchor() == old(self).spec_anchor(),
            final(self).spec_current_c() == old(self).spec_current_c(),
    {
        self.optimize_c = optimize;
        self.optimize_c_frequency = frequency;
        proof {
            lemma_frame_preserves_store(*old(self), *self);
        }
    }

    pub fn optimize_enabled(&self) -> (b: bool)
        ensures
            b == self.spec_optimize(),
    {
        self.optimize_c
    }

    /// Decodes one event packet and absorbs its events from `start` on,
    /// pausing right after an event that triggered a window resolution so
    /// that the caller can fix a coefficient first. Returns the index to
    /// resume from and whether the packet is finished. `None` is fatal:
    /// the packet is malformed, an event is outside the sensor area or
    /// behind the consumed part of the stream, or the engine's event
    /// capacity is exhausted.
    pub fn add_events_deferred(&mut self, packet_buffer: &Vec<u8>, start: usize) -> (r: Option<
        (usize, bool),
    >)
        requires
            old(self).wf(),
            old(self).plan() is None,
        ensures
            final(self).wf(),
            same_config(*old(self), *final(self)),
            decoded_events(packet_buffer@) is None ==> r is None,
            r is Some ==> decoded_events(packet_buffer@) is Some && {
                let evs = decoded_events(packet_buffer@).unwrap();
                let n = evs.len() as int;
                let next = r.unwrap().0 as int;
                &&& (start >= n ==> next == start && r.unwrap().1 && *final(self) == *old(self))
                &&& (start < n ==> {
                    &&& start < next <= n
                    &&& r.unwrap().1 == (next >= n)
                    &&& (!r.unwrap().1 ==> final(self).plan() is Some)
                    &&& final(self).spec_events_absorbed() == old(self).spec_events_absorbed()
                        + routed_count(evs, old(self).spec_t_shift(), start as int, next)
                })
                // a pause means the event just absorbed opened the resolution:
                // its index lies strictly past everything now consumed
                &&& (final(self).plan() is Some ==> next > start
                    && evs[next - 1].2 >= old(self).spec_t_shift()
                    && old(self).spec_event_idx(evs[next - 1].2 as int)
                    > final(self).spec_popped())
                &&& (final(self).plan() is None ==> final(self).spec_popped()
                    == old(self).spec_popped())
                &&& final(self).spec_popped() >= old(self).spec_popped()
                &&& final(self).spec_anchor() == old(self).spec_anchor()
                // the finished images appended are the pre-window pops of the
                // resolution, if one opened
                &&& forall|i: int|
                    0 <= i < old(self).output().len() ==> final(self).output()[i]
                        == old(self).output()[i]
                &&& forall|k: int|
                    old(self).output().len() <= k < final(self).output().len() ==> (
                    #[trigger] final(self).output()[k]).anchor == old(self).spec_anchor()
                &&& final(self).output().len() == old(self).output().len()
                    + (final(self).spec_popped() - old(self).spec_popped()) - (
                if final(self).plan() is Some {
                    final(self).plan().unwrap().end_idx - final(self).plan().unwrap().begin_idx
                } else {
                    0int
                })
            },
            // absorption is owed whenever the whole remaining packet is
            // acceptable and the event capacity suffices
            (decoded_events(packet_buffer@) is Some && {
                let evs = decoded_events(packet_buffer@).unwrap();
                let n = evs.len() as int;
                &&& forall|i: int|
                    start <= i < n ==> event_acceptable(*old(self), #[trigger] evs[i])
                &&& old(self).spec_events_absorbed() + (n - start) <= MAX_EVENTS
            }) ==> r is Some,
    {
        let evs = match crate::packets::decode_event_packet(packet_buffer) {
            None => {
                return None;
            },
            Some(v) => v,
        };
        let n = evs.len();
        let ghost o = *old(self);
        let mut i = start;
        if i >= n {
            return Some((i, true));
        }
        while i < n
            invariant
                o == *old(self),
                self.wf(),
                same_config(o, *self),
                n == evs@.len(),
                decoded_events(packet_buffer@) is Some,
                n == decoded_events(packet_buffer@).unwrap().len(),
                forall|j: int|
                    0 <= j < n ==> #[trigger] evs@[j] == (Event {
                        x: decoded_events(packet_buffer@).unwrap()[j].0,
                        y: decoded_events(packet_buffer@).unwrap()[j].1,
                        t: decoded_events(packet_buffer@).unwrap()[j].2,
                        on: decoded_events(packet_buffer@).unwrap()[j].3,
                    }),
                start <= i <= n,
                start < n,
                self.plan() is None,
                self.output() == o.output(),
                self.spec_popped() == o.spec_popped(),
                self.spec_anchor() == o.spec_anchor(),
                o.spec_t_shift() == self.spec_t_shift(),
                self.spec_events_absorbed() == o.spec_events_absorbed() + routed_count(
                    decoded_events(packet_buffer@).unwrap(),
                    o.spec_t_shift(),
                    start as int,
                    i as int,
                ),
            decreases n - i,
        {
            let ev = evs[i];
            proof {
                let devs = decoded_events(packet_buffer@).unwrap();
                assert(evs@[i as int] == (Event {
                    x: devs[i as int].0,
                    y: devs[i as int].1,
                    t: devs[i as int].2,
                    on: devs[i as int].3,
                }));
                lemma_routed_count_le(devs, o.spec_t_shift(), start as int, i as int);
            }
            if !(ev.x >= 0 && (ev.x as usize) < self.width && ev.y >= 0 && (ev.y as usize)
                < self.height) {
                return None;
            }
            if self.events_absorbed >= MAX_EVENTS {
                return None;
            }
            if ev.t >= self.t_shift {
                let idx_i = (ev.t - self.t_shift) / self.interval_t;
                proof {
                    assert(idx_i == self.spec_event_idx(ev.t as int));
                }
                let idx = idx_i as u64;
                if idx < self.intervals_popped {
                    return None;
                }
                if idx - self.intervals_popped >= (usize::MAX as u64) {
                    return None;
                }
            }
            let ghost pre_step = *self;
            self.process_event(&ev);
            proof {
                let devs = decoded_events(packet_buffer@).unwrap();
                lemma_routed_count_split(devs, o.spec_t_shift(), start as int, i as int, i + 1);
                assert(evs@[i as int] == (Event {
                    x: devs[i as int].0,
                    y: devs[i as int].1,
                    t: devs[i as int].2,
                    on: devs[i as int].3,
                }));
                assert(devs[i as int].2 == ev.t);
                assert(routed_count(devs, o.spec_t_shift(), i as int, i + 1) == (if devs[i
                    as int].2 >= o.spec_t_shift() {
                    1int
                } else {
                    0int
                }) + routed_count(devs, o.spec_t_shift(), i + 1, i + 1));
            }
            i = i + 1;
            proof {
                if self.plan() is Some {
                    assert forall|k2: int|
                        o.output().len() <= k2 < self.output().len() implies (
                    #[trigger] self.output()[k2]).anchor == o.spec_anchor() by {
                        let kk = k2 - o.output().len();
                        assert(self.output()[o.output().len() + kk].anchor
                            == pre_step.spec_anchor());
                    }
                }
            }
            if self.pending.is_some() {
                return Some((i, i >= n));
            }
        }
        Some((i, true))
    }

    /// Absorbs one event packet, resolving every triggered exposure window
    /// inline with the engine's current coefficient (the fixed-coefficient
    /// fast path), and returns the latent images the packet finished,
    /// oldest first (an empty vector when it finished none). `None` is the
    /// fatal outcome of `add_events_deferred`.
    pub fn add_events(&mut self, packet_buffer: &Vec<u8>) -> (r: Option<Vec<LatentImage>>)
        requires
            old(self).wf(),
            old(self).plan() is None,
        ensures
            final(self).wf(),
            same_config(*old(self), *final(self)),
            decoded_events(packet_buffer@) is None ==> r is None,
            r is Some ==> {
                &&& decoded_events(packet_buffer@) is Some
                &&& final(self).plan() is None
                &&& final(self).spec_events_absorbed() == old(self).spec_events_absorbed()
                    + routed_count(
                    decoded_events(packet_buffer@).unwrap(),
                    old(self).spec_t_shift(),
                    0,
                    decoded_events(packet_buffer@).unwrap().len() as int,
                )
                &&& final(self).output().len() == 0
                // the returned images are exactly what this packet finished:
                // one per interval consumed plus one pivot anchor per window
                // resolved, in order of their resolution
                &&& r.unwrap()@.len() == (final(self).spec_popped() - old(self).spec_popped()) + (
                final(self).spec_anchor() - old(self).spec_anchor())
                &&& forall|k: int|
                    0 <= k < r.unwrap()@.len() ==> old(self).spec_anchor() <= (
                    #[trigger] r.unwrap()@[k]).anchor <= final(self).spec_anchor()
                &&& forall|i: int|
                    0 <= i < r.unwrap()@.len() ==> (#[trigger] r.unwrap()@[i]).log_delta.wf()
                        && r.unwrap()@[i].log_delta.spec_width() == final(self).spec_width()
                        && r.unwrap()@[i].log_delta.spec_height() == final(self).spec_height()
            },
            // absorbing a timestamp-ordered, acceptable packet within
            // capacity never fails
            (decoded_events(packet_buffer@) is Some && packet_admissible(
                *old(self),
                decoded_events(packet_buffer@).unwrap(),
            )) ==> r is Some,
    {
        self.return_queue.clear();
        let ghost o = *old(self);
        let ghost n = if decoded_events(packet_buffer@) is Some {
            decoded_events(packet_buffer@).unwrap().len() as int
        } else {
            0
        };
        let mut start: usize = 0;
        let mut done = false;
        while !done
            invariant
                o == *old(self),
                self.wf(),
                same_config(o, *self),
                self.plan() is None,
                decoded_events(packet_buffer@) is Some ==> start <= n,
                n == (if decoded_events(packet_buffer@) is Some {
                    decoded_events(packet_buffer@).unwrap().len() as int
                } else {
                    0
                }),
                o.spec_t_shift() == self.spec_t_shift(),
                decoded_events(packet_buffer@) is Some ==> self.spec_events_absorbed()
                    == o.spec_events_absorbed() + routed_count(
                    decoded_events(packet_buffer@).unwrap(),
                    o.spec_t_shift(),
                    0,
                    start as int,
                ),
                done ==> decoded_events(packet_buffer@) is Some && start == n,
                self.spec_popped() >= o.spec_popped(),
                self.spec_anchor() >= o.spec_anchor(),
                self.output().len() == (self.spec_popped() - o.spec_popped()) + (
                self.spec_anchor() - o.spec_anchor()),
                forall|k: int|
                    0 <= k < self.output().len() ==> o.spec_anchor() <= (
                    #[trigger] self.output()[k]).anchor <= self.spec_anchor(),
                // under an admissible packet, the remaining events still land
                // at or beyond everything consumed so far
                (decoded_events(packet_buffer@) is Some && packet_admissible(
                    o,
                    decoded_events(packet_buffer@).unwrap(),
                )) ==> (forall|i: int|
                    start <= i < n ==> ((#[trigger] decoded_events(
                        packet_buffer@,
                    ).unwrap()[i]).2 >= o.spec_t_shift() ==> o.spec_event_idx(
                        decoded_events(packet_buffer@).unwrap()[i].2 as int,
                    ) >= self.spec_popped())),
            decreases n - start + (if done {
                0int
            } else {
                1int
            }),
        {
            let ghost cur = *self;
            let res = self.add_events_deferred(packet_buffer, start);
            proof {
                if decoded_events(packet_buffer@) is Some && packet_admissible(
                    o,
                    decoded_events(packet_buffer@).unwrap(),
                ) {
                    let devs = decoded_events(packet_buffer@).unwrap();
                    assert forall|i: int|
                        start <= i < devs.len() implies event_acceptable(
                        cur,
                        #[trigger] devs[i],
                    ) by {
                        assert(event_acceptable(o, devs[i]));
                    }
                    lemma_routed_count_le(devs, o.spec_t_shift(), 0, start as int);
                    assert(cur.spec_events_absorbed() + (devs.len() - start) <= MAX_EVENTS);
                }
            }
            match res {
                None => {
                    return None;
                },
                Some((next, d)) => {
                    proof {
                        let devs = decoded_events(packet_buffer@).unwrap();
                        lemma_routed_count_split(devs, o.spec_t_shift(), 0, start as int, next as int);
                        // a resolution leaves every remaining event at or
                        // beyond the newly consumed stream: the trigger's
                        // index exceeds it and timestamps never decrease
                        if self.plan() is Some && packet_admissible(o, devs) {
                            assert forall|i: int|
                                next <= i < devs.len() && (#[trigger] devs[i]).2
                                >= o.spec_t_shift() implies o.spec_event_idx(devs[i].2 as int)
                                >= self.spec_popped() by {
                                assert(devs[next - 1].2 <= devs[i].2);
                                vstd::arithmetic::div_mod::lemma_div_is_ordered(
                                    devs[next - 1].2 - o.spec_t_shift(),
                                    devs[i].2 - o.spec_t_shift(),
                                    o.spec_interval_t(),
                                );
                            }
                        }
                    }
                    if self.has_pending() {
                        let c = self.current_c;
                        self.emit_window(c);
                    }
                    start = next;
                    done = d;
                },
            }
        }
        let imgs = self.take_output();
        proof {
            assert forall|i: int|
                0 <= i < imgs@.len() implies (#[trigger] imgs@[i]).log_delta.wf()
                && imgs@[i].log_delta.spec_width() == self.spec_width()
                && imgs@[i].log_delta.spec_height() == self.spec_height() by {
                assert(self.image_wf(imgs@[i].log_delta));
            }
        }
        Some(imgs)
    }

    /// Sets the decay coefficient used by subsequent pops and resolutions,
    /// in thousandths.
    pub fn set_coefficient(&mut self, c_milli: u32)
        requires
            old(self).wf(),
            c_milli <= COEFF_DENOM,
        ensures
            final(self).wf(),
            same_config(*old(self), *final(self)),
            final(self).spec_current_c() == c_milli,
            final(self).intervals() == old(self).intervals(),
            final(self).latent() == old(self).latent(),
            final(self).output() == old(self).output(),
            final(self).edge() == old(self).edge(),
            same_partitions(*old(self), *final(self)),
            final(self).blur() == old(self).blur(),
            final(self).next_blur() == old(self).next_blur(),
            final(self).plan() == old(self).plan(),
            final(self).spec_popped() == old(self).spec_popped(),
            final(self).spec_events_absorbed() == old(self).spec_events_absorbed(),
            final(self).spec_anchor() == old(self).spec_anchor(),
    {
        self.current_c = c_milli;
        proof {
            lemma_frame_preserves_store(*old(self), *self);
        }
    }

    /// The open exposure window, for inspection.
    pub fn blur_info_ref(&self) -> (r: &Option<BlurInfo>)
        ensures
            *r == self.blur(),
    {
        &self.blur_info
    }

    /// The live interval store, for inspection.
    pub fn intervals_ref(&self) -> (r: &Vec<Interval>)
        ensures
            r@ == self.intervals(),
    {
        &self.event_intervals
    }

    /// Decodes a captured frame packet and stages it as the current or the
    /// pre-staged next exposure window. Returns false, changing nothing,
    /// when the packet is malformed or the frame cannot be accepted.
    pub fn stage_frame_packet(&mut self, buffer: &Vec<u8>) -> (r: bool)
        requires
            old(self).wf(),
        ensures
            final(self).wf(),
            same_config(*old(self), *final(self)),
            same_partitions(*old(self), *final(self)),
            decoded_frame(buffer@) is None ==> !r && *final(self) == *old(self),
            decoded_frame(buffer@) is Some ==> {
                let f = decoded_frame(buffer@).unwrap();
                &&& r == old(self).stageable(f.0.len() as int, f.1 as int, f.2 as int)
                &&& (r && old(self).blur() is None ==> final(self).blur() is Some && old(
                    self,
                ).fresh_window(final(self).blur().unwrap(), f.0, f.1 as int, f.2 as int))
                &&& (r && old(self).blur() is Some ==> final(self).next_blur() is Some && old(
                    self,
                ).fresh_window(final(self).next_blur().unwrap(), f.0, f.1 as int, f.2 as int))
                &&& (!r ==> *final(self) == *old(self))
            },
    {
        match crate::packets::decode_frame_packet(buffer) {
            None => false,
            Some((pixels, exposure_begin_t, exposure_end_t)) => self.try_stage_frame(
                pixels,
                exposure_begin_t,
                exposure_end_t,
            ),
        }
    }

    pub fn interval_duration(&self) -> (t: i64)
        ensures
            t == self.spec_interval_t(),
    {
        self.interval_t
    }

    pub fn epoch(&self) -> (t: i64)
        ensures
            t == self.spec_t_shift(),
    {
        self.t_shift
    }

    /// Hands out the before/during/after event partitions collected for the
    /// exposure window resolved last, leaving them empty for the next one.
    pub fn take_partitions(&mut self) -> (r: (Vec<Event>, Vec<Event>, Vec<Event>))
        requires
            old(self).wf(),
        ensures
            final(self).wf(),
            same_config(*old(self), *final(self)),
            same_windows(*old(self), *final(self)),
            r.0@ == old(self).partition_before(),
            r.1@ == old(self).partition_during(),
            r.2@ == old(self).partition_after(),
            final(self).partition_before().len() == 0,
            final(self).partition_during().len() == 0,
            final(self).partition_after().len() == 0,
            final(self).intervals() == old(self).intervals(),
            final(self).latent() == old(self).latent(),
            final(self).output() == old(self).output(),
            final(self).spec_popped() == old(self).spec_popped(),
            final(self).spec_events_absorbed() == old(self).spec_events_absorbed(),
    {
        let mut before: Vec<Event> = Vec::new();
        let mut during: Vec<Event> = Vec::new();
        let mut after: Vec<Event> = Vec::new();
        core::mem::swap(&mut before, &mut self.events_before);
        core::mem::swap(&mut during, &mut self.events_during);
        core::mem::swap(&mut after, &mut self.events_after);
        proof {
            lemma_frame_preserves_store(*old(self), *self);
        }
        (before, during, after)
    }
}

} // verus!
