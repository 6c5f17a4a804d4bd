use vstd::prelude::*;
use crate::adder::{
    emitted_effect, lemma_scaled_range_agree, old_cell_or_zero, old_grid_or_zero, routed_effect,
    scaled_range_z, spec_processed, Event, EventAdder,
};

verus! {

/// For any two events at the same pixel with opposite polarity routed into
/// one interval, the net contribution to that interval's accumulator is
/// zero: the accumulator cell returns to what it was before either event.
pub proof fn lemma_opposite_polarities_cancel(
    a0: EventAdder,
    a1: EventAdder,
    a2: EventAdder,
    e1: Event,
    e2: Event,
)
    requires
        routed_effect(a0, a1, e1),
        routed_effect(a1, a2, e2),
        e1.x == e2.x,
        e1.y == e2.y,
        e1.on == !e2.on,
        0 <= e1.x < a0.spec_width(),
        0 <= e1.y < a0.spec_height(),
        a0.spec_event_idx(e1.t as int) == a0.spec_event_idx(e2.t as int),
        a0.spec_event_idx(e1.t as int) >= a0.spec_popped(),
    ensures
        ({
            let off = a0.spec_event_idx(e1.t as int) - a0.spec_popped();
            a2.intervals()[off].counts.cell(e1.x as int, e1.y as int) == old_cell_or_zero(
                a0,
                off,
                e1.x as int,
                e1.y as int,
            )
        }),
{
    let off = a0.spec_event_idx(e1.t as int) - a0.spec_popped();
    assert(a1.spec_event_idx(e2.t as int) == a0.spec_event_idx(e2.t as int));
    assert(a1.intervals()[off].counts.cell(e1.x as int, e1.y as int) == old_cell_or_zero(
        a0,
        off,
        e1.x as int,
        e1.y as int,
    ) + crate::polarity_value(e1.on));
    assert(old_cell_or_zero(a1, off, e2.x as int, e2.y as int) == a1.intervals()[off].counts.cell(
        e2.x as int,
        e2.y as int,
    ));
}

/// Every routed event lands at index `floor((t - epoch) / interval_t)`,
/// and the store always holds enough intervals to host that index.
pub proof fn lemma_routing_floor_index(a0: EventAdder, a1: EventAdder, e: Event)
    requires
        routed_effect(a0, a1, e),
    ensures
        a1.spec_popped() + a1.intervals().len() > (e.t - a0.spec_t_shift())
            / a0.spec_interval_t(),
        a1.intervals()[(e.t - a0.spec_t_shift()) / a0.spec_interval_t()
            - a1.spec_popped()].counts.cell(e.x as int, e.y as int) == old_cell_or_zero(
            a0,
            (e.t - a0.spec_t_shift()) / a0.spec_interval_t() - a0.spec_popped(),
            e.x as int,
            e.y as int,
        ) + crate::polarity_value(e.on),
{
}

/// Pops are strictly FIFO by index: the head interval of a well-formed
/// store is always exactly the `intervals_popped`-th interval ever created,
/// so no interval is skipped or reordered. (Popping an empty store is
/// excluded statically: `pop_interval` requires a non-empty store.)
pub proof fn lemma_pop_is_fifo(a: EventAdder)
    requires
        a.wf(),
        a.intervals().len() > 0,
    ensures
        a.intervals()[0].idx == a.spec_popped(),
        forall|i: int|
            0 <= i < a.intervals().len() ==> (#[trigger] a.intervals()[i]).idx == a.spec_popped()
                + i,
{
}

/// The bookend partition is exhaustive and exclusive: the "during" and
/// "outside" accumulators of a boundary interval together account, in
/// absolute event counts, for every event observed there while the window
/// was open.
pub proof fn lemma_bookend_partition(a: EventAdder)
    requires
        a.wf(),
        a.blur() is Some,
    ensures
        a.blur().unwrap().begin_bookend.during.bound()
            + a.blur().unwrap().begin_bookend.outside.bound()
            == a.blur().unwrap().begin_bookend.observed,
        a.blur().unwrap().end_bookend.during.bound()
            + a.blur().unwrap().end_bookend.outside.bound()
            == a.blur().unwrap().end_bookend.observed,
{
}

/// Window reconstruction is deterministic and pure: two engines holding
/// the same pending snapshot and the same output history emit, for the
/// same coefficient, exactly the same latent images.
pub proof fn lemma_reconstruction_deterministic(
    o1: EventAdder,
    n1: EventAdder,
    o2: EventAdder,
    n2: EventAdder,
    c_milli: u32,
)
    requires
        emitted_effect(o1, n1, c_milli),
        emitted_effect(o2, n2, c_milli),
        o1.plan() == o2.plan(),
        o1.output() == o2.output(),
        o1.spec_anchor() == o2.spec_anchor(),
        o1.spec_width() == o2.spec_width(),
        o1.spec_height() == o2.spec_height(),
    ensures
        n1.output().len() == n2.output().len(),
        forall|k: int, px: int|
            o1.output().len() <= k < n1.output().len() && 0 <= px < (
            #[trigger] n1.output()[k]).log_delta.grid().len()
                ==> n1.output()[k].log_delta.grid()[px] == #[trigger] n2.output()[k].log_delta.grid()[px],
        forall|k: int|
            o1.output().len() <= k < n1.output().len() ==> (#[trigger] n1.output()[k]).anchor == n2.output()[k].anchor,
{
    let p = o1.plan().unwrap();
    let m = p.counts@.len() as int;
    let piv = p.pivot_idx - p.begin_idx;
    let base = o1.output().len() as int;
    assert forall|k: int, px: int|
        base <= k < n1.output().len() && 0 <= px < (
        #[trigger] n1.output()[k]).log_delta.grid().len() implies n1.output()[k].log_delta.grid()[px]
        == #[trigger] n2.output()[k].log_delta.grid()[px] by {
        let j = k - base;
        assert(n1.output()[k].log_delta.grid().len() == o1.spec_width() * o1.spec_height());
        assert(n2.output()[k].log_delta.grid().len() == o2.spec_width() * o2.spec_height());
        if j < piv {
            assert(n1.output()[base + j].log_delta.grid()[px] == -crate::adder::scaled_window(
                p.counts@,
                c_milli as int,
                j,
                piv as int,
                px,
            ));
            assert(n2.output()[base + j].log_delta.grid()[px] == -crate::adder::scaled_window(
                p.counts@,
                c_milli as int,
                j,
                piv as int,
                px,
            ));
        } else if j == piv {
            assert(n1.output()[base + piv].log_delta.grid()[px] == 0);
            assert(n2.output()[base + piv].log_delta.grid()[px] == 0);
        } else {
            assert(n1.output()[base + j].log_delta.grid()[px] == crate::adder::scaled_window(
                p.counts@,
                c_milli as int,
                piv as int,
                j,
                px,
            ));
            assert(n2.output()[base + j].log_delta.grid()[px] == crate::adder::scaled_window(
                p.counts@,
                c_milli as int,
                piv as int,
                j,
                px,
            ));
        }
    }
}

/// The emitted latent images of a resolved window are a public consequence
/// of the routed events alone: after the trigger step and its emission, the
/// image for each interval past the pivot is the coefficient-scaled sum of
/// the raw counts the store held for the intervals from the pivot up to it,
/// the pivot's own image is the zero anchor, and the images before it carry
/// the negated sums down to the window start.
pub proof fn lemma_window_images_from_counts(
    o: EventAdder,
    mid: EventAdder,
    n: EventAdder,
    e: Event,
    c_milli: u32,
    k: int,
    px: int,
)
    requires
        o.wf(),
        spec_processed(o, mid, e),
        e.t >= o.spec_t_shift(),
        o.blur() is Some,
        o.spec_event_idx(e.t as int) > o.blur().unwrap().end_bookend.interval_idx,
        emitted_effect(mid, n, c_milli),
        0 <= k <= o.blur().unwrap().end_bookend.interval_idx
            - o.blur().unwrap().begin_bookend.interval_idx,
        0 <= px < n.spec_width() * n.spec_height(),
    ensures
        ({
            let b = o.blur().unwrap();
            let begin = b.begin_bookend.interval_idx as int;
            let piv = b.pivot_idx - begin;
            let base = begin - o.spec_popped();
            let img = n.output()[mid.output().len() + k];
            let c = c_milli as int;
            &&& (k < piv ==> img.log_delta.grid()[px] == -scaled_range_z(
                o,
                c,
                base + k,
                base + piv,
                px,
            ))
            &&& (k == piv ==> img.log_delta.grid()[px] == 0)
            &&& (k > piv ==> img.log_delta.grid()[px] == scaled_range_z(
                o,
                c,
                base + piv,
                base + k,
                px,
            ))
        }),
{
    let b = o.blur().unwrap();
    let begin = b.begin_bookend.interval_idx as int;
    let piv = b.pivot_idx - begin;
    let base = begin - o.spec_popped();
    let p = mid.plan().unwrap();
    let c = c_milli as int;
    assert forall|j: int|
        0 <= j < p.counts@.len() implies (#[trigger] p.counts@[j]).grid()[px] as int
        == old_grid_or_zero(o, base + j, px) by {
        assert(p.counts@[j].grid().len() == o.spec_width() * o.spec_height());
    }
    if k < piv {
        lemma_scaled_range_agree(p.counts@, o, c, base, k, piv as int, px);
        assert(n.output()[mid.output().len() + k].log_delta.grid()[px] == -crate::adder::scaled_window(
            p.counts@,
            c,
            k,
            piv as int,
            px,
        ));
    } else if k > piv {
        lemma_scaled_range_agree(p.counts@, o, c, base, piv as int, k, px);
        assert(n.output()[mid.output().len() + k].log_delta.grid()[px]
            == crate::adder::scaled_window(p.counts@, c, piv as int, k, px));
    } else {
        assert(n.output()[mid.output().len() + piv].log_delta.grid()[px] == 0);
    }
}

} // verus!
