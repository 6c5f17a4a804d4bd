use davis_edi::adder::{Event, EventAdder};

fn ev(x: i16, y: i16, t: i64, on: bool) -> Event {
    Event { x, y, t, on }
}

#[test]
fn opposite_polarities_cancel() {
    let mut a = EventAdder::new(4, 4, 0, 1000);
    a.route_event(&ev(2, 3, 100, true));
    assert_eq!(a.intervals_ref()[0].counts.at(2, 3), 1);
    a.route_event(&ev(2, 3, 600, false));
    assert_eq!(a.intervals_ref()[0].counts.at(2, 3), 0);
}

#[test]
fn routing_uses_floor_index() {
    let mut a = EventAdder::new(4, 4, 0, 1000);
    a.route_event(&ev(1, 1, 7999, true));
    assert_eq!(a.intervals_ref().len(), 8);
    assert_eq!(a.intervals_ref()[7].idx, 7);
    assert_eq!(a.intervals_ref()[7].counts.at(1, 1), 1);
    assert_eq!(a.intervals_ref()[6].counts.at(1, 1), 0);
    // 8000 is the first timestamp of the next interval
    a.route_event(&ev(1, 1, 8000, true));
    assert_eq!(a.intervals_ref().len(), 9);
    assert_eq!(a.intervals_ref()[8].counts.at(1, 1), 1);
}

#[test]
fn events_before_epoch_are_ignored() {
    let mut a = EventAdder::new(4, 4, 5000, 1000);
    a.process_event(&ev(1, 1, 4999, true));
    assert_eq!(a.intervals_ref().len(), 0);
    a.process_event(&ev(1, 1, 5000, true));
    assert_eq!(a.intervals_ref().len(), 1);
    assert_eq!(a.intervals_ref()[0].counts.at(1, 1), 1);
}

#[test]
fn pops_are_fifo_by_index() {
    let mut a = EventAdder::new(2, 2, 0, 1000);
    a.set_coefficient(100);
    a.route_event(&ev(0, 0, 2500, true));
    assert_eq!(a.intervals_ref()[0].idx, 0);
    a.pop_interval();
    assert_eq!(a.intervals_popped(), 1);
    assert_eq!(a.intervals_ref()[0].idx, 1);
    a.pop_interval();
    assert_eq!(a.intervals_ref()[0].idx, 2);
    a.pop_interval();
    let imgs = a.take_output();
    assert_eq!(imgs.len(), 3);
    // the event sits in interval 2; its scaled contribution enters the
    // latent log only at the third pop
    assert_eq!(imgs[0].log_delta.at(0, 0), 0);
    assert_eq!(imgs[1].log_delta.at(0, 0), 0);
    assert_eq!(imgs[2].log_delta.at(0, 0), 100);
}

#[test]
fn bookend_partition_is_exhaustive_and_exclusive() {
    let mut a = EventAdder::new(4, 4, 0, 1000);
    assert!(a.try_stage_frame(vec![0u8; 16], 1500, 3500));
    // begin bookend: interval 1, boundary offset 500
    a.process_event(&ev(0, 0, 1200, true)); // intra 200, at/before: outside
    a.process_event(&ev(1, 0, 1800, false)); // intra 800, after: during
    // end bookend: interval 3, boundary offset 500
    a.process_event(&ev(0, 1, 3200, true)); // intra 200, strictly before: during
    a.process_event(&ev(1, 1, 3900, true)); // intra 900, at/after: outside
    let b = a.blur_info_ref().as_ref().unwrap();
    assert_eq!(b.begin_bookend.interval_idx, 1);
    assert_eq!(b.begin_bookend.boundary_offset, 500);
    assert_eq!(b.end_bookend.interval_idx, 3);
    assert_eq!(b.begin_bookend.observed, 2);
    assert_eq!(b.begin_bookend.outside.at(0, 0), 1);
    assert_eq!(b.begin_bookend.during.at(1, 0), -1);
    assert_eq!(b.end_bookend.observed, 2);
    assert_eq!(b.end_bookend.during.at(0, 1), 1);
    assert_eq!(b.end_bookend.outside.at(1, 1), 1);
    // absolute counts of both partitions cover everything observed
    let begin_total = b.begin_bookend.outside.at(0, 0).unsigned_abs()
        + b.begin_bookend.during.at(1, 0).unsigned_abs();
    assert_eq!(begin_total, b.begin_bookend.observed);
}

#[test]
fn edge_samples_cover_exactly_the_exposure() {
    let mut a = EventAdder::new(4, 4, 0, 1000);
    assert!(a.try_stage_frame(vec![0u8; 16], 1500, 3500));
    // pivot is interval 2, so its start time is 2000
    a.process_event(&ev(0, 0, 1499, true)); // before the exposure: no sample
    a.process_event(&ev(0, 0, 1800, true));
    a.process_event(&ev(0, 0, 3200, false));
    a.process_event(&ev(0, 0, 3500, true)); // at the end boundary: no sample
    assert_eq!(a.edge_sample_count(), 2);
    assert_eq!(a.edge_sample(0).delta_t, 200); // 2000 - 1800
    assert!(a.edge_sample(0).on);
    assert_eq!(a.edge_sample(1).delta_t, -1200); // 2000 - 3200
    assert!(!a.edge_sample(1).on);
}

#[test]
fn golden_single_window() {
    // 100x100 all-zero reference frame, exposure [1000, 2000] us, interval
    // duration 1000 us, ten positive events at (50, 50, 1500), coefficient
    // fixed at 0.1.
    let mut a = EventAdder::new(100, 100, 0, 1000);
    a.set_coefficient(100);
    assert!(a.try_stage_frame(vec![0u8; 10000], 1000, 2000));
    for _ in 0..10 {
        a.process_event(&ev(50, 50, 1500, true));
    }
    // the first event past the end bookend resolves the window
    a.process_event(&ev(0, 0, 3200, true));
    assert!(a.has_pending());
    let avg = {
        let plan = a.pending_plan().as_ref().unwrap();
        assert_eq!(plan.begin_idx, 1);
        assert_eq!(plan.end_idx, 2);
        assert_eq!(plan.pivot_idx, 1);
        assert_eq!(plan.counts.len(), 2);
        assert_eq!(plan.counts[0].at(50, 50), 10);
        assert_eq!(plan.counts[1].at(50, 50), 0);
        assert_eq!(plan.blurred.len(), 10000);
        assert_eq!(plan.blurred[0], 0);
        // the weighted average of exponentials of cumulative scaled sums
        // at (50, 50), per the reconstruction formula
        let c = 0.1f64;
        let prop1 = (plan.interval_t - plan.begin_offset) as f64 / plan.interval_t as f64;
        let prop2 = plan.end_offset as f64 / plan.interval_t as f64;
        let left = (-c * plan.counts[0].at(50, 50) as f64).exp();
        let right = (c * plan.counts[1].at(50, 50) as f64).exp();
        (prop1 * left + prop2 * right) / (prop1 + prop2)
    };
    // the numeric regression anchor: exp(0 - 10 * 0.1)
    assert!((avg - (0.0f64 - 10.0 * 0.1).exp()).abs() < 1e-12);
    a.emit_window(100);
    let imgs = a.take_output();
    // one pre-window interval, the pivot anchor, one forward image
    assert_eq!(imgs.len(), 3);
    assert_eq!(imgs[0].anchor, 0);
    assert_eq!(imgs[0].log_delta.at(50, 50), 0);
    assert_eq!(imgs[1].anchor, 1);
    assert_eq!(imgs[1].log_delta.at(50, 50), 0);
    assert_eq!(imgs[2].anchor, 1);
    // ten events times 0.1, in milli-log units
    assert_eq!(imgs[2].log_delta.at(50, 50), 1000);
    assert!(!a.has_pending());
    assert_eq!(a.intervals_popped(), 2);
}

#[test]
fn backward_pass_subtracts_toward_the_window_start() {
    // a four-interval window so the pivot sits strictly inside it
    let mut a = EventAdder::new(2, 2, 0, 1000);
    a.set_coefficient(200);
    assert!(a.try_stage_frame(vec![0u8; 4], 0, 3999));
    // begin interval 0, end interval 3, pivot 0 + 3 / 2 = 1
    a.process_event(&ev(0, 0, 500, true)); // interval 0
    a.process_event(&ev(0, 0, 1500, true)); // interval 1 (pivot)
    a.process_event(&ev(0, 0, 2500, true)); // interval 2
    a.process_event(&ev(0, 0, 4200, true)); // triggers the resolution
    assert!(a.has_pending());
    a.emit_window(200);
    let imgs = a.take_output();
    assert_eq!(imgs.len(), 4);
    // image 0 is one interval before the pivot: minus the scaled counts of
    // interval 0
    assert_eq!(imgs[0].log_delta.at(0, 0), -200);
    // the pivot's latent image is the anchor itself
    assert_eq!(imgs[1].log_delta.at(0, 0), 0);
    // forward: intervals 1 then 2 accumulate
    assert_eq!(imgs[2].log_delta.at(0, 0), 200);
    assert_eq!(imgs[3].log_delta.at(0, 0), 400);
    // the end-bookend interval (3) stays live for the next window
    assert_eq!(a.intervals_popped(), 3);
    assert_eq!(a.intervals_ref()[0].idx, 3);
}

#[test]
fn staged_next_window_swaps_in_after_emission() {
    let mut a = EventAdder::new(2, 2, 0, 1000);
    assert!(a.try_stage_frame(vec![1u8; 4], 1000, 2000));
    assert!(a.try_stage_frame(vec![2u8; 4], 3000, 4000));
    // a third frame cannot be staged while one is already waiting
    assert!(!a.try_stage_frame(vec![3u8; 4], 5000, 6000));
    a.process_event(&ev(0, 0, 3200, true));
    assert!(a.has_pending());
    a.emit_window(300);
    let b = a.blur_info_ref().as_ref().unwrap();
    assert_eq!(b.exposure_begin_t, 3000);
    assert_eq!(b.blurred[0], 2);
    assert_eq!(a.edge_sample_count(), 0);
}

#[test]
fn stage_frame_rejects_invalid_input() {
    let mut a = EventAdder::new(4, 4, 0, 1000);
    // wrong pixel count
    assert!(!a.try_stage_frame(vec![0u8; 15], 1000, 2000));
    // exposure ends before it begins
    assert!(!a.try_stage_frame(vec![0u8; 16], 2000, 1000));
    // exposure before the epoch
    let mut b = EventAdder::new(4, 4, 5000, 1000);
    assert!(!b.try_stage_frame(vec![0u8; 16], 1000, 2000));
}

#[test]
fn exposure_within_a_single_interval() {
    // the exposure fits entirely inside one output interval, so both
    // bookends share it and the pivot is that interval itself
    let mut a = EventAdder::new(2, 2, 0, 1000);
    a.set_coefficient(100);
    assert!(a.try_stage_frame(vec![0u8; 4], 1200, 1800));
    a.process_event(&ev(0, 0, 1500, true));
    {
        let b = a.blur_info_ref().as_ref().unwrap();
        assert_eq!(b.begin_bookend.interval_idx, 1);
        assert_eq!(b.end_bookend.interval_idx, 1);
        assert_eq!(b.pivot_idx, 1);
        // the begin bookend wins when both share the interval
        assert_eq!(b.begin_bookend.observed, 1);
        assert_eq!(b.end_bookend.observed, 0);
    }
    a.process_event(&ev(0, 0, 2500, true));
    assert!(a.has_pending());
    a.emit_window(100);
    let imgs = a.take_output();
    // one pre-window pop and the pivot anchor image alone
    assert_eq!(imgs.len(), 2);
    assert_eq!(imgs[1].anchor, 1);
    assert_eq!(imgs[1].log_delta.at(0, 0), 0);
    // the shared interval stays live as the next window's tail
    assert_eq!(a.intervals_popped(), 1);
    assert_eq!(a.intervals_ref()[0].idx, 1);
}

#[test]
fn two_windows_resolve_in_sequence() {
    let mut a = EventAdder::new(2, 2, 0, 1000);
    a.set_coefficient(500);
    assert!(a.try_stage_frame(vec![0u8; 4], 1000, 2000));
    a.process_event(&ev(1, 1, 1500, false));
    assert!(a.try_stage_frame(vec![0u8; 4], 4000, 5000));
    a.process_event(&ev(0, 0, 3200, true)); // resolves the first window
    assert!(a.has_pending());
    a.emit_window(500);
    let first = a.take_output();
    assert_eq!(first.len(), 3);
    assert_eq!(first[2].log_delta.at(1, 1), -500); // one off-event at 0.5
    a.process_event(&ev(0, 0, 6200, true)); // resolves the second window
    assert!(a.has_pending());
    a.emit_window(500);
    let second = a.take_output();
    assert!(second.len() > 0);
    // images of the second window carry the next anchor
    assert_eq!(second[second.len() - 1].anchor, 2);
    assert_eq!(a.intervals_popped(), 5);
}

#[test]
fn event_partitions_split_at_the_exposure() {
    let mut a = EventAdder::new(4, 4, 0, 1000);
    assert!(a.try_stage_frame(vec![0u8; 16], 1500, 3500));
    a.process_event(&ev(0, 0, 1200, true)); // before the exposure
    a.process_event(&ev(1, 0, 1800, false)); // during
    a.process_event(&ev(2, 0, 3499, true)); // during (end is exclusive)
    a.process_event(&ev(3, 0, 3600, true)); // after
    let (before, during, after) = a.take_partitions();
    assert_eq!(before.len(), 1);
    assert_eq!(before[0].t, 1200);
    assert_eq!(during.len(), 2);
    assert_eq!(during[0].t, 1800);
    assert_eq!(during[1].t, 3499);
    assert_eq!(after.len(), 1);
    assert_eq!(after[0].t, 3600);
    // taking drains them
    let (b2, d2, a2) = a.take_partitions();
    assert!(b2.is_empty() && d2.is_empty() && a2.is_empty());
}
