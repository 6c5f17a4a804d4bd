use davis_edi::adder::{Event, EventAdder, LatentImage};
use davis_edi::controller::{
    latency_control, parse_source_mode, BlurredInput, ReconstructionError, Reconstructor,
    ReconstructorError, SourceMode,
};
use davis_edi::image::CountImage;

#[test]
fn source_mode_parsing_checks_the_configuration() {
    assert!(matches!(parse_source_mode("file"), Ok(SourceMode::File)));
    assert!(matches!(parse_source_mode("socket"), Ok(SourceMode::Socket)));
    assert!(matches!(parse_source_mode("tcp"), Ok(SourceMode::Tcp)));
    assert!(matches!(
        parse_source_mode("udp"),
        Err(ReconstructorError::ArgumentError(_))
    ));
    assert!(matches!(
        parse_source_mode(""),
        Err(ReconstructorError::ArgumentError(_))
    ));
}

#[test]
fn reconstruction_error_keeps_its_message() {
    let e = ReconstructionError::_new("no interval to pop");
    assert_eq!(e.message().as_str(), "no interval to pop");
}

#[test]
fn latency_switch_toggles_exactly_at_the_threshold() {
    // live source, controller and config on: the switch follows the
    // threshold, whatever its previous position
    for on in [false, true] {
        assert!(latency_control(SourceMode::Tcp, true, true, on, 49, 50));
        assert!(latency_control(SourceMode::Tcp, true, true, on, 50, 50));
        assert!(!latency_control(SourceMode::Tcp, true, true, on, 51, 50));
    }
    // with the controller or the config off, nothing moves
    assert!(!latency_control(SourceMode::Tcp, false, true, false, 10, 50));
    assert!(latency_control(SourceMode::Tcp, true, false, true, 99, 50));
}

#[test]
fn file_replay_never_enables_latency_control() {
    for lat in [0u64, 50, 10_000] {
        assert!(!latency_control(SourceMode::File, true, true, false, lat, 50));
        assert!(latency_control(SourceMode::File, true, true, true, lat, 50));
    }
}

#[test]
fn latency_control_drives_the_engine_switch() {
    let mut r = Reconstructor::new(
        4, 4, 0, 1000, SourceMode::Tcp, 300, true, 1, true, false, false, 50,
    );
    assert!(r.event_adder.optimize_enabled());
    r.apply_latency_control(80);
    assert!(!r.event_adder.optimize_enabled());
    r.apply_latency_control(50);
    assert!(r.event_adder.optimize_enabled());
    // one decision per refill cycle: re-applying the same measurement does
    // not thrash the switch
    r.apply_latency_control(50);
    assert!(r.event_adder.optimize_enabled());
}

#[test]
fn file_mode_reconstructor_keeps_optimization_off() {
    let mut r = Reconstructor::new(
        4, 4, 0, 1000, SourceMode::File, 300, false, 1, true, false, false, 50,
    );
    r.apply_latency_control(1);
    assert!(!r.event_adder.optimize_enabled());
    r.apply_latency_control(10_000);
    assert!(!r.event_adder.optimize_enabled());
}

#[test]
fn output_queue_hands_out_frames_in_order() {
    let mut r = Reconstructor::new(
        2, 2, 0, 1000, SourceMode::File, 300, false, 1, false, false, false, 50,
    );
    assert!(r.next().is_none());
    let imgs = vec![
        LatentImage { anchor: 0, log_delta: CountImage::zeros(2, 2) },
        LatentImage { anchor: 1, log_delta: CountImage::zeros(2, 2) },
    ];
    r.enqueue_images(imgs);
    assert_eq!(r.queue_len(), 2);
    assert_eq!(r.next().unwrap().anchor, 0);
    assert_eq!(r.next().unwrap().anchor, 1);
    assert!(r.next().is_none());
}

#[test]
fn set_optimize_c_reaches_the_engine() {
    let mut r = Reconstructor::new(
        2, 2, 0, 1000, SourceMode::File, 300, false, 1, false, false, false, 50,
    );
    assert!(!r.event_adder.optimize_enabled());
    r.set_optimize_c(true, 4);
    assert!(r.event_adder.optimize_enabled());
    r.set_optimize_c(false, 4);
    assert!(!r.event_adder.optimize_enabled());
}

#[test]
fn deferred_driver_pauses_for_the_optimizer() {
    // drive the engine the way the optimizing pipeline does: pause at the
    // resolution, search the coefficient, then emit
    let mut a = EventAdder::new(2, 2, 0, 1000);
    assert!(a.try_stage_frame(vec![0u8; 4], 1000, 2000));
    for t in [1200i64, 1400, 1600] {
        a.process_event(&Event { x: 0, y: 0, t, on: true });
    }
    a.process_event(&Event { x: 1, y: 1, t: 3500, on: true });
    assert!(a.has_pending());
    let energies: Vec<i64> = vec![9, 4, 1, 0, 2, 6];
    let k = a.optimize_c(&energies);
    assert_eq!(k, 3);
    let c = a.current_coefficient();
    assert_eq!(c, 300);
    a.emit_window(c);
    let imgs = a.take_output();
    // pre-window interval 0, pivot anchor, forward image for interval 1
    assert_eq!(imgs.len(), 3);
    // three positive events scaled by 0.3, in milli-log units
    assert_eq!(imgs[2].log_delta.at(0, 0), 900);
}

#[test]
fn staging_through_the_controller() {
    let mut r = Reconstructor::new(
        2, 2, 0, 1000, SourceMode::File, 300, false, 1, false, false, false, 50,
    );
    assert!(r.stage_frame(BlurredInput {
        image: vec![0u8; 4],
        exposure_begin_t: 1000,
        exposure_end_t: 2000,
    }));
    // wrong pixel count: rejected, as any invalid configuration is
    assert!(!r.stage_frame(BlurredInput {
        image: vec![0u8; 3],
        exposure_begin_t: 3000,
        exposure_end_t: 4000,
    }));
}
