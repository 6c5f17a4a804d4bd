use aedat::events_generated::{
    finish_size_prefixed_event_packet_buffer, Event as FbEvent, EventPacket, EventPacketArgs,
};
use aedat::frame_generated::{
    finish_size_prefixed_frame_buffer, Frame, FrameArgs, FrameFormat,
};
use davis_edi::adder::EventAdder;

fn event_packet_bytes(events: &[FbEvent]) -> Vec<u8> {
    let mut fbb = flatbuffers::FlatBufferBuilder::new();
    let elements = fbb.create_vector(events);
    let packet = EventPacket::create(&mut fbb, &EventPacketArgs { elements: Some(elements) });
    finish_size_prefixed_event_packet_buffer(&mut fbb, packet);
    fbb.finished_data().to_vec()
}

fn frame_packet_bytes(pixels: &[u8], exposure_begin_t: i64, exposure_end_t: i64) -> Vec<u8> {
    let mut fbb = flatbuffers::FlatBufferBuilder::new();
    let px = fbb.create_vector(pixels);
    let frame = Frame::create(
        &mut fbb,
        &FrameArgs {
            t: exposure_begin_t,
            begin_t: exposure_begin_t,
            end_t: exposure_end_t,
            exposure_begin_t,
            exposure_end_t,
            format: FrameFormat::Gray,
            width: 10,
            height: 10,
            offset_x: 0,
            offset_y: 0,
            pixels: Some(px),
        },
    );
    finish_size_prefixed_frame_buffer(&mut fbb, frame);
    fbb.finished_data().to_vec()
}

#[test]
fn event_packets_decode_and_route() {
    let events: Vec<FbEvent> = (0..10).map(|_| FbEvent::new(1500, 5, 7, true)).collect();
    let buffer = event_packet_bytes(&events);
    let mut a = EventAdder::new(10, 10, 0, 1000);
    let imgs = a.add_events(&buffer).expect("well-formed packet");
    assert!(imgs.is_empty());
    assert_eq!(a.intervals_ref()[1].counts.at(5, 7), 10);
}

#[test]
fn malformed_packets_are_fatal() {
    let mut a = EventAdder::new(10, 10, 0, 1000);
    assert!(a.add_events(&vec![0u8, 1, 2]).is_none());
}

#[test]
fn frame_packets_stage_the_exposure_window() {
    let mut a = EventAdder::new(10, 10, 0, 1000);
    let buffer = frame_packet_bytes(&vec![9u8; 100], 1000, 2000);
    assert!(a.stage_frame_packet(&buffer));
    let b = a.blur_info_ref().as_ref().unwrap();
    assert_eq!(b.exposure_begin_t, 1000);
    assert_eq!(b.exposure_end_t, 2000);
    assert_eq!(b.blurred.len(), 100);
    assert_eq!(b.blurred[0], 9);
    assert!(!a.stage_frame_packet(&vec![4u8, 4]));
}

#[test]
fn whole_packets_resolve_windows_inline() {
    // the fixed-coefficient path end to end: a frame, its events, and the
    // event that closes the window, all through packets
    let mut a = EventAdder::new(10, 10, 0, 1000);
    a.set_coefficient(100);
    assert!(a.stage_frame_packet(&frame_packet_bytes(&vec![0u8; 100], 1000, 2000)));
    let during: Vec<FbEvent> = (0..10).map(|_| FbEvent::new(1500, 5, 5, true)).collect();
    let imgs = a.add_events(&event_packet_bytes(&during)).unwrap();
    assert!(imgs.is_empty());
    let closing = [FbEvent::new(3200, 0, 0, true)];
    let imgs = a.add_events(&event_packet_bytes(&closing)).unwrap();
    assert_eq!(imgs.len(), 3);
    assert_eq!(imgs[2].log_delta.at(5, 5), 1000);
    assert!(!a.has_pending());
}

#[test]
fn stale_events_are_fatal() {
    let mut a = EventAdder::new(10, 10, 0, 1000);
    a.set_coefficient(100);
    assert!(a.stage_frame_packet(&frame_packet_bytes(&vec![0u8; 100], 1000, 2000)));
    // resolving the window consumes intervals 0 and 1
    let closing = [FbEvent::new(3200, 0, 0, true)];
    assert!(a.add_events(&event_packet_bytes(&closing)).is_some());
    // an event from interval 0 now lies behind the consumed stream
    let stale = [FbEvent::new(500, 0, 0, true)];
    assert!(a.add_events(&event_packet_bytes(&stale)).is_none());
}

#[test]
fn events_off_the_sensor_are_fatal() {
    let mut a = EventAdder::new(10, 10, 0, 1000);
    let bad = [FbEvent::new(100, 50, 2, true)];
    assert!(a.add_events(&event_packet_bytes(&bad)).is_none());
}
