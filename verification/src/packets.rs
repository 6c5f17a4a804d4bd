use vstd::prelude::*;
use crate::adder::Event;

verus! {

/// The events a camera packet holds, as `(x, y, t, on)` tuples: a pure
/// function of the packet bytes, or nothing when the bytes are not a
/// well-formed size-prefixed event packet.
pub uninterp spec fn decoded_events(buffer: Seq<u8>) -> Option<Seq<(i16, i16, i64, bool)>>;

/// The frame a camera packet holds: its pixels (row-major, one byte per
/// pixel) and the exposure begin and end timestamps; a pure function of
/// the packet bytes, or nothing when the bytes are not a well-formed
/// size-prefixed frame packet with pixels.
pub uninterp spec fn decoded_frame(buffer: Seq<u8>) -> Option<(Seq<u8>, i64, i64)>;

/// Relies on aedat's flatbuffer event decoder
/// (`events_generated::size_prefixed_root_as_event_packet`): which events
/// a packet holds depends on its bytes alone.
#[verifier::external_body]
pub(crate) fn decode_event_packet(buffer: &Vec<u8>) -> (r: Option<Vec<Event>>)
    ensures
        r is Some <==> decoded_events(buffer@) is Some,
        r is Some ==> {
            let evs = decoded_events(buffer@).unwrap();
            &&& r.unwrap()@.len() == evs.len()
            &&& forall|i: int|
                0 <= i < evs.len() ==> #[trigger] r.unwrap()@[i] == (Event {
                    x: evs[i].0,
                    y: evs[i].1,
                    t: evs[i].2,
                    on: evs[i].3,
                })
        },
{
    match aedat::events_generated::size_prefixed_root_as_event_packet(buffer) {
        Err(_) => None,
        Ok(packet) => match packet.elements() {
            None => Some(Vec::new()),
            Some(els) => Some(
                els.iter().map(|e| Event { x: e.x(), y: e.y(), t: e.t(), on: e.on() }).collect(),
            ),
        },
    }
}

/// Relies on aedat's flatbuffer frame decoder
/// (`frame_generated::size_prefixed_root_as_frame`): the pixels and the
/// exposure bounds depend on the packet bytes alone.
#[verifier::external_body]
pub(crate) fn decode_frame_packet(buffer: &Vec<u8>) -> (r: Option<(Vec<u8>, i64, i64)>)
    ensures
        r is Some <==> decoded_frame(buffer@) is Some,
        r is Some ==> {
            let f = decoded_frame(buffer@).unwrap();
            r.unwrap().0@ == f.0 && r.unwrap().1 == f.1 && r.unwrap().2 == f.2
        },
{
    match aedat::frame_generated::size_prefixed_root_as_frame(buffer) {
        Err(_) => None,
        Ok(frame) => match frame.pixels() {
            None => None,
            Some(px) => Some((px.to_vec(), frame.exposure_begin_t(), frame.exposure_end_t())),
        },
    }
}

} // verus!
