use vstd::prelude::*;
use vstd::string::StringSliceAdditionalSpecFns;
use crate::adder::{EventAdder, LatentImage};

verus! {

/// Where the packet stream comes from. File replay has no real-time
/// latency, so latency-adaptive control never acts on it.
#[derive(Clone, Copy, Debug, PartialEq, Eq, Structural)]
pub enum SourceMode {
    File,
    Socket,
    Tcp,
}

/// One captured reference frame as the ingestion collaborator hands it
/// over: raw pixels (row-major, one byte per pixel) and the absolute time
/// span of its exposure.
pub struct BlurredInput {
    pub image: Vec<u8>,
    pub exposure_begin_t: i64,
    pub exposure_end_t: i64,
}

/// A fatal reconstruction failure.
#[derive(Debug)]
pub struct ReconstructionError {
    message: String,
}

impl ReconstructionError {
    pub closed spec fn spec_message(self) -> Seq<char> {
        self.message@
    }

    pub fn _new(message: &str) -> (r: ReconstructionError)
        ensures
            r.spec_message() == message@,
    {
        ReconstructionError { message: message.to_owned() }
    }

    pub fn message(&self) -> (r: &String)
        ensures
            r@ == self.spec_message(),
    {
        &self.message
    }
}

/// What can go wrong while setting a reconstruction up or feeding it.
#[derive(Debug)]
pub enum ReconstructorError {
    /// The packet stream is malformed.
    ParseError(String),
    /// A dense-image collaborator failed.
    ImageError(String),
    /// The configuration is invalid.
    ArgumentError(String),
}

pub open spec fn spec_source_mode(s: Seq<u8>) -> Option<SourceMode> {
    if s.len() == 4 && s[0] == 102u8 && s[1] == 105u8 && s[2] == 108u8 && s[3] == 101u8 {
        Some(SourceMode::File)
    } else if s.len() == 6 && s[0] == 115u8 && s[1] == 111u8 && s[2] == 99u8 && s[3] == 107u8
        && s[4] == 101u8 && s[5] == 116u8 {
        Some(SourceMode::Socket)
    } else if s.len() == 3 && s[0] == 116u8 && s[1] == 99u8 && s[2] == 112u8 {
        Some(SourceMode::Tcp)
    } else {
        None
    }
}

/// Checks the configured source mode before ingestion starts: only "file",
/// "socket" and "tcp" are valid; anything else is an argument error.
pub fn parse_source_mode(mode: &str) -> (r: Result<SourceMode, ReconstructorError>)
    ensures
        r is Ok <==> spec_source_mode(mode.spec_bytes()) is Some,
        r is Ok ==> r.unwrap() == spec_source_mode(mode.spec_bytes()).unwrap(),
        r is Err ==> r.unwrap_err() is ArgumentError,
{
    let bs = mode.as_bytes();
    let n = bs.len();
    if n == 4 && bs[0] == 102 && bs[1] == 105 && bs[2] == 108 && bs[3] == 101 {
        Ok(SourceMode::File)
    } else if n == 6 && bs[0] == 115 && bs[1] == 111 && bs[2] == 99 && bs[3] == 107 && bs[4] == 101
        && bs[5] == 116 {
        Ok(SourceMode::Socket)
    } else if n == 3 && bs[0] == 116 && bs[1] == 99 && bs[2] == 112 {
        Ok(SourceMode::Tcp)
    } else {
        Err(ReconstructorError::ArgumentError(String::new()))
    }
}

/// The latency feedback rule: whether coefficient optimization is on after
/// one refill cycle that measured `latency_ms`.
pub open spec fn spec_latency_control(
    mode: SourceMode,
    optimize_controller: bool,
    optimize_config: bool,
    currently_on: bool,
    latency_ms: u64,
    target_ms: u64,
) -> bool {
    if mode == SourceMode::File {
        // replay has no real-time latency; never touch the switch
        currently_on
    } else if optimize_controller && optimize_config && currently_on && latency_ms > target_ms {
        false
    } else if optimize_controller && optimize_config && !currently_on && latency_ms <= target_ms {
        true
    } else {
        currently_on
    }
}

/// One latency-control decision. Within a refill cycle it is taken once,
/// so the switch cannot thrash; see `lemma_latency_threshold`.
pub fn latency_control(
    mode: SourceMode,
    optimize_controller: bool,
    optimize_config: bool,
    currently_on: bool,
    latency_ms: u64,
    target_ms: u64,
) -> (r: bool)
    ensures
        r == spec_latency_control(
            mode,
            optimize_controller,
            optimize_config,
            currently_on,
            latency_ms,
            target_ms,
        ),
{
    if mode == SourceMode::File {
        currently_on
    } else if optimize_controller && optimize_config && currently_on && latency_ms > target_ms {
        false
    } else if optimize_controller && optimize_config && !currently_on && latency_ms <= target_ms {
        true
    } else {
        currently_on
    }
}

/// When latency-adaptive control is active on a live source, the switch is
/// a pure threshold: after one decision, optimization is on exactly when
/// the measured latency is within the target. In particular the same
/// measurement can never both enable and disable it.
pub proof fn lemma_latency_threshold(
    mode: SourceMode,
    currently_on: bool,
    latency_ms: u64,
    target_ms: u64,
)
    requires
        mode != SourceMode::File,
    ensures
        spec_latency_control(mode, true, true, currently_on, latency_ms, target_ms) == (latency_ms
            <= target_ms),
{
}

/// File-replay sources never enable latency control: a switch that starts
/// off stays off forever, whatever the measured latency.
pub proof fn lemma_latency_file_replay(
    optimize_controller: bool,
    optimize_config: bool,
    currently_on: bool,
    latency_ms: u64,
    target_ms: u64,
)
    ensures
        spec_latency_control(
            SourceMode::File,
            optimize_controller,
            optimize_config,
            currently_on,
            latency_ms,
            target_ms,
        ) == currently_on,
{
}

/// The pipeline controller: owns the engine, the queue of finished output
/// frames, and the latency feedback switch.
pub struct Reconstructor {
    pub show_display: bool,
    pub show_blurred_display: bool,
    pub event_adder: EventAdder,
    pub latent_image_queue: Vec<LatentImage>,
    pub optimize_c: bool,
    pub optimize_controller: bool,
    pub target_latency: u64,
    pub mode: SourceMode,
}

impl Reconstructor {
    pub open spec fn queue(self) -> Seq<LatentImage> {
        self.latent_image_queue@
    }

    pub open spec fn spec_mode(self) -> SourceMode {
        self.mode
    }

    pub open spec fn spec_optimize_config(self) -> bool {
        self.optimize_c
    }

    pub open spec fn spec_controller(self) -> bool {
        self.optimize_controller
    }

    pub open spec fn spec_target(self) -> int {
        self.target_latency as int
    }

    pub open spec fn wf(self) -> bool {
        self.event_adder.wf()
    }

    pub fn new(
        height: usize,
        width: usize,
        t_shift: i64,
        output_frame_length: i64,
        mode: SourceMode,
        start_c_milli: u32,
        optimize_c: bool,
        optimize_c_frequency: u32,
        optimize_controller: bool,
        display: bool,
        blurred_display: bool,
        target_latency_ms: u64,
    ) -> (r: Reconstructor)
        requires
            0 < output_frame_length,
            0 <= t_shift,
            width * height <= usize::MAX,
            start_c_milli <= crate::adder::COEFF_DENOM,
            0 < target_latency_ms,
        ensures
            r.wf(),
            r.queue().len() == 0,
            r.spec_mode() == mode,
            r.spec_optimize_config() == optimize_c,
            r.spec_controller() == optimize_controller,
            r.spec_target() == target_latency_ms,
            r.event_adder.spec_width() == width,
            r.event_adder.spec_height() == height,
            r.event_adder.spec_t_shift() == t_shift,
            r.event_adder.spec_interval_t() == output_frame_length,
            r.event_adder.spec_optimize() == optimize_c,
            r.event_adder.plan() is None,
            r.event_adder.spec_current_c() == start_c_milli,
    {
        let mut event_adder = EventAdder::new(height, width, t_shift, output_frame_length);
        event_adder.set_optimize(optimize_c, optimize_c_frequency);
        event_adder.set_coefficient(start_c_milli);
        Reconstructor {
            show_display: display,
            show_blurred_display: blurred_display,
            event_adder,
            latent_image_queue: Vec::new(),
            optimize_c,
            optimize_controller,
            target_latency: target_latency_ms,
            mode,
        }
    }

    /// Turns automatic coefficient search on or off, at the given
    /// once-per-`frequency`-frames cadence.
    pub fn set_optimize_c(&mut self, optimize: bool, frequency: u32)
        requires
            old(self).wf(),
        ensures
            final(self).wf(),
            final(self).spec_optimize_config() == optimize,
            final(self).event_adder.spec_optimize() == optimize,
            final(self).event_adder.spec_frequency() == frequency,
            final(self).queue() == old(self).queue(),
            final(self).spec_mode() == old(self).spec_mode(),
            final(self).spec_controller() == old(self).spec_controller(),
            final(self).spec_target() == old(self).spec_target(),
    {
        self.optimize_c = optimize;
        self.event_adder.set_optimize(optimize, frequency);
    }

    /// Hands out the next finished frame: the head of the output queue, or
    /// nothing when the caller must first refill the queue by feeding more
    /// packets through the engine.
    pub fn next(&mut self) -> (r: Option<LatentImage>)
        requires
            old(self).wf(),
        ensures
            final(self).wf(),
            old(self).queue().len() == 0 ==> r is None && final(self).queue()
                == old(self).queue(),
            old(self).queue().len() > 0 ==> r is Some && r.unwrap() == old(self).queue()[0]
                && final(self).queue() == old(self).queue().remove(0),
            final(self).event_adder == old(self).event_adder,
            final(self).spec_mode() == old(self).spec_mode(),
            final(self).spec_optimize_config() == old(self).spec_optimize_config(),
            final(self).spec_controller() == old(self).spec_controller(),
            final(self).spec_target() == old(self).spec_target(),
    {
        if self.latent_image_queue.len() == 0 {
            None
        } else {
            Some(self.latent_image_queue.remove(0))
        }
    }

    /// Stages a captured reference frame on the engine; false means the
    /// frame was rejected (see `EventAdder::try_stage_frame`).
    pub fn stage_frame(&mut self, input: BlurredInput) -> (ok: bool)
        requires
            old(self).wf(),
        ensures
            final(self).wf(),
            ok == old(self).event_adder.stageable(
                input.image@.len() as int,
                input.exposure_begin_t as int,
                input.exposure_end_t as int,
            ),
            final(self).queue() == old(self).queue(),
            final(self).spec_mode() == old(self).spec_mode(),
            final(self).spec_optimize_config() == old(self).spec_optimize_config(),
            final(self).spec_controller() == old(self).spec_controller(),
            final(self).spec_target() == old(self).spec_target(),
    {
        self.event_adder.try_stage_frame(
            input.image,
            input.exposure_begin_t,
            input.exposure_end_t,
        )
    }

    /// Appends freshly emitted latent images to the output queue.
    pub fn enqueue_images(&mut self, images: Vec<LatentImage>)
        requires
            old(self).wf(),
        ensures
            final(self).wf(),
            final(self).queue() == old(self).queue() + images@,
            final(self).event_adder == old(self).event_adder,
            final(self).spec_mode() == old(self).spec_mode(),
            final(self).spec_optimize_config() == old(self).spec_optimize_config(),
            final(self).spec_controller() == old(self).spec_controller(),
            final(self).spec_target() == old(self).spec_target(),
    {
        let mut images = images;
        self.latent_image_queue.append(&mut images);
    }

    pub fn queue_len(&self) -> (n: usize)
        ensures
            n == self.queue().len(),
    {
        self.latent_image_queue.len()
    }

    /// Applies the latency feedback rule after one refill cycle that
    /// measured `latency_ms`, toggling the engine's coefficient search.
    pub fn apply_latency_control(&mut self, latency_ms: u64)
        requires
            old(self).wf(),
        ensures
            final(self).wf(),
            final(self).event_adder.spec_optimize() == spec_latency_control(
                old(self).spec_mode(),
                old(self).spec_controller(),
                old(self).spec_optimize_config(),
                old(self).event_adder.spec_optimize(),
                latency_ms,
                old(self).target_latency,
            ),
            final(self).queue() == old(self).queue(),
            final(self).spec_mode() == old(self).spec_mode(),
            final(self).spec_optimize_config() == old(self).spec_optimize_config(),
            final(self).spec_controller() == old(self).spec_controller(),
            final(self).spec_target() == old(self).spec_target(),
    {
        let on = latency_control(
            self.mode,
            self.optimize_controller,
            self.optimize_c,
            self.event_adder.optimize_enabled(),
            latency_ms,
            self.target_latency,
        );
        let frequency: u32 = 1;
        self.event_adder.set_optimize(on, frequency);
    }
}

} // verus!
