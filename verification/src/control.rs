//! Decisions of the main loop that do not involve audio or pixels: the
//! synth variant chosen by the finger count, the tracker's sampling
//! stride, and the camera watchdog.
use vstd::prelude::*;

verus! {

/// Orchestration preset selected by the number of raised fingers.
#[derive(PartialEq, Eq, Structural, Clone, Copy, Debug)]
pub enum Variant {
    Bass,
    Lead,
    Pad,
    Keys,
    Haze,
}

pub open spec fn variant_spec(finger_count: int) -> Variant {
    if finger_count == 0 {
        Variant::Bass
    } else if finger_count == 1 {
        Variant::Lead
    } else if finger_count == 2 {
        Variant::Pad
    } else if finger_count == 3 {
        Variant::Keys
    } else {
        Variant::Haze
    }
}

/// Four or more fingers all select Haze, and fewer fingers each select a
/// different preset, none of them Haze.
pub proof fn lemma_variant_saturates(n: int, m: int)
    requires
        0 <= n,
        0 <= m,
    ensures
        n >= 4 ==> variant_spec(n) == Variant::Haze,
        n >= 4 && m >= 4 ==> variant_spec(n) == variant_spec(m),
        n < 4 ==> variant_spec(n) != Variant::Haze,
        n < 4 && m < 4 && n != m ==> variant_spec(n) != variant_spec(m),
{
}

/// Preset for `finger_count` raised fingers: Bass, Lead, Pad, Keys, and
/// Haze for four or more.
pub fn variant_for(finger_count: usize) -> (v: Variant)
    ensures
        v == variant_spec(finger_count as int),
        finger_count == 0 ==> v == Variant::Bass,
        finger_count == 1 ==> v == Variant::Lead,
        finger_count == 2 ==> v == Variant::Pad,
        finger_count == 3 ==> v == Variant::Keys,
        finger_count >= 4 ==> v == Variant::Haze,
{
    let fc = if finger_count < 4 {
        finger_count
    } else {
        4
    };
    match fc {
        0 => Variant::Bass,
        1 => Variant::Lead,
        2 => Variant::Pad,
        3 => Variant::Keys,
        _ => Variant::Haze,
    }
}

impl Variant {
    /// Name shown in the status line.
    pub fn label(&self) -> (s: &'static str)
        ensures
            *self == Variant::Bass ==> s@ == "Bass"@,
            *self == Variant::Lead ==> s@ == "Lead"@,
            *self == Variant::Pad ==> s@ == "Pad"@,
            *self == Variant::Keys ==> s@ == "Keys"@,
            *self == Variant::Haze ==> s@ == "Haze"@,
    {
        match self {
            Variant::Bass => "Bass",
            Variant::Lead => "Lead",
            Variant::Pad => "Pad",
            Variant::Keys => "Keys",
            Variant::Haze => "Haze",
        }
    }

    /// Oscillator waveform index (0 sine, 1 saw, 2 square, 3 triangle).
    pub fn osc_type(&self) -> (k: u8)
        ensures
            k == (match *self {
                Variant::Bass => 0u8,
                Variant::Lead => 1u8,
                Variant::Pad => 3u8,
                Variant::Keys => 2u8,
                Variant::Haze => 1u8,
            }),
    {
        match self {
            Variant::Bass => 0,
            Variant::Lead => 1,
            Variant::Pad => 3,
            Variant::Keys => 2,
            Variant::Haze => 1,
        }
    }

    /// Filter index (0 low-pass, 1 band-pass, 2 high-pass).
    pub fn filter_type(&self) -> (k: u8)
        ensures
            k == (match *self {
                Variant::Pad => 1u8,
                Variant::Haze => 2u8,
                _ => 0u8,
            }),
    {
        match self {
            Variant::Pad => 1,
            Variant::Haze => 2,
            _ => 0,
        }
    }
}

/// Sampling stride of the motion tracker for a frame `frame_w` pixels wide:
/// about 80 cells across, never finer than every 4th pixel.
pub fn sampling_step(frame_w: usize) -> (step: usize)
    ensures
        step == (if frame_w / 80 > 4 {
            frame_w / 80
        } else {
            4
        }),
{
    let s = frame_w / 80;
    if s > 4 {
        s
    } else {
        4
    }
}

/// Consecutive failed frames after which the stream is reopened.
pub const CAM_RESTART_EVERY: u32 = 30;

/// Nanoseconds without a good frame after which the camera is given up.
pub const CAM_STALL_TIMEOUT_NS: u128 = 10_000_000_000;

/// Counts consecutive camera failures.
pub struct CameraWatchdog {
    pub errors: u32,
}

impl CameraWatchdog {
    pub fn new() -> (w: Self)
        ensures
            w.errors == 0,
    {
        CameraWatchdog { errors: 0 }
    }

    /// A frame arrived: the failure count starts over.
    pub fn frame_ok(&mut self)
        ensures
            final(self).errors == 0,
    {
        self.errors = 0;
    }

    /// A frame failed. Returns whether to reopen the stream: on every
    /// `CAM_RESTART_EVERY`-th consecutive failure.
    pub fn frame_error(&mut self) -> (restart_stream: bool)
        requires
            old(self).errors < u32::MAX,
        ensures
            final(self).errors == old(self).errors + 1,
            restart_stream == ((old(self).errors + 1) % (CAM_RESTART_EVERY as int) == 0),
    {
        self.errors = self.errors + 1;
        self.errors % CAM_RESTART_EVERY == 0
    }
}

/// The camera is given up after `since_good_ns` nanoseconds without a good
/// frame when that exceeds `CAM_STALL_TIMEOUT_NS`.
pub fn stalled(since_good_ns: u128) -> (give_up: bool)
    ensures
        give_up == (since_good_ns > CAM_STALL_TIMEOUT_NS),
{
    since_good_ns > CAM_STALL_TIMEOUT_NS
}

/// Within a run of failures the stream is reopened exactly at failures
/// 30, 60, 90, ...: never twice within 30 consecutive failures.
pub proof fn lemma_restart_spacing(e1: int, e2: int)
    requires
        1 <= e1 < e2 < e1 + CAM_RESTART_EVERY,
        e1 % (CAM_RESTART_EVERY as int) == 0,
    ensures
        e2 % (CAM_RESTART_EVERY as int) != 0,
{
}

} // verus!
