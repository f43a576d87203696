//! The looper: a take is recorded from the microphone, committed as a
//! layer, and all layers are mixed into one loop played with the synth.
//! Sample values are opaque here; mixing them is the host's job.
use vstd::prelude::*;
use std::collections::VecDeque;

verus! {

/// Longest take, in samples (ten seconds at 44.1 kHz).
pub const MAX_SAMPLE_LEN: usize = 441000;

/// One committed take.
pub struct SampleLayer<S> {
    pub buffer: Vec<S>,
}

/// Recorder and loop state shared between the audio callback and the UI.
pub struct SamplerState<S> {
    /// The take being recorded.
    pub sample: Vec<S>,
    /// Committed takes, oldest first.
    pub layers: Vec<SampleLayer<S>>,
    /// The current mix of all layers.
    pub mixed_buffer: Vec<S>,
    pub recording: bool,
    /// A non-empty mix is available.
    pub has_sample: bool,
    /// Bumped each time a new mix is installed.
    pub sample_version: u64,
}

/// What the host must do after the space key was handled.
pub enum SpaceAction {
    /// Recording stopped: the host clears the microphone queue and
    /// re-mixes the layers (see `SamplerState::remix_with`).
    Stopped,
    /// Recording started from scratch: the host clears the microphone
    /// queue.
    Started,
}

/// Length of the longest of the first `n` layers (0 when there are none).
pub open spec fn longest_spec<S>(layers: Seq<SampleLayer<S>>, n: int) -> int
    decreases n,
{
    if n <= 0 {
        0
    } else {
        let m = longest_spec(layers, n - 1);
        let l = layers[n - 1].buffer@.len() as int;
        if l > m {
            l
        } else {
            m
        }
    }
}

/// Frames a take of `len` samples can still accept out of `n` offered.
pub open spec fn record_room_spec(recording: bool, len: int, n: int) -> int {
    if recording && len < MAX_SAMPLE_LEN {
        if n < MAX_SAMPLE_LEN - len {
            n
        } else {
            MAX_SAMPLE_LEN - len
        }
    } else {
        0
    }
}

/// The capture queue after appending `s` with at most `max` kept.
pub open spec fn capped_push<S>(q: Seq<S>, s: S, max: int) -> Seq<S> {
    if q.len() + 1 > max {
        q.push(s).drop_first()
    } else {
        q.push(s)
    }
}

/// A take filled only through `record_room` never grows past
/// `MAX_SAMPLE_LEN`, and nothing is accepted while not recording.
pub proof fn lemma_take_stays_bounded(recording: bool, len: int, n: int)
    requires
        0 <= len <= MAX_SAMPLE_LEN,
        n >= 0,
    ensures
        len + record_room_spec(recording, len, n) <= MAX_SAMPLE_LEN,
        0 <= record_room_spec(recording, len, n) <= n,
        !recording ==> record_room_spec(recording, len, n) == 0,
{
}

/// The capture queue never holds more than `max` samples once it is
/// within bounds, and always ends with the newest sample.
pub proof fn lemma_capture_queue_bounded<S>(q: Seq<S>, s: S, max: int)
    requires
        1 <= max,
        q.len() <= max,
    ensures
        capped_push(q, s, max).len() <= max,
        capped_push(q, s, max).last() == s,
        capped_push(q, s, max).len() == if q.len() < max {
            q.len() + 1int
        } else {
            max
        },
{
}

impl<S> SamplerState<S> {
    /// Idle, with no take, layers or mix.
    pub fn new() -> (st: Self)
        ensures
            st.sample@.len() == 0,
            st.layers@.len() == 0,
            st.mixed_buffer@.len() == 0,
            !st.recording,
            !st.has_sample,
            st.sample_version == 0,
    {
        SamplerState {
            sample: Vec::new(),
            layers: Vec::new(),
            mixed_buffer: Vec::new(),
            recording: false,
            has_sample: false,
            sample_version: 0,
        }
    }

    /// The space key. While recording it stops, committing the take as a
    /// new layer when it is not empty; otherwise it clears every layer and
    /// starts recording a fresh take.
    pub fn press_space(&mut self) -> (action: SpaceAction)
        ensures
            old(self).recording ==> {
                &&& action is Stopped
                &&& !final(self).recording
                &&& final(self).sample@.len() == 0
                &&& final(self).layers@.len() == old(self).layers@.len() + if old(self).sample@.len() > 0 {
                    1int
                } else {
                    0int
                }
                &&& forall|i: int|
                    0 <= i < old(self).layers@.len() ==> #[trigger] final(self).layers@[i] == old(self).layers@[i]
                &&& old(self).sample@.len() > 0 ==> final(self).layers@.last().buffer@ == old(self).sample@
                &&& final(self).has_sample == old(self).has_sample
                &&& final(self).mixed_buffer@ == old(self).mixed_buffer@
                &&& final(self).sample_version == old(self).sample_version
            },
            !old(self).recording ==> {
                &&& action is Started
                &&& final(self).recording
                &&& final(self).sample@.len() == 0
                &&& final(self).layers@.len() == 0
                &&& !final(self).has_sample
                &&& final(self).mixed_buffer@ == old(self).mixed_buffer@
                &&& final(self).sample_version == old(self).sample_version
            },
    {
        if self.recording {
            self.recording = false;
            let mut take: Vec<S> = Vec::new();
            std::mem::swap(&mut take, &mut self.sample);
            if take.len() > 0 {
                self.layers.push(SampleLayer { buffer: take });
            }
            SpaceAction::Stopped
        } else {
            self.layers.clear();
            self.sample.clear();
            self.recording = true;
            self.has_sample = false;
            SpaceAction::Started
        }
    }

    /// Length of the longest layer: the length of their mix.
    pub fn longest_layer(&self) -> (n: usize)
        ensures
            n == longest_spec(self.layers@, self.layers@.len() as int),
    {
        let mut m: usize = 0;
        let mut i: usize = 0;
        while i < self.layers.len()
            invariant
                i <= self.layers@.len(),
                m == longest_spec(self.layers@, i as int),
            decreases self.layers@.len() - i,
        {
            let l = self.layers[i].buffer.len();
            if l > m {
                m = l;
            }
            i = i + 1;
        }
        m
    }

    /// Installs a new mix of the layers. With no layers there is nothing to
    /// play: the mix is dropped and `mixed` is ignored. Otherwise `mixed`
    /// becomes the loop and the version is bumped so players reload it.
    pub fn remix_with(&mut self, mixed: Vec<S>)
        requires
            old(self).layers@.len() > 0 ==> old(self).sample_version < u64::MAX,
        ensures
            final(self).sample@ == old(self).sample@,
            final(self).layers@ == old(self).layers@,
            final(self).recording == old(self).recording,
            old(self).layers@.len() == 0 ==> {
                &&& !final(self).has_sample
                &&& final(self).mixed_buffer@.len() == 0
                &&& final(self).sample_version == old(self).sample_version
            },
            old(self).layers@.len() > 0 ==> {
                &&& final(self).has_sample
                &&& final(self).mixed_buffer@ == mixed@
                &&& final(self).sample_version == old(self).sample_version + 1
            },
    {
        if self.layers.len() == 0 {
            self.has_sample = false;
            self.mixed_buffer.clear();
            return;
        }
        self.mixed_buffer = mixed;
        self.has_sample = true;
        self.sample_version = self.sample_version + 1;
    }

    /// How many of `num_frames` new frames the take can still accept: none
    /// unless recording, and never past `MAX_SAMPLE_LEN`.
    pub fn record_room(&self, num_frames: usize) -> (room: usize)
        ensures
            room == record_room_spec(self.recording, self.sample@.len() as int, num_frames as int),
    {
        if self.recording && self.sample.len() < MAX_SAMPLE_LEN {
            let space = MAX_SAMPLE_LEN - self.sample.len();
            if num_frames < space {
                num_frames
            } else {
                space
            }
        } else {
            0
        }
    }
}

/// Appends a microphone sample to the capture queue, dropping the oldest
/// sample once the queue holds more than `max_samples`.
pub fn push_capped<S>(buf: &mut VecDeque<S>, s: S, max_samples: usize)
    ensures
        final(buf)@ == capped_push(old(buf)@, s, max_samples as int),
{
    buf.push_back(s);
    if buf.len() > max_samples {
        buf.pop_front();
    }
}

} // verus!
