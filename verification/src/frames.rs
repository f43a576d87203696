//! Audio frame layout: how the synth's channel buffers reach the device
//! buffer.
use vstd::prelude::*;

verus! {

/// Device sample `j` after the copy: stereo devices get the left and right
/// channels interleaved, any other layout gets the left channel in the first
/// `frames` samples; the rest is left as it was.
pub open spec fn output_sample<S>(old: Seq<S>, left: Seq<S>, right: Seq<S>, channels: int, frames: int, j: int) -> S {
    if channels == 2 {
        if j < 2 * frames {
            if j % 2 == 0 {
                left[j / 2]
            } else {
                right[j / 2]
            }
        } else {
            old[j]
        }
    } else if j < frames {
        left[j]
    } else {
        old[j]
    }
}

/// Copies one block of synth output (`left`, `right`) into the device
/// buffer `output`, which holds `output.len() / channels` frames.
pub fn copy_to_output<S: Copy>(output: &mut [S], left: &[S], right: &[S], channels: usize)
    requires
        channels > 0,
        left@.len() >= old(output)@.len() as int / (channels as int),
        channels == 2 ==> right@.len() >= old(output)@.len() as int / 2,
    ensures
        final(output)@.len() == old(output)@.len(),
        forall|j: int|
            0 <= j < old(output)@.len() ==> #[trigger] final(output)@[j] == output_sample(
                old(output)@,
                left@,
                right@,
                channels as int,
                old(output)@.len() as int / (channels as int),
                j,
            ),
{
    let len = output.len();
    let num_frames = len / channels;
    let ghost o0 = output@;
    let ghost n = o0.len() as int;
    proof {
        if channels == 2 {
            assert(2 * num_frames <= n);
        } else {
            vstd::arithmetic::div_mod::lemma_div_is_ordered_by_denominator(n, 1, channels as int);
            assert(num_frames <= n);
        }
    }
    let mut i: usize = 0;
    while i < num_frames
        invariant
            i <= num_frames,
            num_frames == n / (channels as int),
            channels > 0,
            output@.len() == n,
            n == o0.len(),
            n == len,
            left@.len() >= num_frames,
            channels == 2 ==> right@.len() >= num_frames && 2 * num_frames <= n,
            channels != 2 ==> num_frames <= n,
            forall|j: int|
                0 <= j < n ==> #[trigger] output@[j] == if channels == 2 {
                    if j < 2 * i {
                        output_sample(o0, left@, right@, channels as int, num_frames as int, j)
                    } else {
                        o0[j]
                    }
                } else if j < i {
                    left@[j]
                } else {
                    o0[j]
                },
        decreases num_frames - i,
    {
        if channels == 2 {
            output[i * 2] = left[i];
            output[i * 2 + 1] = right[i];
        } else {
            output[i] = left[i];
        }
        i = i + 1;
    }
    proof {
        assert forall|j: int| 0 <= j < n implies #[trigger] output@[j] == output_sample(
            o0,
            left@,
            right@,
            channels as int,
            num_frames as int,
            j,
        ) by {}
    }
}

} // verus!
