//! Integer state of the synth's sine-table oscillator.
use vstd::prelude::*;

verus! {

/// State of the sub-signal that fills the sine table: a one-sample
/// "initialised" flag and a wrapping phase counter, each kept with its
/// previous value.
pub struct mydspSIG0 {
    pub iVec1: [i32; 2],
    pub iRec2: [i32; 2],
}

/// Builds a sub-signal with all state cleared.
pub fn newmydspSIG0() -> (s: mydspSIG0)
    ensures
        s.iVec1@ == seq![0i32, 0i32],
        s.iRec2@ == seq![0i32, 0i32],
{
    mydspSIG0 { iVec1: [0; 2], iRec2: [0; 2] }
}


/// Remainder with the sign of the dividend (Rust's `%` on integers).
pub open spec fn trunc_rem(x: int, m: int) -> int {
    if x >= 0 {
        x % m
    } else {
        -((-x) % m)
    }
}

/// One step of the sub-signal on its (previous flag, previous phase)
/// state: the flag becomes 1 and the phase advances by the previous flag,
/// wrapping at 65536.
pub open spec fn sig0_step(s: (i32, i32)) -> (i32, i32) {
    (1i32, trunc_rem(i32::wrapping_add(s.0, s.1) as int, 65536) as i32)
}

/// State after `k` steps.
pub open spec fn sig0_after(s: (i32, i32), k: nat) -> (i32, i32)
    decreases k,
{
    if k == 0 {
        s
    } else {
        sig0_step(sig0_after(s, (k - 1) as nat))
    }
}

impl mydspSIG0 {
    /// The (previous flag, previous phase) pair that the next step reads.
    pub open spec fn state(&self) -> (i32, i32) {
        (self.iVec1[1], self.iRec2[1])
    }

    pub fn get_num_inputsmydspSIG0(&self) -> (n: i32)
        ensures
            n == 0,
    {
        0
    }

    pub fn get_num_outputsmydspSIG0(&self) -> (n: i32)
        ensures
            n == 1,
    {
        1
    }

    /// Clears the state; the sample rate does not affect this sub-signal.
    pub fn instance_initmydspSIG0(&mut self, sample_rate: i32)
        ensures
            final(self).iVec1@ == seq![0i32, 0i32],
            final(self).iRec2@ == seq![0i32, 0i32],
    {
        let mut l2: usize = 0;
        while l2 < 2
            invariant
                l2 <= 2,
                forall|i: int| 0 <= i < l2 ==> self.iVec1@[i] == 0,
            decreases 2 - l2,
        {
            self.iVec1[l2] = 0;
            l2 = l2 + 1;
        }
        let mut l3: usize = 0;
        while l3 < 2
            invariant
                l3 <= 2,
                forall|i: int| 0 <= i < 2 ==> self.iVec1@[i] == 0,
                forall|i: int| 0 <= i < l3 ==> self.iRec2@[i] == 0,
            decreases 2 - l3,
        {
            self.iRec2[l3] = 0;
            l3 = l3 + 1;
        }
        assert(self.iVec1@ =~= seq![0i32, 0i32]);
        assert(self.iRec2@ =~= seq![0i32, 0i32]);
    }

    /// Runs the sub-signal for `count` samples and returns the phase index
    /// of each sample (the sine table entry is sin(2 pi phase / 65536)).
    pub fn fill_phasesmydspSIG0(&mut self, count: i32) -> (phases: Vec<i32>)
        ensures
            phases@.len() == (if count > 0 {
                count as int
            } else {
                0
            }),
            forall|j: int| 0 <= j < phases@.len() ==> #[trigger] phases@[j] == sig0_after(old(self).state(), (j + 1) as nat).1,
            final(self).state() == sig0_after(old(self).state(), phases@.len()),
            count > 0 ==> final(self).iVec1@[0] == 1 && final(self).iRec2@[0] == final(self).iRec2@[1],
            count <= 0 ==> final(self).iVec1@ == old(self).iVec1@ && final(self).iRec2@ == old(self).iRec2@,
    {
        let ghost s0 = self.state();
        let ghost v0 = self.iVec1@;
        let ghost r0 = self.iRec2@;
        let mut phases: Vec<i32> = Vec::new();
        let mut i1: i32 = 0;
        while i1 < count
            invariant
                0 <= i1,
                count > 0 ==> i1 <= count,
                count <= 0 ==> i1 == 0,
                phases@.len() == i1,
                self.state() == sig0_after(s0, i1 as nat),
                forall|j: int| 0 <= j < i1 ==> #[trigger] phases@[j] == sig0_after(s0, (j + 1) as nat).1,
                i1 > 0 ==> self.iVec1@[0] == 1 && self.iRec2@[0] == self.iRec2@[1],
                i1 == 0 ==> self.iVec1@ == v0 && self.iRec2@ == r0,
            decreases count - i1,
        {
            self.iVec1[0] = 1;
            let sum = i32::wrapping_add(self.iVec1[1], self.iRec2[1]);
            let phase = sum % 65536;
            proof {
                assert(phase as int == trunc_rem(sum as int, 65536));
            }
            self.iRec2[0] = phase;
            phases.push(phase);
            self.iVec1[1] = self.iVec1[0];
            self.iRec2[1] = self.iRec2[0];
            i1 = i1 + 1;
        }
        phases
    }
}

/// From a cleared sub-signal, the phase of sample `k` is `k` modulo 65536:
/// the table holds one full period.
pub proof fn lemma_sig0_counts_up(k: nat)
    ensures
        sig0_after((0i32, 0i32), k + 1).1 == k % 65536,
        sig0_after((0i32, 0i32), k + 1).0 == 1,
    decreases k,
{
    if k == 0 {
        assert(i32::wrapping_add(0i32, 0i32) == 0i32);
        assert(sig0_after((0i32, 0i32), 0) == (0i32, 0i32));
        assert(sig0_after((0i32, 0i32), 1) == sig0_step(sig0_after((0i32, 0i32), 0)));
    } else {
        lemma_sig0_counts_up((k - 1) as nat);
        let prev = sig0_after((0i32, 0i32), k);
        assert(prev.1 == (k - 1) % 65536);
        assert(0 <= prev.1 < 65536);
        assert(i32::wrapping_add(prev.0, prev.1) == prev.1 + 1) by {
            assert(prev.0 == 1);
        }
        assert((prev.1 + 1) % 65536 == k % 65536) by {
            vstd::arithmetic::div_mod::lemma_add_mod_noop((k - 1) as int, 1, 65536);
            vstd::arithmetic::div_mod::lemma_mod_twice(1int, 65536);
        }
        assert(sig0_after((0i32, 0i32), k + 1) == sig0_step(prev));
        assert(trunc_rem(prev.1 + 1, 65536) == k % 65536);
    }
}

} // verus!
