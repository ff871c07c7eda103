//! When a sound happens: a queue anything can push to, drained once a frame.

use vstd::prelude::*;

use crate::number::Number;

verus! {

/// Most sounds started in one frame. Well above anything the game does, and low enough that a
/// runaway pusher is capped.
pub const MAX_PER_FRAME: usize = 16;

/// Sound codes waiting to be played, cleared every frame.
#[derive(Clone, Debug)]
pub struct SoundQueue {
    codes: Vec<u16>,
}

/// How loud everything is, from 0 to 1. Zero is silence and is a real state.
#[derive(Clone, Copy, Debug, PartialEq, Eq, Structural)]
pub struct SoundVolume(pub Number);

impl Default for SoundVolume {
    /// Not full: the per-sound gain leaves headroom, so three sounds landing together do not sum
    /// past full scale.
    fn default() -> (volume: SoundVolume)
        ensures
            volume == SoundVolume(Number { bits: 0x3f19_999a }),
    {
        SoundVolume(Number { bits: 0x3f19_999a })
    }
}

/// The codes of these that a bank of `bank` sounds has, in order.
pub open spec fn known(codes: Seq<u16>, bank: nat) -> Seq<u16>
    decreases codes.len(),
{
    if codes.len() == 0 {
        Seq::empty()
    } else if (codes.last() as nat) < bank {
        known(codes.drop_last(), bank).push(codes.last())
    } else {
        known(codes.drop_last(), bank)
    }
}

/// The codes that wait once another has been asked for.
pub open spec fn queued(codes: Seq<u16>, code: u16) -> Seq<u16> {
    if codes.len() < MAX_PER_FRAME {
        codes.push(code)
    } else {
        codes
    }
}

/// A frame takes as many sounds as it can hold, first come first served: those that wait stay as they
/// are, a further one goes behind them while there is room, and one too many is dropped.
pub proof fn law_a_full_frame_drops_the_rest(codes: Seq<u16>, code: u16)
    ensures
        queued(codes, code).take(codes.len() as int) == codes,
        codes.len() < MAX_PER_FRAME ==> queued(codes, code).len() == codes.len() + 1 && queued(
            codes,
            code,
        ).last() == code,
        codes.len() == MAX_PER_FRAME ==> queued(codes, code) == codes,
{
    assert(queued(codes, code).take(codes.len() as int) =~= codes);
}

impl Default for SoundQueue {
    fn default() -> (queue: SoundQueue)
        ensures
            queue.wf(),
            queue.waiting() == Seq::<u16>::empty(),
    {
        SoundQueue { codes: Vec::new() }
    }
}

impl SoundQueue {
    /// The codes that are waiting.
    pub closed spec fn waiting(&self) -> Seq<u16> {
        self.codes@
    }

    /// The queue is within its cap.
    pub open spec fn wf(&self) -> bool {
        self.waiting().len() <= MAX_PER_FRAME
    }

    /// Ask for a sound. Dropped if this frame is already full.
    pub fn play(&mut self, code: u16)
        requires
            old(self).wf(),
        ensures
            final(self).wf(),
            final(self).waiting() == queued(old(self).waiting(), code),
            final(self).waiting() == (if old(self).waiting().len() < MAX_PER_FRAME {
                old(self).waiting().push(code)
            } else {
                old(self).waiting()
            }),
    {
        if self.codes.len() < MAX_PER_FRAME {
            self.codes.push(code);
        }
    }

    /// Codes queued this frame.
    pub fn pending(&self) -> (codes: &Vec<u16>)
        ensures
            codes@ == self.waiting(),
    {
        &self.codes
    }

    /// Take the codes to play this frame, and clear the queue.
    ///
    /// Drained whatever happens: a sound that arrives a second after the thing that caused it is
    /// worse than one that never does. Silence and an empty bank play nothing, and a code the bank
    /// lacks is skipped.
    pub fn play_queued(&mut self, bank: usize, volume: Number) -> (out: Vec<u16>)
        ensures
            final(self).wf(),
            final(self).waiting() == Seq::<u16>::empty(),
            out@ == (if volume.le_zero() {
                Seq::empty()
            } else {
                known(old(self).waiting(), bank as nat)
            }),
    {
        let mut codes: Vec<u16> = Vec::new();
        std::mem::swap(&mut codes, &mut self.codes);
        let mut out: Vec<u16> = Vec::new();
        if volume.is_at_most_zero() {
            return out;
        }
        let mut i: usize = 0;
        while i < codes.len()
            invariant
                i <= codes.len(),
                out@ == known(codes@.take(i as int), bank as nat),
            decreases codes.len() - i,
        {
            assert(codes@.take(i as int + 1).drop_last() =~= codes@.take(i as int));
            if (codes[i] as usize) < bank {
                out.push(codes[i]);
            }
            i = i + 1;
        }
        assert(codes@.take(i as int) =~= codes@);
        out
    }
}

/// An empty bank plays nothing, whatever is queued.
pub proof fn law_empty_bank_is_silent(codes: Seq<u16>)
    ensures
        known(codes, 0) == Seq::<u16>::empty(),
    decreases codes.len(),
{
    if codes.len() > 0 {
        law_empty_bank_is_silent(codes.drop_last());
    }
}

} // verus!
