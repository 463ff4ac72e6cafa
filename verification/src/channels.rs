//! Expansion of a mono signal to an interleaved channel layout.

use vstd::prelude::*;
use vstd::arithmetic::div_mod::lemma_fundamental_div_mod_converse;

verus! {

/// `data` after the frames of `mono` have been written to it: slot `d`
/// belongs to frame `d / channels` and takes that frame's mono sample; slots
/// of frames that `mono` does not reach keep what they held.
pub open spec fn expanded<T>(mono: Seq<T>, channels: nat, data: Seq<T>) -> Seq<T> {
    Seq::new(
        data.len(),
        |d: int|
            if d / (channels as int) < mono.len() {
                mono[d / (channels as int)]
            } else {
                data[d]
            },
    )
}

/// Writes each sample of `mono` to all `channels` slots of its frame in the
/// interleaved buffer `data`.
pub fn expand_channels<T: Copy>(mono: &[T], channels: usize, data: &mut [T])
    requires
        channels > 0,
    ensures
        final(data)@ == expanded(mono@, channels as nat, old(data)@),
{
    let ghost before = data@;
    let ghost target = expanded(mono@, channels as nat, before);
    let frames = mono.len();
    let slots = data.len();
    let mut frame: usize = 0;
    let mut slot: usize = 0;
    while frame < frames && slot < slots
        invariant
            before == old(data)@,
            channels > 0,
            frames == mono@.len(),
            slots == before.len(),
            data@.len() == before.len(),
            target == expanded(mono@, channels as nat, before),
            frame <= frames,
            slot <= slots,
            slot == frame * channels,
            forall|d: int| 0 <= d < slot ==> data@[d] == target[d],
            forall|d: int| slot <= d < slots ==> data@[d] == before[d],
        decreases frames - frame,
    {
        let sample = mono[frame];
        let mut channel: usize = 0;
        while channel < channels && slot < slots
            invariant
                channels > 0,
                frame < frames,
                frames == mono@.len(),
                sample == mono@[frame as int],
                slots == before.len(),
                data@.len() == before.len(),
                target == expanded(mono@, channels as nat, before),
                slot <= slots,
                channel <= channels,
                slot == frame * channels + channel,
                forall|d: int| 0 <= d < slot ==> data@[d] == target[d],
                forall|d: int| slot <= d < slots ==> data@[d] == before[d],
            decreases channels - channel,
        {
            proof {
                lemma_fundamental_div_mod_converse(
                    slot as int,
                    channels as int,
                    frame as int,
                    channel as int,
                );
            }
            data[slot] = sample;
            slot += 1;
            channel += 1;
        }
        if channel < channels {
            // The buffer ended inside this frame.
            return;
        }
        frame += 1;
        assert(slot == frame * channels) by (nonlinear_arith)
            requires
                slot == (frame - 1) * channels + channels,
        ;
    }
    proof {
        assert forall|d: int| 0 <= d < slots implies data@[d] == target[d] by {
            if d >= slot {
                lemma_quotient_at_least(d, channels as int, frames as int);
            }
        }
    }
}

/// A slot at or behind the first slot of frame `q` belongs to frame `q` or
/// to a later one.
proof fn lemma_quotient_at_least(d: int, c: int, q: int)
    by (nonlinear_arith)
    requires
        c > 0,
        q >= 0,
        d >= q * c,
    ensures
        d / c >= q,
{
}

/// With whole frames, the interleaved buffer has `channels` slots for each
/// mono sample, and all slots of a frame hold that frame's mono sample.
pub proof fn lemma_expanded_frames<T>(mono: Seq<T>, channels: nat, data: Seq<T>)
    requires
        channels > 0,
        data.len() == mono.len() * channels,
    ensures
        expanded(mono, channels, data).len() == mono.len() * channels,
        forall|frame: int, channel: int|
            0 <= frame < mono.len() && 0 <= channel < channels ==> #[trigger] expanded(
                mono,
                channels,
                data,
            )[frame * channels + channel] == mono[frame],
{
    assert forall|frame: int, channel: int|
        0 <= frame < mono.len() && 0 <= channel < channels implies #[trigger] expanded(
        mono,
        channels,
        data,
    )[frame * channels + channel] == mono[frame] by {
        let d = frame * channels + channel;
        lemma_fundamental_div_mod_converse(d, channels as int, frame, channel);
        assert(0 <= d < mono.len() * channels) by (nonlinear_arith)
            requires
                0 <= frame < mono.len(),
                0 <= channel < channels,
                d == frame * channels + channel,
        ;
    }
}

} // verus!
