//! Digitizing two analog channels into logic levels with thresholds and
//! hysteresis, for the protocol decoder.
use vstd::prelude::*;
use crate::text::string_from;

verus! {

/// How one sample of one channel stands against its threshold `t` and
/// hysteresis `h`: whether it is finite, at or above `t`, at or above
/// `t + h/2`, and at or below `t - h/2`.
#[derive(Clone, Copy, Debug)]
pub struct Level {
    pub finite: bool,
    pub at_threshold: bool,
    pub above_band: bool,
    pub below_band: bool,
}

/// The shape of a capture: its lost and corrupt sample counts and the
/// length of each of its channels.
#[derive(Debug)]
pub struct CaptureShape {
    pub samples_lost: i32,
    pub samples_corrupt: i32,
    pub channel_lengths: Vec<usize>,
}

/// Two equal, non-empty channels.
pub open spec fn two_equal_channels(lengths: Seq<usize>) -> bool {
    lengths.len() == 2 && lengths[0] != 0 && lengths[0] == lengths[1]
}

/// The logic level of channel `ch` after the first `n` samples (`n >= 1`):
/// the first sample sets it by the threshold; later ones set it high above
/// the band, low below it, and keep it inside it.
pub open spec fn channel_level(levels: Seq<[Level; 2]>, ch: int, n: nat) -> bool
    decreases n,
{
    if n <= 1 {
        levels[0][ch].at_threshold
    } else {
        let l = levels[n - 1][ch];
        if l.above_band {
            true
        } else if l.below_band {
            false
        } else {
            channel_level(levels, ch, (n - 1) as nat)
        }
    }
}

/// The number of level changes of channel `ch` in the first `n` samples.
pub open spec fn channel_transitions(levels: Seq<[Level; 2]>, ch: int, n: nat) -> nat
    decreases n,
{
    if n <= 1 {
        0
    } else {
        channel_transitions(levels, ch, (n - 1) as nat) + if channel_level(levels, ch, n)
            != channel_level(levels, ch, (n - 1) as nat) {
            1nat
        } else {
            0nat
        }
    }
}

/// The logic byte of sample `i`: bit 0 is channel 0 (inverted for a
/// differential CAN pair, whose dominant state is high), bit 1 is channel 1.
pub open spec fn logic_byte(levels: Seq<[Level; 2]>, i: int, differential: bool) -> u8 {
    ((if channel_level(levels, 0, (i + 1) as nat) != differential {
        1int
    } else {
        0int
    }) + (if channel_level(levels, 1, (i + 1) as nat) {
        2int
    } else {
        0int
    })) as u8
}

/// Every sample of both channels is finite.
pub open spec fn all_finite(levels: Seq<[Level; 2]>) -> bool {
    forall|i: int| 0 <= i < levels.len() ==> (#[trigger] levels[i])[0].finite && levels[i][1].finite
}

pub open spec fn capture_error() -> Seq<char> {
    "Capture has lost/corrupt samples; recapture at a lower sample rate before decoding."@
}

pub open spec fn settings_error() -> Seq<char> {
    "Thresholds must be finite and hysteresis must be non-negative"@
}

pub open spec fn channels_error() -> Seq<char> {
    "Two equal-length analog channels are required"@
}

pub open spec fn non_finite_error() -> Seq<char> {
    "Capture contains non-finite samples"@
}

/// The logic bytes and level changes of a capture, or why it cannot be
/// digitized: lost or corrupt samples, invalid settings, channels that are
/// not two of one non-zero length, or a sample that is not finite (checked
/// in that order).
pub open spec fn digitize_spec(
    samples_lost: i32,
    samples_corrupt: i32,
    lengths: Seq<usize>,
    settings_valid: bool,
    levels: Seq<[Level; 2]>,
    differential: bool,
) -> Result<(Seq<u8>, nat, nat), Seq<char>> {
    if samples_lost != 0 || samples_corrupt != 0 {
        Err(capture_error())
    } else if !settings_valid {
        Err(settings_error())
    } else if !two_equal_channels(lengths) {
        Err(channels_error())
    } else if !all_finite(levels) {
        Err(non_finite_error())
    } else {
        Ok(
            (
                Seq::new(levels.len(), |i: int| logic_byte(levels, i, differential)),
                channel_transitions(levels, 0, levels.len()),
                channel_transitions(levels, 1, levels.len()),
            ),
        )
    }
}

/// The logic bytes of a capture and the number of level changes per
/// channel. `settings_valid` says that both thresholds are finite and the
/// hysteresis is finite and not negative; `levels` has one entry per sample
/// (channel 0 being the difference of the two inputs for a differential
/// pair).
pub fn digitize(
    shape: &CaptureShape,
    settings_valid: bool,
    levels: &[[Level; 2]],
    differential: bool,
) -> (r: Result<(Vec<u8>, [usize; 2]), String>)
    requires
        two_equal_channels(shape.channel_lengths@) ==> levels@.len() == shape.channel_lengths@[0],
    ensures
        match r {
            Ok((bytes, transitions)) => digitize_spec(
                shape.samples_lost,
                shape.samples_corrupt,
                shape.channel_lengths@,
                settings_valid,
                levels@,
                differential,
            ) == Ok::<(Seq<u8>, nat, nat), Seq<char>>(
                (bytes@, transitions[0] as nat, transitions[1] as nat),
            ),
            Err(e) => digitize_spec(
                shape.samples_lost,
                shape.samples_corrupt,
                shape.channel_lengths@,
                settings_valid,
                levels@,
                differential,
            ) == Err::<(Seq<u8>, nat, nat), Seq<char>>(e@),
        },
{
    if shape.samples_lost != 0 || shape.samples_corrupt != 0 {
        return Err(
            string_from(
                "Capture has lost/corrupt samples; recapture at a lower sample rate before decoding.",
            ),
        );
    }
    if !settings_valid {
        return Err(string_from("Thresholds must be finite and hysteresis must be non-negative"));
    }
    if shape.channel_lengths.len() != 2 || shape.channel_lengths[0] == 0
        || shape.channel_lengths[0] != shape.channel_lengths[1] {
        return Err(string_from("Two equal-length analog channels are required"));
    }
    let n = levels.len();
    let mut bytes: Vec<u8> = Vec::new();
    let mut s0 = false;
    let mut s1 = false;
    let mut t0: usize = 0;
    let mut t1: usize = 0;
    for i in 0..n
        invariant
            n == levels@.len(),
            n >= 1,
            shape.samples_lost == 0 && shape.samples_corrupt == 0,
            settings_valid,
            two_equal_channels(shape.channel_lengths@),
            bytes@.len() == i,
            t0 <= i && t1 <= i,
            forall|j: int| 0 <= j < i ==> (#[trigger] levels@[j])[0].finite && levels@[j][1].finite,
            forall|j: int| 0 <= j < i ==> #[trigger] bytes@[j] == logic_byte(levels@, j, differential),
            i >= 1 ==> s0 == channel_level(levels@, 0, i as nat) && s1 == channel_level(
                levels@,
                1,
                i as nat,
            ),
            t0 == channel_transitions(levels@, 0, i as nat),
            t1 == channel_transitions(levels@, 1, i as nat),
    {
        let l = levels[i];
        if !l[0].finite || !l[1].finite {
            assert(!(levels@[i as int][0].finite && levels@[i as int][1].finite));
            return Err(string_from("Capture contains non-finite samples"));
        }
        let p0 = s0;
        let p1 = s1;
        if i == 0 {
            s0 = l[0].at_threshold;
            s1 = l[1].at_threshold;
        } else {
            if l[0].above_band {
                s0 = true;
            } else if l[0].below_band {
                s0 = false;
            }
            if l[1].above_band {
                s1 = true;
            } else if l[1].below_band {
                s1 = false;
            }
        }
        if i > 0 && s0 != p0 {
            t0 = t0 + 1;
        }
        if i > 0 && s1 != p1 {
            t1 = t1 + 1;
        }
        let b0: u8 = if s0 != differential {
            1
        } else {
            0
        };
        let b1: u8 = if s1 {
            2
        } else {
            0
        };
        bytes.push(b0 + b1);
    }
    assert(bytes@ =~= Seq::new(levels@.len(), |i: int| logic_byte(levels@, i, differential)));
    Ok((bytes, [t0, t1]))
}


// ---------------------------------------------------------------------------
// What the logic bytes say
// ---------------------------------------------------------------------------

/// The logic level of channel `ch` (0 or 1) that a logic byte carries: bit 0
/// for channel 0, bit 1 for channel 1.
pub open spec fn logic_bit(b: u8, ch: int) -> bool {
    if ch == 0 {
        b % 2 == 1
    } else {
        (b / 2) % 2 == 1
    }
}

/// The number of samples among the first `n`, after the first one, whose bit
/// for channel `ch` differs from that of the sample before.
pub open spec fn bit_changes(bytes: Seq<u8>, ch: int, n: nat) -> nat
    decreases n,
{
    if n <= 1 {
        0
    } else {
        bit_changes(bytes, ch, (n - 1) as nat) + if logic_bit(bytes[n - 1], ch) != logic_bit(
            bytes[n - 2],
            ch,
        ) {
            1nat
        } else {
            0nat
        }
    }
}

proof fn lemma_logic_byte_bits(levels: Seq<[Level; 2]>, i: int, differential: bool)
    ensures
        logic_byte(levels, i, differential) < 4,
        logic_bit(logic_byte(levels, i, differential), 0) == (channel_level(
            levels,
            0,
            (i + 1) as nat,
        ) != differential),
        logic_bit(logic_byte(levels, i, differential), 1) == channel_level(
            levels,
            1,
            (i + 1) as nat,
        ),
{
}

proof fn lemma_transitions_are_bit_changes(
    levels: Seq<[Level; 2]>,
    bytes: Seq<u8>,
    differential: bool,
    ch: int,
    n: nat,
)
    requires
        ch == 0 || ch == 1,
        n <= levels.len(),
        bytes == Seq::new(levels.len(), |i: int| logic_byte(levels, i, differential)),
    ensures
        channel_transitions(levels, ch, n) == bit_changes(bytes, ch, n),
    decreases n,
{
    if n > 1 {
        lemma_transitions_are_bit_changes(levels, bytes, differential, ch, (n - 1) as nat);
        lemma_logic_byte_bits(levels, n - 1, differential);
        lemma_logic_byte_bits(levels, n - 2, differential);
    }
}

/// Thresholds with hysteresis: the first sample of each channel sets its
/// level by the threshold; after it, a channel goes high only at or above
/// the upper edge of the band, low only at or below the lower edge, and
/// keeps its level strictly inside the band. Channel 0's bit is inverted for
/// a differential pair. Each channel's transition count is the number of
/// samples whose bit differs from the sample before, so a sample inside the
/// band changes neither the bit nor the count.
pub proof fn lemma_digitize_hysteresis(
    samples_lost: i32,
    samples_corrupt: i32,
    lengths: Seq<usize>,
    settings_valid: bool,
    levels: Seq<[Level; 2]>,
    differential: bool,
    bytes: Seq<u8>,
    transitions0: nat,
    transitions1: nat,
)
    requires
        digitize_spec(samples_lost, samples_corrupt, lengths, settings_valid, levels, differential)
            == Ok::<(Seq<u8>, nat, nat), Seq<char>>((bytes, transitions0, transitions1)),
    ensures
        bytes.len() == levels.len(),
        forall|i: int| 0 <= i < bytes.len() ==> #[trigger] bytes[i] < 4,
        bytes.len() > 0 ==> logic_bit(bytes[0], 0) == (levels[0][0].at_threshold != differential),
        bytes.len() > 0 ==> logic_bit(bytes[0], 1) == levels[0][1].at_threshold,
        forall|i: int|
            1 <= i < bytes.len() ==> logic_bit(#[trigger] bytes[i], 1) == (if levels[i][1].above_band {
                true
            } else if levels[i][1].below_band {
                false
            } else {
                logic_bit(bytes[i - 1], 1)
            }),
        forall|i: int|
            1 <= i < bytes.len() ==> logic_bit(#[trigger] bytes[i], 0) == (if levels[i][0].above_band {
                !differential
            } else if levels[i][0].below_band {
                differential
            } else {
                logic_bit(bytes[i - 1], 0)
            }),
        transitions0 == bit_changes(bytes, 0, bytes.len()),
        transitions1 == bit_changes(bytes, 1, bytes.len()),
{
    assert(bytes == Seq::new(levels.len(), |i: int| logic_byte(levels, i, differential)));
    assert forall|i: int| 0 <= i < bytes.len() implies #[trigger] bytes[i] < 4 by {
        lemma_logic_byte_bits(levels, i, differential);
    }
    if bytes.len() > 0 {
        lemma_logic_byte_bits(levels, 0, differential);
    }
    assert forall|i: int| 1 <= i < bytes.len() implies logic_bit(#[trigger] bytes[i], 1) == (
    if levels[i][1].above_band {
        true
    } else if levels[i][1].below_band {
        false
    } else {
        logic_bit(bytes[i - 1], 1)
    }) && logic_bit(bytes[i], 0) == (if levels[i][0].above_band {
        !differential
    } else if levels[i][0].below_band {
        differential
    } else {
        logic_bit(bytes[i - 1], 0)
    }) by {
        lemma_logic_byte_bits(levels, i, differential);
        lemma_logic_byte_bits(levels, i - 1, differential);
    }
    lemma_transitions_are_bit_changes(levels, bytes, differential, 0, bytes.len());
    lemma_transitions_are_bit_changes(levels, bytes, differential, 1, bytes.len());
}

} // verus!
