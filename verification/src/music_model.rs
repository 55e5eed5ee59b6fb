//! The spectral band analyzer as mathematics: what one analysis frame does
//! to the analyzer's state, stated over sequences.

use crate::music::FFT_SIZE;
use crate::music::HOP_SIZE;
use crate::music::IDLE_SILENCE_MS;
use crate::music::LOW_END_HZ;
use crate::music::LOW_START_HZ;
use crate::music::MID_END_HZ;
use crate::music::NORM_WINDOW_SIZE;
use crate::music::NUM_BANDS;
use crate::music::POWER_FLOOR;
use crate::music::POWER_SEED;
use crate::music::SMOOTHING_DEN;
use crate::music::SMOOTHING_NUM;
use crate::units::sqrt_floor;
use crate::units::INTENSITY_ONE;
use vstd::prelude::*;

verus! {

// ---------------------------------------------------------------------------
// Downmixing
// ---------------------------------------------------------------------------

/// The sum of the samples at positions `from..to`.
pub open spec fn sample_sum(samples: Seq<i32>, from: int, to: int) -> int
    decreases to - from,
{
    if to <= from {
        0
    } else {
        sample_sum(samples, from, to - 1) + samples[to - 1]
    }
}

/// `sum / count`, rounded toward zero.
pub open spec fn mean_toward_zero(sum: int, count: int) -> int {
    if sum >= 0 {
        sum / count
    } else {
        -((-sum) / count)
    }
}

/// The mono signal of an interleaved block: one sample per complete frame,
/// the mean of the frame's channels. A block of one channel (or of none) is
/// taken as it is; samples after the last complete frame are dropped.
pub open spec fn downmixed(block: Seq<i32>, channels: u16) -> Seq<i32> {
    if channels <= 1 {
        block
    } else {
        Seq::new(
            (block.len() / channels as nat) as nat,
            |i: int|
                mean_toward_zero(
                    sample_sum(block, i * channels, (i + 1) * channels),
                    channels as int,
                ) as i32,
        )
    }
}

// ---------------------------------------------------------------------------
// Frequency bands
// ---------------------------------------------------------------------------

/// The transform bin of a frequency: `hz * FFT_SIZE / sample_rate` rounded
/// to the nearest integer (halves upward), then kept within
/// `1 ..= FFT_SIZE / 2`, so that bin 0 is never part of a band. At sample
/// rate zero every positive frequency lies beyond the last bin.
pub open spec fn bin_of(hz: u32, sample_rate: u32) -> int {
    let half = (FFT_SIZE / 2) as int;
    if sample_rate == 0 {
        if hz == 0 {
            1
        } else {
            half
        }
    } else {
        let nearest = (2 * hz * FFT_SIZE + sample_rate) / (2 * sample_rate);
        if nearest < 1 {
            1
        } else if nearest > half {
            half
        } else {
            nearest
        }
    }
}

/// Where the highest band ends: nine tenths of half the sample rate, in
/// whole hertz.
pub open spec fn high_end_hz(sample_rate: u32) -> u32 {
    (sample_rate as int * 9 / 20) as u32
}

/// The bin ranges `[start, end)` of the three bands at a sample rate.
pub open spec fn band_ranges(sample_rate: u32) -> Seq<(usize, usize)> {
    seq![
        (bin_of(LOW_START_HZ, sample_rate) as usize, bin_of(LOW_END_HZ, sample_rate) as usize),
        (bin_of(LOW_END_HZ, sample_rate) as usize, bin_of(MID_END_HZ, sample_rate) as usize),
        (
            bin_of(MID_END_HZ, sample_rate) as usize,
            bin_of(high_end_hz(sample_rate), sample_rate) as usize,
        ),
    ]
}

/// The sum of the values at positions `from..to`.
pub open spec fn power_sum(values: Seq<u64>, from: int, to: int) -> int
    decreases to - from,
{
    if to <= from {
        0
    } else {
        power_sum(values, from, to - 1) + values[to - 1]
    }
}

/// The mean power over the bins `[start, end)`, both cut to the number of
/// bins there are; zero for an empty range.
pub open spec fn band_mean(powers: Seq<u64>, start: int, end: int) -> int {
    let s = if start < powers.len() {
        start
    } else {
        powers.len() as int
    };
    let e = if end < powers.len() {
        end
    } else {
        powers.len() as int
    };
    if s >= e {
        0
    } else {
        power_sum(powers, s, e) / (e - s)
    }
}

// ---------------------------------------------------------------------------
// Adaptive ceiling
// ---------------------------------------------------------------------------

/// A power value as it enters the sliding window: never below the floor.
pub open spec fn floored(value: u64) -> u64 {
    if value < POWER_FLOOR {
        POWER_FLOOR
    } else {
        value
    }
}

/// The sliding window after a value entered it: the value is appended, and
/// the oldest value leaves if the window then holds more than
/// `NORM_WINDOW_SIZE`.
pub open spec fn slid(window: Seq<u64>, value: u64) -> Seq<u64> {
    let pushed = window.push(floored(value));
    if pushed.len() > NORM_WINDOW_SIZE {
        pushed.subrange(1, pushed.len() as int)
    } else {
        pushed
    }
}

/// The largest value of a sequence; zero for the empty one.
pub open spec fn seq_max(s: Seq<u64>) -> u64
    decreases s.len(),
{
    if s.len() == 0 {
        0
    } else {
        let rest = seq_max(s.drop_last());
        if s.last() > rest {
            s.last()
        } else {
            rest
        }
    }
}

/// The window after `count` silent frames.
pub open spec fn after_silence(window: Seq<u64>, count: nat) -> Seq<u64>
    decreases count,
{
    if count == 0 {
        window
    } else {
        slid(after_silence(window, (count - 1) as nat), 0)
    }
}

// ---------------------------------------------------------------------------
// Normalization and smoothing
// ---------------------------------------------------------------------------

/// A band's power against its ceiling, as loudness: the square root of
/// their quotient in parts per million, rounded down and capped at full
/// scale. Against a ceiling of zero, silence is zero and anything else is
/// full scale.
pub open spec fn normalized(avg: u64, ceiling: u64) -> u32 {
    if ceiling == 0 {
        if avg == 0 {
            0
        } else {
            INTENSITY_ONE
        }
    } else {
        let root = sqrt_floor((avg as int * INTENSITY_ONE as int * INTENSITY_ONE as int) / (
        ceiling as int));
        if root > INTENSITY_ONE {
            INTENSITY_ONE
        } else {
            root as u32
        }
    }
}

/// One step of exponential smoothing toward `target`, rounded down.
pub open spec fn smoothed(prev: u32, target: u32) -> u32 {
    ((prev as int * (SMOOTHING_DEN - SMOOTHING_NUM) + target as int * SMOOTHING_NUM)
        / SMOOTHING_DEN as int) as u32
}

// ---------------------------------------------------------------------------
// The analyzer
// ---------------------------------------------------------------------------

/// What the analyzer holds between analysis frames.
pub struct AnalyzerState {
    pub sample_rate: u32,
    pub channels: u16,
    /// Mono samples not yet consumed.
    pub buffer: Seq<i32>,
    /// The smoothed loudness of each output band.
    pub smoothed: Seq<u32>,
    /// The sliding window of recent power, one per analyzed band.
    pub recent: Seq<Seq<u64>>,
    /// The bin range `[start, end)` of each analyzed band.
    pub ranges: Seq<(usize, usize)>,
    /// Whether silence was emitted since samples last arrived.
    pub silence_sent: bool,
}

impl AnalyzerState {
    /// Every output is at most full scale, and every analyzed band has its
    /// bin range and a sliding window of at most `NORM_WINDOW_SIZE` values.
    pub open spec fn wf(self) -> bool {
        &&& forall|i: int|
            0 <= i < self.smoothed.len() ==> #[trigger] self.smoothed[i] <= INTENSITY_ONE
        &&& self.recent.len() == NUM_BANDS
        &&& self.ranges.len() == NUM_BANDS
        &&& forall|b: int|
            0 <= b < self.recent.len() ==> (#[trigger] self.recent[b]).len() <= NORM_WINDOW_SIZE
    }
}

/// The analyzer before any sample arrived.
pub open spec fn initial_analyzer(
    sample_rate: u32,
    channels: u16,
    num_bands: nat,
) -> AnalyzerState {
    AnalyzerState {
        sample_rate,
        channels,
        buffer: Seq::empty(),
        smoothed: Seq::new(num_bands, |i: int| 0u32),
        recent: Seq::new(
            NUM_BANDS as nat,
            |b: int| Seq::new(NORM_WINDOW_SIZE as nat, |i: int| POWER_SEED),
        ),
        ranges: band_ranges(sample_rate),
        silence_sent: false,
    }
}

/// The state after a block of interleaved samples arrived: its mono signal
/// is appended to the buffer, and if it brought any sample, the idle period
/// is over.
pub open spec fn after_samples(pre: AnalyzerState, block: Seq<i32>) -> AnalyzerState {
    AnalyzerState {
        buffer: pre.buffer + downmixed(block, pre.channels),
        silence_sent: pre.silence_sent && downmixed(block, pre.channels).len() == 0,
        ..pre
    }
}

/// Whether a full analysis window is buffered.
pub open spec fn window_ready(pre: AnalyzerState) -> bool {
    pre.buffer.len() >= FFT_SIZE
}

/// The mean power of band `b` in a spectrum.
pub open spec fn band_level(pre: AnalyzerState, powers: Seq<u64>, b: int) -> u64 {
    band_mean(powers, pre.ranges[b].0 as int, pre.ranges[b].1 as int) as u64
}

/// The loudness of band `b` in a spectrum, against the ceiling that the
/// spectrum itself has already entered.
pub open spec fn band_target(pre: AnalyzerState, powers: Seq<u64>, b: int) -> u32 {
    normalized(
        band_level(pre, powers, b),
        seq_max(slid(pre.recent[b], band_level(pre, powers, b))),
    )
}

/// The state after the power spectrum of the buffered window was analyzed:
/// every band's level enters its sliding window, the outputs that have a
/// band move one smoothing step toward its loudness, and the buffer slides
/// on by one hop.
pub open spec fn analyzed(pre: AnalyzerState, powers: Seq<u64>) -> AnalyzerState {
    AnalyzerState {
        buffer: pre.buffer.skip(HOP_SIZE as int),
        smoothed: Seq::new(
            pre.smoothed.len(),
            |i: int|
                if i < pre.recent.len() {
                    smoothed(pre.smoothed[i], band_target(pre, powers, i))
                } else {
                    pre.smoothed[i]
                },
        ),
        recent: Seq::new(
            pre.recent.len(),
            |b: int| slid(pre.recent[b], band_level(pre, powers, b)),
        ),
        ..pre
    }
}

/// The number of analysis frames that a buffer of `len` samples holds:
/// windows of `FFT_SIZE` samples, each `HOP_SIZE` after the one before.
pub open spec fn frames_in(len: nat) -> nat {
    if len < FFT_SIZE {
        0
    } else {
        ((len - FFT_SIZE) / HOP_SIZE as int + 1) as nat
    }
}

/// Whether silence is due: nothing is buffered, nothing arrived for longer
/// than the idle threshold, and silence was not yet emitted in this idle
/// period.
pub open spec fn silence_due(pre: AnalyzerState, idle_ms: u64) -> bool {
    pre.buffer.len() == 0 && idle_ms > IDLE_SILENCE_MS && !pre.silence_sent
}

/// The state after silence was emitted: every output is zero, and the
/// emission is on record.
pub open spec fn silenced(pre: AnalyzerState) -> AnalyzerState {
    AnalyzerState {
        smoothed: Seq::new(pre.smoothed.len(), |i: int| 0u32),
        silence_sent: true,
        ..pre
    }
}

/// The state after a run of spectra was analyzed, one frame each.
pub open spec fn after_frames(pre: AnalyzerState, spectra: Seq<Seq<u64>>) -> AnalyzerState
    decreases spectra.len(),
{
    if spectra.len() == 0 {
        pre
    } else {
        analyzed(after_frames(pre, spectra.drop_last()), spectra.last())
    }
}

/// Where an output stands after `frames` smoothing steps toward full scale.
pub open spec fn settled(level: u32, frames: nat) -> u32
    decreases frames,
{
    if frames == 0 {
        level
    } else {
        smoothed(settled(level, (frames - 1) as nat), INTENSITY_ONE)
    }
}

} // verus!
