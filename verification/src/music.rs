//! The spectral band analyzer: from raw samples and power spectra to one
//! smoothed, adaptively normalized loudness value per frequency band.
//!
//! The analyzer buffers mono samples and hands out windows of `FFT_SIZE` of
//! them. Its caller transforms a window and gives back the power of the
//! first `FFT_SIZE / 2` bins; the analyzer turns that into band loudness
//! and slides its buffer on by `HOP_SIZE`.

use crate::music_model::after_samples;
use crate::music_model::analyzed;
use crate::music_model::band_mean;
use crate::music_model::band_target;
use crate::music_model::bin_of;
use crate::music_model::downmixed;
use crate::music_model::initial_analyzer;
use crate::music_model::mean_toward_zero;
use crate::music_model::normalized;
use crate::music_model::power_sum;
use crate::music_model::sample_sum;
use crate::music_model::seq_max;
use crate::music_model::silence_due;
use crate::music_model::silenced;
use crate::music_model::slid;
use crate::music_model::smoothed;
use crate::music_model::window_ready;
use crate::music_model::AnalyzerState;
use crate::units::isqrt;
use crate::units::INTENSITY_ONE;
use std::collections::VecDeque;
use vstd::prelude::*;

verus! {

/// Samples per analysis window, and size of the transform.
pub const FFT_SIZE: usize = 512;

/// Samples by which successive windows are apart: a quarter of a window.
pub const HOP_SIZE: usize = FFT_SIZE / 4;

/// Analysis frames that a band's sliding maximum looks back on.
pub const NORM_WINDOW_SIZE: usize = 50;

/// Bands that are analyzed: low, mid and high.
pub const NUM_BANDS: usize = 3;

/// The smoothing factor, as the fraction `SMOOTHING_NUM / SMOOTHING_DEN`.
pub const SMOOTHING_NUM: u64 = 15;

pub const SMOOTHING_DEN: u64 = 100;

/// The least power that enters a sliding window.
pub const POWER_FLOOR: u64 = 1_000;

/// The power that the sliding windows are filled with at the start.
pub const POWER_SEED: u64 = 1_000_000;

/// Without samples for longer than this many milliseconds, silence is due.
pub const IDLE_SILENCE_MS: u64 = 100;

/// The low band begins here.
pub const LOW_START_HZ: u32 = 50;

/// The low band ends and the mid band begins here.
pub const LOW_END_HZ: u32 = 180;

/// The mid band ends and the high band begins here.
pub const MID_END_HZ: u32 = 3000;

/// What the analyzer's loop does next.
#[derive(Clone, Copy, Debug, PartialEq, Eq, Structural)]
pub enum AnalyzerStep {
    /// Leave the loop and pass the cancellation on.
    Stop,
    /// No block is there: pause briefly, then see whether silence is due.
    Idle,
    /// Take the block in and analyze every window the buffer holds.
    Process,
}

/// Decides the next step of the analyzer's loop: it stops when cancellation
/// was requested, when the source of samples is gone or when nobody is left
/// to receive intensities; it processes a block that arrived, and idles
/// otherwise.
pub fn next_step(
    stop_requested: bool,
    source_lost: bool,
    receiver_lost: bool,
    block_arrived: bool,
) -> (step: AnalyzerStep)
    ensures
        step == if stop_requested || source_lost || receiver_lost {
            AnalyzerStep::Stop
        } else if block_arrived {
            AnalyzerStep::Process
        } else {
            AnalyzerStep::Idle
        },
{
    if stop_requested || source_lost || receiver_lost {
        AnalyzerStep::Stop
    } else if block_arrived {
        AnalyzerStep::Process
    } else {
        AnalyzerStep::Idle
    }
}

/// The transform bin of a frequency at a sample rate.
pub fn hz_to_bin(hz: u32, sample_rate: u32) -> (bin: usize)
    ensures
        bin == bin_of(hz, sample_rate),
        1 <= bin <= FFT_SIZE / 2,
{
    let half: usize = FFT_SIZE / 2;
    if sample_rate == 0 {
        if hz == 0 {
            1
        } else {
            half
        }
    } else {
        let size: u64 = FFT_SIZE as u64;
        let doubled: u64 = 2 * (hz as u64) * size + sample_rate as u64;
        let nearest: u64 = doubled / (2 * (sample_rate as u64));
        if nearest < 1 {
            1
        } else if nearest > half as u64 {
            half
        } else {
            nearest as usize
        }
    }
}

/// The mean power over the bins `[start, end)`.
pub fn band_average(powers: &Vec<u64>, start: usize, end: usize) -> (avg: u64)
    ensures
        avg == band_mean(powers@, start as int, end as int),
{
    let len: usize = powers.len();
    let s: usize = if start < len {
        start
    } else {
        len
    };
    let e: usize = if end < len {
        end
    } else {
        len
    };
    if s >= e {
        return 0;
    }
    let mut sum: u128 = 0;
    let mut i: usize = s;
    while i < e
        invariant
            s <= i <= e <= len,
            len == powers@.len(),
            sum == power_sum(powers@, s as int, i as int),
            sum <= (i - s) * u64::MAX,
        decreases e - i,
    {
        assert((i - s) * u64::MAX + u64::MAX == (i + 1 - s) * u64::MAX) by (nonlinear_arith);
        assert((i + 1 - s) * u64::MAX <= usize::MAX * u64::MAX) by (nonlinear_arith)
            requires
                0 <= i + 1 - s <= usize::MAX,
        ;
        assert(usize::MAX * u64::MAX <= 0xffff_ffff_ffff_ffff * 0xffff_ffff_ffff_ffff)
            by (nonlinear_arith)
            requires
                usize::MAX <= 0xffff_ffff_ffff_ffff,
                u64::MAX == 0xffff_ffff_ffff_ffff,
        ;
        sum = sum + powers[i] as u128;
        i += 1;
    }
    let count: u128 = (e - s) as u128;
    assert(sum as int / count as int <= u64::MAX) by (nonlinear_arith)
        requires
            0 <= sum <= count * u64::MAX,
            count > 0,
    ;
    (sum / count) as u64
}

/// Lets a band's current power into its sliding window and returns the
/// band's adaptive ceiling: the largest power in the window.
pub fn update_and_get_moving_max(window: &mut VecDeque<u64>, new_value: u64) -> (ceiling: u64)
    ensures
        final(window)@ == slid(old(window)@, new_value),
        ceiling == seq_max(final(window)@),
{
    let entering: u64 = if new_value < POWER_FLOOR {
        POWER_FLOOR
    } else {
        new_value
    };
    window.push_back(entering);
    if window.len() > NORM_WINDOW_SIZE {
        let _ = window.pop_front();
    }
    window_max(window)
}

/// A band's power against its ceiling, as loudness in parts per million.
pub fn normalize(avg: u64, ceiling: u64) -> (level: u32)
    ensures
        level == normalized(avg, ceiling),
        level <= INTENSITY_ONE,
{
    if ceiling == 0 {
        if avg == 0 {
            0
        } else {
            INTENSITY_ONE
        }
    } else {
        let one: u128 = INTENSITY_ONE as u128;
        assert(avg as int * 1_000_000 * 1_000_000 <= 0xffff_ffff_ffff_ffff * 1_000_000_000_000)
            by (nonlinear_arith)
            requires
                avg <= 0xffff_ffff_ffff_ffff,
        ;
        let scaled: u128 = avg as u128 * one * one;
        let root: u64 = isqrt(scaled / ceiling as u128);
        if root > INTENSITY_ONE as u64 {
            INTENSITY_ONE
        } else {
            root as u32
        }
    }
}

/// One step of exponential smoothing from `prev` toward `target`.
pub fn smooth(prev: u32, target: u32) -> (next: u32)
    ensures
        next == smoothed(prev, target),
        prev <= target ==> prev <= next <= target,
        target <= prev ==> target <= next <= prev,
{
    let keep: u64 = SMOOTHING_DEN - SMOOTHING_NUM;
    let gain: u64 = SMOOTHING_NUM;
    let kept: u64 = prev as u64 * keep;
    let gained: u64 = target as u64 * gain;
    ((kept + gained) / SMOOTHING_DEN) as u32
}

/// The mono signal of an interleaved block.
pub fn downmix(block: &Vec<i32>, channels: u16) -> (mono: Vec<i32>)
    ensures
        mono@ == downmixed(block@, channels),
{
    let len: usize = block.len();
    let mut mono: Vec<i32> = Vec::new();
    if channels <= 1 {
        let mut i: usize = 0;
        while i < len
            invariant
                i <= len,
                len == block@.len(),
                mono@ == block@.take(i as int),
            decreases len - i,
        {
            mono.push(block[i]);
            i += 1;
        }
        return mono;
    }
    let ch: usize = channels as usize;
    let frames: usize = len / ch;
    assert(frames * ch <= len) by (nonlinear_arith)
        requires
            frames == len / ch,
            ch > 0,
    ;
    let mut f: usize = 0;
    while f < frames
        invariant
            f <= frames,
            frames * ch <= len,
            len == block@.len(),
            ch == channels,
            ch > 1,
            mono@.len() == f,
            forall|i: int|
                0 <= i < f ==> #[trigger] mono@[i] == mean_toward_zero(
                    sample_sum(block@, i * ch, (i + 1) * ch),
                    ch as int,
                ) as i32,
        decreases frames - f,
    {
        assert((f + 1) * ch <= frames * ch) by (nonlinear_arith)
            requires
                f + 1 <= frames,
                ch > 0,
        ;
        assert((f + 1) * ch == f * ch + ch) by (nonlinear_arith);
        let base: usize = f * ch;
        let mut sum: i64 = 0;
        let mut c: usize = 0;
        while c < ch
            invariant
                c <= ch,
                ch <= 0xffff,
                base + ch <= len,
                len == block@.len(),
                sum == sample_sum(block@, base as int, base + c),
                -0x8000_0000 * c <= sum <= 0x7fff_ffff * c,
            decreases ch - c,
        {
            sum = sum + block[base + c] as i64;
            c += 1;
        }
        let count: u64 = ch as u64;
        let mean: i64 = if sum >= 0 {
            assert(sum as int / count as int <= 0x7fff_ffff) by (nonlinear_arith)
                requires
                    0 <= sum <= 0x7fff_ffff * count,
                    count > 0,
            ;
            (sum as u64 / count) as i64
        } else {
            assert((-sum) as int / count as int <= 0x8000_0000) by (nonlinear_arith)
                requires
                    0 <= -sum <= 0x8000_0000 * count,
                    count > 0,
            ;
            -(((-sum) as u64 / count) as i64)
        };
        mono.push(mean as i32);
        f += 1;
    }
    mono
}

/// A copy of a vector of levels.
fn copy_levels(levels: &Vec<u32>) -> (copy: Vec<u32>)
    ensures
        copy@ == levels@,
{
    let len: usize = levels.len();
    let mut copy: Vec<u32> = Vec::new();
    let mut i: usize = 0;
    while i < len
        invariant
            i <= len,
            len == levels@.len(),
            copy@ == levels@.take(i as int),
        decreases len - i,
    {
        copy.push(levels[i]);
        i += 1;
    }
    copy
}

/// A sliding window as it is before the first frame: full of the seed.
fn seeded_window() -> (window: VecDeque<u64>)
    ensures
        window@ == Seq::new(NORM_WINDOW_SIZE as nat, |i: int| POWER_SEED),
{
    let mut window: VecDeque<u64> = VecDeque::new();
    let mut i: usize = 0;
    while i < NORM_WINDOW_SIZE
        invariant
            i <= NORM_WINDOW_SIZE,
            window@ == Seq::new(i as nat, |j: int| POWER_SEED),
        decreases NORM_WINDOW_SIZE - i,
    {
        window.push_back(POWER_SEED);
        i += 1;
    }
    window
}

/// The analyzer's state: buffered samples, the sliding windows of the three
/// bands, and the smoothed loudness of every output band.
pub struct AudioProcessor {
    sample_rate: u32,
    channels: u16,
    sample_buffer: Vec<i32>,
    smoothed_intensities: Vec<u32>,
    recent_max_low: VecDeque<u64>,
    recent_max_mid: VecDeque<u64>,
    recent_max_high: VecDeque<u64>,
    low_bin_range: (usize, usize),
    mid_bin_range: (usize, usize),
    high_bin_range: (usize, usize),
    silence_sent: bool,
}

impl View for AudioProcessor {
    type V = AnalyzerState;

    closed spec fn view(&self) -> AnalyzerState {
        AnalyzerState {
            sample_rate: self.sample_rate,
            channels: self.channels,
            buffer: self.sample_buffer@,
            smoothed: self.smoothed_intensities@,
            recent: seq![self.recent_max_low@, self.recent_max_mid@, self.recent_max_high@],
            ranges: seq![self.low_bin_range, self.mid_bin_range, self.high_bin_range],
            silence_sent: self.silence_sent,
        }
    }
}

impl AudioProcessor {
    /// The invariant of the analyzer: that of its state.
    pub open spec fn wf(&self) -> bool {
        self@.wf()
    }

    /// The invariant as it reads on the fields.
    spec fn fields_wf(&self) -> bool {
        &&& forall|j: int|
            0 <= j < self.smoothed_intensities@.len() ==> #[trigger] self.smoothed_intensities@[j]
                <= INTENSITY_ONE
        &&& self.recent_max_low@.len() <= NORM_WINDOW_SIZE
        &&& self.recent_max_mid@.len() <= NORM_WINDOW_SIZE
        &&& self.recent_max_high@.len() <= NORM_WINDOW_SIZE
    }

    proof fn lemma_fields_wf(&self)
        ensures
            self.wf() <==> self.fields_wf(),
    {
        let v = self@;
        if self.wf() {
            assert forall|j: int| 0 <= j < self.smoothed_intensities@.len() implies (
            #[trigger] self.smoothed_intensities@[j]) <= INTENSITY_ONE by {
                assert(v.smoothed[j] <= INTENSITY_ONE);
            }
            assert(v.recent[0].len() <= NORM_WINDOW_SIZE);
            assert(v.recent[1].len() <= NORM_WINDOW_SIZE);
            assert(v.recent[2].len() <= NORM_WINDOW_SIZE);
        }
        if self.fields_wf() {
            assert forall|b: int| 0 <= b < v.recent.len() implies (#[trigger] v.recent[b]).len()
                <= NORM_WINDOW_SIZE by {
                assert(b == 0 || b == 1 || b == 2);
            }
        }
    }

    /// An analyzer for a stream of `channels` interleaved channels at
    /// `sample_rate` hertz, with `num_bands` output bands.
    pub fn new(sample_rate: u32, channels: u16, num_bands: usize) -> (p: AudioProcessor)
        ensures
            p.wf(),
            p@ == initial_analyzer(sample_rate, channels, num_bands as nat),
    {
        let mut smoothed_intensities: Vec<u32> = Vec::new();
        let mut i: usize = 0;
        while i < num_bands
            invariant
                i <= num_bands,
                smoothed_intensities@ == Seq::new(i as nat, |j: int| 0u32),
            decreases num_bands - i,
        {
            smoothed_intensities.push(0);
            i += 1;
        }
        let high_end: u32 = ((sample_rate as u64 * 9) / 20) as u32;
        let low_start_bin: usize = hz_to_bin(LOW_START_HZ, sample_rate);
        let low_end_bin: usize = hz_to_bin(LOW_END_HZ, sample_rate);
        let mid_end_bin: usize = hz_to_bin(MID_END_HZ, sample_rate);
        let high_end_bin: usize = hz_to_bin(high_end, sample_rate);
        let p = AudioProcessor {
            sample_rate,
            channels,
            sample_buffer: Vec::new(),
            smoothed_intensities,
            recent_max_low: seeded_window(),
            recent_max_mid: seeded_window(),
            recent_max_high: seeded_window(),
            low_bin_range: (low_start_bin, low_end_bin),
            mid_bin_range: (low_end_bin, mid_end_bin),
            high_bin_range: (mid_end_bin, high_end_bin),
            silence_sent: false,
        };
        assert(p@.recent =~= initial_analyzer(sample_rate, channels, num_bands as nat).recent);
        proof {
            p.lemma_fields_wf();
        }
        p
    }

    /// The sample rate of the stream, in hertz.
    pub fn sample_rate(&self) -> (r: u32)
        ensures
            r == self@.sample_rate,
    {
        self.sample_rate
    }

    /// The number of interleaved channels of the stream.
    pub fn channels(&self) -> (r: u16)
        ensures
            r == self@.channels,
    {
        self.channels
    }

    /// The number of mono samples that wait in the buffer.
    pub fn buffered(&self) -> (n: usize)
        ensures
            n == self@.buffer.len(),
    {
        self.sample_buffer.len()
    }

    /// The smoothed loudness of every output band.
    pub fn intensities(&self) -> (levels: Vec<u32>)
        ensures
            levels@ == self@.smoothed,
    {
        copy_levels(&self.smoothed_intensities)
    }

    /// The bin range `[start, end)` of band `b`; an empty range for a band
    /// that is not analyzed.
    pub fn bin_range(&self, b: usize) -> (r: (usize, usize))
        ensures
            b < NUM_BANDS ==> r == self@.ranges[b as int],
            b >= NUM_BANDS ==> r == (0usize, 0usize),
    {
        if b == 0 {
            self.low_bin_range
        } else if b == 1 {
            self.mid_bin_range
        } else if b == 2 {
            self.high_bin_range
        } else {
            (0, 0)
        }
    }

    /// The adaptive ceiling of band `b`: the largest power in its sliding
    /// window. Zero for a band that is not analyzed.
    pub fn ceiling(&self, b: usize) -> (c: u64)
        ensures
            b < NUM_BANDS ==> c == seq_max(self@.recent[b as int]),
            b >= NUM_BANDS ==> c == 0,
    {
        if b == 0 {
            window_max(&self.recent_max_low)
        } else if b == 1 {
            window_max(&self.recent_max_mid)
        } else if b == 2 {
            window_max(&self.recent_max_high)
        } else {
            0
        }
    }

    /// Takes in a block of interleaved samples: downmixed to mono, it is
    /// appended to the buffer. A block that brings a sample ends the idle
    /// period.
    pub fn push_samples(&mut self, block: &Vec<i32>)
        requires
            old(self).wf(),
        ensures
            final(self).wf(),
            final(self)@ == after_samples(old(self)@, block@),
    {
        proof {
            old(self).lemma_fields_wf();
        }
        let mono: Vec<i32> = downmix(block, self.channels);
        let len: usize = mono.len();
        if len > 0 {
            self.silence_sent = false;
        }
        let ghost before = self.sample_buffer@;
        let mut i: usize = 0;
        while i < len
            invariant
                i <= len,
                len == mono@.len(),
                self.sample_buffer@ == before + mono@.take(i as int),
                self.sample_rate == old(self).sample_rate,
                self.channels == old(self).channels,
                self.smoothed_intensities == old(self).smoothed_intensities,
                self.recent_max_low == old(self).recent_max_low,
                self.recent_max_mid == old(self).recent_max_mid,
                self.recent_max_high == old(self).recent_max_high,
                self.low_bin_range == old(self).low_bin_range,
                self.mid_bin_range == old(self).mid_bin_range,
                self.high_bin_range == old(self).high_bin_range,
                self.silence_sent == (old(self).silence_sent && len == 0),
            decreases len - i,
        {
            self.sample_buffer.push(mono[i]);
            i += 1;
        }
        assert(mono@.take(len as int) =~= mono@);
        proof {
            self.lemma_fields_wf();
        }
    }

    /// The window to transform next: the first `FFT_SIZE` buffered samples,
    /// once that many are there.
    pub fn window(&self) -> (w: Option<Vec<i32>>)
        ensures
            match w {
                Some(samples) => window_ready(self@) && samples@ == self@.buffer.take(
                    FFT_SIZE as int,
                ),
                None => !window_ready(self@),
            },
    {
        if self.sample_buffer.len() < FFT_SIZE {
            return None;
        }
        let mut w: Vec<i32> = Vec::new();
        let mut i: usize = 0;
        while i < FFT_SIZE
            invariant
                i <= FFT_SIZE <= self.sample_buffer@.len(),
                w@ == self.sample_buffer@.take(i as int),
            decreases FFT_SIZE - i,
        {
            w.push(self.sample_buffer[i]);
            i += 1;
        }
        Some(w)
    }

    /// Analyzes the power spectrum of the current window and slides the
    /// buffer on by one hop. `powers[k]` is the power of transform bin `k`.
    /// Returns the smoothed loudness of every output band, each at most
    /// full scale, or nothing, and changes nothing, while no full window is
    /// buffered.
    pub fn analyze(&mut self, powers: &Vec<u64>) -> (out: Option<Vec<u32>>)
        requires
            old(self).wf(),
        ensures
            final(self).wf(),
            match out {
                Some(levels) => {
                    &&& window_ready(old(self)@)
                    &&& final(self)@ == analyzed(old(self)@, powers@)
                    &&& levels@ == final(self)@.smoothed
                    &&& forall|i: int|
                        0 <= i < levels@.len() ==> #[trigger] levels@[i] <= INTENSITY_ONE
                },
                None => !window_ready(old(self)@) && final(self)@ == old(self)@,
            },
    {
        if self.sample_buffer.len() < FFT_SIZE {
            return None;
        }
        let ghost pre = self@;
        proof {
            old(self).lemma_fields_wf();
        }
        let low: u64 = band_average(powers, self.low_bin_range.0, self.low_bin_range.1);
        let mid: u64 = band_average(powers, self.mid_bin_range.0, self.mid_bin_range.1);
        let high: u64 = band_average(powers, self.high_bin_range.0, self.high_bin_range.1);
        let max_low: u64 = update_and_get_moving_max(&mut self.recent_max_low, low);
        let max_mid: u64 = update_and_get_moving_max(&mut self.recent_max_mid, mid);
        let max_high: u64 = update_and_get_moving_max(&mut self.recent_max_high, high);
        let norm_low: u32 = normalize(low, max_low);
        let norm_mid: u32 = normalize(mid, max_mid);
        let norm_high: u32 = normalize(high, max_high);

        let n: usize = self.smoothed_intensities.len();
        let mut i: usize = 0;
        while i < n && i < NUM_BANDS
            invariant
                i <= n,
                i <= NUM_BANDS,
                n == pre.smoothed.len(),
                n == self.smoothed_intensities@.len(),
                pre.recent.len() == NUM_BANDS,
                norm_low == band_target(pre, powers@, 0),
                norm_mid == band_target(pre, powers@, 1),
                norm_high == band_target(pre, powers@, 2),
                forall|j: int|
                    0 <= j < i ==> #[trigger] self.smoothed_intensities@[j] == smoothed(
                        pre.smoothed[j],
                        band_target(pre, powers@, j),
                    ),
                forall|j: int|
                    i <= j < n ==> #[trigger] self.smoothed_intensities@[j] == pre.smoothed[j],
                forall|j: int|
                    0 <= j < n ==> #[trigger] self.smoothed_intensities@[j] <= INTENSITY_ONE,
                norm_low <= INTENSITY_ONE,
                norm_mid <= INTENSITY_ONE,
                norm_high <= INTENSITY_ONE,
                self.silence_sent == old(self).silence_sent,
                self.sample_rate == old(self).sample_rate,
                self.channels == old(self).channels,
                self.sample_buffer == old(self).sample_buffer,
                self.recent_max_low@ == slid(old(self).recent_max_low@, low),
                self.recent_max_mid@ == slid(old(self).recent_max_mid@, mid),
                self.recent_max_high@ == slid(old(self).recent_max_high@, high),
                self.low_bin_range == old(self).low_bin_range,
                self.mid_bin_range == old(self).mid_bin_range,
                self.high_bin_range == old(self).high_bin_range,
            decreases n - i,
        {
            let target: u32 = if i == 0 {
                norm_low
            } else if i == 1 {
                norm_mid
            } else {
                norm_high
            };
            let next: u32 = smooth(self.smoothed_intensities[i], target);
            self.smoothed_intensities.set(i, next);
            i += 1;
        }
        let rest: Vec<i32> = self.sample_buffer.split_off(HOP_SIZE);
        self.sample_buffer = rest;
        let out: Vec<u32> = copy_levels(&self.smoothed_intensities);
        assert(self@.smoothed =~= analyzed(pre, powers@).smoothed);
        assert(self@.recent =~= analyzed(pre, powers@).recent);
        proof {
            self.lemma_fields_wf();
        }
        Some(out)
    }

    /// Called while no samples arrive, with the time for which none has
    /// arrived. Once nothing is buffered and that time exceeds the idle
    /// threshold, every output falls to zero and the all-zero vector is
    /// returned for emission: once, and not again before samples have
    /// arrived. Otherwise nothing changes.
    pub fn idle(&mut self, idle_ms: u64) -> (out: Option<Vec<u32>>)
        requires
            old(self).wf(),
        ensures
            final(self).wf(),
            match out {
                Some(levels) => {
                    &&& silence_due(old(self)@, idle_ms)
                    &&& final(self)@ == silenced(old(self)@)
                    &&& levels@ == final(self)@.smoothed
                },
                None => !silence_due(old(self)@, idle_ms) && final(self)@ == old(self)@,
            },
    {
        if self.sample_buffer.len() != 0 || idle_ms <= IDLE_SILENCE_MS || self.silence_sent {
            return None;
        }
        proof {
            old(self).lemma_fields_wf();
        }
        self.silence_sent = true;
        let n: usize = self.smoothed_intensities.len();
        let mut i: usize = 0;
        while i < n
            invariant
                i <= n,
                n == self.smoothed_intensities@.len(),
                forall|j: int| 0 <= j < i ==> #[trigger] self.smoothed_intensities@[j] == 0,
                forall|j: int|
                    0 <= j < n ==> #[trigger] self.smoothed_intensities@[j] <= INTENSITY_ONE,
                self.silence_sent,
                self.sample_rate == old(self).sample_rate,
                self.channels == old(self).channels,
                self.sample_buffer == old(self).sample_buffer,
                self.recent_max_low == old(self).recent_max_low,
                self.recent_max_mid == old(self).recent_max_mid,
                self.recent_max_high == old(self).recent_max_high,
                self.low_bin_range == old(self).low_bin_range,
                self.mid_bin_range == old(self).mid_bin_range,
                self.high_bin_range == old(self).high_bin_range,
            decreases n - i,
        {
            self.smoothed_intensities.set(i, 0);
            i += 1;
        }
        let out: Vec<u32> = copy_levels(&self.smoothed_intensities);
        assert(self@.smoothed =~= silenced(old(self)@).smoothed);
        proof {
            self.lemma_fields_wf();
        }
        Some(out)
    }
}

/// The largest value in a sliding window.
fn window_max(window: &VecDeque<u64>) -> (ceiling: u64)
    ensures
        ceiling == seq_max(window@),
{
    let n: usize = window.len();
    let mut ceiling: u64 = 0;
    let mut i: usize = 0;
    while i < n
        invariant
            i <= n,
            n == window@.len(),
            ceiling == seq_max(window@.take(i as int)),
        decreases n - i,
    {
        let v: u64 = window[i];
        assert(window@.take(i + 1).drop_last() =~= window@.take(i as int));
        if v > ceiling {
            ceiling = v;
        }
        i += 1;
    }
    assert(window@.take(n as int) =~= window@);
    ceiling
}

} // verus!
