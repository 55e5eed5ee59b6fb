//! What holds of every analysis frame.

use crate::music::FFT_SIZE;
use crate::music::HOP_SIZE;
use crate::music::NORM_WINDOW_SIZE;
use crate::music::NUM_BANDS;
use crate::music::POWER_FLOOR;
use crate::music_model::after_frames;
use crate::music_model::after_samples;
use crate::music_model::after_silence;
use crate::music_model::analyzed;
use crate::music_model::band_level;
use crate::music_model::band_target;
use crate::music_model::bin_of;
use crate::music_model::downmixed;
use crate::music_model::floored;
use crate::music_model::frames_in;
use crate::music_model::normalized;
use crate::music_model::seq_max;
use crate::music_model::settled;
use crate::music_model::silence_due;
use crate::music_model::silenced;
use crate::music_model::slid;
use crate::music_model::smoothed;
use crate::music_model::window_ready;
use crate::music_model::AnalyzerState;
use crate::units::is_sqrt_floor;
use crate::units::lemma_sqrt_floor_exists;
use crate::units::lemma_sqrt_floor_unique;
use crate::units::sqrt_floor;
use crate::units::INTENSITY_ONE;
use vstd::prelude::*;

verus! {

/// The maximum of a sequence is at least each of its values.
pub proof fn lemma_seq_max_covers(s: Seq<u64>, i: int)
    requires
        0 <= i < s.len(),
    ensures
        s[i] <= seq_max(s),
    decreases s.len(),
{
    if i < s.len() - 1 {
        lemma_seq_max_covers(s.drop_last(), i);
    }
}

/// A value that occurs in a sequence and bounds it is its maximum.
pub proof fn lemma_seq_max_is(s: Seq<u64>, i: int, top: u64)
    requires
        0 <= i < s.len(),
        s[i] == top,
        forall|j: int| 0 <= j < s.len() ==> s[j] <= top,
    ensures
        seq_max(s) == top,
    decreases s.len(),
{
    lemma_seq_max_covers(s, i);
    lemma_seq_max_bounded(s, top);
}

/// The maximum of a sequence is no larger than a bound on its values.
pub proof fn lemma_seq_max_bounded(s: Seq<u64>, top: u64)
    requires
        forall|j: int| 0 <= j < s.len() ==> s[j] <= top,
    ensures
        seq_max(s) <= top,
    decreases s.len(),
{
    if s.len() > 0 {
        let rest = s.drop_last();
        assert forall|j: int| 0 <= j < rest.len() implies rest[j] <= top by {
            assert(rest[j] == s[j]);
        }
        lemma_seq_max_bounded(rest, top);
    }
}

/// The loud value still sits in the window, `age` frames old, above all
/// else, with nothing but the floor behind it.
spec fn loud_at(window: Seq<u64>, top: u64, age: int) -> bool {
    &&& age < window.len() <= NORM_WINDOW_SIZE
    &&& window[window.len() - 1 - age] == top
    &&& forall|i: int| 0 <= i < window.len() ==> window[i] <= top
    &&& forall|i: int| window.len() - 1 - age < i < window.len() ==> window[i] == POWER_FLOOR
}

/// The window is full of the floor value.
spec fn all_floor(window: Seq<u64>) -> bool {
    &&& window.len() == NORM_WINDOW_SIZE
    &&& forall|i: int| 0 <= i < window.len() ==> window[i] == POWER_FLOOR
}

proof fn lemma_silence_ages(window: Seq<u64>, loud: u64, count: nat)
    requires
        window.len() <= NORM_WINDOW_SIZE,
        forall|i: int| 0 <= i < window.len() ==> window[i] <= floored(loud),
    ensures
        count < NORM_WINDOW_SIZE ==> loud_at(
            after_silence(slid(window, loud), count),
            floored(loud),
            count as int,
        ),
        count >= NORM_WINDOW_SIZE ==> all_floor(after_silence(slid(window, loud), count)),
    decreases count,
{
    let top = floored(loud);
    if count == 0 {
        let first = slid(window, loud);
        assert(first[first.len() - 1] == top);
    } else {
        lemma_silence_ages(window, loud, (count - 1) as nat);
        let before = after_silence(slid(window, loud), (count - 1) as nat);
        let after = slid(before, 0);
        assert(after == after_silence(slid(window, loud), count));
        assert(floored(0) == POWER_FLOOR);
        if count < NORM_WINDOW_SIZE {
            assert(loud_at(before, top, count - 1));
            if before.len() == NORM_WINDOW_SIZE {
                assert forall|i: int| 0 <= i < after.len() implies after[i] <= top by {
                    if i < after.len() - 1 {
                        assert(after[i] == before[i + 1]);
                    }
                }
                assert(after[after.len() - 1 - count] == before[before.len() - 1 - (count - 1)]);
            } else {
                assert(after =~= before.push(POWER_FLOOR));
            }
        } else if count == NORM_WINDOW_SIZE {
            assert(loud_at(before, top, count - 1));
            assert(before.len() == NORM_WINDOW_SIZE);
            assert forall|i: int| 0 <= i < after.len() implies after[i] == POWER_FLOOR by {
                if i < after.len() - 1 {
                    assert(after[i] == before[i + 1]);
                }
            }
        } else {
            assert(all_floor(before));
            assert forall|i: int| 0 <= i < after.len() implies after[i] == POWER_FLOOR by {
                if i < after.len() - 1 {
                    assert(after[i] == before[i + 1]);
                }
            }
        }
    }
}

/// Adaptive ceiling decay: a frame at least as loud as all the window holds
/// sets the ceiling, and keeps it for as long as it is among the last
/// `NORM_WINDOW_SIZE` frames. With the silent frame that pushes it out, and
/// not before, the ceiling is back at the floor.
pub proof fn law_ceiling_decay(window: Seq<u64>, loud: u64, silent_frames: nat)
    requires
        window.len() <= NORM_WINDOW_SIZE,
        forall|i: int| 0 <= i < window.len() ==> window[i] <= floored(loud),
    ensures
        silent_frames < NORM_WINDOW_SIZE ==> seq_max(
            after_silence(slid(window, loud), silent_frames),
        ) == floored(loud),
        silent_frames >= NORM_WINDOW_SIZE ==> seq_max(
            after_silence(slid(window, loud), silent_frames),
        ) == POWER_FLOOR,
{
    lemma_silence_ages(window, loud, silent_frames);
    let now = after_silence(slid(window, loud), silent_frames);
    if silent_frames < NORM_WINDOW_SIZE {
        lemma_seq_max_is(now, now.len() - 1 - silent_frames, floored(loud));
    } else {
        lemma_seq_max_is(now, 0, POWER_FLOOR);
    }
}

/// A sliding window never outgrows `NORM_WINDOW_SIZE`, and its ceiling is
/// never below the floor once a value has entered.
pub proof fn law_window_bounded(window: Seq<u64>, value: u64)
    requires
        window.len() <= NORM_WINDOW_SIZE,
    ensures
        0 < slid(window, value).len() <= NORM_WINDOW_SIZE,
        seq_max(slid(window, value)) >= floored(value) >= POWER_FLOOR,
{
    let after = slid(window, value);
    lemma_seq_max_covers(after, after.len() - 1);
}

/// Normalized loudness is at most full scale.
pub proof fn lemma_normalized_in_range(avg: u64, ceiling: u64)
    ensures
        normalized(avg, ceiling) <= INTENSITY_ONE,
{
    if ceiling != 0 {
        let x = (avg as int * INTENSITY_ONE as int * INTENSITY_ONE as int) / (ceiling as int);
        assert(avg as int * INTENSITY_ONE as int * INTENSITY_ONE as int >= 0) by (nonlinear_arith)
            requires
                avg >= 0,
                INTENSITY_ONE >= 0,
        ;
        assert(x >= 0) by (nonlinear_arith)
            requires
                x == (avg as int * INTENSITY_ONE as int * INTENSITY_ONE as int) / (ceiling as int),
                avg as int * INTENSITY_ONE as int * INTENSITY_ONE as int >= 0,
                ceiling > 0,
        ;
        lemma_sqrt_floor_exists(x);
    }
}

/// Smoothing stays between where it was and where it is heading.
pub proof fn lemma_smoothed_between(prev: u32, target: u32)
    ensures
        prev <= target ==> prev <= smoothed(prev, target) <= target,
        target <= prev ==> target <= smoothed(prev, target) <= prev,
{
}

/// Loudness stays in range: if every output is at most full scale before a
/// frame is analyzed, so it is after, and there are as many outputs.
pub proof fn law_levels_in_range(pre: AnalyzerState, powers: Seq<u64>)
    requires
        forall|i: int| 0 <= i < pre.smoothed.len() ==> pre.smoothed[i] <= INTENSITY_ONE,
    ensures
        analyzed(pre, powers).smoothed.len() == pre.smoothed.len(),
        forall|i: int|
            0 <= i < pre.smoothed.len() ==> #[trigger] analyzed(pre, powers).smoothed[i]
                <= INTENSITY_ONE,
{
    assert forall|i: int| 0 <= i < pre.smoothed.len() implies #[trigger] analyzed(
        pre,
        powers,
    ).smoothed[i] <= INTENSITY_ONE by {
        if i < pre.recent.len() {
            let target = band_target(pre, powers, i);
            lemma_normalized_in_range(
                band_level(pre, powers, i),
                seq_max(slid(pre.recent[i], band_level(pre, powers, i))),
            );
            lemma_smoothed_between(pre.smoothed[i], target);
        }
    }
}

/// Where the limits `1` and `FFT_SIZE / 2` do not cut in, the bin of a
/// frequency is `hz * FFT_SIZE / sample_rate` rounded to the nearest
/// integer: it lies at most half a bin above the exact quotient and less
/// than half a bin below it.
pub proof fn law_bin_is_nearest(hz: u32, sample_rate: u32)
    requires
        sample_rate > 0,
        1 < bin_of(hz, sample_rate) < FFT_SIZE / 2,
    ensures
        ({
            let exact = (hz as real * FFT_SIZE as real) / sample_rate as real;
            let bin = bin_of(hz, sample_rate) as real;
            &&& (2 as real) * (bin - exact) <= 1 as real
            &&& (2 as real) * (exact - bin) < 1 as real
        }),
{
    let b = bin_of(hz, sample_rate);
    let top = 2 * hz * FFT_SIZE + sample_rate;
    let step = 2 * sample_rate;
    assert(b == top / step);
    assert(step * b <= top < step * b + step) by (nonlinear_arith)
        requires
            b == top / step,
            step > 0,
    ;
    let h = hz as real;
    let n = FFT_SIZE as real;
    let r = sample_rate as real;
    let br = b as real;
    let exact = (h * n) / r;
    assert((2 * sample_rate * b) as real == (2 as real) * r * br) by (nonlinear_arith)
        requires
            r == sample_rate as real,
            br == b as real,
    ;
    assert((2 * hz * FFT_SIZE) as real == (2 as real) * h * n) by (nonlinear_arith)
        requires
            h == hz as real,
            n == FFT_SIZE as real,
    ;
    assert((2 as real) * r * br <= (2 as real) * h * n + r);
    assert((2 as real) * h * n + r < (2 as real) * r * br + (2 as real) * r);
    assert(exact * r == h * n) by (nonlinear_arith)
        requires
            exact == (h * n) / r,
            r > 0 as real,
    ;
    assert((2 as real) * (br - exact) <= 1 as real && (2 as real) * (exact - br) < 1 as real)
        by (nonlinear_arith)
        requires
            exact * r == h * n,
            r > 0 as real,
            (2 as real) * r * br <= (2 as real) * h * n + r,
            (2 as real) * h * n + r < (2 as real) * r * br + (2 as real) * r,
    ;
}

/// A window is ready exactly while the buffer holds a frame, and every
/// analysis uses up one frame: the frames of a buffer are analyzed one by
/// one, and none twice.
pub proof fn law_analysis_uses_one_frame(pre: AnalyzerState, powers: Seq<u64>)
    ensures
        window_ready(pre) <==> frames_in(pre.buffer.len()) > 0,
        window_ready(pre) ==> frames_in(analyzed(pre, powers).buffer.len()) + 1 == frames_in(
            pre.buffer.len(),
        ),
{
    let len = pre.buffer.len() as int;
    if len >= FFT_SIZE {
        let rest = len - FFT_SIZE;
        assert(rest / 128 >= 0) by (nonlinear_arith)
            requires
                rest >= 0,
        ;
        assert(analyzed(pre, powers).buffer.len() == len - HOP_SIZE);
        if len - HOP_SIZE >= FFT_SIZE {
            assert((rest - 128) / 128 + 1 == rest / 128) by (nonlinear_arith)
                requires
                    rest >= 128,
            ;
        } else {
            assert(rest / 128 == 0) by (nonlinear_arith)
                requires
                    0 <= rest < 128,
            ;
        }
    }
}

/// Silence is emitted once per idle period. After an emission none is due
/// again, however long the pause lasts, until a block brings samples; and
/// samples are never lost to silence, since none is due while any are
/// buffered.
pub proof fn law_silence_once(pre: AnalyzerState, idle_ms: u64, later_ms: u64, block: Seq<i32>)
    ensures
        !silence_due(silenced(pre), later_ms),
        silenced(pre).buffer == pre.buffer,
        downmixed(block, pre.channels).len() > 0 ==> !after_samples(pre, block).silence_sent
            && !silence_due(after_samples(pre, block), later_ms),
        downmixed(block, pre.channels).len() == 0 ==> after_samples(pre, block).silence_sent
            == pre.silence_sent,
{
}

/// The invariant of the analyzer survives every step: a block of samples,
/// an analyzed frame, an emission of silence.
pub proof fn law_analyzer_keeps_wf(pre: AnalyzerState, block: Seq<i32>, powers: Seq<u64>)
    requires
        pre.wf(),
    ensures
        after_samples(pre, block).wf(),
        analyzed(pre, powers).wf(),
        silenced(pre).wf(),
{
    law_levels_in_range(pre, powers);
    let next = analyzed(pre, powers);
    assert forall|b: int| 0 <= b < next.recent.len() implies (#[trigger] next.recent[b]).len()
        <= NORM_WINDOW_SIZE by {
        law_window_bounded(pre.recent[b], band_level(pre, powers, b));
    }
}

/// A band without power is silent: its loudness is zero against any
/// ceiling that a window can have.
pub proof fn lemma_normalized_silence(ceiling: u64)
    ensures
        normalized(0, ceiling) == 0,
{
    if ceiling != 0 {
        assert(is_sqrt_floor(0, 0));
        lemma_sqrt_floor_exists(0);
        lemma_sqrt_floor_unique(0, 0, sqrt_floor(0));
    }
}

/// A band that is as loud as its ceiling is at full scale.
pub proof fn lemma_normalized_full(level: u64)
    requires
        level > 0,
    ensures
        normalized(level, level) == INTENSITY_ONE,
{
    let x = (level as int * INTENSITY_ONE as int * INTENSITY_ONE as int) / (level as int);
    assert(x == 1_000_000_000_000) by (nonlinear_arith)
        requires
            level > 0,
            x == (level as int * 1_000_000 * 1_000_000) / (level as int),
    ;
    assert(is_sqrt_floor(x, 1_000_000));
    lemma_sqrt_floor_exists(x);
    lemma_sqrt_floor_unique(x, 1_000_000, sqrt_floor(x));
}

/// Smoothing toward full scale never falls back and never overshoots.
pub proof fn lemma_settled_rises(level: u32, frames: nat)
    requires
        level <= INTENSITY_ONE,
    ensures
        level <= settled(level, frames) <= INTENSITY_ONE,
        settled(level, frames) <= settled(level, frames + 1),
    decreases frames,
{
    if frames > 0 {
        lemma_settled_rises(level, (frames - 1) as nat);
    }
    lemma_smoothed_between(settled(level, frames), INTENSITY_ONE);
}

/// From silence, ten smoothing steps toward full scale pass eight tenths
/// of it, and later steps stay above.
pub proof fn lemma_settled_after_ten(frames: nat)
    requires
        frames >= 10,
    ensures
        settled(0, frames) > 800_000,
    decreases frames,
{
    if frames == 10 {
        assert(settled(0, 1) == 150_000) by {
            reveal_with_fuel(settled, 2);
        }
        assert(settled(0, 2) == 277_500);
        assert(settled(0, 3) == 385_875);
        assert(settled(0, 4) == 477_993);
        assert(settled(0, 5) == 556_294);
        assert(settled(0, 6) == 622_849);
        assert(settled(0, 7) == 679_421);
        assert(settled(0, 8) == 727_507);
        assert(settled(0, 9) == 768_380);
        assert(settled(0, 10) == 803_123);
    } else {
        lemma_settled_after_ten((frames - 1) as nat);
        lemma_settled_rises(0, (frames - 1) as nat);
    }
}

/// The frames of a steady tone in band `b`: in every one of them the band
/// has the same power, and every other analyzed band has none.
pub open spec fn steady_tone(
    pre: AnalyzerState,
    spectra: Seq<Seq<u64>>,
    b: int,
    power: u64,
) -> bool {
    forall|k: int, c: int|
        0 <= k < spectra.len() && 0 <= c < NUM_BANDS ==> #[trigger] band_level(pre, spectra[k], c)
            == if c == b {
            power
        } else {
            0
        }
}

/// Band isolation: fed a steady tone in one band that is at least as loud
/// as anything the band's window holds, a silent analyzer raises that
/// band's output by one smoothing step toward full scale per frame, past
/// eight tenths of full scale from the tenth frame on, while the outputs of
/// the other bands stay at zero.
pub proof fn law_band_isolation(pre: AnalyzerState, spectra: Seq<Seq<u64>>, b: int, power: u64)
    requires
        pre.wf(),
        0 <= b < NUM_BANDS,
        pre.smoothed.len() >= NUM_BANDS,
        forall|i: int| 0 <= i < pre.smoothed.len() ==> pre.smoothed[i] == 0,
        power >= POWER_FLOOR,
        forall|i: int| 0 <= i < pre.recent[b].len() ==> pre.recent[b][i] <= power,
        steady_tone(pre, spectra, b, power),
    ensures
        ({
            let post = after_frames(pre, spectra);
            &&& post.wf()
            &&& post.ranges == pre.ranges
            &&& post.smoothed.len() == pre.smoothed.len()
            &&& post.smoothed[b] == settled(0, spectra.len())
            &&& spectra.len() >= 10 ==> post.smoothed[b] > 800_000
            &&& forall|c: int| 0 <= c < post.smoothed.len() && c != b ==> post.smoothed[c] == 0
            &&& forall|i: int| 0 <= i < post.recent[b].len() ==> post.recent[b][i] <= power
        }),
    decreases spectra.len(),
{
    if spectra.len() > 0 {
        let earlier = spectra.drop_last();
        assert forall|k: int, c: int|
            0 <= k < earlier.len() && 0 <= c < NUM_BANDS implies #[trigger] band_level(
            pre,
            earlier[k],
            c,
        ) == if c == b {
            power
        } else {
            0
        } by {
            assert(earlier[k] == spectra[k]);
        }
        law_band_isolation(pre, earlier, b, power);
        let mid = after_frames(pre, earlier);
        let powers = spectra.last();
        assert(powers == spectra[spectra.len() - 1]);
        let post = analyzed(mid, powers);
        law_analyzer_keeps_wf(mid, Seq::empty(), powers);
        // The loud band is its own ceiling.
        assert(band_level(mid, powers, b) == band_level(pre, powers, b));
        let window = slid(mid.recent[b], power);
        assert(window[window.len() - 1] == power);
        lemma_seq_max_is(window, window.len() - 1, power);
        lemma_normalized_full(power);
        assert(band_target(mid, powers, b) == INTENSITY_ONE);
        // The other bands have no power.
        assert forall|c: int| 0 <= c < post.smoothed.len() && c != b implies post.smoothed[c]
            == 0 by {
            if c < NUM_BANDS {
                assert(band_level(mid, powers, c) == band_level(pre, powers, c));
                lemma_normalized_silence(seq_max(slid(mid.recent[c], 0)));
            }
        }
        if spectra.len() >= 10 {
            lemma_settled_after_ten(spectra.len());
        }
    }
}

} // verus!
