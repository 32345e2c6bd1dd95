//! Waveform envelopes: a fixed number of peak magnitudes over a decoded
//! signal, normalized by their maximum.
use vstd::prelude::*;

verus! {

/// Largest magnitude of a 32-bit sample.
pub const SAMPLE_MAGNITUDE_MAX: u64 = 0x8000_0000;

/// Magnitude of an integer.
pub open spec fn magnitude(x: int) -> nat {
    if x < 0 {
        (-x) as nat
    } else {
        x as nat
    }
}

/// Sum of a run of samples.
pub open spec fn sample_sum(s: Seq<i32>) -> int
    decreases s.len(),
{
    if s.len() == 0 {
        0
    } else {
        sample_sum(s.drop_last()) + s.last()
    }
}

/// Magnitude of the mono mix of one frame: the channel average, rounded
/// toward zero, taken absolutely.
pub open spec fn mix_level(frame: Seq<i32>, channels: nat) -> nat {
    magnitude(sample_sum(frame)) / channels
}

/// Channel count used for downmixing: a stream that reports none is mono.
pub open spec fn mix_width(channels: nat) -> nat {
    if channels <= 1 {
        1
    } else {
        channels
    }
}

/// Mono levels of an interleaved signal: one per complete frame; a trailing
/// partial frame is dropped.
pub open spec fn mono_levels(samples: Seq<i32>, channels: nat) -> Seq<nat> {
    let c = mix_width(channels);
    Seq::new(
        samples.len() / c,
        |j: int| mix_level(samples.subrange(j * c, j * c + c), c),
    )
}

/// The sum of `n` samples is at most `n` full-scale magnitudes.
proof fn lemma_sum_bound(s: Seq<i32>)
    ensures
        magnitude(sample_sum(s)) <= s.len() * SAMPLE_MAGNITUDE_MAX,
    decreases s.len(),
{
    if s.len() > 0 {
        lemma_sum_bound(s.drop_last());
    }
}

/// Mono level of the frame `samples[start..end]` mixed over `channels`.
fn frame_level(samples: &Vec<i32>, start: usize, end: usize, channels: usize) -> (r: u64)
    requires
        start <= end <= samples@.len(),
        end - start <= channels,
        channels >= 1,
    ensures
        r == mix_level(samples@.subrange(start as int, end as int), channels as nat),
        r <= SAMPLE_MAGNITUDE_MAX,
{
    let mut acc: i128 = 0;
    let mut k: usize = start;
    while k < end
        invariant
            start <= k <= end <= samples@.len(),
            acc == sample_sum(samples@.subrange(start as int, k as int)),
            magnitude(acc as int) <= (k - start) * SAMPLE_MAGNITUDE_MAX,
        decreases end - k,
    {
        proof {
            let s = samples@.subrange(start as int, k as int + 1);
            assert(s.drop_last() =~= samples@.subrange(start as int, k as int));
        }
        acc = acc + samples[k] as i128;
        k = k + 1;
    }
    let total: u128 = if acc < 0 {
        (-acc) as u128
    } else {
        acc as u128
    };
    let level = total / channels as u128;
    proof {
        let frame = samples@.subrange(start as int, end as int);
        lemma_sum_bound(frame);
        assert(total <= channels * SAMPLE_MAGNITUDE_MAX) by (nonlinear_arith)
            requires
                total <= (end - start) * SAMPLE_MAGNITUDE_MAX,
                end - start <= channels,
        ;
        assert(level <= SAMPLE_MAGNITUDE_MAX) by (nonlinear_arith)
            requires
                level == total / channels as u128,
                total <= channels * SAMPLE_MAGNITUDE_MAX,
                channels >= 1,
        ;
    }
    level as u64
}

/// Downmixes an interleaved signal to mono levels, one per complete frame.
pub fn mono_mix(samples: &Vec<i32>, channels: usize) -> (r: Vec<u64>)
    ensures
        r@.len() == mono_levels(samples@, channels as nat).len(),
        forall|j: int|
            0 <= j < r@.len() ==> r@[j] == mono_levels(samples@, channels as nat)[j],
        forall|j: int| 0 <= j < r@.len() ==> r@[j] <= SAMPLE_MAGNITUDE_MAX,
{
    let c: usize = if channels <= 1 {
        1
    } else {
        channels
    };
    let frames = samples.len() / c;
    let mut levels: Vec<u64> = Vec::with_capacity(frames);
    let mut j: usize = 0;
    while j < frames
        invariant
            c == mix_width(channels as nat),
            c >= 1,
            frames == samples@.len() / (c as nat),
            samples@.len() <= usize::MAX,
            j <= frames,
            levels@.len() == j,
            forall|i: int|
                0 <= i < j ==> levels@[i] == mono_levels(samples@, channels as nat)[i],
            forall|i: int| 0 <= i < j ==> levels@[i] <= SAMPLE_MAGNITUDE_MAX,
        decreases frames - j,
    {
        proof {
            assert((j + 1) * c <= frames * c) by (nonlinear_arith)
                requires
                    j < frames,
            ;
            assert(frames * c <= samples@.len()) by (nonlinear_arith)
                requires
                    frames == samples@.len() / (c as nat),
                    c >= 1,
            ;
            assert((j + 1) * c == j * c + c) by (nonlinear_arith);
            assert(j * c + c <= samples@.len());
        }
        let start = j * c;
        let level = frame_level(samples, start, start + c, c);
        levels.push(level);
        j = j + 1;
    }
    levels
}

/// The values of a sequence of unsigned integers, as naturals.
pub open spec fn nats(s: Seq<u64>) -> Seq<nat> {
    s.map_values(|x: u64| x as nat)
}

/// Largest value of a sequence of levels; zero when it is empty.
pub open spec fn peak(s: Seq<nat>) -> nat
    decreases s.len(),
{
    if s.len() == 0 {
        0
    } else {
        let p = peak(s.drop_last());
        if s.last() > p {
            s.last()
        } else {
            p
        }
    }
}

/// No level exceeds the peak, and a non-empty sequence attains it.
proof fn lemma_peak(s: Seq<nat>)
    ensures
        forall|i: int| 0 <= i < s.len() ==> s[i] <= peak(s),
        s.len() > 0 ==> exists|i: int| 0 <= i < s.len() && s[i] == peak(s),
        s.len() == 0 ==> peak(s) == 0,
    decreases s.len(),
{
    if s.len() > 0 {
        let t = s.drop_last();
        lemma_peak(t);
        assert forall|i: int| 0 <= i < s.len() implies s[i] <= peak(s) by {
            if i < t.len() {
                assert(s[i] == t[i]);
            }
        }
        if s.last() > peak(t) || t.len() == 0 {
            assert(s[s.len() - 1] == peak(s));
        } else {
            let w = choose|i: int| 0 <= i < t.len() && t[i] == peak(t);
            assert(s[w] == peak(s));
        }
    }
}

/// Value of output point `i` of an exact envelope over `levels`: the peak of
/// the point's segment, the last segment taking the remainder; with fewer
/// levels than points, the level nearest below the point's position.
pub open spec fn exact_point(levels: Seq<nat>, points: nat, i: nat) -> nat {
    let total = levels.len();
    if total == 0 {
        0
    } else if total < points {
        levels[(i * total / points) as int]
    } else {
        let per = total / points;
        let end = if i + 1 == points {
            total
        } else {
            (i + 1) * per
        };
        peak(levels.subrange((i * per) as int, end as int))
    }
}

/// All output points of an exact envelope.
pub open spec fn exact_peaks(levels: Seq<nat>, points: nat) -> Seq<nat> {
    Seq::new(points, |i: int| exact_point(levels, points, i as nat))
}

/// Peak of `levels[start..end]`.
fn range_peak(levels: &Vec<u64>, start: usize, end: usize) -> (r: u64)
    requires
        start <= end <= levels@.len(),
    ensures
        r == peak(nats(levels@).subrange(start as int, end as int)),
{
    let mut acc: u64 = 0;
    let mut k: usize = start;
    while k < end
        invariant
            start <= k <= end <= levels@.len(),
            acc == peak(nats(levels@).subrange(start as int, k as int)),
        decreases end - k,
    {
        proof {
            let s = nats(levels@).subrange(start as int, k as int + 1);
            assert(s.drop_last() =~= nats(levels@).subrange(start as int, k as int));
            assert(s.last() == levels@[k as int]);
        }
        if levels[k] > acc {
            acc = levels[k];
        }
        k = k + 1;
    }
    acc
}

/// Reduces mono levels to `points` output points: segment peaks, or the
/// nearest level when there are fewer levels than points.
pub fn segment_peaks(levels: &Vec<u64>, points: usize) -> (r: Vec<u64>)
    ensures
        r@.len() == points,
        nats(r@) =~= exact_peaks(nats(levels@), points as nat),
{
    let total = levels.len();
    let mut out: Vec<u64> = Vec::with_capacity(points);
    let mut i: usize = 0;
    while i < points
        invariant
            total == levels@.len(),
            i <= points,
            out@.len() == i,
            forall|k: int|
                0 <= k < i ==> out@[k] == exact_point(nats(levels@), points as nat, k as nat),
        decreases points - i,
    {
        let value: u64 = if total == 0 {
            0
        } else if total < points {
            proof {
                assert(i * total <= 0xffff_ffff_ffff_ffffu128 * 0xffff_ffff_ffff_ffffu128)
                    by (nonlinear_arith)
                    requires
                        i <= 0xffff_ffff_ffff_ffffu128,
                        total <= 0xffff_ffff_ffff_ffffu128,
                ;
            }
            let idx = (i as u128 * total as u128) / points as u128;
            proof {
                assert(i * total < points * total) by (nonlinear_arith)
                    requires
                        i < points,
                        total > 0,
                ;
                assert(idx < total) by (nonlinear_arith)
                    requires
                        idx == (i * total) / (points as int),
                        i * total < points * total,
                        points > 0,
                ;
            }
            levels[idx as usize]
        } else {
            let per = total / points;
            proof {
                assert(per * points <= total) by (nonlinear_arith)
                    requires
                        per == total / points,
                        points > 0,
                ;
                assert((i + 1) * per <= points * per) by (nonlinear_arith)
                    requires
                        i < points,
                ;
                assert((i + 1) * per == i * per + per) by (nonlinear_arith);
            }
            let start = i * per;
            let end = if i + 1 == points {
                total
            } else {
                start + per
            };
            range_peak(levels, start, end)
        };
        out.push(value);
        i = i + 1;
    }
    proof {
        assert forall|k: int| 0 <= k < points implies nats(out@)[k] == exact_peaks(
            nats(levels@),
            points as nat,
        )[k] by {}
    }
    out
}

/// A waveform envelope: point `i` stands for `peaks[i] / full_scale`.
pub struct Envelope {
    pub peaks: Vec<u64>,
    pub full_scale: u64,
}

/// Normalizing divisor of a set of points: their maximum, or one when all
/// are zero so that a silent envelope stays at zero.
pub open spec fn full_scale_for(peaks: Seq<nat>) -> nat {
    if peak(peaks) > 0 {
        peak(peaks)
    } else {
        1
    }
}

impl Envelope {
    /// Normalizes a set of points by their maximum.
    pub fn normalized(peaks: Vec<u64>) -> (r: Envelope)
        ensures
            r.peaks@ == peaks@,
            r.full_scale == full_scale_for(nats(peaks@)),
    {
        let mut top: u64 = 0;
        let mut k: usize = 0;
        while k < peaks.len()
            invariant
                k <= peaks@.len(),
                top == peak(nats(peaks@).subrange(0, k as int)),
            decreases peaks@.len() - k,
        {
            proof {
                let s = nats(peaks@).subrange(0, k as int + 1);
                assert(s.drop_last() =~= nats(peaks@).subrange(0, k as int));
            }
            if peaks[k] > top {
                top = peaks[k];
            }
            k = k + 1;
        }
        proof {
            assert(nats(peaks@).subrange(0, peaks@.len() as int) =~= nats(peaks@));
        }
        let full_scale = if top > 0 {
            top
        } else {
            1
        };
        Envelope { peaks, full_scale }
    }
}

/// Every normalized point lies in `[0, 1]`; unless all points are zero, at
/// least one of them is exactly one.
pub proof fn lemma_normalized_range(peaks: Seq<nat>)
    ensures
        full_scale_for(peaks) > 0,
        forall|i: int| 0 <= i < peaks.len() ==> peaks[i] <= full_scale_for(peaks),
        (exists|i: int| 0 <= i < peaks.len() && peaks[i] > 0) ==> (exists|i: int|
            0 <= i < peaks.len() && peaks[i] == full_scale_for(peaks)),
{
    lemma_peak(peaks);
}

/// Exact envelope of an interleaved signal: downmix to mono, take `points`
/// segment peaks, normalize by their maximum.
pub fn exact_envelope(samples: &Vec<i32>, channels: usize, points: usize) -> (r: Envelope)
    ensures
        nats(r.peaks@) == exact_peaks(mono_levels(samples@, channels as nat), points as nat),
        r.full_scale == full_scale_for(nats(r.peaks@)),
{
    let levels = mono_mix(samples, channels);
    proof {
        assert(nats(levels@) =~= mono_levels(samples@, channels as nat));
    }
    let peaks = segment_peaks(&levels, points);
    Envelope::normalized(peaks)
}

/// Every level of the signal falls under some output point: a non-zero
/// level makes that point non-zero.
proof fn lemma_level_covered(levels: Seq<nat>, points: nat, j: int)
    requires
        points > 0,
        0 <= j < levels.len(),
    ensures
        exists|i: int| 0 <= i < points && exact_peaks(levels, points)[i] >= levels[j],
{
    let total = levels.len();
    if total < points {
        let i = (j * points + total - 1) / (total as int);
        assert(0 <= i < points && i * total >= j * points && i * total < (j + 1) * points)
            by (nonlinear_arith)
            requires
                i == (j * points + total - 1) / (total as int),
                0 <= j < total,
                total < points,
        ;
        assert((i * total) / (points as int) == j) by (nonlinear_arith)
            requires
                i * total >= j * points,
                i * total < (j + 1) * points,
                points > 0,
        ;
        assert(exact_point(levels, points, i as nat) == levels[j]);
        assert(exact_peaks(levels, points)[i] == levels[j]);
    } else {
        let per = total / points;
        assert(per >= 1 && per * points <= total) by (nonlinear_arith)
            requires
                per == total / points,
                total >= points,
                points > 0,
        ;
        let q = j / (per as int);
        let i = if q < points - 1 {
            q
        } else {
            points - 1
        };
        assert(q * per <= j && j < (q + 1) * per && q >= 0) by (nonlinear_arith)
            requires
                q == j / (per as int),
                per >= 1,
                j >= 0,
        ;
        assert(i * per <= q * per) by (nonlinear_arith)
            requires
                0 <= i <= q,
                per >= 1,
        ;
        assert((i + 1) * per <= points * per) by (nonlinear_arith)
            requires
                i < points,
        ;
        let end: int = if i + 1 == points {
            total as int
        } else {
            ((i + 1) * per) as int
        };
        if i + 1 < points {
            assert(i == q);
            assert((i + 1) * per == (q + 1) * per);
        }
        assert(j < end);
        assert(points * per == per * points) by (nonlinear_arith);
        assert(end <= total);
        assert(0 <= i * per);
        let seg = levels.subrange((i * per) as int, end);
        lemma_peak(seg);
        assert(seg[j - i * per] == levels[j]);
        assert(exact_point(levels, points, i as nat) == peak(seg));
        assert(exact_peaks(levels, points)[i] >= levels[j]);
    }
}

/// A silent signal gives all-zero points.
proof fn lemma_silence_stays_silent(levels: Seq<nat>, points: nat, i: nat)
    requires
        i < points,
        forall|j: int| 0 <= j < levels.len() ==> levels[j] == 0,
    ensures
        exact_point(levels, points, i) == 0,
{
    let total = levels.len();
    if total > 0 && total < points {
        assert((i * total) / (points as nat) < total) by (nonlinear_arith)
            requires
                i < points,
                total > 0,
        ;
    } else if total >= points {
        let per = total / points;
        assert(per * points <= total) by (nonlinear_arith)
            requires
                per == total / points,
                points > 0,
        ;
        assert((i + 1) * per <= points * per && (i + 1) * per == i * per + per && i * per >= 0)
            by (nonlinear_arith)
            requires
                i < points,
        ;
        let end: int = if i + 1 == points {
            total as int
        } else {
            ((i + 1) * per) as int
        };
        let seg = levels.subrange((i * per) as int, end);
        lemma_peak(seg);
        if seg.len() > 0 {
            let w = choose|k: int| 0 <= k < seg.len() && seg[k] == peak(seg);
            assert(seg[w] == levels[i * per + w]);
        }
    }
}

/// An exact envelope has exactly `points` values, each in `[0, 1]` once
/// normalized; unless the mono signal is silent, at least one of them is
/// exactly one, and a silent signal gives all zeros.
pub proof fn lemma_exact_envelope_normalized(samples: Seq<i32>, channels: nat, points: nat)
    ensures
        exact_peaks(mono_levels(samples, channels), points).len() == points,
        forall|i: int|
            0 <= i < points ==> exact_peaks(mono_levels(samples, channels), points)[i]
                <= full_scale_for(exact_peaks(mono_levels(samples, channels), points)),
        points > 0 && (exists|j: int|
            0 <= j < mono_levels(samples, channels).len() && mono_levels(samples, channels)[j]
                > 0) ==> (exists|i: int|
            0 <= i < points && exact_peaks(mono_levels(samples, channels), points)[i]
                == full_scale_for(exact_peaks(mono_levels(samples, channels), points))),
        (forall|j: int|
            0 <= j < mono_levels(samples, channels).len() ==> mono_levels(samples, channels)[j]
                == 0) ==> (forall|i: int|
            0 <= i < points ==> exact_peaks(mono_levels(samples, channels), points)[i] == 0),
{
    let levels = mono_levels(samples, channels);
    let peaks = exact_peaks(levels, points);
    lemma_normalized_range(peaks);
    if points > 0 && (exists|j: int| 0 <= j < levels.len() && levels[j] > 0) {
        let j = choose|j: int| 0 <= j < levels.len() && levels[j] > 0;
        lemma_level_covered(levels, points, j);
        let i = choose|i: int| 0 <= i < points && exact_peaks(levels, points)[i] >= levels[j];
        assert(peaks[i] > 0);
    }
    if forall|j: int| 0 <= j < levels.len() ==> levels[j] == 0 {
        assert forall|i: int| 0 <= i < points implies peaks[i] == 0 by {
            lemma_silence_stays_silent(levels, points, i as nat);
        }
    }
}

/// Length assumed for a stream that reports no frame count, in seconds.
pub const FALLBACK_SECONDS: u64 = 240;

/// Evaluated frames per output point aimed at by the streaming pass.
pub const FRAMES_PER_POINT: u64 = 10;

/// Estimated frame count of a stream: the one its container reports, else
/// the fallback length at its sample rate.
pub fn estimate_frames(n_frames: Option<u64>, sample_rate: u32) -> (r: u64)
    ensures
        r == match n_frames {
            Some(n) => n as int,
            None => sample_rate * FALLBACK_SECONDS,
        },
{
    match n_frames {
        Some(n) => n,
        None => sample_rate as u64 * FALLBACK_SECONDS,
    }
}

/// Distance between evaluated frames: the estimate over ten frames per
/// point, at least one.
pub open spec fn stride_for(estimate: nat, points: nat) -> nat {
    let s = estimate / ((points * FRAMES_PER_POINT) as nat);
    if points > 0 && s >= 1 {
        s
    } else {
        1
    }
}

/// Output point that frame number `index` feeds:
/// `index * points / estimate`, clamped to the last point.
pub open spec fn target_point(index: nat, points: nat, estimate: nat) -> nat {
    if estimate > 0 && index * points / estimate < points {
        index * points / estimate
    } else {
        (points - 1) as nat
    }
}

/// Abstract state of a streaming pass.
pub struct StreamingModel {
    pub peaks: Seq<nat>,
    pub frames_seen: nat,
    pub estimate: nat,
    pub stride: nat,
    pub finished: bool,
}

/// One frame of mono level `level` arrives: it is counted, and when its
/// number is a multiple of the stride it raises its target point's peak.
pub open spec fn absorb_frame(m: StreamingModel, level: nat) -> StreamingModel {
    let n = m.frames_seen + 1;
    let counted = StreamingModel { frames_seen: n, ..m };
    if m.peaks.len() == 0 || n % m.stride != 0 {
        counted
    } else {
        let t = target_point(n, m.peaks.len(), m.estimate) as int;
        if level > m.peaks[t] {
            StreamingModel { peaks: m.peaks.update(t, level), ..counted }
        } else {
            counted
        }
    }
}

/// Frame `k` of an interleaved packet; the last one may be partial.
pub open spec fn packet_frame(samples: Seq<i32>, c: nat, k: nat) -> Seq<i32> {
    let end: int = if k * c + c <= samples.len() {
        (k * c + c) as int
    } else {
        samples.len() as int
    };
    samples.subrange((k * c) as int, end)
}

/// Number of frames in a packet, counting a trailing partial one.
pub open spec fn frame_count(len: nat, c: nat) -> nat {
    (len + c - 1) as nat / c
}

/// State after the first `k` frames of a packet.
pub open spec fn absorb_frames(m: StreamingModel, samples: Seq<i32>, c: nat, k: nat) -> StreamingModel
    decreases k,
{
    if k == 0 {
        m
    } else {
        absorb_frame(
            absorb_frames(m, samples, c, (k - 1) as nat),
            mix_level(packet_frame(samples, c, (k - 1) as nat), c),
        )
    }
}

/// State after a decoded packet: its frames are absorbed in order, and the
/// pass finishes once the frame count reaches the estimate. A finished pass
/// ignores further packets.
pub open spec fn absorb_packet(m: StreamingModel, samples: Seq<i32>, channels: nat) -> StreamingModel {
    if m.finished {
        m
    } else {
        let c = mix_width(channels);
        let after = absorb_frames(m, samples, c, frame_count(samples.len(), c));
        StreamingModel { finished: after.frames_seen >= after.estimate, ..after }
    }
}

/// Single-pass envelope estimate over a stream of decoded packets.
pub struct StreamingEnvelope {
    peaks: Vec<u64>,
    frames_seen: u128,
    estimate: u64,
    stride: u64,
    finished: bool,
}

impl View for StreamingEnvelope {
    type V = StreamingModel;

    closed spec fn view(&self) -> StreamingModel {
        StreamingModel {
            peaks: nats(self.peaks@),
            frames_seen: self.frames_seen as nat,
            estimate: self.estimate as nat,
            stride: self.stride as nat,
            finished: self.finished,
        }
    }
}

impl StreamingEnvelope {
    /// Internal consistency of a pass.
    pub closed spec fn wf(&self) -> bool {
        &&& self.stride >= 1
        &&& !self.finished ==> self.frames_seen <= self.estimate
        &&& forall|i: int| 0 <= i < self.peaks@.len() ==> self.peaks@[i] <= SAMPLE_MAGNITUDE_MAX
    }

    /// Starts a pass producing `points` values over an estimated `estimate`
    /// frames.
    pub fn new(points: usize, estimate: u64) -> (r: StreamingEnvelope)
        ensures
            r.wf(),
            r@ == (StreamingModel {
                peaks: Seq::new(points as nat, |i: int| 0nat),
                frames_seen: 0,
                estimate: estimate as nat,
                stride: stride_for(estimate as nat, points as nat),
                finished: false,
            }),
    {
        let mut peaks: Vec<u64> = Vec::with_capacity(points);
        let mut i: usize = 0;
        while i < points
            invariant
                i <= points,
                peaks@.len() == i,
                forall|k: int| 0 <= k < i ==> peaks@[k] == 0,
            decreases points - i,
        {
            peaks.push(0);
            i = i + 1;
        }
        let stride: u64 = if points == 0 {
            1
        } else {
            let span = points as u128 * FRAMES_PER_POINT as u128;
            let s = estimate as u128 / span;
            if s >= 1 {
                s as u64
            } else {
                1
            }
        };
        proof {
            assert(nats(peaks@) =~= Seq::new(points as nat, |i: int| 0nat));
        }
        StreamingEnvelope { peaks, frames_seen: 0, estimate, stride, finished: false }
    }

    /// Whether the pass has reached its estimate.
    pub fn is_finished(&self) -> (r: bool)
        ensures
            r == self@.finished,
    {
        self.finished
    }

    /// Point index fed by frame number `n`.
    fn target(&self, n: u128) -> (r: usize)
        requires
            self.peaks@.len() > 0,
        ensures
            r == target_point(n as nat, self.peaks@.len(), self.estimate as nat),
            r < self.peaks@.len(),
    {
        let points = self.peaks.len();
        if n < self.estimate as u128 {
            proof {
                assert(n * points <= 0xffff_ffff_ffff_ffffu128 * 0xffff_ffff_ffff_ffffu128)
                    by (nonlinear_arith)
                    requires
                        n < 0x1_0000_0000_0000_0000u128,
                        points <= 0xffff_ffff_ffff_ffffu128,
                ;
                assert((n * points) / (self.estimate as int) < points) by (nonlinear_arith)
                    requires
                        n < self.estimate,
                        points > 0,
                ;
            }
            ((n * points as u128) / self.estimate as u128) as usize
        } else {
            proof {
                if self.estimate > 0 {
                    assert((n * points) / (self.estimate as int) >= points) by (nonlinear_arith)
                        requires
                            n >= self.estimate,
                            self.estimate > 0,
                            points > 0,
                    ;
                }
            }
            points - 1
        }
    }

    /// Absorbs one decoded packet of interleaved samples; returns whether the
    /// pass has now finished.
    pub fn feed_packet(&mut self, samples: &Vec<i32>, channels: usize) -> (done: bool)
        requires
            old(self).wf(),
        ensures
            final(self).wf(),
            final(self)@ == absorb_packet(old(self)@, samples@, channels as nat),
            done == final(self)@.finished,
    {
        if self.finished {
            return true;
        }
        let c: usize = if channels <= 1 {
            1
        } else {
            channels
        };
        let len = samples.len();
        proof {
            if len % c != 0 {
                assert(len / c < len) by (nonlinear_arith)
                    requires
                        len % c != 0,
                        c >= 1,
                ;
            }
        }
        let frames: usize = len / c + if len % c == 0 {
            0
        } else {
            1
        };
        proof {
            assert(frames == frame_count(len as nat, c as nat)) by (nonlinear_arith)
                requires
                    frames == len / c + if len % c == 0 {
                        0int
                    } else {
                        1int
                    },
                    c >= 1,
            ;
        }
        let ghost start = self@;
        let mut k: usize = 0;
        while k < frames
            invariant
                c == mix_width(channels as nat),
                c >= 1,
                len == samples@.len(),
                frames == frame_count(len as nat, c as nat),
                k <= frames,
                self.stride >= 1,
                forall|i: int| 0 <= i < self.peaks@.len() ==> self.peaks@[i] <= SAMPLE_MAGNITUDE_MAX,
                !self.finished,
                start.frames_seen <= start.estimate,
                self.frames_seen == start.frames_seen + k,
                self@ == absorb_frames(start, samples@, c as nat, k as nat),
                self.frames_seen <= 0x1_0000_0000_0000_0000u128 + k,
            decreases frames - k,
        {
            proof {
                assert(k * c < len) by (nonlinear_arith)
                    requires
                        k < frames,
                        frames == (len + c - 1) as nat / (c as nat),
                        c >= 1,
                ;
            }
            let begin = k * c;
            let end = if len - begin >= c {
                begin + c
            } else {
                len
            };
            let n = self.frames_seen + 1;
            if self.peaks.len() > 0 && n % self.stride as u128 == 0 {
                let level = frame_level(samples, begin, end, c);
                let t = self.target(n);
                if level > self.peaks[t] {
                    self.peaks.set(t, level);
                }
            }
            self.frames_seen = n;
            proof {
                assert(nats(self.peaks@) =~= absorb_frames(start, samples@, c as nat, k as nat + 1).peaks);
            }
            k = k + 1;
        }
        self.finished = self.frames_seen >= self.estimate as u128;
        self.finished
    }

    /// Ends the pass: the envelope normalized by its maximum.
    pub fn finish(self) -> (r: Envelope)
        ensures
            nats(r.peaks@) == self@.peaks,
            r.full_scale == full_scale_for(self@.peaks),
    {
        Envelope::normalized(self.peaks)
    }
}

} // verus!
