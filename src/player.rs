//! Playback state shared by the output callback and the transport
//! controls: a sample buffer fed packet by packet from a decoder, a
//! fractional cursor into it, and the transport parameters.
use std::collections::VecDeque;
use vstd::prelude::*;

verus! {

/// 1.0 in the 16.16 fixed-point numbers used for gains, speeds and the
/// cursor's fraction.
pub const FIXED_ONE: u32 = 65536;

/// Largest accepted playback speed, 4.0 in fixed point.
pub const MAX_SPEED: u32 = 4 * FIXED_ONE;

/// Below this many buffered samples the output path decodes another packet.
pub const REFILL_THRESHOLD: usize = 1024;

/// Milliseconds in a second.
pub const MILLIS_PER_SECOND: i64 = 1000;

/// Failures of the playback engine.
#[derive(Debug, Clone, Copy, PartialEq, Eq, Structural)]
pub enum PlayerError {
    IoFailure,
    FormatUnsupported,
    NoDecodableTrack,
    DecoderUnsupported,
    DeviceUnavailable,
    StreamBuildFailure,
    InvalidParameter,
    SeekFailed,
    LockPoisoned,
}

/// Outcome of reading one packet from a decoder.
pub enum PacketRead {
    /// End of stream, or the reader failed: nothing more arrives.
    Exhausted,
    /// A packet with timestamp `ts` was read but could not be decoded.
    Undecodable { ts: u64 },
    /// A packet with timestamp `ts` decoded to interleaved samples.
    Decoded { ts: u64, samples: Vec<i32> },
}

/// A container reader paired with its decoder.
pub trait PacketSource {
    /// Reads and decodes the next packet of the track.
    fn next_packet(&mut self) -> PacketRead;

    /// Repositions the reader at timestamp `ts`; false when it refused.
    fn seek_to(&mut self, ts: u64) -> bool;
}

/// Quotient of `n` by `d`, rounded toward zero.
pub open spec fn div_toward_zero(n: int, d: int) -> int {
    if n >= 0 {
        n / d
    } else {
        -((-n) / d)
    }
}

/// Linear interpolation from `a` to `b` at fixed-point fraction `frac`.
pub open spec fn lerp(a: int, b: int, frac: int) -> int {
    div_toward_zero(a * (FIXED_ONE - frac) + b * frac, FIXED_ONE as int)
}

/// Sample `s` scaled by fixed-point gain `gain`.
pub open spec fn apply_gain(s: int, gain: int) -> int {
    div_toward_zero(s * gain, FIXED_ONE as int)
}

/// Abstract playback state.
pub struct PlaybackModel {
    pub buffer: Seq<i32>,
    pub paused: bool,
    pub speed: nat,
    pub volume: nat,
    pub sample_rate: nat,
    pub pos: nat,
    pub frac: nat,
    pub last_ts: nat,
}

impl PlaybackModel {
    /// Parameters in range, and the cursor inside the buffer: its whole
    /// part indexes a buffered sample, or is zero when nothing is buffered.
    pub open spec fn wf(self) -> bool {
        &&& self.volume <= FIXED_ONE
        &&& 0 < self.speed <= MAX_SPEED
        &&& self.frac < FIXED_ONE
        &&& if self.buffer.len() == 0 {
            self.pos == 0
        } else {
            self.pos < self.buffer.len()
        }
    }

    /// State after a packet read: a read packet's timestamp is recorded and
    /// its samples, if it decoded, are appended.
    pub open spec fn after_packet(self, p: PacketRead) -> PlaybackModel {
        match p {
            PacketRead::Exhausted => self,
            PacketRead::Undecodable { ts } => PlaybackModel { last_ts: ts as nat, ..self },
            PacketRead::Decoded { ts, samples } => PlaybackModel {
                last_ts: ts as nat,
                buffer: self.buffer + samples@,
                ..self
            },
        }
    }

    /// State before rendering a frame: a short buffer gets one more packet.
    pub open spec fn refilled(self, p: PacketRead) -> PlaybackModel {
        if self.buffer.len() < REFILL_THRESHOLD {
            self.after_packet(p)
        } else {
            self
        }
    }

    /// Sample under the cursor before gain: interpolated between the two
    /// samples around it; the last sample when only one remains; silence
    /// when none does.
    pub open spec fn pre_gain_sample(self) -> int {
        let i = self.pos as int;
        if i + 1 < self.buffer.len() {
            lerp(self.buffer[i] as int, self.buffer[i + 1] as int, self.frac as int)
        } else if i < self.buffer.len() {
            self.buffer[i] as int
        } else {
            0
        }
    }

    /// Rendered sample under the cursor.
    pub open spec fn frame_output(self) -> int {
        apply_gain(self.pre_gain_sample(), self.volume as int)
    }

    /// State after the cursor advances one sample: once it passes the end
    /// of the buffer, the samples it passed are dropped and it keeps only
    /// its fraction.
    pub open spec fn advanced(self) -> PlaybackModel {
        let p = self.pos + 1;
        let len = self.buffer.len();
        if p >= len {
            let drop = if p < len {
                p
            } else {
                len
            };
            PlaybackModel { buffer: self.buffer.subrange(drop as int, len as int), pos: 0, ..self }
        } else {
            PlaybackModel { pos: p, ..self }
        }
    }

    /// One output frame, given what a refill would read: the next state and
    /// the rendered sample. A paused state renders silence and stays put.
    pub open spec fn frame_step(self, p: PacketRead) -> (PlaybackModel, int) {
        if self.paused {
            (self, 0)
        } else {
            let s = self.refilled(p);
            (s.advanced(), s.frame_output())
        }
    }

    /// Playback position in sample periods, as a 16.16 fixed-point number:
    /// the last packet's timestamp plus the cursor.
    pub open spec fn time(self) -> nat {
        ((self.last_ts + self.pos) * FIXED_ONE + self.frac) as nat
    }
}

/// States and outputs after rendering one frame per packet outcome in `ps`.
pub open spec fn run_frames(s: PlaybackModel, ps: Seq<PacketRead>) -> (PlaybackModel, Seq<int>)
    decreases ps.len(),
{
    if ps.len() == 0 {
        (s, Seq::empty())
    } else {
        let (t, outs) = run_frames(s, ps.drop_last());
        let (u, o) = t.frame_step(ps.last());
        (u, outs.push(o))
    }
}

/// Decoder timestamp for a seek to `millis` milliseconds: whole seconds
/// times the sample rate, saturating.
pub open spec fn seek_target(millis: int, sample_rate: int) -> int {
    let t = (millis / MILLIS_PER_SECOND as int) * sample_rate;
    if t <= u64::MAX {
        t
    } else {
        u64::MAX as int
    }
}

/// Samples as integers.
pub open spec fn as_ints(s: Seq<i32>) -> Seq<int> {
    s.map_values(|x: i32| x as int)
}

impl PlaybackModel {
    /// The state a successful seek starts from: nothing buffered and the
    /// cursor at zero.
    pub open spec fn cleared(self) -> PlaybackModel {
        PlaybackModel { buffer: Seq::empty(), pos: 0, frac: 0, ..self }
    }
}

/// Playback state: buffered samples, cursor and transport parameters.
pub struct PlayerState {
    pub buffer: VecDeque<i32>,
    pub paused: bool,
    pub speed: u32,
    pub volume: u32,
    pub sample_rate: u32,
    pub pos: usize,
    pub frac: u32,
    pub last_ts: u64,
}

impl View for PlayerState {
    type V = PlaybackModel;

    open spec fn view(&self) -> PlaybackModel {
        PlaybackModel {
            buffer: self.buffer@,
            paused: self.paused,
            speed: self.speed as nat,
            volume: self.volume as nat,
            sample_rate: self.sample_rate as nat,
            pos: self.pos as nat,
            frac: self.frac as nat,
            last_ts: self.last_ts as nat,
        }
    }
}

/// `n / d` rounded toward zero.
fn div_toward_zero_exec(n: i64, d: i64) -> (r: i64)
    requires
        d > 0,
        n > i64::MIN,
    ensures
        r == div_toward_zero(n as int, d as int),
{
    if n >= 0 {
        n / d
    } else {
        -((-n) / d)
    }
}

/// A quotient rounded toward zero stays within bounds that hold of the
/// dividend over the divisor.
proof fn lemma_div_toward_zero_bounds(n: int, d: int, lo: int, hi: int)
    requires
        d > 0,
        lo <= 0 <= hi,
        lo * d <= n <= hi * d,
    ensures
        lo <= div_toward_zero(n, d) <= hi,
{
    if n >= 0 {
        assert(0 <= n / d <= hi) by (nonlinear_arith)
            requires
                d > 0,
                0 <= n <= hi * d,
        ;
    } else {
        assert((-lo) * d == -(lo * d)) by (nonlinear_arith);
        assert(0 <= (-n) / d <= -lo) by (nonlinear_arith)
            requires
                d > 0,
                0 < -n <= (-lo) * d,
        ;
    }
}

/// Interpolated samples stay between their endpoints (and zero).
proof fn lemma_lerp_bounds(a: int, b: int, frac: int)
    requires
        0 <= frac < FIXED_ONE,
    ensures
        lerp(a, b, frac) >= if a < b { if a < 0 { a } else { 0 } } else { if b < 0 { b } else { 0 } },
        lerp(a, b, frac) <= if a > b { if a > 0 { a } else { 0 } } else { if b > 0 { b } else { 0 } },
{
    let one = FIXED_ONE as int;
    let lo = if a < b { if a < 0 { a } else { 0 } } else { if b < 0 { b } else { 0 } };
    let hi = if a > b { if a > 0 { a } else { 0 } } else { if b > 0 { b } else { 0 } };
    let n = a * (one - frac) + b * frac;
    assert(lo * one <= n <= hi * one) by (nonlinear_arith)
        requires
            n == a * (one - frac) + b * frac,
            0 <= frac < one,
            lo <= a,
            lo <= b,
            a <= hi,
            b <= hi,
    ;
    lemma_div_toward_zero_bounds(n, one, lo, hi);
}

/// A gain of at most one never amplifies.
proof fn lemma_gain_bounds(s: int, gain: int)
    requires
        0 <= gain <= FIXED_ONE,
    ensures
        s >= 0 ==> 0 <= apply_gain(s, gain) <= s,
        s < 0 ==> s <= apply_gain(s, gain) <= 0,
{
    let one = FIXED_ONE as int;
    if s >= 0 {
        assert(0 <= s * gain <= s * one) by (nonlinear_arith)
            requires
                s >= 0,
                0 <= gain <= one,
        ;
        lemma_div_toward_zero_bounds(s * gain, one, 0, s);
    } else {
        assert(s * one <= s * gain <= 0) by (nonlinear_arith)
            requires
                s < 0,
                0 <= gain <= one,
        ;
        lemma_div_toward_zero_bounds(s * gain, one, s, 0);
    }
}

impl PlayerState {
    /// Fresh state for a track at `sample_rate`: nothing buffered, cursor at
    /// zero, playing at unit speed and full volume.
    pub fn new(sample_rate: u32) -> (r: PlayerState)
        ensures
            r@ == (PlaybackModel {
                buffer: Seq::empty(),
                paused: false,
                speed: FIXED_ONE as nat,
                volume: FIXED_ONE as nat,
                sample_rate: sample_rate as nat,
                pos: 0,
                frac: 0,
                last_ts: 0,
            }),
            r@.wf(),
    {
        PlayerState {
            buffer: VecDeque::new(),
            paused: false,
            speed: FIXED_ONE,
            volume: FIXED_ONE,
            sample_rate,
            pos: 0,
            frac: 0,
            last_ts: 0,
        }
    }

    /// Applies the outcome of one packet read.
    pub fn apply_packet(&mut self, packet: PacketRead)
        requires
            old(self)@.wf(),
        ensures
            final(self)@ == old(self)@.after_packet(packet),
            final(self)@.wf(),
    {
        match packet {
            PacketRead::Exhausted => {},
            PacketRead::Undecodable { ts } => {
                self.last_ts = ts;
            },
            PacketRead::Decoded { ts, samples } => {
                self.last_ts = ts;
                let ghost before = self@;
                let mut k: usize = 0;
                while k < samples.len()
                    invariant
                        k <= samples@.len(),
                        self@ == (PlaybackModel {
                            buffer: before.buffer + samples@.subrange(0, k as int),
                            ..before
                        }),
                    decreases samples@.len() - k,
                {
                    proof {
                        assert(samples@.subrange(0, k as int + 1) =~= samples@.subrange(
                            0,
                            k as int,
                        ).push(samples@[k as int]));
                    }
                    self.buffer.push_back(samples[k]);
                    k = k + 1;
                }
                proof {
                    assert(samples@.subrange(0, samples@.len() as int) =~= samples@);
                }
            },
        }
    }

    /// Reads one packet from `source` and applies it.
    pub fn decode_next_packet<S: PacketSource>(&mut self, source: &mut S)
        requires
            old(self)@.wf(),
        ensures
            exists|p: PacketRead| final(self)@ == old(self)@.after_packet(p),
            final(self)@.wf(),
    {
        let packet = source.next_packet();
        let ghost p = packet;
        self.apply_packet(packet);
        assert(self@ == old(self)@.after_packet(p));
    }

    /// Renders the sample under the cursor and advances it one sample.
    fn emit_sample(&mut self) -> (r: i32)
        requires
            old(self)@.wf(),
        ensures
            r as int == old(self)@.frame_output(),
            final(self)@ == old(self)@.advanced(),
            final(self)@.wf(),
    {
        let len = self.buffer.len();
        let idx = self.pos;
        let pre: i64 = if idx + 1 < len {
            let a = self.buffer[idx] as i64;
            let b = self.buffer[idx + 1] as i64;
            let f = self.frac as i64;
            let one = FIXED_ONE as i64;
            proof {
                assert(-0x8000_0000 * one <= a * (one - f) <= 0x8000_0000 * one
                    && -0x8000_0000 * one <= b * f <= 0x8000_0000 * one
                    && -0x8000_0000 * one <= a * (one - f) + b * f <= 0x7fff_ffff * one)
                    by (nonlinear_arith)
                    requires
                        -0x8000_0000 <= a <= 0x7fff_ffff,
                        -0x8000_0000 <= b <= 0x7fff_ffff,
                        0 <= f < one,
                        one == 65536,
                ;
                lemma_lerp_bounds(a as int, b as int, f as int);
            }
            div_toward_zero_exec(a * (one - f) + b * f, one)
        } else if idx < len {
            self.buffer[idx] as i64
        } else {
            0
        };
        proof {
            assert(pre == self@.pre_gain_sample());
            assert(-0x8000_0000 <= pre <= 0x7fff_ffff);
            assert(-0x8000_0000 * 65536 <= pre * self.volume <= 0x7fff_ffff * 65536)
                by (nonlinear_arith)
                requires
                    -0x8000_0000 <= pre <= 0x7fff_ffff,
                    0 <= self.volume <= 65536,
            ;
            lemma_gain_bounds(pre as int, self.volume as int);
        }
        let out = div_toward_zero_exec(pre * self.volume as i64, FIXED_ONE as i64);
        let p = idx + 1;
        if p >= len {
            let drop = if p < len {
                p
            } else {
                len
            };
            let ghost before = self@;
            proof {
                assert(before.buffer.subrange(0, before.buffer.len() as int) =~= before.buffer);
            }
            let mut k: usize = 0;
            while k < drop
                invariant
                    drop <= before.buffer.len(),
                    k <= drop,
                    self@ == (PlaybackModel {
                        buffer: before.buffer.subrange(k as int, before.buffer.len() as int),
                        ..before
                    }),
                decreases drop - k,
            {
                self.buffer.pop_front();
                proof {
                    assert(before.buffer.subrange(k as int, before.buffer.len() as int).subrange(
                        1,
                        before.buffer.len() - k,
                    ) =~= before.buffer.subrange(k as int + 1, before.buffer.len() as int));
                }
                k = k + 1;
            }
            self.pos = 0;
        } else {
            self.pos = p;
        }
        out as i32
    }

    /// Renders one output frame: silence while paused; otherwise a short
    /// buffer is refilled with one packet first, then the sample under the
    /// cursor is emitted and the cursor advances.
    pub fn render_frame<S: PacketSource>(&mut self, source: &mut S) -> (r: i32)
        requires
            old(self)@.wf(),
        ensures
            exists|p: PacketRead|
                (final(self)@, r as int) == old(self)@.frame_step(p),
            final(self)@.wf(),
    {
        if self.paused {
            assert((self@, 0int) == old(self)@.frame_step(PacketRead::Exhausted));
            return 0;
        }
        let ghost mut p = PacketRead::Exhausted;
        if self.buffer.len() < REFILL_THRESHOLD {
            let packet = source.next_packet();
            proof {
                p = packet;
            }
            self.apply_packet(packet);
        }
        assert(self@ == old(self)@.refilled(p));
        let r = self.emit_sample();
        assert((self@, r as int) == old(self)@.frame_step(p));
        r
    }

    /// Fills every slot of `data` with one rendered frame each, reading
    /// packets from `source` as the buffer runs short. What was rendered is
    /// what `run_frames` gives for the packets that the reads returned.
    pub fn fill_buffer<S: PacketSource>(&mut self, source: &mut S, data: &mut Vec<i32>)
        requires
            old(self)@.wf(),
        ensures
            final(data)@.len() == old(data)@.len(),
            final(self)@.wf(),
            exists|ps: Seq<PacketRead>|
                ps.len() == old(data)@.len() && #[trigger] run_frames(old(self)@, ps) == (
                final(self)@,
                as_ints(final(data)@),
            ),
            old(self)@.paused ==> final(self)@ == old(self)@,
            old(self)@.paused ==> forall|k: int| 0 <= k < final(data)@.len() ==> final(data)@[k] == 0,
    {
        let ghost start = self@;
        let ghost mut ps: Seq<PacketRead> = Seq::empty();
        let n = data.len();
        let mut k: usize = 0;
        proof {
            assert(as_ints(data@.subrange(0, 0)) =~= Seq::<int>::empty());
        }
        while k < n
            invariant
                n == data@.len(),
                k <= n,
                self@.wf(),
                ps.len() == k,
                run_frames(start, ps) == (self@, as_ints(data@.subrange(0, k as int))),
                start.paused ==> self@ == start,
                start.paused ==> forall|i: int| 0 <= i < k ==> data@[i] == 0,
            decreases n - k,
        {
            let ghost prev = self@;
            let r = self.render_frame(source);
            let ghost p = choose|p: PacketRead| (self@, r as int) == prev.frame_step(p);
            let ghost before = data@;
            data.set(k, r);
            proof {
                let old_ps = ps;
                ps = ps.push(p);
                assert(ps.drop_last() =~= old_ps);
                assert(ps.last() == p);
                assert(as_ints(data@.subrange(0, k as int + 1)) =~= as_ints(
                    before.subrange(0, k as int),
                ).push(r as int));
            }
            k = k + 1;
        }
        proof {
            assert(data@.subrange(0, n as int) =~= data@);
        }
    }

    /// Pauses playback: the output renders silence and nothing advances.
    pub fn pause(&mut self)
        requires
            old(self)@.wf(),
        ensures
            final(self)@ == (PlaybackModel { paused: true, ..old(self)@ }),
            final(self)@.wf(),
    {
        self.paused = true;
    }

    /// Resumes playback.
    pub fn resume(&mut self)
        requires
            old(self)@.wf(),
        ensures
            final(self)@ == (PlaybackModel { paused: false, ..old(self)@ }),
            final(self)@.wf(),
    {
        self.paused = false;
    }

    /// Sets the output gain, a fixed-point number in `[0, 1]`.
    pub fn set_volume(&mut self, gain: i64) -> (r: Result<(), PlayerError>)
        requires
            old(self)@.wf(),
        ensures
            0 <= gain <= FIXED_ONE ==> r == Ok::<(), PlayerError>(())
                && final(self)@ == (PlaybackModel { volume: gain as nat, ..old(self)@ }),
            !(0 <= gain <= FIXED_ONE) ==> r == Err::<(), PlayerError>(PlayerError::InvalidParameter)
                && final(self)@ == old(self)@,
            final(self)@.wf(),
    {
        if 0 <= gain && gain <= FIXED_ONE as i64 {
            self.volume = gain as u32;
            Ok(())
        } else {
            Err(PlayerError::InvalidParameter)
        }
    }

    /// Stores the playback speed, a fixed-point number in `(0, 4]`. The
    /// cursor still advances one sample per frame whatever the speed.
    pub fn set_speed(&mut self, speed: i64) -> (r: Result<(), PlayerError>)
        requires
            old(self)@.wf(),
        ensures
            0 < speed <= MAX_SPEED ==> r == Ok::<(), PlayerError>(())
                && final(self)@ == (PlaybackModel { speed: speed as nat, ..old(self)@ }),
            !(0 < speed <= MAX_SPEED) ==> r == Err::<(), PlayerError>(PlayerError::InvalidParameter)
                && final(self)@ == old(self)@,
            final(self)@.wf(),
    {
        if 0 < speed && speed <= MAX_SPEED as i64 {
            self.speed = speed as u32;
            Ok(())
        } else {
            Err(PlayerError::InvalidParameter)
        }
    }

    /// Seeks to `millis` milliseconds: the reader is sent to
    /// `seek_timestamp(millis, sample_rate)`; on success the buffer is
    /// cleared, the cursor reset, one packet decoded to reprime, and the
    /// requested time returned.
    pub fn seek<S: PacketSource>(&mut self, source: &mut S, millis: i64) -> (r: Result<i64, PlayerError>)
        requires
            old(self)@.wf(),
        ensures
            final(self)@.wf(),
            millis < 0 ==> r == Err::<i64, PlayerError>(PlayerError::InvalidParameter)
                && final(self)@ == old(self)@ && *final(source) == *old(source),
            millis >= 0 ==> (r == Err::<i64, PlayerError>(PlayerError::SeekFailed)
                && final(self)@ == old(self)@) || (r == Ok::<i64, PlayerError>(millis) && exists|
                p: PacketRead,
            | final(self)@ == old(self)@.cleared().after_packet(p)),
    {
        if millis < 0 {
            return Err(PlayerError::InvalidParameter);
        }
        let ts = seek_timestamp(millis, self.sample_rate);
        if !source.seek_to(ts) {
            return Err(PlayerError::SeekFailed);
        }
        self.buffer.clear();
        self.pos = 0;
        self.frac = 0;
        assert(self@ == old(self)@.cleared());
        self.decode_next_packet(source);
        Ok(millis)
    }

    /// Playback position in sample periods, 16.16 fixed point: divide by
    /// `FIXED_ONE` times the sample rate for seconds. It counts from the
    /// last decoded packet, not the last rendered sample.
    pub fn current_time(&self) -> (r: u128)
        ensures
            r == self@.time(),
    {
        (self.last_ts as u128 + self.pos as u128) * FIXED_ONE as u128 + self.frac as u128
    }
}

/// Decoder timestamp of a seek to `millis` milliseconds.
pub fn seek_timestamp(millis: i64, sample_rate: u32) -> (r: u64)
    requires
        millis >= 0,
    ensures
        r == seek_target(millis as int, sample_rate as int),
{
    let secs = (millis / MILLIS_PER_SECOND) as u128;
    proof {
        assert(secs * sample_rate <= 0x7fff_ffff_ffff_ffffu128 * 0xffff_ffffu128) by (nonlinear_arith)
            requires
                secs <= 0x7fff_ffff_ffff_ffffu128,
                sample_rate <= 0xffff_ffffu128,
        ;
    }
    let t = secs * sample_rate as u128;
    if t <= u64::MAX as u128 {
        t as u64
    } else {
        u64::MAX
    }
}

/// Rendering keeps the state well formed: whatever a refill reads, the
/// cursor stays inside the buffer (at zero when it is empty) and the
/// parameters stay in range.
pub proof fn lemma_frame_step_wf(s: PlaybackModel, p: PacketRead)
    requires
        s.wf(),
    ensures
        s.frame_step(p).0.wf(),
{
}

/// The same holds over any number of rendered frames.
pub proof fn lemma_run_frames_wf(s: PlaybackModel, ps: Seq<PacketRead>)
    requires
        s.wf(),
    ensures
        run_frames(s, ps).0.wf(),
        run_frames(s, ps).1.len() == ps.len(),
    decreases ps.len(),
{
    if ps.len() > 0 {
        lemma_run_frames_wf(s, ps.drop_last());
        lemma_frame_step_wf(run_frames(s, ps.drop_last()).0, ps.last());
    }
}

/// After a volume `gain` in `[0, 1]` is set, each rendered frame is the
/// pre-volume sample scaled by `gain`.
pub proof fn lemma_volume_scales_output(s: PlaybackModel, gain: int, p: PacketRead)
    requires
        s.wf(),
        !s.paused,
        0 <= gain <= FIXED_ONE,
    ensures
        (PlaybackModel { volume: gain as nat, ..s }).frame_step(p).1 == apply_gain(
            s.refilled(p).pre_gain_sample(),
            gain,
        ),
{
}

/// The stored speed has no effect on rendering: states that differ only in
/// speed render the same frames and stay so.
pub proof fn lemma_speed_not_applied(s: PlaybackModel, speed: nat, p: PacketRead)
    ensures
        (PlaybackModel { speed, ..s }).frame_step(p) == (
            PlaybackModel { speed, ..s.frame_step(p).0 },
            s.frame_step(p).1,
        ),
{
}

/// While paused, any number of frames render silence and change nothing.
pub proof fn lemma_paused_run(s: PlaybackModel, ps: Seq<PacketRead>)
    requires
        s.paused,
    ensures
        run_frames(s, ps).0 == s,
        forall|k: int| 0 <= k < ps.len() ==> run_frames(s, ps).1[k] == 0,
        run_frames(s, ps).1.len() == ps.len(),
    decreases ps.len(),
{
    if ps.len() > 0 {
        lemma_paused_run(s, ps.drop_last());
    }
}

/// Pausing, rendering any number of frames, then resuming leaves the
/// playback time where it was, so it never decreases across the pair.
pub proof fn lemma_pause_resume_keeps_time(s: PlaybackModel, ps: Seq<PacketRead>)
    ensures
        (PlaybackModel {
            paused: false,
            ..run_frames(PlaybackModel { paused: true, ..s }, ps).0
        }).time() == s.time(),
{
    lemma_paused_run(PlaybackModel { paused: true, ..s }, ps);
}

} // verus!
