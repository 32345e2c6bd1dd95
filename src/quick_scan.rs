//! Cheap level estimates that avoid full decoding: amplitudes read off MP3
//! frame headers, and per-packet magnitude sums.
use vstd::prelude::*;

verus! {

/// Bytes of a frame header that are inspected.
pub const HEADER_LEN: usize = 4;

/// Bytes skipped after a recognized header, roughly one frame at 44.1 kHz.
pub const FRAME_SKIP: usize = 418;

/// Whether two bytes open an MPEG audio frame: eleven set sync bits.
pub open spec fn is_frame_sync(b0: u8, b1: u8) -> bool {
    b0 == 0xFF && (b1 & 0xE0) == 0xE0
}

/// Amplitudes found scanning from offset `p`: at a frame header, the sum
/// of its last two bytes, then the scan jumps past the header and the
/// skipped bytes; elsewhere it moves on one byte. It stops when fewer than
/// four bytes remain.
pub open spec fn header_amplitudes_from(bytes: Seq<u8>, p: int) -> Seq<nat>
    decreases bytes.len() + HEADER_LEN + FRAME_SKIP - p,
{
    if p < 0 || p + HEADER_LEN > bytes.len() {
        Seq::empty()
    } else if is_frame_sync(bytes[p], bytes[p + 1]) {
        seq![(bytes[p + 2] + bytes[p + 3]) as nat] + header_amplitudes_from(
            bytes,
            p + HEADER_LEN + FRAME_SKIP,
        )
    } else {
        header_amplitudes_from(bytes, p + 1)
    }
}

/// Every offset past the last full header yields nothing.
proof fn lemma_scan_past_end(bytes: Seq<u8>, p: int)
    requires
        p + HEADER_LEN > bytes.len(),
    ensures
        header_amplitudes_from(bytes, p) == Seq::<nat>::empty(),
{
}

/// Amplitude numerators (out of 255) read off the MP3 frame headers of a
/// file's bytes.
pub fn frame_header_amplitudes(bytes: &Vec<u8>) -> (r: Vec<u16>)
    ensures
        r@.map_values(|a: u16| a as nat) == header_amplitudes_from(bytes@, 0),
{
    let len = bytes.len();
    let mut out: Vec<u16> = Vec::new();
    let mut p: usize = 0;
    while p <= len && len - p >= HEADER_LEN
        invariant
            len == bytes@.len(),
            p <= len,
            out@.map_values(|a: u16| a as nat) + header_amplitudes_from(bytes@, p as int)
                == header_amplitudes_from(bytes@, 0),
        decreases len - p,
    {
        let ghost before = out@;
        if bytes[p] == 0xFF && (bytes[p + 1] & 0xE0) == 0xE0 {
            let amp = bytes[p + 2] as u16 + bytes[p + 3] as u16;
            out.push(amp);
            let next = if len - p >= HEADER_LEN + FRAME_SKIP {
                p + HEADER_LEN + FRAME_SKIP
            } else {
                len
            };
            proof {
                if next == len {
                    lemma_scan_past_end(bytes@, p + HEADER_LEN + FRAME_SKIP);
                    lemma_scan_past_end(bytes@, len as int);
                }
                assert(out@.map_values(|a: u16| a as nat) =~= before.map_values(|a: u16| a as nat).push(
                    amp as nat,
                ));
                assert(out@.map_values(|a: u16| a as nat) + header_amplitudes_from(bytes@, next as int)
                    =~= before.map_values(|a: u16| a as nat) + header_amplitudes_from(bytes@, p as int));
            }
            p = next;
        } else {
            p = p + 1;
        }
    }
    proof {
        lemma_scan_past_end(bytes@, p as int);
        assert(out@.map_values(|a: u16| a as nat) + Seq::<nat>::empty() =~= out@.map_values(
            |a: u16| a as nat,
        ));
    }
    out
}

/// Values picked evenly down to `points` of them: value `i * len / points`
/// for each point; a sequence no longer than `points` is kept whole.
pub open spec fn picked_evenly(values: Seq<u16>, points: nat) -> Seq<u16> {
    if values.len() <= points {
        values
    } else {
        Seq::new(points, |i: int| values[i * values.len() / (points as int)])
    }
}

/// Reduces `values` to at most `points` values spread evenly over them.
pub fn pick_evenly(values: Vec<u16>, points: usize) -> (r: Vec<u16>)
    ensures
        r@ == picked_evenly(values@, points as nat),
{
    let len = values.len();
    if len <= points {
        return values;
    }
    let mut out: Vec<u16> = Vec::with_capacity(points);
    let mut i: usize = 0;
    while i < points
        invariant
            len == values@.len(),
            len > points,
            i <= points,
            out@.len() == i,
            forall|k: int| 0 <= k < i ==> out@[k] == picked_evenly(values@, points as nat)[k],
        decreases points - i,
    {
        proof {
            assert(i * len <= 0xffff_ffff_ffff_ffffu128 * 0xffff_ffff_ffff_ffffu128)
                by (nonlinear_arith)
                requires
                    i <= 0xffff_ffff_ffff_ffffu128,
                    len <= 0xffff_ffff_ffff_ffffu128,
            ;
            assert((i * len) / (points as int) < len) by (nonlinear_arith)
                requires
                    i < points,
                    points < len,
            ;
        }
        let idx = (i as u128 * len as u128 / points as u128) as usize;
        out.push(values[idx]);
        i = i + 1;
    }
    proof {
        assert(out@ =~= picked_evenly(values@, points as nat));
    }
    out
}

/// Sum of the magnitudes of 16-bit samples.
pub open spec fn magnitude_total(s: Seq<i16>) -> nat
    decreases s.len(),
{
    if s.len() == 0 {
        0
    } else {
        magnitude_total(s.drop_last()) + if s.last() < 0 {
            (-s.last()) as nat
        } else {
            s.last() as nat
        }
    }
}

/// Sum of the magnitudes of one channel of a packet; its mean level is this
/// over the sample count, in units of `i16::MAX`.
pub fn magnitude_sum(samples: &Vec<i16>) -> (r: u128)
    ensures
        r == magnitude_total(samples@),
{
    let mut acc: u128 = 0;
    let mut k: usize = 0;
    while k < samples.len()
        invariant
            k <= samples@.len(),
            acc == magnitude_total(samples@.subrange(0, k as int)),
            acc <= k * 32768,
        decreases samples@.len() - k,
    {
        proof {
            assert(samples@.subrange(0, k as int + 1).drop_last() =~= samples@.subrange(0, k as int));
            assert(k * 32768 + 32768 <= 0xffff_ffff_ffff_ffffu128 * 32768 + 32768) by (nonlinear_arith)
                requires
                    k <= 0xffff_ffff_ffff_ffffu128,
            ;
        }
        let s = samples[k];
        let m: u128 = if s < 0 {
            (-(s as i32)) as u128
        } else {
            s as u128
        };
        acc = acc + m;
        k = k + 1;
    }
    proof {
        assert(samples@.subrange(0, samples@.len() as int) =~= samples@);
    }
    acc
}

} // verus!
