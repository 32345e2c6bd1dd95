use audio_engine::waveform::{
    estimate_frames, exact_envelope, mono_mix, segment_peaks, Envelope, StreamingEnvelope,
};

fn normalized(env: &Envelope) -> Vec<f64> {
    env.peaks
        .iter()
        .map(|&p| p as f64 / env.full_scale as f64)
        .collect()
}

#[test]
fn constant_tone_gives_equal_points_at_full_scale() {
    let samples = vec![12_000i32; 44_100];
    let env = exact_envelope(&samples, 1, 10);
    assert_eq!(env.peaks.len(), 10);
    assert_eq!(env.full_scale, 12_000);
    for v in normalized(&env) {
        assert!((v - 1.0).abs() < 1e-9);
    }
}

#[test]
fn fewer_samples_than_points_uses_nearest_sample() {
    let samples = vec![10, -20, 30];
    let env = exact_envelope(&samples, 1, 7);
    // point i takes sample i * 3 / 7
    assert_eq!(env.peaks, vec![10, 10, 10, 20, 20, 30, 30]);
    assert_eq!(env.full_scale, 30);
}

#[test]
fn segment_peaks_take_maximum_magnitude_and_last_absorbs_remainder() {
    let samples = vec![1, -5, 2, 3, -4, 9, 7];
    let env = exact_envelope(&samples, 1, 3);
    // two samples per point, the last point takes the last three
    assert_eq!(env.peaks, vec![5, 3, 9]);
    assert_eq!(env.full_scale, 9);
}

#[test]
fn values_stay_in_unit_range_with_one_at_full_scale() {
    let samples: Vec<i32> = (0..1000).map(|i| ((i * 37) % 2001) - 1000).collect();
    let env = exact_envelope(&samples, 1, 16);
    let values = normalized(&env);
    assert_eq!(values.len(), 16);
    assert!(values.iter().all(|&v| (0.0..=1.0).contains(&v)));
    assert!(values.iter().any(|&v| v == 1.0));
}

#[test]
fn silence_gives_zeros() {
    let samples = vec![0i32; 500];
    let env = exact_envelope(&samples, 2, 8);
    assert_eq!(env.peaks, vec![0; 8]);
    assert_eq!(env.full_scale, 1);
}

#[test]
fn no_samples_gives_zeros() {
    let env = exact_envelope(&Vec::new(), 2, 5);
    assert_eq!(env.peaks, vec![0; 5]);
}

#[test]
fn zero_points_gives_empty_envelope() {
    let env = exact_envelope(&vec![3, 4, 5], 1, 0);
    assert!(env.peaks.is_empty());
}

#[test]
fn stereo_is_averaged_per_frame_and_partial_frame_dropped() {
    let samples = vec![100, 300, -50, -150, 7];
    assert_eq!(mono_mix(&samples, 2), vec![200, 100]);
    // opposite channels cancel
    assert_eq!(mono_mix(&vec![1000, -1000], 2), vec![0]);
    // rounded toward zero
    assert_eq!(mono_mix(&vec![-3, 0], 2), vec![1]);
}

#[test]
fn extreme_samples_do_not_overflow() {
    let samples = vec![i32::MIN, i32::MIN, i32::MAX, i32::MAX];
    assert_eq!(mono_mix(&samples, 2), vec![2_147_483_648, 2_147_483_647]);
}

#[test]
fn segment_peaks_of_levels() {
    assert_eq!(segment_peaks(&vec![4, 8, 1, 2], 2), vec![8, 2]);
}

#[test]
fn estimate_uses_frame_count_or_fallback() {
    assert_eq!(estimate_frames(Some(12345), 44_100), 12345);
    assert_eq!(estimate_frames(None, 44_100), 44_100 * 240);
}

#[test]
fn streaming_stride_and_targets() {
    // estimate 100, 2 points: stride 100 / 20 = 5, frame n feeds point n * 2 / 100
    let mut pass = StreamingEnvelope::new(2, 100);
    let packet: Vec<i32> = (1..=60).collect();
    assert!(!pass.feed_packet(&packet, 1));
    let env = pass.finish();
    // frames 5..=45 go to point 0 (largest 45), 50..=60 to point 1 (largest 60)
    assert_eq!(env.peaks, vec![45, 60]);
    assert_eq!(env.full_scale, 60);
}

#[test]
fn streaming_stops_at_estimate_and_ignores_later_packets() {
    let mut pass = StreamingEnvelope::new(4, 8);
    let first: Vec<i32> = vec![1, 2, 3, 4, 5, 6, 7, 8, 9, 10];
    assert!(pass.feed_packet(&first, 1));
    assert!(pass.is_finished());
    assert!(pass.feed_packet(&vec![1000; 4], 1));
    let env = pass.finish();
    // frames past the estimate fall into the last point
    assert_eq!(env.peaks, vec![1, 3, 5, 10]);
}

#[test]
fn streaming_downmixes_stereo_and_counts_partial_frames() {
    let mut pass = StreamingEnvelope::new(1, 10);
    // three frames; the last holds one channel only and is averaged over two
    assert!(!pass.feed_packet(&vec![10, 30, -40, -40, 9], 2));
    let env = pass.finish();
    assert_eq!(env.peaks, vec![40]);
}

#[test]
fn streaming_with_zero_estimate_takes_first_packet() {
    let mut pass = StreamingEnvelope::new(3, 0);
    assert!(pass.feed_packet(&vec![-7, 2], 1));
    let env = pass.finish();
    assert_eq!(env.peaks, vec![0, 0, 7]);
}

#[test]
fn streaming_with_zero_points_is_empty() {
    let mut pass = StreamingEnvelope::new(0, 10);
    pass.feed_packet(&vec![1, 2, 3], 1);
    assert!(pass.finish().peaks.is_empty());
}

#[test]
fn normalized_envelope_records_maximum() {
    let env = Envelope::normalized(vec![3, 9, 4]);
    assert_eq!(env.full_scale, 9);
    let env = Envelope::normalized(vec![0, 0]);
    assert_eq!(env.full_scale, 1);
}
