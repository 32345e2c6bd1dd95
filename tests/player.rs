use std::collections::VecDeque;

use audio_engine::player::{
    seek_timestamp, PacketRead, PacketSource, PlayerError, PlayerState, FIXED_ONE, MAX_SPEED,
    REFILL_THRESHOLD,
};

struct ScriptedSource {
    packets: VecDeque<PacketRead>,
    seek_ok: bool,
    seeks: Vec<u64>,
    reads: usize,
}

impl ScriptedSource {
    fn new(packets: Vec<PacketRead>) -> Self {
        ScriptedSource { packets: packets.into_iter().collect(), seek_ok: true, seeks: Vec::new(), reads: 0 }
    }
}

impl PacketSource for ScriptedSource {
    fn next_packet(&mut self) -> PacketRead {
        self.reads += 1;
        self.packets.pop_front().unwrap_or(PacketRead::Exhausted)
    }

    fn seek_to(&mut self, ts: u64) -> bool {
        self.seeks.push(ts);
        self.seek_ok
    }
}

fn decoded(ts: u64, samples: Vec<i32>) -> PacketRead {
    PacketRead::Decoded { ts, samples }
}

fn cursor_in_buffer(state: &PlayerState) -> bool {
    if state.buffer.is_empty() {
        state.pos == 0
    } else {
        state.pos < state.buffer.len()
    }
}

#[test]
fn new_state_is_empty_and_playing() {
    let state = PlayerState::new(44_100);
    assert!(state.buffer.is_empty());
    assert!(!state.paused);
    assert_eq!(state.volume, FIXED_ONE);
    assert_eq!(state.speed, FIXED_ONE);
    assert_eq!(state.pos, 0);
    assert_eq!(state.current_time(), 0);
}

#[test]
fn volume_outside_unit_range_is_rejected() {
    let mut state = PlayerState::new(44_100);
    for gain in [-1i64, -65536, FIXED_ONE as i64 + 1, i64::MAX, i64::MIN] {
        assert_eq!(state.set_volume(gain), Err(PlayerError::InvalidParameter));
        assert_eq!(state.volume, FIXED_ONE);
    }
    assert_eq!(state.set_volume(0), Ok(()));
    assert_eq!(state.volume, 0);
    assert_eq!(state.set_volume(FIXED_ONE as i64), Ok(()));
    assert_eq!(state.volume, FIXED_ONE);
}

#[test]
fn rendered_samples_are_scaled_by_volume() {
    let mut state = PlayerState::new(44_100);
    state.set_volume(FIXED_ONE as i64 / 4).unwrap();
    let mut source = ScriptedSource::new(vec![decoded(0, vec![4000, -8000, 1002, 3])]);
    let mut out = vec![0i32; 4];
    state.fill_buffer(&mut source, &mut out);
    assert_eq!(out, vec![1000, -2000, 250, 0]);
}

#[test]
fn half_volume_rounds_toward_zero() {
    let mut state = PlayerState::new(8_000);
    state.set_volume(FIXED_ONE as i64 / 2).unwrap();
    let mut source = ScriptedSource::new(vec![decoded(0, vec![3, -3])]);
    let mut out = vec![0i32; 2];
    state.fill_buffer(&mut source, &mut out);
    assert_eq!(out, vec![1, -1]);
}

#[test]
fn speed_outside_range_is_rejected_and_valid_speed_is_stored() {
    let mut state = PlayerState::new(44_100);
    for speed in [0i64, -1, MAX_SPEED as i64 + 1] {
        assert_eq!(state.set_speed(speed), Err(PlayerError::InvalidParameter));
    }
    assert_eq!(state.set_speed(MAX_SPEED as i64), Ok(()));
    assert_eq!(state.speed, MAX_SPEED);
    assert_eq!(state.set_speed(1), Ok(()));
    assert_eq!(state.speed, 1);
}

#[test]
fn speed_does_not_change_rendering() {
    let packet = vec![5, 6, 7, 8, 9];
    let mut normal = PlayerState::new(44_100);
    let mut fast = PlayerState::new(44_100);
    fast.set_speed(2 * FIXED_ONE as i64).unwrap();
    let mut a = vec![0i32; 5];
    let mut b = vec![0i32; 5];
    normal.fill_buffer(&mut ScriptedSource::new(vec![decoded(0, packet.clone())]), &mut a);
    fast.fill_buffer(&mut ScriptedSource::new(vec![decoded(0, packet)]), &mut b);
    assert_eq!(a, b);
    assert_eq!(a, vec![5, 6, 7, 8, 9]);
}

#[test]
fn negative_seek_is_rejected() {
    let mut state = PlayerState::new(44_100);
    let mut source = ScriptedSource::new(vec![]);
    assert_eq!(state.seek(&mut source, -1000), Err(PlayerError::InvalidParameter));
    assert_eq!(state.seek(&mut source, -1), Err(PlayerError::InvalidParameter));
    assert!(source.seeks.is_empty());
    assert_eq!(source.reads, 0);
}

#[test]
fn seek_reprimes_buffer_with_one_packet_and_resets_cursor() {
    let mut state = PlayerState::new(44_100);
    let mut source = ScriptedSource::new(vec![
        decoded(0, vec![1; 2000]),
        decoded(88_200, vec![7, 8, 9]),
        decoded(90_000, vec![10, 11]),
    ]);
    let mut out = vec![0i32; 3];
    state.fill_buffer(&mut source, &mut out);
    assert_eq!(state.pos, 3);
    assert_eq!(state.seek(&mut source, 2500), Ok(2500));
    assert_eq!(source.seeks, vec![88_200]);
    assert_eq!(state.buffer.iter().copied().collect::<Vec<_>>(), vec![7, 8, 9]);
    assert_eq!(state.pos, 0);
    assert_eq!(state.frac, 0);
    assert_eq!(state.last_ts, 88_200);
}

#[test]
fn refused_seek_leaves_state_alone() {
    let mut state = PlayerState::new(44_100);
    let mut source = ScriptedSource::new(vec![decoded(0, vec![1, 2, 3])]);
    let mut out = vec![0i32; 1];
    state.fill_buffer(&mut source, &mut out);
    source.seek_ok = false;
    assert_eq!(state.seek(&mut source, 1000), Err(PlayerError::SeekFailed));
    assert_eq!(state.buffer.len(), 3);
    assert_eq!(state.pos, 1);
}

#[test]
fn seek_timestamp_uses_whole_seconds_and_saturates() {
    assert_eq!(seek_timestamp(0, 44_100), 0);
    assert_eq!(seek_timestamp(2999, 44_100), 88_200);
    assert_eq!(seek_timestamp(3000, 48_000), 144_000);
    assert_eq!(seek_timestamp(i64::MAX, u32::MAX), u64::MAX);
}

#[test]
fn paused_output_is_silent_and_state_unchanged() {
    let mut state = PlayerState::new(44_100);
    let mut source = ScriptedSource::new(vec![decoded(100, vec![9, 9, 9, 9])]);
    let mut out = vec![0i32; 2];
    state.fill_buffer(&mut source, &mut out);
    state.pause();
    let before = state.current_time();
    let reads = source.reads;
    let mut out = vec![5i32; 6];
    state.fill_buffer(&mut source, &mut out);
    assert_eq!(out, vec![0; 6]);
    assert_eq!(state.pos, 2);
    assert_eq!(state.current_time(), before);
    assert_eq!(source.reads, reads);
}

#[test]
fn pause_then_resume_keeps_current_time() {
    let mut state = PlayerState::new(44_100);
    let mut source = ScriptedSource::new(vec![decoded(441, vec![1; 10])]);
    let mut out = vec![0i32; 4];
    state.fill_buffer(&mut source, &mut out);
    let before = state.current_time();
    assert_eq!(before, (441 + 4) * FIXED_ONE as u128);
    state.pause();
    state.resume();
    assert!(state.current_time() >= before);
    assert_eq!(state.current_time(), before);
}

#[test]
fn cursor_stays_inside_buffer_across_transport_calls() {
    let mut state = PlayerState::new(1_000);
    let mut packets = Vec::new();
    for i in 0..20u64 {
        packets.push(decoded(i * 300, vec![i as i32; 300]));
    }
    packets.push(PacketRead::Undecodable { ts: 9_000 });
    let mut source = ScriptedSource::new(packets);
    let mut out = vec![0i32; 700];
    for step in 0..12 {
        state.fill_buffer(&mut source, &mut out);
        assert!(cursor_in_buffer(&state));
        match step % 4 {
            0 => state.pause(),
            1 => state.resume(),
            2 => {
                state.set_volume(FIXED_ONE as i64 / 3).unwrap();
            }
            _ => {
                state.seek(&mut source, 1500).unwrap();
            }
        }
        assert!(cursor_in_buffer(&state));
    }
}

#[test]
fn buffer_is_refilled_below_threshold_only() {
    let mut state = PlayerState::new(44_100);
    let mut source = ScriptedSource::new(vec![
        decoded(0, vec![1; REFILL_THRESHOLD + 10]),
        decoded(1, vec![2; 10]),
    ]);
    let mut out = vec![0i32; 5];
    state.fill_buffer(&mut source, &mut out);
    assert_eq!(source.reads, 1);
    assert_eq!(state.buffer.len(), REFILL_THRESHOLD + 10);
}

#[test]
fn buffer_is_dropped_once_cursor_passes_its_end() {
    let mut state = PlayerState::new(44_100);
    let mut source = ScriptedSource::new(vec![decoded(0, vec![1, 2, 3])]);
    let mut out = vec![0i32; 5];
    state.fill_buffer(&mut source, &mut out);
    assert_eq!(out, vec![1, 2, 3, 0, 0]);
    assert!(state.buffer.is_empty());
    assert_eq!(state.pos, 0);
}

#[test]
fn undecodable_packet_records_timestamp_only() {
    let mut state = PlayerState::new(44_100);
    state.apply_packet(PacketRead::Undecodable { ts: 777 });
    assert_eq!(state.last_ts, 777);
    assert!(state.buffer.is_empty());
    state.apply_packet(PacketRead::Exhausted);
    assert_eq!(state.last_ts, 777);
}

#[test]
fn fractional_cursor_interpolates_between_samples() {
    let mut state = PlayerState::new(44_100);
    state.apply_packet(decoded(0, vec![0, 100, -100]));
    state.frac = FIXED_ONE / 2;
    let mut source = ScriptedSource::new(vec![]);
    assert_eq!(state.render_frame(&mut source), 50);
    assert_eq!(state.render_frame(&mut source), 0);
    // only one sample left under the cursor
    assert_eq!(state.render_frame(&mut source), -100);
    assert!(state.buffer.is_empty());
    assert_eq!(state.frac, FIXED_ONE / 2);
}

#[test]
fn current_time_counts_timestamp_cursor_and_fraction() {
    let mut state = PlayerState::new(48_000);
    state.apply_packet(decoded(1000, vec![0; 8]));
    state.pos = 5;
    state.frac = 3;
    assert_eq!(state.current_time(), 1005 * FIXED_ONE as u128 + 3);
}
