use metrefiddler::scheduler::{
    crossfade_ranks, crossfaded_indispensability, current_beat, is_indisp_val_within_thresholds, process_event, BeatNote,
    BeatScheduler, SampleInput, TimedNote,
};

fn quarters() -> Vec<u64> {
    vec![250_000, 250_000, 250_000, 250_000]
}

fn input_at(position: u64, sample: u32) -> SampleInput {
    SampleInput {
        sample,
        position,
        mix: 0,
        lower_threshold: 0,
        upper_threshold: 1_000_000,
        bar_samples: 48_000,
        note_off_delay: 4_800,
        playing: true,
    }
}

#[test]
fn locating_the_current_beat() {
    let q = quarters();
    assert_eq!(current_beat(&q, &q, 0, 0), (0, 0));
    assert_eq!(current_beat(&q, &q, 0, 300_000), (1, 250_000));
    assert_eq!(current_beat(&q, &q, 0, 250_000), (0, 0));
    assert_eq!(current_beat(&q, &q, 0, 1_000_000), (3, 750_000));
    let h = vec![500_000, 500_000];
    assert_eq!(current_beat(&h, &q, 500_000, 400_000), (1, 375_000));
}

#[test]
fn crossfading_ranks() {
    assert_eq!(crossfade_ranks(1, 2, 500_000, true), 2);
    assert_eq!(crossfade_ranks(1, 2, 400_000, true), 1);
    assert_eq!(crossfade_ranks(1, 2, 400_000, false), 2);
    assert_eq!(crossfade_ranks(3, 3, 123_456, false), 3);
    assert_eq!(crossfaded_indispensability(&vec![0, 3], &vec![0], 1, 0, false), 3);
    assert_eq!(crossfaded_indispensability(&vec![0, 3], &vec![0], 1, 1_000_000, false), 0);
}

#[test]
fn threshold_includes_upper_bound() {
    // upper threshold 0.5 of max rank 3 rounds to 2
    assert!(is_indisp_val_within_thresholds(2, 0, 500_000, 3));
    assert!(!is_indisp_val_within_thresholds(3, 0, 500_000, 3));
    assert!(is_indisp_val_within_thresholds(0, 0, 500_000, 3));
    // inverted thresholds are swapped
    assert!(is_indisp_val_within_thresholds(2, 500_000, 0, 3));
    assert!(!is_indisp_val_within_thresholds(0, 400_000, 1_000_000, 3));
}

#[test]
fn transport_resets() {
    let mut s = BeatScheduler::new();
    s.progress_in_samples = 500;
    s.maybe_reset_progress(true);
    assert!(s.was_playing);
    assert_eq!(s.progress_in_samples, 500);
    s.last_sent_beat_idx = Some(2);
    s.maybe_reset_progress(false);
    assert_eq!(s.progress_in_samples, 0);
    assert_eq!(s.last_sent_beat_idx, Some(2));
    s.maybe_reset_progress(true);
    assert_eq!(s.last_sent_beat_idx, None);
}

#[test]
fn phase_reset_on_rising_edge() {
    let mut s = BeatScheduler::new();
    s.advance(1000);
    assert!(s.reset_phase(true));
    assert_eq!(s.progress_in_samples, 0);
    s.advance(10);
    assert!(s.reset_phase(true));
    assert_eq!(s.progress_in_samples, 10);
    assert!(!s.reset_phase(false));
    s.advance(u64::MAX);
    assert_eq!(s.progress_in_samples, u64::MAX);
}

#[test]
fn note_off_ring_drops_when_full() {
    let mut s = BeatScheduler::new();
    for k in 0..5u8 {
        s.push_note_off(60 + k, 100 + k as i64);
    }
    assert_eq!(s.note_off_buffer, vec![(60, 100), (61, 101), (62, 102), (63, 103)]);
    let due = s.tick_note_offs(102);
    assert_eq!(due, vec![TimedNote { timing: 100, note: 60 }, TimedNote { timing: 101, note: 61 }]);
    assert_eq!(s.note_off_buffer, vec![(60, -1), (61, -1), (62, 0), (63, 1)]);
    let due = s.tick_note_offs(64);
    assert_eq!(due, vec![TimedNote { timing: 0, note: 62 }, TimedNote { timing: 1, note: 63 }]);
    s.push_note_off(70, 5);
    assert_eq!(s.note_off_buffer[0], (70, 5));
}

#[test]
fn a_beat_is_sent_once() {
    let q = quarters();
    let v = vec![0, 3, 2, 1];
    let mut s = BeatScheduler::new();
    let first = s.process_sample(&q, &v, &q, &v, input_at(0, 0));
    assert_eq!(first, Some(BeatNote { timing: 0, note: 60, rank: 0 }));
    assert_eq!(s.note_off_buffer[0], (60, 4_800));
    assert_eq!(s.progress_in_samples, 1);
    // replaying the same sample sends nothing
    assert_eq!(s.process_sample(&q, &v, &q, &v, input_at(0, 0)), None);
    assert_eq!(s.process_sample(&q, &v, &q, &v, input_at(1_000, 1)), None);
    // past the start window the memory clears; the next beat is sent
    assert_eq!(s.process_sample(&q, &v, &q, &v, input_at(100_000, 2)), None);
    let second = s.process_sample(&q, &v, &q, &v, input_at(250_001, 3));
    assert_eq!(second, Some(BeatNote { timing: 3, note: 63, rank: 3 }));
}

#[test]
fn filtered_beat_is_not_sent() {
    let q = quarters();
    let v = vec![0, 3, 2, 1];
    let mut s = BeatScheduler::new();
    let mut inp = input_at(250_001, 7);
    inp.upper_threshold = 500_000;
    inp.playing = false;
    assert_eq!(s.process_sample(&q, &v, &q, &v, inp), None);
    assert_eq!(s.last_sent_beat_idx, None);
    assert_eq!(s.progress_in_samples, 0);
}

#[test]
fn pass_through_filter() {
    let q = quarters();
    let v = vec![0, 3, 2, 1];
    assert_eq!(process_event(&q, &v, &q, &v, 300_000, 0, 0, 1_000_000), Some(3));
    assert_eq!(process_event(&q, &v, &q, &v, 300_000, 0, 0, 500_000), None);
    assert_eq!(process_event(&q, &v, &q, &v, 0, 1_000_000, 0, 500_000), Some(0));
    let h = vec![500_000, 500_000];
    let w = vec![0, 1];
    assert_eq!(process_event(&h, &w, &q, &v, 300_000, 500_000, 0, 1_000_000), Some(2));
}

#[test]
fn vetoed_note_drops_its_note_off() {
    let mut s = BeatScheduler::new();
    assert!(s.pass_through(false, false));
    assert!(!s.pass_through(true, false));
    assert!(!s.pass_through(false, true));
    assert!(s.pass_through(true, true));
    assert!(s.pass_through(false, false));
}
