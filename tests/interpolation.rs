use metrefiddler::beat_origin::BeatOrigin;
use metrefiddler::index_pairs::IndexPairs;
use metrefiddler::interpolation::{
    closest_start, generate_interpolation_data, get_duration_pairs, get_start_times, highest_stratum_index, no_strata_left,
    pair_higher_stratum_by_time, pair_highest_stratus, pair_identical_start_times, durations_of_pairs, MetreTimes,
};
use metrefiddler::interpolation_data::{beat_strata, dedup_close, get_durations, merge_start_times, InterpolationData};

#[test]
fn index_pairs_basics() {
    let p = IndexPairs::with_len(3);
    assert!(p.all_free());
    assert_eq!(p.len(), 3);
    let p = IndexPairs::ascending_indices_with_padding(4, 2, 4, 5, 0);
    assert_eq!(p.data, vec![(Some(5), Some(0)), (Some(6), Some(1)), (None, Some(2)), (None, Some(3))]);
    assert!(!p.all_free());
}

#[test]
fn index_pairs_first_free_and_sort() {
    let mut p = IndexPairs::with_len(3);
    p.set_first_free((Some(4), Some(2)));
    p.set_first_free((Some(1), None));
    assert_eq!(p.data, vec![(Some(4), Some(2)), (Some(1), None), (None, None)]);
    p.sort();
    assert_eq!(p.data, vec![(Some(1), None), (Some(4), Some(2)), (None, None)]);
    let mut full = IndexPairs::ascending_indices_with_padding(2, 2, 2, 0, 0);
    full.set_first_free((Some(9), Some(9)));
    assert_eq!(full.data, vec![(Some(0), Some(0)), (Some(1), Some(1))]);
}

#[test]
fn start_times_accumulate() {
    assert_eq!(get_start_times(&vec![250_000, 250_000, 500_000]), vec![0, 250_000, 500_000]);
    assert_eq!(get_start_times(&vec![]), Vec::<u64>::new());
}

#[test]
fn identical_structures_pair_up() {
    let d = vec![250_000, 250_000, 250_000, 250_000];
    let g = vec![1, 0, 0, 0];
    let pairs = generate_interpolation_data(&d, &d, &g, &g);
    assert_eq!(pairs, vec![(250_000, 250_000); 4]);
}

#[test]
fn one_more_beat_is_padded() {
    let da = vec![333_334, 333_333, 333_333];
    let db = vec![250_000, 250_000, 250_000, 250_000];
    let pairs = generate_interpolation_data(&da, &db, &vec![1, 0, 0], &vec![1, 0, 0, 0]);
    assert_eq!(pairs, vec![(333_334, 250_000), (333_333, 250_000), (333_333, 250_000), (0, 250_000)]);
}

#[test]
fn aligner_index_pairs() {
    let a = MetreTimes { starts: vec![0, 333_334, 666_667], gnsm: vec![1, 0, 0] };
    let b = MetreTimes { starts: vec![0, 250_000, 500_000, 750_000], gnsm: vec![1, 0, 0, 0] };
    let p = get_duration_pairs(&a, &b, 0, 3, 0, 4);
    assert_eq!(p.data, vec![(Some(0), Some(0)), (Some(1), Some(1)), (Some(2), Some(2)), (None, Some(3))]);
}

#[test]
fn aligner_matches_shared_start_times() {
    // 2+2 against 3 quarters and a half: beats at 0 and a half coincide
    let a = MetreTimes { starts: vec![0, 500_000], gnsm: vec![1, 0] };
    let b = MetreTimes { starts: vec![0, 125_000, 250_000, 375_000, 500_000, 750_000], gnsm: vec![2, 0, 1, 0, 1, 0] };
    let p = get_duration_pairs(&a, &b, 0, 2, 0, 6);
    assert_eq!(p.len(), 6);
    assert!(p.data.contains(&(Some(0), Some(0))));
    assert!(p.data.contains(&(Some(1), Some(4))));
    for &(x, y) in &p.data {
        if let Some(x) = x {
            assert!(x < 2);
        }
        if let Some(y) = y {
            assert!(y < 6);
        }
    }
}

#[test]
fn aligner_equal_lengths_and_empty() {
    let a = MetreTimes { starts: vec![0, 500_000], gnsm: vec![1, 0] };
    let e = MetreTimes { starts: vec![], gnsm: vec![] };
    let p = get_duration_pairs(&a, &e, 0, 2, 0, 0);
    assert_eq!(p.data, vec![(Some(0), None), (Some(1), None)]);
    let p = get_duration_pairs(&a, &a, 0, 2, 0, 2);
    assert_eq!(p.data, vec![(Some(0), Some(0)), (Some(1), Some(1))]);
}

#[test]
fn aligner_helpers() {
    let g = vec![0, 2, 1, 2, 0];
    assert!(no_strata_left(&g, 0, 1));
    assert!(!no_strata_left(&g, 0, 3));
    assert!(no_strata_left(&g, 2, 0));
    assert_eq!(highest_stratum_index(&g, 0, 5), 3);
    assert_eq!(highest_stratum_index(&g, 0, 3), 1);
    let s = vec![0, 100, 200, 300];
    assert_eq!(closest_start(&s, 0, 4, 140), 1);
    assert_eq!(closest_start(&s, 0, 4, 150), 1);
    assert_eq!(closest_start(&s, 2, 2, 0), 2);
}

#[test]
fn aligner_anchor_pairs() {
    let a = MetreTimes { starts: vec![0, 100, 200, 300], gnsm: vec![0, 2, 1, 2] };
    let b = MetreTimes { starts: vec![0, 90, 180, 270, 360], gnsm: vec![0, 0, 0, 0, 0] };
    assert_eq!(pair_higher_stratum_by_time(&a, &b, 0, 4, 0, 5), (Some(3), Some(3)));
    let c = MetreTimes { starts: vec![0, 90, 180], gnsm: vec![3, 1, 3] };
    assert_eq!(pair_highest_stratus(&a, &c, 0, 4, 0, 3), (Some(3), Some(2)));
    let mut r = IndexPairs::with_len(4);
    pair_identical_start_times(&mut r, &a, &b, 0, 4, 0, 5);
    assert_eq!(r.data[0], (Some(0), Some(0)));
}

#[test]
fn durations_for_pairs() {
    let mut p = IndexPairs::with_len(2);
    p.set_first_free((Some(1), None));
    let d = durations_of_pairs(&p, &vec![10u32, 20], &vec![30u32], 0);
    assert_eq!(d, vec![(20, 0), (0, 0)]);
}

#[test]
fn merged_timeline() {
    let da = vec![500_000, 500_000];
    let db = vec![250_000, 250_000, 250_000, 250_000];
    let data = InterpolationData::new_from_durs_and_gnsm(&da, &db, &vec![1, 0], &vec![1, 0, 0, 0]);
    assert_eq!(data.unique_start_times().clone(), vec![0, 250_000, 500_000, 750_000, 1_000_000]);
    assert_eq!(
        data.unique_start_time_origins().clone(),
        vec![BeatOrigin::Both, BeatOrigin::MetreB, BeatOrigin::Both, BeatOrigin::MetreB, BeatOrigin::Both]
    );
    assert_eq!(data.interleaved_durations().clone(), vec![250_000; 4]);
    assert_eq!(data.interleaved_gnsm, vec![1, 0, 0, 0, 1]);
}

#[test]
fn interpolated_durations_drop_zeros() {
    let da = vec![250_000, 250_000, 250_000, 250_000];
    let db = vec![100_000, 400_000, 250_000, 250_000];
    let g = vec![1, 0, 0, 0];
    let data = InterpolationData::new_from_durs_and_gnsm(&da, &db, &g, &g);
    assert_eq!(data.get_interpolated_durations(500_000), vec![175_000, 325_000, 250_000, 250_000]);
    assert_eq!(data.get_interpolated_durations(0), da);
    let dc = vec![500_000, 500_000];
    let data = InterpolationData::new_from_durs_and_gnsm(&dc, &da, &vec![1, 0], &g);
    assert_eq!(data.get_interpolated_durations(0), vec![500_000, 500_000]);
    assert_eq!(InterpolationData::new().get_interpolated_durations(0), Vec::<u64>::new());
}

#[test]
fn dedup_and_durations() {
    assert_eq!(dedup_close(&vec![0, 500, 2000, 2999, 4000]), vec![0, 2000, 4000]);
    assert_eq!(get_durations(&vec![0, 2000, 4000]), vec![2000, 2000]);
    assert_eq!(get_durations(&vec![]), Vec::<u64>::new());
    let (t, o, g) = merge_start_times(&vec![0, 500_000], &vec![0, 400_000], &vec![3, 1], &vec![2, 5]);
    assert_eq!(t, vec![0, 400_000, 500_000]);
    assert_eq!(o, vec![BeatOrigin::Both, BeatOrigin::MetreB, BeatOrigin::MetreA]);
    assert_eq!(g, vec![3, 5, 1]);
}

#[test]
fn a_short_beat_shares_its_match() {
    // A's second beat starts 400 millionths in, counting as the same time as
    // B's first beat: both beats of A pair with it
    let a = MetreTimes { starts: vec![0, 400], gnsm: vec![1, 0] };
    let b = MetreTimes { starts: vec![0, 500_000, 750_000], gnsm: vec![1, 0, 0] };
    let p = get_duration_pairs(&a, &b, 0, 2, 0, 3);
    assert_eq!(p.data, vec![(Some(0), Some(0)), (Some(1), Some(0)), (None, Some(1))]);
}

#[test]
fn a_dropped_start_of_b_lies_near_the_timeline() {
    // B's start 500_800 is dropped next to 500_000, which merges with A's
    // 499_500: it lies 1300 millionths from the nearest timeline point
    let da = vec![499_500, 500_500];
    let db = vec![500_000, 800, 499_200];
    let data = InterpolationData::new_from_durs_and_gnsm(&da, &db, &vec![1, 0], &vec![1, 0, 0]);
    assert_eq!(data.unique_start_times().clone(), vec![0, 499_500, 1_000_000]);
    assert_eq!(data.unique_start_time_origins().clone(), vec![BeatOrigin::Both, BeatOrigin::Both, BeatOrigin::Both]);
}

#[test]
fn strata_of_kept_starts() {
    // the end of the bar takes the stratum of the next bar's first beat
    assert_eq!(beat_strata(&vec![0, 500_000, 1_000_000], &vec![0, 250_000, 500_000, 1_000_000], &vec![2, 0, 1]), vec![2, 1, 2]);
}

#[test]
fn anchor_pair_below_the_top_level() {
    // sections at offset 1: A keeps a hierarchy, B none; A's last highest
    // beat (index 3) pairs with B's beat starting closest to it
    let a = MetreTimes { starts: vec![0, 100_000, 200_000, 300_000, 400_000], gnsm: vec![3, 0, 2, 2, 0] };
    let b = MetreTimes { starts: vec![0, 150_000, 310_000], gnsm: vec![3, 0, 0] };
    let p = get_duration_pairs(&a, &b, 1, 4, 1, 2);
    assert!(p.data.contains(&(Some(3), Some(2))));
    assert_eq!(p.len(), 4);
}

#[test]
fn a_start_near_a_merged_one_keeps_its_own_tag() {
    // B's 10_500 merges with A's 10_000; A's 11_000, also within a thousandth
    // of 10_500, stays A's own point
    let (t, o, _) = merge_start_times(&vec![0, 10_000, 11_000], &vec![0, 10_500], &vec![1, 0, 0], &vec![1, 0]);
    assert_eq!(t, vec![0, 10_000, 11_000]);
    assert_eq!(o, vec![BeatOrigin::Both, BeatOrigin::Both, BeatOrigin::MetreA]);
}
