use metrefiddler::util::{decider, decider_aux, rescale, RescaleError};

#[test]
fn rescale_half() {
    assert_eq!(rescale(50, 0, 100, 0, 10000, false), Ok(5000));
    assert_eq!(rescale(5, 0, 10, 0, 100, false), Ok(50));
}

#[test]
fn rescale_rounds_down() {
    assert_eq!(rescale(1, 0, 3, 0, 10, false), Ok(3));
    assert_eq!(rescale(-5, -10, 0, 100, 200, false), Ok(150));
}

#[test]
fn rescale_degenerate_ranges() {
    assert_eq!(rescale(5, 10, 10, 0, 1, false), Err(RescaleError::InvalidRange));
    assert_eq!(rescale(5, 0, 10, 3, 1, true), Err(RescaleError::InvalidRange));
}

#[test]
fn rescale_out_of_range() {
    assert_eq!(rescale(11, 0, 10, 0, 100, false), Err(RescaleError::OutOfRange));
    assert_eq!(rescale(11, 0, 10, 0, 100, true), Ok(100));
    assert_eq!(rescale(-3, 0, 10, 0, 100, true), Ok(0));
}

#[test]
fn decider_picks_second() {
    // selector 0.1 of a total weight of 12 lands in the second element
    assert_eq!(decider(100_000, &vec![1, 1, 2, 2, 3, 1, 2]), Ok(1));
}

#[test]
fn decider_edges() {
    assert_eq!(decider(0, &vec![1, 1, 2, 2, 3, 1, 2]), Ok(0));
    assert_eq!(decider(1_000_000, &vec![1, 1, 2, 2, 3, 1, 2]), Ok(6));
    assert_eq!(decider(500_000, &vec![1, 1, 2, 2, 3, 1, 2]), Ok(4));
    assert_eq!(decider(500_000, &vec![]), Err(RescaleError::InvalidRange));
    assert_eq!(decider(500_000, &vec![0, 0]), Err(RescaleError::InvalidRange));
    assert_eq!(decider(1_000_001, &vec![1, 1]), Err(RescaleError::OutOfRange));
}

#[test]
fn decider_aux_walks_weights() {
    assert_eq!(decider_aux(2, &vec![1, 1, 2]), 2);
    assert_eq!(decider_aux(0, &vec![1, 1, 2]), 0);
    assert_eq!(decider_aux(100, &vec![1, 1, 2]), 2);
}
