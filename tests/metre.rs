use metrefiddler::indispensability::{
    fundamental_indispensability, get_indices, gnsm_to_indispensability_list, next_set_index,
    rqq_to_indispensability_list, sort_copied_indices, copy_from_neighbours, IndispensabilityError,
};
use metrefiddler::metre_data::parse_input;
use metrefiddler::rqq::{parse_rqq, tokenize, RqqError, Token, Weight, RQQ};
use metrefiddler::durations::normalised_durations;

fn w(n: u64) -> Weight {
    Weight { mantissa: n, decimals: 0 }
}

#[test]
fn parse_four_quarters() {
    let m = parse_input("(4 (1 1 1 1))").unwrap();
    assert_eq!(m.gnsm, vec![1, 0, 0, 0]);
    assert_eq!(m.value, vec![0, 3, 2, 1]);
    assert_eq!(m.max, 3);
    assert_eq!(m.string, "(4 (1 1 1 1))");
}

#[test]
fn parse_two_groups_of_three() {
    let m = parse_input("(6 ((3 (1 1 1)) (3 (1 1 1))))").unwrap();
    assert_eq!(m.gnsm, vec![2, 0, 0, 1, 0, 0]);
    assert_eq!(m.value, vec![0, 5, 3, 1, 4, 2]);
    assert_eq!(m.max, 5);
}

#[test]
fn ranks_form_a_permutation() {
    let m = parse_input("(7 ((2 (1 1)) (3 (1 (2 (1 1)) 1)) 2))").unwrap();
    let n = m.value.len();
    let mut seen = vec![false; n];
    for &v in &m.value {
        assert!(v < n);
        assert!(!seen[v]);
        seen[v] = true;
    }
    assert_eq!(m.value[0], 0);
    assert_eq!(m.max, n - 1);
}

#[test]
fn commas_separate_too() {
    let m = parse_input("(4,(1,1,1,1))").unwrap();
    assert_eq!(m.value, vec![0, 3, 2, 1]);
}

#[test]
fn parse_errors() {
    assert_eq!(parse_rqq("").unwrap_err(), RqqError::EmptyInput);
    assert_eq!(parse_rqq("   ").unwrap_err(), RqqError::EmptyInput);
    assert_eq!(parse_rqq("(4 (1 a))").unwrap_err(), RqqError::NotANumber);
    assert_eq!(parse_rqq("(4 (1. 1))").unwrap_err(), RqqError::NotANumber);
    assert_eq!(parse_rqq("(4 (.5 1))").unwrap_err(), RqqError::NotANumber);
    assert_eq!(parse_rqq("(4 ())").unwrap_err(), RqqError::EmptyList);
    assert_eq!(parse_rqq("()").unwrap_err(), RqqError::EmptyList);
    assert_eq!(parse_rqq("(4 (1 1)").unwrap_err(), RqqError::MalformedList);
    assert_eq!(parse_rqq("4 (1 1)").unwrap_err(), RqqError::MalformedList);
    assert_eq!(parse_rqq("(4 (1 1)) 5").unwrap_err(), RqqError::MalformedList);
    assert_eq!(parse_rqq("(4 1 1)").unwrap_err(), RqqError::MalformedList);
    assert_eq!(parse_rqq("(4 (1 99999999999999999999))").unwrap_err(), RqqError::NotANumber);
    assert!(parse_input("(4 (1 x))").is_err());
}

#[test]
fn tokens_of_text() {
    let t = tokenize(b"(12 (3,4))").unwrap();
    assert_eq!(t, vec![Token::Open, Token::Num(w(12)), Token::Open, Token::Num(w(3)), Token::Num(w(4)), Token::Close, Token::Close]);
    assert!(tokenize(b"(1 ?)").is_none());
}

#[test]
fn parsed_tree_shape() {
    let t = parse_rqq("(4 (1 (2 (1 1)) 1))").unwrap();
    match t {
        RQQ::List(v) => {
            assert_eq!(v.len(), 2);
            assert!(matches!(v[0], RQQ::Elem(Weight { mantissa: 4, decimals: 0 })));
            match &v[1] {
                RQQ::List(items) => {
                    assert_eq!(items.len(), 3);
                    assert!(matches!(items[0], RQQ::Elem(Weight { mantissa: 1, decimals: 0 })));
                    assert!(matches!(items[1], RQQ::List(_)));
                }
                RQQ::Elem(_) => panic!("sublist expected"),
            }
        }
        RQQ::Elem(_) => panic!("group expected"),
    }
}

#[test]
fn strata_of_nested_group() {
    let t = parse_rqq("(4 (1 (2 (1 1)) 1))").unwrap();
    // levels: [1, 1, 2, 1] before the shifts; first of each list lowered
    assert_eq!(t.to_gnsm().unwrap(), vec![2, 1, 0, 1]);
    let ranks = rqq_to_indispensability_list(&t).unwrap();
    assert_eq!(ranks.len(), 4);
    assert_eq!(ranks[0], 0);
}

#[test]
fn strata_of_malformed_tree() {
    let t = RQQ::List(vec![RQQ::Elem(w(4))]);
    assert_eq!(t.to_gnsm().unwrap_err(), RqqError::MalformedList);
    let t = RQQ::List(vec![RQQ::Elem(w(4)), RQQ::List(vec![])]);
    assert_eq!(t.to_gnsm().unwrap_err(), RqqError::EmptyList);
    let t = RQQ::List(vec![RQQ::Elem(w(4)), RQQ::List(vec![RQQ::Elem(w(1)), RQQ::List(vec![RQQ::Elem(w(2))])])]);
    assert_eq!(t.to_gnsm().unwrap_err(), RqqError::MalformedList);
}

#[test]
fn ranking_golden_example() {
    assert_eq!(gnsm_to_indispensability_list(vec![1, 0, 0, 0]).unwrap(), vec![0, 3, 2, 1]);
}

#[test]
fn ranking_single_beat() {
    assert_eq!(gnsm_to_indispensability_list(vec![0]).unwrap(), vec![0]);
}

#[test]
fn ranking_empty_strata() {
    assert_eq!(gnsm_to_indispensability_list(vec![]).unwrap_err(), IndispensabilityError::NoStrata);
}

#[test]
fn ranking_equal_strata_ties() {
    // two pulses of equal stratum share a rank
    assert_eq!(gnsm_to_indispensability_list(vec![0, 0]).unwrap(), vec![0, 0]);
}

#[test]
fn fundamental_pattern() {
    assert_eq!(fundamental_indispensability(0), Vec::<usize>::new());
    assert_eq!(fundamental_indispensability(1), vec![0]);
    assert_eq!(fundamental_indispensability(4), vec![3, 1, 2, 3]);
}

#[test]
fn indices_of_layer() {
    let mut idx = vec![9];
    get_indices(1, &vec![1, 0, 1, 2, 1], &mut idx);
    assert_eq!(idx, vec![0, 2, 4]);
    get_indices(-1, &vec![1, 0], &mut idx);
    assert!(idx.is_empty());
}

#[test]
fn next_ranked_neighbour_wraps() {
    let r = vec![5, -1, -1, 2, -1];
    assert_eq!(next_set_index(&r, 0, 5), 3);
    assert_eq!(next_set_index(&r, 3, 5), 0);
    assert_eq!(next_set_index(&r, 4, 5), 0);
}

#[test]
fn copying_ranks_from_neighbours() {
    let mut result = vec![0, -1, -1, -1];
    let mut set = vec![];
    copy_from_neighbours(&vec![1, 2, 3], &mut set, &mut result, 4);
    assert_eq!(set, vec![3]);
    assert_eq!(result, vec![0, -1, -1, 0]);
}

#[test]
fn sorting_copied_indices() {
    let result = vec![4, 1, 3, 1, 0];
    assert_eq!(sort_copied_indices(&result, &vec![0, 1, 2, 3, 4]), vec![4, 1, 3, 2, 0]);
}

#[test]
fn invalid_edit_keeps_structure() {
    let mut m = parse_input("(4 (1 1 1 1))").unwrap();
    assert!(!m.update_from_text("(4 (1 1"));
    assert_eq!(m.string, "(4 (1 1 1 1))");
    assert_eq!(m.value, vec![0, 3, 2, 1]);
    assert!(m.update_from_text("(3 (1 1 1))"));
    assert_eq!(m.string, "(3 (1 1 1))");
    assert_eq!(m.gnsm, vec![1, 0, 0]);
    assert_eq!(m.value, vec![0, 2, 1]);
    assert_eq!(m.max, 2);
}

#[test]
fn leaf_durations_as_fractions() {
    let t = parse_rqq("(4 (1 1 1 1))").unwrap();
    assert_eq!(t.to_durations(1, 1).unwrap(), vec![(4, 4); 4]);
    let t = parse_rqq("(3 ((2 (1 1 1)) 1))").unwrap();
    assert_eq!(t.to_durations(1, 1).unwrap(), vec![(6, 9), (6, 9), (6, 9), (3, 3)]);
    let t = parse_rqq("(4 (1 (2 (1 1)) 1))").unwrap();
    assert_eq!(t.to_durations(1, 1).unwrap(), vec![(4, 4), (8, 8), (8, 8), (4, 4)]);
}

#[test]
fn leaf_durations_of_malformed_tree() {
    let t = RQQ::List(vec![RQQ::Elem(w(4))]);
    assert_eq!(t.to_durations(1, 1).unwrap_err(), RqqError::MalformedList);
    let t = RQQ::List(vec![RQQ::Elem(w(4)), RQQ::Elem(w(1))]);
    assert_eq!(t.to_durations(1, 1).unwrap_err(), RqqError::MalformedList);
    let t = RQQ::List(vec![RQQ::Elem(w(u64::MAX)), RQQ::List(vec![RQQ::Elem(w(u64::MAX))])]);
    assert_eq!(t.to_durations(u128::MAX, u128::MAX).unwrap_err(), RqqError::TooLarge);
    assert_eq!(RQQ::Elem(w(3)).to_durations(2, 5).unwrap(), vec![(15, 2)]);
}

#[test]
fn weights_of_a_sublist() {
    let t = parse_rqq("(7 ((2 (1 1)) 3 2))").unwrap();
    match &t {
        RQQ::List(v) => assert_eq!(v[1].rqq_num_divisions(), Some((7, 0))),
        RQQ::Elem(_) => panic!("group expected"),
    }
    assert_eq!(RQQ::Elem(w(5)).rqq_num_divisions(), Some((0, 0)));
}

#[test]
fn decimal_weights() {
    let t = parse_rqq("(3 (1.5 1.5))").unwrap();
    match &t {
        RQQ::List(v) => {
            assert!(matches!(v[0], RQQ::Elem(Weight { mantissa: 3, decimals: 0 })));
            match &v[1] {
                RQQ::List(items) => {
                    assert_eq!(items.len(), 2);
                    assert!(matches!(items[0], RQQ::Elem(Weight { mantissa: 15, decimals: 1 })));
                }
                RQQ::Elem(_) => panic!("sublist expected"),
            }
        }
        RQQ::Elem(_) => panic!("group expected"),
    }
    // each leaf lasts 1.5 of a parent lasting 1.0
    assert_eq!(t.to_durations(1, 1).unwrap(), vec![(450, 300), (450, 300)]);
    let m = parse_input("(3 (1.5 0.75 0.75))").unwrap();
    assert_eq!(m.durations, vec![500_000, 250_000, 250_000]);
}

#[test]
fn normalised_durations_add_up_to_a_bar() {
    let m = parse_input("(4 (1 1 1 1))").unwrap();
    assert_eq!(m.durations, vec![250_000; 4]);
    let t = parse_rqq("(3 ((2 (1 1 1)) 1))").unwrap();
    let d = normalised_durations(&t).unwrap();
    assert_eq!(d, vec![222_222, 222_222, 222_222, 333_334]);
    assert_eq!(d.iter().sum::<u64>(), 1_000_000);
}

#[test]
fn zero_length_bar() {
    assert_eq!(parse_input("(4 (0 0))").unwrap_err(), RqqError::ZeroLength);
}
