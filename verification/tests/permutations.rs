use qter::cycle_notation::{parse_permutation, write_cycles, write_permutation, ParseError};
use qter::numbers::{checked_lcm, chinese_remainder_theorem, gcd_u64, lcm_iter, lcm_wide};
use qter::permutations::{Algorithm, Permutation, PermutationGroup};
use std::sync::Arc;

fn perm(mapping: &[usize]) -> Permutation {
    Permutation::from_mapping(mapping.to_vec()).unwrap()
}

fn images(p: &Permutation, upto: usize) -> Vec<usize> {
    (0..upto).map(|i| p.get(i)).collect()
}

/// A puzzle of six facelets on three pieces with the moves `A` (a turn of the
/// first two pieces), `B` (a swap within the last piece) and what undoes them.
fn small_group() -> Arc<PermutationGroup> {
    let colors = ["red", "blue", "red", "blue", "green", "green"];
    let pieces = ["p", "p", "q", "q", "r", "r"];
    let a = perm(&[2, 3, 0, 1]);
    let b = perm(&[0, 1, 2, 3, 5, 4]);
    let c = perm(&[2, 3, 1, 0]);
    let c_inverse = c.inverse();
    Arc::new(
        PermutationGroup::new(
            colors.iter().map(|c| c.to_string()).collect(),
            pieces.iter().map(|p| p.to_string()).collect(),
            vec![
                (b"A".to_vec(), a),
                (b"B".to_vec(), b),
                (b"C".to_vec(), c),
                (b"C'".to_vec(), c_inverse),
            ],
        )
        .unwrap_or_else(|| panic!("no group")),
    )
}

#[test]
fn composing_with_the_identity_changes_nothing() {
    let p = perm(&[1, 2, 0, 4, 3]);
    let id = Permutation::identity();
    assert!(p.compose(&id).equals(&p));
    assert!(id.compose(&p).equals(&p));
    let mut q = Permutation::identity();
    q.compose_into(&p);
    assert!(q.equals(&p));
    assert!(id.is_identity());
    assert!(!p.is_identity());
    assert!(perm(&[0, 1, 2]).equals(&id));
    assert!(perm(&[0, 1, 2]).is_identity());
}

#[test]
fn composition_does_the_first_and_then_the_second() {
    let p = perm(&[1, 2, 0]);
    let q = perm(&[0, 2, 1, 4, 3]);
    assert_eq!(images(&p.compose(&q), 6), vec![2, 1, 0, 4, 3, 5]);
    assert_eq!(images(&q.compose(&p), 6), vec![1, 0, 2, 4, 3, 5]);
}

#[test]
fn the_inverse_undoes_the_permutation() {
    let p = perm(&[3, 0, 4, 1, 2]);
    let inverse = p.inverse();
    assert_eq!(images(&inverse, 5), vec![1, 3, 4, 0, 2]);
    assert!(p.compose(&inverse).is_identity());
    assert!(inverse.compose(&p).is_identity());
    let mut minus_one = perm(&[3, 0, 4, 1, 2]);
    minus_one.exponentiate(-1);
    assert!(minus_one.equals(&inverse));
    assert!(minus_one.compose(&p).is_identity());
}

#[test]
fn powers_of_a_permutation() {
    // a cycle of three and a cycle of two: the order is six
    for power in -13i128..=13 {
        let mut p = perm(&[1, 2, 0, 4, 3]);
        p.exponentiate(power);
        let mut expected = Permutation::identity();
        let step = if power >= 0 { perm(&[1, 2, 0, 4, 3]) } else { perm(&[1, 2, 0, 4, 3]).inverse() };
        for _ in 0..power.abs() {
            expected.compose_into(&step);
        }
        assert!(p.equals(&expected), "power {power}");
        assert_eq!(p.is_identity(), power % 6 == 0);
    }
    let mut p = perm(&[1, 2, 0, 4, 3]);
    p.exponentiate(1_000_000_000_000_000_000_000_001);
    assert_eq!(images(&p, 5), vec![2, 0, 1, 4, 3]);
    let mut p = perm(&[1, 2, 0, 4, 3]);
    p.exponentiate(i128::MIN);
    assert_eq!(images(&p, 5), vec![1, 2, 0, 3, 4]);
}

#[test]
fn only_bijections_are_permutations() {
    assert!(Permutation::from_mapping(vec![0, 0]).is_none());
    assert!(Permutation::from_mapping(vec![1, 2]).is_none());
    assert!(Permutation::from_mapping(vec![]).is_some());
    assert_eq!(perm(&[2, 0, 1]).mapping(), &vec![2, 0, 1]);
    assert_eq!(perm(&[2, 0, 1]).len(), 3);
    assert_eq!(perm(&[2, 0, 1]).get(17), 17);
}

#[test]
fn cycles_start_with_their_least_number() {
    assert_eq!(
        perm(&[0, 4, 6, 3, 5, 1, 2, 8, 7]).cycles(),
        vec![vec![1, 4, 5], vec![2, 6], vec![7, 8]]
    );
    assert!(Permutation::identity().cycles().is_empty());
    assert!(perm(&[0, 1, 2]).cycles().is_empty());
    assert_eq!(perm(&[3, 0, 1, 2]).cycles(), vec![vec![0, 3, 2, 1]]);
}

#[test]
fn permutations_from_cycles() {
    let p = Permutation::from_cycles(vec![vec![0, 1]]).unwrap();
    assert_eq!(images(&p, 3), vec![1, 0, 2]);
    let p = Permutation::from_cycles(vec![vec![5, 1, 4], vec![6, 2], vec![], vec![9]]).unwrap();
    assert_eq!(p.cycles(), vec![vec![1, 4, 5], vec![2, 6]]);
    assert_eq!(p.len(), 10);
    assert!(Permutation::from_cycles(vec![vec![0, 1], vec![1, 2]]).is_none());
    assert!(Permutation::from_cycles(vec![vec![0, 0, 1]]).is_none());
    assert!(Permutation::from_cycles(vec![vec![usize::MAX, 0]]).is_none());
    assert!(Permutation::from_cycles(vec![]).unwrap().is_identity());
}

#[test]
fn cycle_notation_is_read() {
    let swap = Permutation::from_cycles(vec![vec![0, 1]]).unwrap();
    assert!(parse_permutation(b"(1, 0)\n").unwrap().equals(&swap));
    assert!(parse_permutation(b"(0, 1)").unwrap().equals(&swap));
    assert!(parse_permutation(b" ( 0 ,1 ) ").unwrap().equals(&swap));
    assert!(parse_permutation(b"").unwrap().is_identity());
    assert!(parse_permutation(b"()\n").unwrap().is_identity());
    assert!(parse_permutation(b"(7)").unwrap().is_identity());
    let p = parse_permutation(b"(1, 4, 5)(2, 6)(10, 11)").unwrap();
    assert_eq!(p.cycles(), vec![vec![1, 4, 5], vec![2, 6], vec![10, 11]]);
    for text in ["(", "(1", "(1,", "(1,)", "1, 2", "(1 2)", "(1, 2))", "(a)", "(1, 2)x", "(,1)", "(-1)"] {
        assert_eq!(parse_permutation(text.as_bytes()).unwrap_err(), ParseError::Syntax, "{text}");
    }
    assert_eq!(
        parse_permutation(b"(99999999999999999999999)").unwrap_err(),
        ParseError::Syntax
    );
    assert_eq!(parse_permutation(b"(0, 1)(1, 2)").unwrap_err(), ParseError::NotAPermutation);
    assert_eq!(parse_permutation(b"(0, 0)").unwrap_err(), ParseError::NotAPermutation);
}

#[test]
fn cycle_notation_is_written_and_read_back() {
    let swap = Permutation::from_cycles(vec![vec![0, 1]]).unwrap();
    assert_eq!(write_permutation(&swap), b"(0, 1)");
    assert_eq!(write_permutation(&Permutation::identity()), b"()");
    assert_eq!(write_cycles(&vec![vec![10, 200, 3], vec![0, 18446744073709551615]]), b"(10, 200, 3)(0, 18446744073709551615)");
    for mapping in [vec![], vec![1, 0], vec![0, 4, 6, 3, 5, 1, 2, 8, 7], vec![11, 0, 1, 2, 3, 4, 5, 6, 7, 8, 9, 10]] {
        let p = perm(&mapping);
        assert!(parse_permutation(&write_permutation(&p)).unwrap().equals(&p));
    }
}

#[test]
fn groups_check_their_moves() {
    let group = small_group();
    assert_eq!(group.facelet_count(), 6);
    assert_eq!(group.generator_index(b"C'"), Some(3));
    assert_eq!(group.generator_index(b"D"), None);
    assert_eq!(group.generators()[2].inverse, 3);
    assert_eq!(group.generators()[0].inverse, 0);
    assert_eq!(group.piece_assignments()[4], "r");
    let strings = |list: &[&str]| list.iter().map(|s| s.to_string()).collect::<Vec<_>>();
    // a move without the move that undoes it
    assert!(PermutationGroup::new(strings(&["a"; 3]), strings(&["p"; 3]), vec![(b"T".to_vec(), perm(&[1, 2, 0]))])
        .is_none());
    // a move that tears a piece apart
    assert!(PermutationGroup::new(
        strings(&["a"; 4]),
        strings(&["p", "p", "q", "q"]),
        vec![(b"T".to_vec(), perm(&[0, 2, 1, 3]))]
    )
    .is_none());
    // a move beyond the facelets
    assert!(PermutationGroup::new(strings(&["a"; 2]), strings(&["p"; 2]), vec![(b"T".to_vec(), perm(&[0, 2, 1]))])
        .is_none());
    // colors and pieces of different lengths
    assert!(PermutationGroup::new(strings(&["a"; 2]), strings(&["p"; 3]), vec![]).is_none());
    let mut moves = vec![2, 0, 1, 3];
    group.invert_generator_moves(&mut moves);
    assert_eq!(moves, vec![2, 1, 0, 3]);
}

fn algorithm(group: &Arc<PermutationGroup>, moves: &[&str]) -> Algorithm {
    Algorithm::new_from_move_seq(Arc::clone(group), moves.iter().map(|m| m.as_bytes().to_vec()).collect())
        .unwrap()
}

#[test]
fn algorithms_follow_their_moves() {
    let group = small_group();
    let alg = algorithm(&group, &["C", "B", "C"]);
    assert_eq!(alg.moves(), &vec![2, 1, 2]);
    assert_eq!(alg.move_names(), vec![b"C".to_vec(), b"B".to_vec(), b"C".to_vec()]);
    assert_eq!(images(alg.permutation(), 6), vec![1, 0, 3, 2, 5, 4]);
    assert_eq!(
        Algorithm::new_from_move_seq(Arc::clone(&group), vec![b"C".to_vec(), b"X".to_vec(), b"Y".to_vec()])
            .unwrap_err(),
        b"X"
    );
    assert!(Algorithm::from_moves(Arc::clone(&group), vec![0, 4]).is_none());
    assert!(Algorithm::identity(Arc::clone(&group)).permutation().is_identity());

    let mut both = algorithm(&group, &["C"]);
    both.compose_into(&algorithm(&group, &["B", "A"]));
    assert_eq!(both.moves(), &vec![2, 1, 0]);
    assert_eq!(images(both.permutation(), 6), vec![0, 1, 3, 2, 5, 4]);
}

#[test]
fn an_algorithm_to_the_power_of_minus_one_undoes_it() {
    let group = small_group();
    let alg = algorithm(&group, &["C", "B", "A", "C"]);
    let mut inverse = alg.clone();
    inverse.exponentiate(-1);
    assert_eq!(inverse.move_names(), vec![b"C'".to_vec(), b"A".to_vec(), b"B".to_vec(), b"C'".to_vec()]);
    let mut both = inverse.clone();
    both.compose_into(&alg);
    assert!(both.permutation().is_identity());
    let mut both = alg.clone();
    both.compose_into(&inverse);
    assert!(both.permutation().is_identity());

    let mut cubed = algorithm(&group, &["C", "B"]);
    cubed.exponentiate(3);
    assert_eq!(cubed.moves(), &vec![2, 1, 2, 1, 2, 1]);
    assert_eq!(images(cubed.permutation(), 6), vec![3, 2, 0, 1, 5, 4]);
    let mut minus_two = algorithm(&group, &["C", "B"]);
    minus_two.exponentiate(-2);
    assert_eq!(minus_two.moves(), &vec![1, 3, 1, 3]);
    let mut zero = algorithm(&group, &["C", "B"]);
    zero.exponentiate(0);
    assert!(zero.moves().is_empty());
    assert!(zero.permutation().is_identity());
}

#[test]
fn greatest_common_divisors_and_least_common_multiples() {
    assert_eq!(gcd_u64(12, 18), 6);
    assert_eq!(gcd_u64(0, 5), 5);
    assert_eq!(gcd_u64(5, 0), 5);
    assert_eq!(gcd_u64(0, 0), 0);
    assert_eq!(gcd_u64(17, 5), 1);
    assert_eq!(checked_lcm(4, 6), Some(12));
    assert_eq!(checked_lcm(0, 6), Some(0));
    assert_eq!(checked_lcm(u64::MAX, 2), None);
    assert_eq!(lcm_wide(u64::MAX, 2), 2 * (u64::MAX as u128));
    assert_eq!(lcm_iter(&[]), Some(1));
    assert_eq!(lcm_iter(&[8, 6, 5]), Some(120));
    assert_eq!(lcm_iter(&[8, 0, 5]), Some(0));
    assert_eq!(lcm_iter(&[1 << 40, 3, 1 << 63, 5, 7]), None);
    assert_eq!(lcm_iter(&[1 << 40, 3, 1 << 63, 5, 0]), Some(0));
}

#[test]
fn simultaneous_congruences() {
    assert_eq!(chinese_remainder_theorem(&vec![]), Some(0));
    assert_eq!(chinese_remainder_theorem(&vec![(2, 3), (3, 5), (2, 7)]), Some(23));
    assert_eq!(chinese_remainder_theorem(&vec![(5, 8), (3, 6)]), Some(21));
    assert_eq!(chinese_remainder_theorem(&vec![(5, 8), (2, 6)]), None);
    assert_eq!(chinese_remainder_theorem(&vec![(13, 4)]), Some(1));
    assert_eq!(chinese_remainder_theorem(&vec![(1, 4), (5, 4)]), Some(1));
    assert_eq!(chinese_remainder_theorem(&vec![(1, 0)]), None);
    assert_eq!(chinese_remainder_theorem(&vec![(1, u64::MAX), (1, u64::MAX - 1)]), None);
    assert_eq!(chinese_remainder_theorem(&vec![(0, 1), (0, 1)]), Some(0));
}
