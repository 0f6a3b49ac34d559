use qter::architectures::{
    chromatic_orders_by_facelets, decode, length_of_substring_that_this_string_is_n_repeated_copies_of,
    Architecture, ArchitectureError,
};
use qter::decoding_table::{distance, new_from_effect, DecodingTable};
use qter::permutations::{Algorithm, Permutation, PermutationGroup};
use qter::presets::PuzzleDefinition;
use std::sync::Arc;

fn word(letters: &[&str]) -> Vec<String> {
    letters.iter().map(|letter| letter.to_string()).collect()
}

#[test]
fn length_of_substring_whatever() {
    assert_eq!(
        length_of_substring_that_this_string_is_n_repeated_copies_of(&word(&["a", "a", "a", "a"])),
        1
    );

    assert_eq!(
        length_of_substring_that_this_string_is_n_repeated_copies_of(&word(&["a", "b", "a", "b"])),
        2
    );

    assert_eq!(
        length_of_substring_that_this_string_is_n_repeated_copies_of(&word(&[
            "a", "b", "a", "b", "a"
        ])),
        5
    );

    assert_eq!(
        length_of_substring_that_this_string_is_n_repeated_copies_of(&word(&[
            "a", "b", "c", "d", "e"
        ])),
        5
    );
}

#[test]
fn repetition_of_a_prefix_with_an_inner_border() {
    // Two copies of `aabaa`: the shortest prefix that repeats has five letters.
    let colors = word(&["a", "a", "b", "a", "a", "a", "a", "b", "a", "a"]);
    assert_eq!(length_of_substring_that_this_string_is_n_repeated_copies_of(&colors), 5);
    assert_eq!(length_of_substring_that_this_string_is_n_repeated_copies_of(&word(&[])), 1);
    assert_eq!(
        length_of_substring_that_this_string_is_n_repeated_copies_of(&word(&["a", "b", "c", "a"])),
        4
    );
    assert_eq!(
        length_of_substring_that_this_string_is_n_repeated_copies_of(&word(&[
            "Yellow", "Green", "Yellow", "Green"
        ])),
        2
    );
}

/// The cube of three layers: forty-eight facelets, eight on each face, faces
/// in the order up, left, front, right, back, down, each face row by row.
fn cube() -> Arc<PermutationGroup> {
    let turns: [(&str, [[usize; 4]; 5]); 6] = [
        ("U", [[1, 3, 8, 6], [2, 5, 7, 4], [9, 33, 25, 17], [10, 34, 26, 18], [11, 35, 27, 19]]),
        ("L", [[9, 11, 16, 14], [10, 13, 15, 12], [1, 17, 41, 40], [4, 20, 44, 37], [6, 22, 46, 35]]),
        ("F", [[17, 19, 24, 22], [18, 21, 23, 20], [6, 25, 43, 16], [7, 28, 42, 13], [8, 30, 41, 11]]),
        ("R", [[25, 27, 32, 30], [26, 29, 31, 28], [3, 38, 43, 19], [5, 36, 45, 21], [8, 33, 48, 24]]),
        ("B", [[33, 35, 40, 38], [34, 37, 39, 36], [3, 9, 46, 32], [2, 12, 47, 29], [1, 14, 48, 27]]),
        ("D", [[41, 43, 48, 46], [42, 45, 47, 44], [14, 22, 30, 38], [15, 23, 31, 39], [16, 24, 32, 40]]),
    ];
    let pieces_of: [(&str, &[usize]); 20] = [
        ("UFL", &[6, 17, 11]),
        ("UFR", &[8, 19, 25]),
        ("UBR", &[3, 27, 33]),
        ("UBL", &[1, 35, 9]),
        ("DFL", &[41, 22, 16]),
        ("DFR", &[43, 24, 30]),
        ("DBR", &[48, 32, 38]),
        ("DBL", &[46, 40, 14]),
        ("UF", &[7, 18]),
        ("UR", &[5, 26]),
        ("UB", &[2, 34]),
        ("UL", &[4, 10]),
        ("FL", &[20, 13]),
        ("FR", &[21, 28]),
        ("BR", &[36, 29]),
        ("BL", &[37, 12]),
        ("DF", &[42, 23]),
        ("DR", &[45, 31]),
        ("DB", &[47, 39]),
        ("DL", &[44, 15]),
    ];
    let faces = ["white", "orange", "green", "red", "blue", "yellow"];
    let colors: Vec<String> = (0..48).map(|f| faces[f / 8].to_string()).collect();
    let mut pieces: Vec<String> = vec![String::new(); 48];
    for (name, facelets) in pieces_of {
        for facelet in facelets {
            pieces[facelet - 1] = name.to_string();
        }
    }
    let mut moves: Vec<(Vec<u8>, Permutation)> = Vec::new();
    for (name, cycles) in turns {
        let cycles: Vec<Vec<usize>> =
            cycles.iter().map(|cycle| cycle.iter().map(|f| f - 1).collect()).collect();
        let quarter = Permutation::from_cycles(cycles).unwrap();
        let half = quarter.compose(&quarter);
        let back = quarter.inverse();
        moves.push((name.as_bytes().to_vec(), quarter));
        moves.push((format!("{name}2").into_bytes(), half));
        moves.push((format!("{name}'").into_bytes(), back));
    }
    Arc::new(PermutationGroup::new(colors, pieces, moves).unwrap())
}

fn names(algorithm: &str) -> Vec<Vec<u8>> {
    algorithm.split(' ').map(|name| name.as_bytes().to_vec()).collect()
}

fn architecture(group: &Arc<PermutationGroup>, algorithms: &[&str]) -> Architecture {
    let algorithms: Vec<Vec<Vec<u8>>> = algorithms.iter().map(|algorithm| names(algorithm)).collect();
    Architecture::new(Arc::clone(group), &algorithms).unwrap()
}

fn move_index(group: &PermutationGroup, name: &str) -> usize {
    group.generator_index(name.as_bytes()).unwrap()
}

#[test]
fn three_by_three() {
    let group = cube();

    let cases: [(&[&str], &[u64]); 4] = [
        (&["U", "D"], &[4, 4]),
        (&["R' F' L U' L U L F U' R", "U F R' D' R2 F R' U' D"], &[90, 90]),
        (&["U R U' D2 B", "B U2 B' L' U2 B U L' B L B2 L"], &[210, 24]),
        (
            &[
                "U L2 B' L U' B' U2 R B' R' B L",
                "R2 L U' R' L2 F' D R' D L B2 D2",
                "L2 F2 U L' F D' F' U' L' F U D L' U'",
            ],
            &[30, 30, 30],
        ),
    ];
    for (algorithms, expected) in cases {
        let arch = architecture(&group, algorithms);
        assert_eq!(arch.registers().len(), expected.len());
        for (register, expected) in arch.registers.iter().zip(expected.iter()) {
            assert_eq!(register.order(), *expected);
        }
    }
}

#[test]
fn test_decode() {
    let group = cube();

    let mut cube = Permutation::identity();

    let permutation = Algorithm::new_from_move_seq(Arc::clone(&group), vec![b"U".to_vec()]).unwrap();

    assert_eq!(decode(&cube, &[8], &permutation).unwrap(), 0);

    cube.compose_into(permutation.permutation());
    assert_eq!(decode(&cube, &[8], &permutation).unwrap(), 1);

    cube.compose_into(permutation.permutation());
    assert_eq!(decode(&cube, &[8], &permutation).unwrap(), 2);

    cube.compose_into(permutation.permutation());
    assert_eq!(decode(&cube, &[8], &permutation).unwrap(), 3);

    cube.compose_into(permutation.permutation());
    assert_eq!(decode(&cube, &[8], &permutation).unwrap(), 0);
}

#[test]
fn decoding_fails_off_the_cycle_and_on_contradiction() {
    let group = cube();
    let up = Algorithm::new_from_move_seq(Arc::clone(&group), vec![b"U".to_vec()]).unwrap();
    let right = Algorithm::new_from_move_seq(Arc::clone(&group), vec![b"R".to_vec()]).unwrap();
    // `R` takes the facelet 24 off the cycle that `U` moves it along.
    assert_eq!(decode(right.permutation(), &[24], &up), None);
    // A facelet that is none of the puzzle says nothing.
    assert_eq!(decode(up.permutation(), &[48], &up), None);
    // Facelets on the face that turns show one color: they say nothing but zero.
    assert_eq!(decode(up.permutation(), &[0, 1], &up), Some(0));
    // Two facelets that agree.
    assert_eq!(decode(up.permutation(), &[8, 9], &up), Some(1));
    // Two facelets that contradict each other: one has gone one step, one two.
    let mut twisted = Permutation::from_cycles(vec![vec![8, 32, 24, 16], vec![9, 25], vec![33, 17]]).unwrap();
    assert_eq!(decode(&twisted, &[8], &up), Some(1));
    assert_eq!(decode(&twisted, &[9], &up), Some(2));
    assert_eq!(decode(&twisted, &[8, 9], &up), None);
    twisted.compose_into(up.permutation());
    assert_eq!(decode(&twisted, &[8], &up), Some(2));
}

#[test]
fn chromatic_orders_of_a_turn_of_the_upper_face() {
    let group = cube();
    let up = Algorithm::new_from_move_seq(Arc::clone(&group), vec![b"U".to_vec()]).unwrap();
    let orders = chromatic_orders_by_facelets(&up);
    assert_eq!(orders.len(), 48);
    for facelet in 0..48 {
        // The facelets of the upper face show one color along their cycles;
        // those around it pass four colors; the rest stays in place.
        let side = facelet >= 8 && facelet % 8 < 3 && facelet < 40;
        assert_eq!(orders[facelet], if side { 4 } else { 1 }, "facelet {facelet}");
    }
    let arch = architecture(&group, &["U"]);
    let cycles = arch.registers()[0].unshared_cycles();
    let found: Vec<(Vec<usize>, u64)> =
        cycles.iter().map(|cycle| (cycle.facelet_cycle().to_vec(), cycle.chromatic_order())).collect();
    assert_eq!(
        found,
        vec![
            (vec![0, 2, 7, 5], 1),
            (vec![1, 4, 6, 3], 1),
            (vec![8, 32, 24, 16], 4),
            (vec![9, 33, 25, 17], 4),
            (vec![10, 34, 26, 18], 4),
        ]
    );
}

#[test]
fn shared_facelets_belong_to_no_register() {
    let group = cube();
    let arch = architecture(&group, &["U R U' D2 B", "B U2 B' L' U2 B U L' B L B2 L"]);
    assert_eq!(arch.shared_facelets(), &[1, 31, 33, 37, 47]);
    assert_eq!(arch.registers()[0].order(), 210);
    assert_eq!(arch.registers()[1].order(), 24);
    let first: Vec<u64> = arch.registers()[0].unshared_cycles().iter().map(|c| c.chromatic_order()).collect();
    assert_eq!(first, vec![15, 14]);
    for register in arch.registers() {
        for cycle in register.unshared_cycles() {
            for facelet in cycle.facelet_cycle() {
                assert!(!arch.shared_facelets().contains(facelet));
            }
        }
    }
    assert!(Arc::ptr_eq(&arch.group_arc(), &group));
    assert_eq!(arch.group().facelet_count(), 48);
}

#[test]
fn architectures_that_cannot_be() {
    let group = cube();
    let unknown = Architecture::new(Arc::clone(&group), &vec![names("U"), names("D X")]);
    assert_eq!(unknown.unwrap_err(), ArchitectureError::UnknownMove(b"X".to_vec()));
    // Every cycle of `U` holds a facelet that `R` moves too.
    let crossing = Architecture::new(Arc::clone(&group), &vec![names("U"), names("R")]);
    assert_eq!(crossing.unwrap_err(), ArchitectureError::NoUnsharedCycles { register: 0 });
    let none = Architecture::new(Arc::clone(&group), &vec![]).unwrap();
    assert_eq!(none.registers().len(), 0);
    assert_eq!(none.shared_facelets().len(), 0);
}

#[test]
fn signature_facelets_of_registers() {
    let group = cube();
    let arch = architecture(&group, &["U", "D"]);
    let up = arch.registers()[0].signature_facelets();
    assert_eq!(up.facelets(), &[10]);
    assert_eq!(up.pieces(), &["UFL".to_string()]);
    assert_eq!(up.modulus(), 4);
    let down = arch.registers()[1].signature_facelets();
    assert_eq!(down.facelets(), &[15]);
    assert_eq!(down.pieces(), &["DFL".to_string()]);
    assert!(arch.registers()[0].signature_facelets_mod(2).is_none());
    assert!(arch.registers()[0].signature_facelets_mod(0).is_none());
    assert!(arch.registers()[0].signature_facelets_mod(8).is_none());

    let arch = architecture(&group, &["R U2 D' B D'"]);
    let register = &arch.registers()[0];
    assert_eq!(register.order(), 1260);
    let orders: Vec<u64> = register.unshared_cycles().iter().map(|c| c.chromatic_order()).collect();
    assert_eq!(orders, vec![9, 14, 15, 4, 2, 1]);
    let all = register.signature_facelets();
    assert_eq!(all.facelets(), &[0, 8, 34, 1, 33, 2, 26, 32, 14, 43]);
    assert_eq!(all.pieces(), &["UBL".to_string(), "UB".to_string(), "UBR".to_string(), "DL".to_string()]);
    assert_eq!(all.modulus(), 1260);
    let two = register.signature_facelets_mod(2).unwrap();
    assert_eq!((two.facelets(), two.modulus()), (&[22usize][..], 2));
    assert_eq!(two.pieces(), &["DF".to_string()]);
    let four = register.signature_facelets_mod(4).unwrap();
    assert_eq!((four.facelets(), four.modulus()), (&[14usize, 43][..], 4));
    let nine = register.signature_facelets_mod(9).unwrap();
    assert_eq!(nine.facelets(), &[0, 8, 34]);
    let thirty_six = register.signature_facelets_mod(36).unwrap();
    assert_eq!(thirty_six.facelets(), &[0, 8, 34, 14, 43]);
    assert_eq!(thirty_six.pieces(), &["UBL".to_string(), "DL".to_string()]);
    let half = register.signature_facelets_mod(630).unwrap();
    assert_eq!(half.facelets(), &[0, 8, 34, 1, 33, 2, 26, 32]);
    assert!(register.signature_facelets_mod(3).is_none());
    assert!(register.signature_facelets_mod(8).is_none());

    // The signature facelets decode the register.
    let mut state = Permutation::identity();
    for value in 0..5 {
        assert_eq!(decode(&state, all.facelets(), register.algorithm()), Some(value));
        assert_eq!(decode(&state, two.facelets(), register.algorithm()), Some(value % 2));
        assert_eq!(decode(&state, nine.facelets(), register.algorithm()), Some(value % 9));
        state.compose_into(register.algorithm().permutation());
    }
}

fn entries(table: &DecodingTable) -> Vec<(Vec<u64>, Vec<usize>)> {
    (0..table.len()).map(|at| (table.entry(at).achieves.clone(), table.entry(at).alg.clone())).collect()
}

#[test]
fn the_decoding_table_holds_the_registers_and_what_undoes_them() {
    let group = cube();
    let mut arch = architecture(&group, &["U", "D"]);
    let up = move_index(&group, "U");
    let up_back = move_index(&group, "U'");
    let up_twice = move_index(&group, "U2");
    let down = move_index(&group, "D");
    let down_back = move_index(&group, "D'");
    let table = arch.decoding_table();
    assert_eq!(table.orders(), &vec![4, 4]);
    assert_eq!(
        entries(&table),
        vec![
            (vec![0, 1], vec![down]),
            (vec![0, 3], vec![down_back]),
            (vec![1, 0], vec![up]),
            (vec![3, 0], vec![up_back]),
        ]
    );

    // Sequences that the architecture was given are entered with what undoes
    // them; the later of two for the same offsets stays; `R` leaves the
    // facelets of both registers alone, and a move that is none is passed
    // over.
    let right = move_index(&group, "R");
    arch.set_optimized_table(vec![vec![up_twice], vec![up, down], vec![right], vec![1000], vec![up, up, up]]);
    let table = arch.decoding_table();
    assert_eq!(
        entries(&table),
        vec![
            (vec![0, 0], vec![right]),
            (vec![0, 1], vec![down]),
            (vec![0, 3], vec![down_back]),
            (vec![1, 0], vec![up_back, up_back, up_back]),
            (vec![1, 1], vec![up, down]),
            (vec![2, 0], vec![up_twice]),
            (vec![3, 0], vec![up, up, up]),
            (vec![3, 3], vec![down_back, up_back]),
        ]
    );
}

#[test]
fn the_closest_entry_has_the_least_torus_distance() {
    let mut table = DecodingTable::new(vec![10, 6]);
    assert!(table.closest_alg(&[0, 0]).is_none());
    assert!(table.insert(vec![1, 1], vec![1]));
    assert!(table.insert(vec![9, 5], vec![2]));
    assert!(table.insert(vec![5, 3], vec![3]));
    assert!(table.insert(vec![0, 4], vec![4]));
    // Offsets that are not below the orders, or too few or too many, are refused.
    assert!(!table.insert(vec![10, 0], vec![5]));
    assert!(!table.insert(vec![0, 6], vec![5]));
    assert!(!table.insert(vec![0], vec![5]));
    assert!(!table.insert(vec![0, 0, 0], vec![5]));
    assert_eq!(table.len(), 4);
    let offsets: Vec<Vec<u64>> = entries(&table).into_iter().map(|entry| entry.0).collect();
    assert_eq!(offsets, vec![vec![0, 4], vec![1, 1], vec![5, 3], vec![9, 5]]);
    // An entry for the same offsets takes the place of the old one.
    assert!(table.insert(vec![5, 3], vec![6, 6]));
    assert_eq!(table.len(), 4);
    assert_eq!(table.entry(2).alg, vec![6, 6]);

    let orders = vec![10, 6];
    for first in 0..10u64 {
        for second in 0..6u64 {
            let target = [first, second];
            let (achieves, alg) = table.closest_alg(&target).unwrap();
            let best = distance(achieves, &target, &orders);
            let mut least = u128::MAX;
            let mut first_least = 0;
            for at in 0..table.len() {
                let here = distance(&table.entry(at).achieves, &target, &orders);
                if here < least {
                    least = here;
                    first_least = at;
                }
            }
            assert_eq!(best, least);
            assert_eq!(alg, &table.entry(first_least).alg);
            assert_eq!(table.closest_index(&target), Some(first_least));
        }
    }
    // The way around the end of a register is the short one.
    assert_eq!(distance(&vec![9, 5], &[0, 0], &orders), 2);
    assert_eq!(distance(&vec![5, 3], &[0, 0], &orders), 8);
    assert_eq!(distance(&vec![1, 1], &[9, 5], &orders), 4);
    // Of two entries that are as close, the first of the table is taken.
    assert_eq!(distance(&vec![0, 4], &[0, 0], &orders), 2);
    let (achieves, _) = table.closest_alg(&[0, 0]).unwrap();
    assert_eq!(achieves, &vec![0, 4]);
    let (achieves, alg) = table.closest_alg(&[8, 5]).unwrap();
    assert_eq!((achieves, alg), (&vec![9, 5], &vec![2]));
}

#[test]
fn algorithms_are_put_together_from_the_table() {
    let group = cube();
    let arch = architecture(&group, &["U", "D"]);
    let table = arch.decoding_table();
    let facelets: Vec<Vec<usize>> =
        arch.registers().iter().map(|register| register.signature_facelets().facelets().to_vec()).collect();
    for first in 0..4u64 {
        for second in 0..4u64 {
            let algorithm =
                new_from_effect(Arc::clone(&group), &table, vec![(0, first), (1, second)]).unwrap();
            let state = algorithm.permutation();
            assert_eq!(decode(state, &facelets[0], arch.registers()[0].algorithm()), Some(first));
            assert_eq!(decode(state, &facelets[1], arch.registers()[1].algorithm()), Some(second));
            assert!(algorithm.moves().len() <= 4);
        }
    }
    // Amounts are taken modulo the orders, and the last amount for a register
    // counts.
    let algorithm = new_from_effect(Arc::clone(&group), &table, vec![(0, 7), (0, 6)]).unwrap();
    assert_eq!(algorithm.moves(), &vec![move_index(&group, "U"), move_index(&group, "U")]);
    let algorithm = new_from_effect(Arc::clone(&group), &table, vec![(1, 7)]).unwrap();
    assert_eq!(algorithm.moves(), &vec![move_index(&group, "D'")]);
    let nothing = new_from_effect(Arc::clone(&group), &table, vec![]).unwrap();
    assert!(nothing.moves().is_empty());
    assert!(nothing.permutation().is_identity());
    // A register that the architecture does not have.
    assert!(new_from_effect(Arc::clone(&group), &table, vec![(2, 1)]).is_none());
    // A table that cannot reach what is wanted.
    let mut poor = DecodingTable::new(vec![4, 4]);
    assert!(poor.insert(vec![2, 0], vec![move_index(&group, "U2")]));
    assert!(new_from_effect(Arc::clone(&group), &poor, vec![(0, 2)]).is_some());
    assert!(new_from_effect(Arc::clone(&group), &poor, vec![(0, 1)]).is_none());
}

#[test]
fn presets_are_found_by_the_orders_of_their_registers() {
    let group = cube();
    let pair = Arc::new(architecture(&group, &["U R U' D2 B", "B U2 B' L' U2 B U L' B L B2 L"]));
    let single = Arc::new(architecture(&group, &["R U2 D' B D'"]));
    let triple = Arc::new(architecture(
        &group,
        &[
            "U L2 B' L U' B' U2 R B' R' B L",
            "R2 L U' R' L2 F' D R' D L B2 D2",
            "L2 F2 U L' F D' F' U' L' F U D L' U'",
        ],
    ));
    let puzzle = PuzzleDefinition {
        perm_group: Arc::clone(&group),
        presets: vec![Arc::clone(&single), Arc::clone(&pair), Arc::clone(&triple)],
    };
    let found = puzzle.get_preset(&[210, 24]).unwrap();
    assert!(Arc::ptr_eq(&found, &pair));
    let turned = puzzle.get_preset(&[24, 210]).unwrap();
    assert!(!Arc::ptr_eq(&turned, &pair));
    assert_eq!(turned.registers()[0].order(), 24);
    assert_eq!(turned.registers()[1].order(), 210);
    assert_eq!(turned.registers()[0].algorithm().moves(), pair.registers()[1].algorithm().moves());
    assert_eq!(turned.registers()[1].algorithm().moves(), pair.registers()[0].algorithm().moves());
    assert_eq!(turned.registers()[0].unshared_cycles().len(), pair.registers()[1].unshared_cycles().len());
    assert_eq!(turned.shared_facelets(), pair.shared_facelets());
    assert!(Arc::ptr_eq(&puzzle.get_preset(&[1260]).unwrap(), &single));
    assert!(Arc::ptr_eq(&puzzle.get_preset(&[30, 30, 30]).unwrap(), &triple));
    assert!(puzzle.get_preset(&[210]).is_none());
    assert!(puzzle.get_preset(&[210, 210]).is_none());
    assert!(puzzle.get_preset(&[24, 24]).is_none());
    assert!(puzzle.get_preset(&[]).is_none());
    assert!(PuzzleDefinition::adapt_architecture(&pair, &[24, 210, 1]).is_none());
}
