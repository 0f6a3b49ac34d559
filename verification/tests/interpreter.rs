use qter::compiler::q_emitter::{emit_q, EmitError, QInstruction, QProgram};
use qter::cycle_notation::ParseError;
use qter::interpreter::controller::{Answer, Controller, InputTaken, Request};
use qter::interpreter::machine::{
    ActionPerformed, ExecutionState, Instruction, Interpreter, PausedState, Program, Register, Target, Test,
};
use qter::interpreter::puzzle_states::{
    facelets_solved, halt_order, halt_step, print_check, HaltStep, SimulatedPuzzle, TheoreticalState,
};
use qter::interpreter::remote_robot::{
    encode_algorithm, encode_handshake, encode_picture, encode_solve, parse_algorithm, parse_command,
    read_ack, read_frame, read_picture, send_ack, send_picture, split_words, AckReading, Command,
    FrameReading, RemoteRobot, MAX_LENGTH,
};
use qter::permutations::{Algorithm, Permutation, PermutationGroup};
use std::sync::Arc;

/// The cube of three layers: forty-eight facelets, eight on each face, faces
/// in the order up, left, front, right, back, down, each face row by row.
fn cube() -> Arc<PermutationGroup> {
    let turns: [(&str, [[usize; 4]; 5]); 6] = [
        ("U", [[1, 3, 8, 6], [2, 5, 7, 4], [9, 33, 25, 17], [10, 34, 26, 18], [11, 35, 27, 19]]),
        ("L", [[9, 11, 16, 14], [10, 13, 15, 12], [1, 17, 41, 40], [4, 20, 44, 37], [6, 22, 46, 35]]),
        ("F", [[17, 19, 24, 22], [18, 21, 23, 20], [6, 25, 43, 16], [7, 28, 42, 13], [8, 30, 41, 11]]),
        ("R", [[25, 27, 32, 30], [26, 29, 31, 28], [3, 38, 43, 19], [5, 36, 45, 21], [8, 33, 48, 24]]),
        ("B", [[33, 35, 40, 38], [34, 37, 39, 36], [3, 9, 46, 32], [2, 12, 47, 29], [1, 14, 48, 27]]),
        ("D", [[41, 43, 48, 46], [42, 45, 47, 44], [14, 22, 30, 38], [15, 23, 31, 39], [16, 24, 32, 40]]),
    ];
    let pieces_of: [&[usize]; 20] = [
        &[6, 17, 11],
        &[8, 19, 25],
        &[3, 27, 33],
        &[1, 35, 9],
        &[41, 22, 16],
        &[43, 24, 30],
        &[48, 32, 38],
        &[46, 40, 14],
        &[7, 18],
        &[5, 26],
        &[2, 34],
        &[4, 10],
        &[20, 13],
        &[21, 28],
        &[36, 29],
        &[37, 12],
        &[42, 23],
        &[45, 31],
        &[47, 39],
        &[44, 15],
    ];
    let faces = ["white", "orange", "green", "red", "blue", "yellow"];
    let colors: Vec<String> = (0..48).map(|f| faces[f / 8].to_string()).collect();
    let mut pieces: Vec<String> = vec![String::new(); 48];
    for (number, facelets) in pieces_of.iter().enumerate() {
        for facelet in facelets.iter() {
            pieces[facelet - 1] = format!("piece {number}");
        }
    }
    let mut moves: Vec<(Vec<u8>, Permutation)> = Vec::new();
    for (name, cycles) in turns {
        let cycles: Vec<Vec<usize>> =
            cycles.iter().map(|cycle| cycle.iter().map(|f| f - 1).collect()).collect();
        let quarter = Permutation::from_cycles(cycles).unwrap();
        let half = quarter.compose(&quarter);
        let back = quarter.inverse();
        moves.push((name.as_bytes().to_vec(), quarter));
        moves.push((format!("{name}2").into_bytes(), half));
        moves.push((format!("{name}'").into_bytes(), back));
    }
    Arc::new(PermutationGroup::new(colors, pieces, moves).unwrap())
}

fn algorithm(group: &Arc<PermutationGroup>, moves: &str) -> Algorithm {
    parse_algorithm(Arc::clone(group), moves.as_bytes()).unwrap()
}

fn swap() -> Permutation {
    Permutation::from_cycles(vec![vec![0, 1]]).unwrap()
}

/// What the client does with the answers of a server, step by step, with the
/// bytes that it sends.
#[test]
fn remote_robot_remote_robot() {
    let cube3 = cube();
    let answers: &[u8] = b"!ACK\n!ACK\n!ACK\n(1, 0)\n!ACK\n!ERR\n\0\x03ABC!ERR\n\0\x04ABCD!ERR\n\0\x05ABCDE";
    let mut at = 0;
    let mut sent: Vec<u8> = Vec::new();

    // The handshake and its acknowledgement.
    sent.extend(encode_handshake(b"\"3x3\"").unwrap());
    assert_eq!(read_ack(&answers[at..]), AckReading::Ack { used: 5 });
    at += 5;
    let mut robot = RemoteRobot::new();
    assert!(robot.cached_picture().is_none());

    sent.extend(robot.compose_into(&algorithm(&cube3, "U D U2 D2 U' D'")));
    assert_eq!(read_ack(&answers[at..]), AckReading::Ack { used: 5 });
    at += 5;

    // The first picture is asked for; the second is remembered.
    assert!(robot.cached_picture().is_none());
    sent.extend(encode_picture());
    assert_eq!(read_ack(&answers[at..]), AckReading::Ack { used: 5 });
    at += 5;
    let end = at + answers[at..].iter().position(|byte| *byte == b'\n').unwrap();
    let state = read_picture(&answers[at..end]).unwrap();
    at = end + 1;
    assert!(state.equals(&swap()));
    robot.picture_taken(state);
    assert!(robot.cached_picture().unwrap().equals(&swap()));

    sent.extend(robot.solve());
    assert_eq!(read_ack(&answers[at..]), AckReading::Ack { used: 5 });
    at += 5;
    assert!(robot.cached_picture().unwrap().is_identity());

    // Now the robot fails at everything.
    sent.extend(robot.compose_into(&algorithm(&cube3, "U")));
    assert_eq!(read_ack(&answers[at..]), AckReading::BackendError { message: b"ABC".to_vec(), used: 10 });
    at += 10;
    assert!(robot.cached_picture().is_none());
    sent.extend(encode_picture());
    assert_eq!(read_ack(&answers[at..]), AckReading::BackendError { message: b"ABCD".to_vec(), used: 11 });
    at += 11;
    sent.extend(encode_solve());
    assert_eq!(read_ack(&answers[at..]), AckReading::BackendError { message: b"ABCDE".to_vec(), used: 12 });
    at += 12;
    assert_eq!(at, answers.len());

    assert_eq!(sent, b"\0\x06\"3x3\"\nU D U2 D2 U' D'\n!PICTURE\n!SOLVE\nU\n!PICTURE\n!SOLVE\n".to_vec());
}

/// What the server answers to the commands of a client whose robot first does
/// as it is told and then fails.
#[test]
fn remote_robot_robot_server() {
    let group = cube();
    let stream: &[u8] = b"\0\x06\"3x3\"\nU D U2 D2 U' D'\n!PICTURE\n!SOLVE\nU\n!PICTURE\n!SOLVE\n";
    let mut out: Vec<u8> = Vec::new();

    let FrameReading::Frame { data, used } = read_frame(stream) else { panic!("no frame") };
    assert_eq!(data, b"\"3x3\"\n".to_vec());
    assert_eq!(used, 8);
    out.extend(send_ack(Ok(())));

    let lines: Vec<&[u8]> = stream[used..].split(|byte| *byte == b'\n').collect();
    assert_eq!(lines.len(), 7);
    assert!(lines[6].is_empty());

    let Command::Perform(first) = parse_command(Arc::clone(&group), lines[0]) else { panic!("no moves") };
    assert_eq!(first.moves(), algorithm(&group, "U D U2 D2 U' D'").moves());
    out.extend(send_ack(Ok(())));
    assert!(matches!(parse_command(Arc::clone(&group), lines[1]), Command::Picture));
    out.extend(send_picture(&swap()));
    assert!(matches!(parse_command(Arc::clone(&group), lines[2]), Command::Solve));
    out.extend(send_ack(Ok(())));
    let Command::Perform(second) = parse_command(Arc::clone(&group), lines[3]) else { panic!("no moves") };
    assert_eq!(second.moves(), algorithm(&group, "U").moves());
    out.extend(send_ack(Err(b"ABC")));
    assert!(matches!(parse_command(Arc::clone(&group), lines[4]), Command::Picture));
    out.extend(send_ack(Err(b"ABCD")));
    assert!(matches!(parse_command(Arc::clone(&group), lines[5]), Command::Solve));
    out.extend(send_ack(Err(b"ABCDE")));

    assert_eq!(out, b"!ACK\n!ACK\n!ACK\n(0, 1)\n!ACK\n!ERR\n\0\x03ABC!ERR\n\0\x04ABCD!ERR\n\0\x05ABCDE".to_vec());
}

#[test]
fn frames_carry_their_length() {
    assert_eq!(read_frame(b""), FrameReading::Incomplete { needed: 2 });
    assert_eq!(read_frame(b"\x01"), FrameReading::Incomplete { needed: 2 });
    assert_eq!(read_frame(b"\x01\x02abc"), FrameReading::Incomplete { needed: 260 });
    assert_eq!(read_frame(b"\0\0rest"), FrameReading::Frame { data: vec![], used: 2 });
    assert_eq!(read_frame(b"\0\x03abcd"), FrameReading::Frame { data: b"abc".to_vec(), used: 5 });

    assert_eq!(encode_handshake(b""), Some(b"\0\x01\n".to_vec()));
    let long = vec![b'x'; 300];
    let frame = encode_handshake(&long).unwrap();
    assert_eq!(&frame[..2], &[1, 45]);
    assert_eq!(frame.len(), 303);
    assert_eq!(read_frame(&frame), FrameReading::Frame { data: frame[2..].to_vec(), used: 303 });
    // With its line feed a description may fill the largest frame, no more.
    assert_eq!(MAX_LENGTH, 65535);
    assert!(encode_handshake(&vec![b'x'; 65534]).is_some());
    assert!(encode_handshake(&vec![b'x'; 65535]).is_none());
}

#[test]
fn answers_are_read_as_far_as_they_have_come() {
    assert_eq!(read_ack(b""), AckReading::Incomplete { needed: 5 });
    assert_eq!(read_ack(b"!ACK"), AckReading::Incomplete { needed: 5 });
    assert_eq!(read_ack(b"!ACK\nmore"), AckReading::Ack { used: 5 });
    assert_eq!(read_ack(b"!ERR\n"), AckReading::Incomplete { needed: 7 });
    assert_eq!(read_ack(b"!ERR\n\0\x03AB"), AckReading::Incomplete { needed: 10 });
    assert_eq!(read_ack(b"!ERR\n\0\x03ABC"), AckReading::BackendError { message: b"ABC".to_vec(), used: 10 });
    assert_eq!(read_ack(b"!ERR\n\0\0"), AckReading::BackendError { message: vec![], used: 7 });
    assert_eq!(read_ack(b"!ACK \n"), AckReading::ProtocolError);
    assert_eq!(read_ack(b"hello"), AckReading::ProtocolError);

    assert_eq!(send_ack(Ok(())), b"!ACK\n".to_vec());
    assert_eq!(send_ack(Err(b"")), b"!ERR\n\0\0".to_vec());
    // A message that is too long is cut.
    let long = vec![b'e'; 70000];
    let answer = send_ack(Err(&long));
    assert_eq!(answer.len(), 7 + 65535);
    assert_eq!(&answer[5..7], &[255, 255]);
    assert_eq!(read_ack(&answer), AckReading::BackendError { message: vec![b'e'; 65535], used: 65542 });

    assert_eq!(send_picture(&Permutation::identity()), b"!ACK\n()\n".to_vec());
    assert!(read_picture(b"()").unwrap().is_identity());
    assert_eq!(read_picture(b"(0, 0)").unwrap_err(), ParseError::NotAPermutation);
    assert_eq!(read_picture(b"(0, 1").unwrap_err(), ParseError::Syntax);
}

#[test]
fn commands_are_words_in_a_line() {
    let group = cube();
    assert_eq!(split_words(b"  U\tD2  R' \r\n"), vec![b"U".to_vec(), b"D2".to_vec(), b"R'".to_vec()]);
    assert!(split_words(b" \n").is_empty());
    assert!(matches!(parse_command(Arc::clone(&group), b"  !SOLVE \r"), Command::Solve));
    assert!(matches!(parse_command(Arc::clone(&group), b"!PICTURE"), Command::Picture));
    assert!(matches!(parse_command(Arc::clone(&group), b"!SOLVE !SOLVE"), Command::Unparsable));
    assert!(matches!(parse_command(Arc::clone(&group), b"!solve"), Command::Unparsable));
    assert!(matches!(parse_command(Arc::clone(&group), b"U X"), Command::Unparsable));
    let Command::Perform(nothing) = parse_command(Arc::clone(&group), b"") else { panic!("no moves") };
    assert!(nothing.moves().is_empty());
    assert!(parse_algorithm(Arc::clone(&group), b"U U3").is_none());
    let moves = algorithm(&group, "R U R' U'");
    assert_eq!(encode_algorithm(&moves), b"R U R' U'\n".to_vec());
    assert_eq!(encode_algorithm(&nothing), b"\n".to_vec());
    assert_eq!(encode_picture(), b"!PICTURE\n".to_vec());
    assert_eq!(encode_solve(), b"!SOLVE\n".to_vec());
}

#[test]
fn registers_in_theory_count_modulo_their_order() {
    assert!(TheoreticalState::new(0).is_none());
    let mut state = TheoreticalState::new(7).unwrap();
    assert_eq!((state.order(), state.value()), (7, 0));
    state.add_to(5);
    assert_eq!(state.value(), 5);
    state.add_to(5);
    assert_eq!(state.value(), 3);
    state.add_to(u64::MAX);
    assert_eq!(state.value(), (3 + (u64::MAX % 7)) % 7);
    state.zero_out();
    assert_eq!(state.value(), 0);
    state.add_to_i(-1);
    assert_eq!(state.value(), 6);
    state.add_to_i(-13);
    assert_eq!(state.value(), 0);
    state.add_to_i(i128::MIN);
    assert_eq!(state.value(), 5);
    state.add_to_i(i128::MAX);
    assert_eq!(state.value(), 6);
    let mut one = TheoreticalState::new(1).unwrap();
    one.add_to(12345);
    assert_eq!(one.value(), 0);
}

#[test]
fn a_simulated_puzzle_follows_its_algorithms() {
    let group = cube();
    let up = algorithm(&group, "U");
    let up_back = algorithm(&group, "U'");
    let right = algorithm(&group, "R");
    let mut puzzle = SimulatedPuzzle::initialize(Arc::clone(&group));
    assert!(puzzle.puzzle_state().is_identity());
    assert!(puzzle.facelets_solved(&[0, 8, 47]));
    assert_eq!(puzzle.print(&[8], &up), Some(0));

    puzzle.compose_into(&up);
    assert!(puzzle.take_picture().equals(up.permutation()));
    // The upper face shows one color whatever has turned it.
    assert!(puzzle.facelets_solved(&[0, 1, 7]));
    assert!(!puzzle.facelets_solved(&[0, 8]));
    assert!(facelets_solved(&group, puzzle.puzzle_state(), &[]));
    // A facelet that is none of the puzzle is never solved.
    assert!(!puzzle.facelets_solved(&[48]));
    assert_eq!(puzzle.print(&[8], &up), Some(1));
    assert_eq!(puzzle.halt(&[8], &up), Some(1));
    assert_eq!(puzzle.print(&[8], &up_back), Some(3));

    puzzle.compose_into(&up);
    puzzle.compose_into(&up);
    assert_eq!(puzzle.print(&[8, 9, 10], &up), Some(3));
    // The generator is performed as often as it was undone.
    assert_eq!(puzzle.repeat_until(&[8], &up), Some(()));
    assert!(puzzle.puzzle_state().is_identity());
    puzzle.compose_into(&up);
    assert_eq!(puzzle.repeat_until(&[8], &up_back), Some(()));
    assert!(puzzle.puzzle_state().is_identity());

    // What `R` has done cannot be told along the cycles of `U`.
    puzzle.compose_into(&right);
    assert_eq!(puzzle.print(&[24], &up), None);
    assert_eq!(puzzle.repeat_until(&[24], &up), None);
    assert!(puzzle.puzzle_state().equals(right.permutation()));
    puzzle.solve();
    assert!(puzzle.puzzle_state().is_identity());
}

#[test]
fn a_robot_undoes_the_generator_step_by_step() {
    let group = cube();
    let up = algorithm(&group, "U");
    assert_eq!(halt_order(&[8], &up), Some(4));
    assert_eq!(halt_order(&[0, 1], &up), Some(1));
    assert_eq!(halt_order(&[], &up), Some(1));
    assert_eq!(halt_order(&[8, 48], &up), None);
    let long = algorithm(&group, "R U2 D' B D'");
    assert_eq!(halt_order(&[0, 1, 2, 14, 22], &long), Some(1260));
    assert_eq!(halt_order(&[0, 14], &long), Some(36));

    assert_eq!(halt_step(true, 0, 4), HaltStep::Done(0));
    assert_eq!(halt_step(true, 3, 4), HaltStep::Done(3));
    assert_eq!(halt_step(false, 0, 4), HaltStep::Compose(1));
    assert_eq!(halt_step(false, 2, 4), HaltStep::Compose(3));
    assert_eq!(halt_step(false, 3, 4), HaltStep::Failed);
    assert_eq!(halt_step(false, 0, 1), HaltStep::Failed);
    assert_eq!(halt_step(false, u64::MAX, u64::MAX), HaltStep::Failed);
    assert_eq!(halt_step(false, 0, 0), HaltStep::Failed);

    // A robot that undoes `U` until the facelet 8 is solved finds the value.
    let mut state = SimulatedPuzzle::initialize(Arc::clone(&group));
    state.compose_into(&algorithm(&group, "U2"));
    let back = algorithm(&group, "U'");
    let order = halt_order(&[8], &up).unwrap();
    let mut undone = 0;
    let value = loop {
        match halt_step(state.facelets_solved(&[8]), undone, order) {
            HaltStep::Done(value) => break Some(value),
            HaltStep::Failed => break None,
            HaltStep::Compose(next) => {
                state.compose_into(&back);
                undone = next;
            }
        }
    };
    assert_eq!(value, Some(2));

    let before = Permutation::from_cycles(vec![vec![0, 1, 2]]).unwrap();
    let same = Permutation::from_mapping(vec![1, 2, 0, 3, 4]).unwrap();
    assert_eq!(print_check(&before, &same, 7), Some(7));
    assert_eq!(print_check(&before, &swap(), 7), None);
}

fn up_register(group: &Arc<PermutationGroup>) -> Register {
    Register::Puzzle { puzzle: 0, generator: algorithm(group, "U"), facelets: vec![10] }
}

fn texts(machine: &Interpreter) -> Vec<String> {
    machine.messages().iter().map(|message| String::from_utf8(message.clone()).unwrap()).collect()
}

#[test]
fn the_machine_steps_through_a_program() {
    let group = cube();
    let program = Program {
        theoretical: vec![5],
        puzzles: vec![Arc::clone(&group)],
        instructions: vec![
            Instruction::PerformAlgorithm { puzzle: 0, algorithm: algorithm(&group, "U") },
            Instruction::PerformAlgorithm { puzzle: 0, algorithm: algorithm(&group, "U") },
            Instruction::Print { message: b"A".to_vec(), register: Some(up_register(&group)) },
            Instruction::SolvedGoto { test: Test::Puzzle { puzzle: 0, facelets: vec![10] }, instruction_idx: 6 },
            Instruction::RepeatUntil { puzzle: 0, facelets: vec![10], algorithm: algorithm(&group, "U'") },
            Instruction::SolvedGoto { test: Test::Puzzle { puzzle: 0, facelets: vec![10] }, instruction_idx: 7 },
            Instruction::Halt { message: b"never".to_vec(), register: None },
            Instruction::AddTheoretical { idx: 0, amount: 7 },
            Instruction::SolvedGoto { test: Test::Theoretical { idx: 0 }, instruction_idx: 0 },
            Instruction::Input { message: b"Give".to_vec(), register: Register::Theoretical { idx: 0 }, max_input: 3 },
            Instruction::SolvedGoto { test: Test::Theoretical { idx: 0 }, instruction_idx: 12 },
            Instruction::Goto { instruction_idx: 6 },
            Instruction::PerformAlgorithm { puzzle: 0, algorithm: algorithm(&group, "R") },
            Instruction::Print { message: b"plain".to_vec(), register: None },
            Instruction::Solve { target: Target::Puzzle(0) },
            Instruction::Solve { target: Target::Theoretical(0) },
            Instruction::Input { message: b"Turn".to_vec(), register: up_register(&group), max_input: 9 },
            Instruction::Halt { message: b"Done".to_vec(), register: Some(up_register(&group)) },
        ],
    };
    let mut machine = Interpreter::new(program).unwrap();
    assert_eq!(machine.execution_state(), ExecutionState::Running);
    assert_eq!(machine.program_counter(), 0);
    assert!(!machine.give_input(0));

    assert_eq!(machine.step(), ActionPerformed::Added);
    assert_eq!(machine.step(), ActionPerformed::Added);
    assert_eq!(machine.program_counter(), 2);
    assert_eq!(machine.step(), ActionPerformed::Printed);
    assert_eq!(texts(&machine), vec!["A 2"]);
    assert_eq!(machine.step(), ActionPerformed::FailedSolvedGoto);
    assert_eq!(machine.program_counter(), 4);
    assert_eq!(machine.step(), ActionPerformed::RepeatedUntil);
    assert!(machine.puzzle_state(0).puzzle_state().is_identity());
    assert_eq!(machine.step(), ActionPerformed::SucceededSolvedGoto);
    assert_eq!(machine.program_counter(), 7);
    assert_eq!(machine.step(), ActionPerformed::Added);
    assert_eq!(machine.theoretical_state(0).value(), 2);
    assert_eq!(machine.step(), ActionPerformed::FailedSolvedGoto);
    assert_eq!(machine.program_counter(), 9);

    assert_eq!(machine.step(), ActionPerformed::Paused);
    assert_eq!(machine.execution_state(), ExecutionState::Paused(PausedState::Input { max_input: 3 }));
    assert_eq!(machine.program_counter(), 9);
    assert_eq!(texts(&machine), vec!["A 2", "Give"]);
    assert_eq!(machine.step(), ActionPerformed::Nothing);
    assert!(!machine.give_input(4));
    assert_eq!(machine.execution_state(), ExecutionState::Paused(PausedState::Input { max_input: 3 }));
    assert!(machine.give_input(3));
    assert_eq!(machine.execution_state(), ExecutionState::Running);
    assert_eq!(machine.program_counter(), 10);
    assert_eq!(machine.theoretical_state(0).value(), 0);

    assert_eq!(machine.step(), ActionPerformed::SucceededSolvedGoto);
    assert_eq!(machine.program_counter(), 12);
    assert_eq!(machine.step(), ActionPerformed::Added);
    assert_eq!(machine.step(), ActionPerformed::Printed);
    assert_eq!(texts(&machine), vec!["A 2", "Give", "plain"]);
    assert!(!machine.puzzle_state(0).puzzle_state().is_identity());
    assert_eq!(machine.step(), ActionPerformed::Solved);
    assert!(machine.puzzle_state(0).puzzle_state().is_identity());
    machine_add(&mut machine);
    assert_eq!(machine.step(), ActionPerformed::Paused);
    assert_eq!(machine.execution_state(), ExecutionState::Paused(PausedState::Input { max_input: 9 }));
    assert!(machine.give_input(7));
    assert_eq!(machine.puzzle_state(0).print(&[10], &algorithm(&group, "U")), Some(3));
    assert_eq!(machine.step(), ActionPerformed::Paused);
    assert_eq!(machine.execution_state(), ExecutionState::Paused(PausedState::Halt));
    assert_eq!(texts(&machine), vec!["A 2", "Give", "plain", "Turn", "Done 3"]);
    assert_eq!(machine.program_counter(), 17);
    assert_eq!(machine.step(), ActionPerformed::Nothing);
    assert!(!machine.give_input(0));
}

/// Steps over the instruction that brings the register in theory to zero.
fn machine_add(machine: &mut Interpreter) {
    assert_eq!(machine.step(), ActionPerformed::Solved);
    assert_eq!(machine.theoretical_state(0).value(), 0);
}

#[test]
fn the_machine_comes_to_grief_when_a_register_cannot_be_decoded() {
    let group = cube();
    let lost = Register::Puzzle { puzzle: 0, generator: algorithm(&group, "U"), facelets: vec![24] };
    let program = Program {
        theoretical: vec![],
        puzzles: vec![Arc::clone(&group)],
        instructions: vec![
            Instruction::PerformAlgorithm { puzzle: 0, algorithm: algorithm(&group, "R") },
            Instruction::Print { message: b"value".to_vec(), register: Some(lost) },
        ],
    };
    let mut machine = Interpreter::new(program).unwrap();
    assert_eq!(machine.step(), ActionPerformed::Added);
    assert_eq!(machine.step(), ActionPerformed::Paused);
    assert_eq!(machine.execution_state(), ExecutionState::Paused(PausedState::Panicked));
    assert_eq!(texts(&machine), vec!["The register cannot be decoded"]);
    assert_eq!(machine.program_counter(), 1);
    assert_eq!(machine.step(), ActionPerformed::Nothing);

    let program = Program {
        theoretical: vec![],
        puzzles: vec![Arc::clone(&group)],
        instructions: vec![
            Instruction::PerformAlgorithm { puzzle: 0, algorithm: algorithm(&group, "R") },
            Instruction::RepeatUntil { puzzle: 0, facelets: vec![24], algorithm: algorithm(&group, "U") },
        ],
    };
    let mut machine = Interpreter::new(program).unwrap();
    assert_eq!(machine.step(), ActionPerformed::Added);
    assert_eq!(machine.step(), ActionPerformed::Paused);
    assert_eq!(machine.execution_state(), ExecutionState::Paused(PausedState::Panicked));
}

#[test]
fn a_program_ends_behind_its_last_instruction() {
    let mut machine =
        Interpreter::new(Program { theoretical: vec![3], puzzles: vec![], instructions: vec![] }).unwrap();
    assert_eq!(machine.step(), ActionPerformed::Paused);
    assert_eq!(machine.execution_state(), ExecutionState::Paused(PausedState::Halt));
    assert!(machine.messages().is_empty());

    let jump = Program {
        theoretical: vec![],
        puzzles: vec![],
        instructions: vec![Instruction::Goto { instruction_idx: 1 }],
    };
    let mut machine = Interpreter::new(jump).unwrap();
    assert_eq!(machine.step(), ActionPerformed::Goto);
    assert_eq!(machine.program_counter(), 1);
    assert_eq!(machine.step(), ActionPerformed::Paused);
}

#[test]
fn programs_that_name_what_they_do_not_have_are_refused() {
    let group = cube();
    let refused = |theoretical: Vec<u64>, puzzles: usize, instruction: Instruction| {
        let puzzles = (0..puzzles).map(|_| Arc::clone(&group)).collect();
        Interpreter::new(Program { theoretical, puzzles, instructions: vec![instruction] }).is_none()
    };
    assert!(refused(vec![], 0, Instruction::Goto { instruction_idx: 2 }));
    assert!(!refused(vec![], 0, Instruction::Goto { instruction_idx: 0 }));
    assert!(refused(vec![0], 0, Instruction::Goto { instruction_idx: 0 }));
    assert!(refused(vec![2], 0, Instruction::AddTheoretical { idx: 1, amount: 1 }));
    assert!(!refused(vec![2], 0, Instruction::AddTheoretical { idx: 0, amount: 1 }));
    assert!(refused(vec![2], 1, Instruction::Solve { target: Target::Puzzle(1) }));
    assert!(refused(vec![2], 1, Instruction::Solve { target: Target::Theoretical(1) }));
    assert!(refused(
        vec![2],
        1,
        Instruction::SolvedGoto { test: Test::Theoretical { idx: 0 }, instruction_idx: 2 }
    ));
    assert!(refused(
        vec![2],
        1,
        Instruction::SolvedGoto { test: Test::Puzzle { puzzle: 1, facelets: vec![] }, instruction_idx: 0 }
    ));
    assert!(refused(vec![], 0, Instruction::Print { message: vec![], register: Some(up_register(&group)) }));
    assert!(!refused(vec![], 1, Instruction::Print { message: vec![], register: Some(up_register(&group)) }));
    assert!(refused(vec![], 0, Instruction::Halt { message: vec![], register: Some(Register::Theoretical { idx: 0 }) }));
    assert!(refused(
        vec![],
        0,
        Instruction::Input { message: vec![], register: Register::Theoretical { idx: 0 }, max_input: 1 }
    ));
    assert!(refused(
        vec![],
        0,
        Instruction::RepeatUntil { puzzle: 0, facelets: vec![], algorithm: algorithm(&group, "U") }
    ));
    assert!(refused(vec![], 0, Instruction::PerformAlgorithm { puzzle: 0, algorithm: algorithm(&group, "U") }));
}

#[test]
fn the_controller_asks_and_takes_answers() {
    let group = cube();
    let program = Program {
        theoretical: vec![4],
        puzzles: vec![Arc::clone(&group)],
        instructions: vec![
            Instruction::PerformAlgorithm { puzzle: 0, algorithm: algorithm(&group, "U D") },
            Instruction::SolvedGoto { test: Test::Puzzle { puzzle: 0, facelets: vec![10, 15] }, instruction_idx: 0 },
            Instruction::Print { message: b"A".to_vec(), register: Some(up_register(&group)) },
            Instruction::AddTheoretical { idx: 0, amount: 3 },
            Instruction::Print { message: b"T".to_vec(), register: Some(Register::Theoretical { idx: 0 }) },
            Instruction::RepeatUntil { puzzle: 0, facelets: vec![10], algorithm: algorithm(&group, "U'") },
            Instruction::Solve { target: Target::Puzzle(0) },
            Instruction::Input { message: b"Turn".to_vec(), register: up_register(&group), max_input: 2 },
            Instruction::Halt { message: b"End".to_vec(), register: Some(up_register(&group)) },
        ],
    };
    let mut machine = Controller::new(program).unwrap();
    assert_eq!(machine.program().instructions.len(), 9);

    let Request::Compose { puzzle: 0, algorithm: first } = machine.request() else { panic!("no algorithm") };
    assert_eq!(encode_algorithm(first), b"U D\n".to_vec());
    // An answer of another kind is not taken.
    assert_eq!(machine.advance(Answer::Solved(true)), ActionPerformed::Nothing);
    assert_eq!(machine.program_counter(), 0);
    assert_eq!(machine.advance(Answer::Done), ActionPerformed::Added);

    let Request::FaceletsSolved { puzzle: 0, facelets } = machine.request() else { panic!("no test") };
    assert_eq!(facelets, &vec![10, 15]);
    assert_eq!(machine.advance(Answer::Done), ActionPerformed::Nothing);
    assert_eq!(machine.advance(Answer::Solved(false)), ActionPerformed::FailedSolvedGoto);
    assert_eq!(machine.program_counter(), 2);

    assert!(matches!(machine.request(), Request::Print { puzzle: 0, .. }));
    assert_eq!(machine.advance(Answer::Decoded(Some(1))), ActionPerformed::Printed);
    assert!(matches!(machine.request(), Request::Nothing));
    assert_eq!(machine.advance(Answer::Done), ActionPerformed::Added);
    assert_eq!(machine.theoretical_state(0).value(), 3);
    assert!(matches!(machine.request(), Request::Nothing));
    assert_eq!(machine.advance(Answer::Done), ActionPerformed::Printed);
    assert_eq!(machine.messages(), &vec![b"A 1".to_vec(), b"T 3".to_vec()]);

    let Request::RepeatUntil { puzzle: 0, facelets, algorithm: back } = machine.request() else {
        panic!("no loop")
    };
    assert_eq!((facelets, encode_algorithm(back)), (&vec![10], b"U'\n".to_vec()));
    assert_eq!(machine.advance(Answer::Repeated(true)), ActionPerformed::RepeatedUntil);
    assert!(matches!(machine.request(), Request::Solve { puzzle: 0 }));
    assert_eq!(machine.advance(Answer::Done), ActionPerformed::Solved);

    assert!(matches!(machine.request(), Request::Nothing));
    assert!(matches!(machine.give_input(0), InputTaken::Refused));
    assert_eq!(machine.advance(Answer::Done), ActionPerformed::Paused);
    assert_eq!(machine.execution_state(), ExecutionState::Paused(PausedState::Input { max_input: 2 }));
    assert!(matches!(machine.request(), Request::Nothing));
    assert!(matches!(machine.give_input(3), InputTaken::Refused));
    let InputTaken::Puzzle { puzzle: 0, algorithm: turns } = machine.give_input(2) else { panic!("not taken") };
    assert_eq!(encode_algorithm(&turns), b"U U\n".to_vec());
    assert_eq!(machine.execution_state(), ExecutionState::Running);

    assert!(matches!(machine.request(), Request::Halt { puzzle: 0, .. }));
    assert_eq!(machine.advance(Answer::Decoded(None)), ActionPerformed::Paused);
    assert_eq!(machine.execution_state(), ExecutionState::Paused(PausedState::Panicked));
    assert_eq!(machine.messages().last().unwrap(), &b"The register cannot be decoded".to_vec());
    assert_eq!(machine.advance(Answer::Done), ActionPerformed::Nothing);
}

#[test]
fn a_loop_that_cannot_end_brings_the_controller_to_grief() {
    let group = cube();
    let program = Program {
        theoretical: vec![3],
        puzzles: vec![Arc::clone(&group)],
        instructions: vec![
            Instruction::Input { message: b"N".to_vec(), register: Register::Theoretical { idx: 0 }, max_input: 9 },
            Instruction::RepeatUntil { puzzle: 0, facelets: vec![10], algorithm: algorithm(&group, "U") },
        ],
    };
    let mut machine = Controller::new(program).unwrap();
    assert_eq!(machine.advance(Answer::Done), ActionPerformed::Paused);
    assert!(matches!(machine.give_input(8), InputTaken::Theoretical));
    assert_eq!(machine.theoretical_state(0).value(), 2);
    assert_eq!(machine.advance(Answer::Repeated(false)), ActionPerformed::Paused);
    assert_eq!(machine.execution_state(), ExecutionState::Paused(PausedState::Panicked));
    assert_eq!(machine.program_counter(), 1);
    assert!(Controller::new(Program { theoretical: vec![0], puzzles: vec![], instructions: vec![] }).is_none());
}

#[test]
fn algorithms_are_written_in_lines() {
    let group = cube();
    let moves = algorithm(&group, "R U2 D' B D' R U2 D' B D' R U2 D' B D' R U2 D' B D' R U2 D' B D'");
    let text = |padding, pad_first| {
        String::from_utf8(qter::compiler::line_splitting::stringify_alg(&moves, padding, pad_first)).unwrap()
    };
    assert_eq!(text(0, false), "R U2 D' B D' R U2 D' B D' R U2 D'\nB D' R U2 D' B D' R U2 D' B D'");
    assert_eq!(
        text(4, true),
        "    R U2 D' B D' R U2 D' B D' R U2 D'\n    B D' R U2 D' B D' R U2 D' B D'"
    );
    assert_eq!(
        text(30, false),
        "R U2 D' B D' R U2\n".to_owned()
            + &" ".repeat(30)
            + "D' B D' R U2 D' B\n"
            + &" ".repeat(30)
            + "D' R U2 D' B D' R\n"
            + &" ".repeat(30)
            + "U2 D' B D'"
    );
    let short = algorithm(&group, "U D");
    assert_eq!(qter::compiler::line_splitting::stringify_alg(&short, 3, true), b"   U D".to_vec());
    // With no room left every move stands alone.
    let alone = "U\n".to_owned() + &" ".repeat(49) + "D";
    assert_eq!(qter::compiler::line_splitting::stringify_alg(&short, 49, false), alone.into_bytes());
    let alone = " ".repeat(60) + "U\n" + &" ".repeat(60) + "D";
    assert_eq!(qter::compiler::line_splitting::stringify_alg(&short, 60, true), alone.into_bytes());
    assert_eq!(qter::compiler::line_splitting::stringify_alg(&short, 47, false), b"U D".to_vec());
    let none = algorithm(&group, "");
    assert!(qter::compiler::line_splitting::stringify_alg(&none, 3, true).is_empty());
}

#[test]
fn programs_are_listed() {
    let group = cube();
    let names = |pieces: &[&str]| -> Vec<Vec<u8>> { pieces.iter().map(|piece| piece.as_bytes().to_vec()).collect() };

    let one = QProgram {
        theoretical: 0,
        puzzles: vec![b"3x3".to_vec()],
        instructions: vec![QInstruction::PerformAlgorithm { algorithm: algorithm(&group, "U'") }],
    };
    let (text, spans) = emit_q(&one).unwrap();
    assert_eq!(String::from_utf8(text).unwrap(), "Puzzles\nA: 3x3\n\n0 | U'\n");
    assert_eq!(spans, vec![(16, 23)]);

    let program = QProgram {
        theoretical: 0,
        puzzles: vec![b"3x3".to_vec()],
        instructions: vec![
            QInstruction::Input { message: b"Number:".to_vec(), algorithm: algorithm(&group, "R U"), max_input: 89 },
            QInstruction::SolvedGoto { pieces: names(&["UFL", "UF"]), instruction_idx: 2 },
            QInstruction::Halt {
                message: b"Done".to_vec(),
                counting: Some((algorithm(&group, "U R"), names(&["UFL"]))),
            },
        ],
    };
    let (text, spans) = emit_q(&program).unwrap();
    let lines = [
        "0 | input \"Number:\"\n          R U\n          max-input 89\n",
        "1 | solved-goto UFL UF 2\n",
        "2 | halt \"Done\"\n         R' U'\n         counting-until UFL\n",
    ];
    assert_eq!(String::from_utf8(text).unwrap(), "Puzzles\nA: 3x3\n\n".to_owned() + &lines.concat());
    let mut at = 16;
    for (line, span) in lines.iter().zip(spans.iter()) {
        assert_eq!(*span, (at, at + line.len()));
        at += line.len();
    }
    assert_eq!(spans.len(), 3);

    // With more than ten instructions the numbers take two places.
    let mut instructions = vec![
        QInstruction::Print { message: b"plain".to_vec(), counting: None },
        QInstruction::Print {
            message: b"value".to_vec(),
            counting: Some((algorithm(&group, "U"), names(&["UFL", "DFL"]))),
        },
        QInstruction::Halt { message: b"".to_vec(), counting: None },
        QInstruction::Solve,
        QInstruction::RepeatUntil { pieces: names(&["UF"]), algorithm: algorithm(&group, "U D'") },
        QInstruction::Goto { instruction_idx: 10 },
    ];
    for _ in 0..5 {
        instructions.push(QInstruction::Solve);
    }
    let long = QProgram { theoretical: 0, puzzles: vec![], instructions };
    let (text, spans) = emit_q(&long).unwrap();
    let expected = "Puzzles\n\n".to_owned()
        + "0  | print \"plain\"\n"
        + "1  | print \"value\"\n           U'\n           counting-until UFL DFL\n"
        + "2  | halt \"\"\n"
        + "3  | solve\n"
        + "4  | repeat until UF solved\n            U D'\n"
        + "5  | goto 10\n"
        + &"6  | solve\n7  | solve\n8  | solve\n9  | solve\n10 | solve\n";
    assert_eq!(String::from_utf8(text).unwrap(), expected);
    assert_eq!(spans.len(), 11);
    assert_eq!(spans[0], (9, 28));
    assert_eq!(spans[10].1, expected.len());

    let refused = QProgram { theoretical: 2, puzzles: vec![b"3x3".to_vec(), b"3x3".to_vec()], instructions: vec![] };
    assert_eq!(
        emit_q(&refused).unwrap_err(),
        vec![
            EmitError::TheoreticalRegister { index: 0 },
            EmitError::TheoreticalRegister { index: 1 },
            EmitError::MultiplePuzzles
        ]
    );
    let refused = QProgram { theoretical: 1, puzzles: vec![], instructions: vec![] };
    assert_eq!(emit_q(&refused).unwrap_err(), vec![EmitError::TheoreticalRegister { index: 0 }]);
    let empty = QProgram { theoretical: 0, puzzles: vec![], instructions: vec![] };
    assert_eq!(emit_q(&empty).unwrap(), (b"Puzzles\n\n".to_vec(), vec![]));

    let facelets = qter::signature_facelets::Facelets::new(
        vec![1, 2],
        vec!["UFL".to_string(), "UF".to_string(), "DB".to_string()],
        4,
    );
    assert_eq!(qter::compiler::line_splitting::stringify_facelets(&facelets), "UFL UF DB");
    let none = qter::signature_facelets::Facelets::new(vec![], vec![], 1);
    assert_eq!(qter::compiler::line_splitting::stringify_facelets(&none), "");
}
