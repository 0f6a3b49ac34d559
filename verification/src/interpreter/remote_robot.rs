//! The protocol between a program and a robot at the other end of a stream of
//! bytes.
//!
//! The client opens with the description of the group, behind its length in
//! two bytes. Then it sends one line for each command: the moves of an
//! algorithm, `!PICTURE` or `!SOLVE`. The server answers a command with
//! `!ACK` or with `!ERR` and a message behind its length in two bytes; behind
//! the `!ACK` of `!PICTURE` follows the state of the puzzle in a line. All
//! numbers have their high byte first.

use crate::cycle_notation::{notation, parse_permutation, write_permutation, ParseError};
use crate::names::bytes_to_vec;
use crate::permutations::{
    cycle_seqs, find_generator, is_cycle_decomposition, Algorithm, Permutation, PermutationGroup,
};
use std::sync::Arc;
use vstd::prelude::*;

verus! {

/// The line `!ACK`.
pub open spec fn ack_line() -> Seq<u8> {
    seq![33u8, 65u8, 67u8, 75u8, 10u8]
}

/// The line `!ERR`.
pub open spec fn err_line() -> Seq<u8> {
    seq![33u8, 69u8, 82u8, 82u8, 10u8]
}

/// The word `!SOLVE`.
pub open spec fn solve_word() -> Seq<u8> {
    seq![33u8, 83u8, 79u8, 76u8, 86u8, 69u8]
}

/// The word `!PICTURE`.
pub open spec fn picture_word() -> Seq<u8> {
    seq![33u8, 80u8, 73u8, 67u8, 84u8, 85u8, 82u8, 69u8]
}

/// The two bytes of a length, the high byte first.
pub open spec fn length_bytes(len: u16) -> Seq<u8> {
    seq![(len / 256) as u8, (len % 256) as u8]
}

/// The length that two bytes stand for.
pub open spec fn length_of(high: u8, low: u8) -> u16 {
    (high * 256 + low) as u16
}

/// The longest frame and the longest line.
pub const MAX_LENGTH: usize = 65535;

fn push_all(out: &mut Vec<u8>, bytes: &[u8])
    ensures
        final(out)@ == old(out)@ + bytes@,
{
    let mut i: usize = 0;
    assert(out@ =~= old(out)@ + bytes@.take(0));
    while i < bytes.len()
        invariant
            i <= bytes@.len(),
            out@ == old(out)@ + bytes@.take(i as int),
        decreases bytes@.len() - i,
    {
        out.push(bytes[i]);
        assert(out@ =~= old(out)@ + bytes@.take(i + 1));
        i += 1;
    }
    assert(bytes@.take(bytes@.len() as int) =~= bytes@);
}

fn push_length(out: &mut Vec<u8>, len: u16)
    ensures
        final(out)@ == old(out)@ + length_bytes(len),
{
    out.push((len / 256) as u8);
    out.push((len % 256) as u8);
    assert(out@ =~= old(out)@ + length_bytes(len));
}

fn ack() -> (line: Vec<u8>)
    ensures
        line@ == ack_line(),
{
    let mut line: Vec<u8> = Vec::new();
    line.push(33);
    line.push(65);
    line.push(67);
    line.push(75);
    line.push(10);
    assert(line@ =~= ack_line());
    line
}

fn err() -> (line: Vec<u8>)
    ensures
        line@ == err_line(),
{
    let mut line: Vec<u8> = Vec::new();
    line.push(33);
    line.push(69);
    line.push(82);
    line.push(82);
    line.push(10);
    assert(line@ =~= err_line());
    line
}

/// The opening of a session: the description of the group with a line feed
/// behind it, behind the length of both. There is none if they are longer than
/// the longest frame.
pub fn encode_handshake(description: &[u8]) -> (frame: Option<Vec<u8>>)
    ensures
        match frame {
            Some(bytes) => description@.len() < MAX_LENGTH && bytes@ == length_bytes(
                (description@.len() + 1) as u16,
            ) + description@ + seq![10u8],
            None => description@.len() >= MAX_LENGTH,
        },
{
    if description.len() >= MAX_LENGTH {
        return None;
    }
    let mut frame: Vec<u8> = Vec::new();
    push_length(&mut frame, (description.len() + 1) as u16);
    push_all(&mut frame, description);
    frame.push(10);
    assert(frame@ =~= length_bytes((description@.len() + 1) as u16) + description@ + seq![10u8]);
    Some(frame)
}

/// What the start of a stream holds of a frame.
#[derive(Debug, PartialEq, Eq)]
pub enum FrameReading {
    /// The frame is not complete: so many bytes are there in all.
    Incomplete { needed: usize },
    /// The frame, and the number of bytes that it takes with its length.
    Frame { data: Vec<u8>, used: usize },
}

/// Reads a frame from the start of a stream: two bytes of length and as many
/// bytes as they say.
pub fn read_frame(buffer: &[u8]) -> (reading: FrameReading)
    ensures
        match reading {
            FrameReading::Incomplete { needed } => buffer@.len() < needed && (if buffer@.len() < 2 {
                needed == 2
            } else {
                needed == 2 + length_of(buffer@[0], buffer@[1])
            }),
            FrameReading::Frame { data, used } => buffer@.len() >= 2 && used == 2 + length_of(
                buffer@[0],
                buffer@[1],
            ) && used <= buffer@.len() && data@ == buffer@.subrange(2, used as int),
        },
{
    if buffer.len() < 2 {
        return FrameReading::Incomplete { needed: 2 };
    }
    let len = (buffer[0] as usize) * 256 + (buffer[1] as usize);
    let used = 2 + len;
    if buffer.len() < used {
        return FrameReading::Incomplete { needed: used };
    }
    let mut data: Vec<u8> = Vec::new();
    let mut i: usize = 2;
    while i < used
        invariant
            2 <= i <= used <= buffer@.len(),
            data@ == buffer@.subrange(2, i as int),
        decreases used - i,
    {
        data.push(buffer[i]);
        assert(data@ =~= buffer@.subrange(2, i + 1));
        i += 1;
    }
    FrameReading::Frame { data, used }
}

/// The moves of an algorithm in a line: their names with a blank between two
/// of them.
pub open spec fn moves_line(names: Seq<Vec<u8>>, upto: int) -> Seq<u8>
    decreases upto,
{
    if upto <= 0 {
        Seq::empty()
    } else if upto == 1 {
        names[0]@
    } else {
        moves_line(names, upto - 1) + seq![32u8] + names[upto - 1]@
    }
}

/// Whether a line is the command that performs an algorithm: the names of
/// its moves with a blank between two of them, and a line feed.
pub open spec fn is_algorithm_line(line: Seq<u8>, algorithm: &Algorithm) -> bool {
    exists|names: Seq<Vec<u8>>|
        {
            &&& names.len() == algorithm.moves_view().len()
            &&& forall|i: int|
                0 <= i < names.len() ==> (#[trigger] names[i])@
                    == algorithm.group_view().generators_view()[algorithm.moves_view()[i] as int].name@
            &&& line == moves_line(names, names.len() as int) + seq![10u8]
        }
}

/// The command that performs an algorithm: its moves in a line.
pub fn encode_algorithm(algorithm: &Algorithm) -> (line: Vec<u8>)
    ensures
        is_algorithm_line(line@, algorithm),
{
    let names = algorithm.move_names();
    let mut line: Vec<u8> = Vec::new();
    let mut i: usize = 0;
    while i < names.len()
        invariant
            i <= names@.len(),
            line@ == moves_line(names@, i as int),
        decreases names@.len() - i,
    {
        if i > 0 {
            line.push(32);
        }
        let ghost before = line@;
        push_all(&mut line, names[i].as_slice());
        assert(line@ =~= moves_line(names@, i + 1));
        i += 1;
    }
    line.push(10);
    assert(line@ =~= moves_line(names@, names@.len() as int) + seq![10u8]);
    line
}

/// The command that asks for the state of the puzzle.
pub fn encode_picture() -> (line: Vec<u8>)
    ensures
        line@ == picture_word() + seq![10u8],
{
    let mut line: Vec<u8> = Vec::new();
    line.push(33);
    line.push(80);
    line.push(73);
    line.push(67);
    line.push(84);
    line.push(85);
    line.push(82);
    line.push(69);
    line.push(10);
    assert(line@ =~= picture_word() + seq![10u8]);
    line
}

/// The command that asks for the puzzle to be solved.
pub fn encode_solve() -> (line: Vec<u8>)
    ensures
        line@ == solve_word() + seq![10u8],
{
    let mut line: Vec<u8> = Vec::new();
    line.push(33);
    line.push(83);
    line.push(79);
    line.push(76);
    line.push(86);
    line.push(69);
    line.push(10);
    assert(line@ =~= solve_word() + seq![10u8]);
    line
}

/// What the start of a stream holds of an answer of the server.
#[derive(Debug, PartialEq, Eq)]
pub enum AckReading {
    /// The answer is not complete: so many bytes are there in all.
    Incomplete { needed: usize },
    /// The server has done what it was asked.
    Ack { used: usize },
    /// The robot has failed, with this message.
    BackendError { message: Vec<u8>, used: usize },
    /// The server has not answered as the protocol says.
    ProtocolError,
}

/// What the start of a stream holds of an answer.
pub open spec fn ack_reading(buffer: Seq<u8>) -> AckReadingView {
    if buffer.len() < 5 {
        AckReadingView::Incomplete { needed: 5 }
    } else if buffer.take(5) == ack_line() {
        AckReadingView::Ack { used: 5 }
    } else if buffer.take(5) == err_line() {
        if buffer.len() < 7 {
            AckReadingView::Incomplete { needed: 7 }
        } else {
            let used = 7 + length_of(buffer[5], buffer[6]);
            if buffer.len() < used {
                AckReadingView::Incomplete { needed: used }
            } else {
                AckReadingView::BackendError { message: buffer.subrange(7, used), used }
            }
        }
    } else {
        AckReadingView::ProtocolError
    }
}

/// An answer as a value.
pub ghost enum AckReadingView {
    Incomplete { needed: int },
    Ack { used: int },
    BackendError { message: Seq<u8>, used: int },
    ProtocolError,
}

impl View for AckReading {
    type V = AckReadingView;

    open spec fn view(&self) -> AckReadingView {
        match *self {
            AckReading::Incomplete { needed } => AckReadingView::Incomplete { needed: needed as int },
            AckReading::Ack { used } => AckReadingView::Ack { used: used as int },
            AckReading::BackendError { message, used } => AckReadingView::BackendError {
                message: message@,
                used: used as int,
            },
            AckReading::ProtocolError => AckReadingView::ProtocolError,
        }
    }
}

fn starts_with(buffer: &[u8], line: &Vec<u8>) -> (same: bool)
    requires
        buffer@.len() >= line@.len(),
    ensures
        same == (buffer@.take(line@.len() as int) == line@),
{
    let mut i: usize = 0;
    while i < line.len()
        invariant
            i <= line@.len() <= buffer@.len(),
            forall|j: int| 0 <= j < i ==> buffer@[j] == line@[j],
        decreases line@.len() - i,
    {
        if buffer[i] != line[i] {
            assert(buffer@.take(line@.len() as int)[i as int] != line@[i as int]);
            return false;
        }
        i += 1;
    }
    assert(buffer@.take(line@.len() as int) =~= line@);
    true
}

/// Reads the answer of the server from the start of a stream: `!ACK`, or
/// `!ERR` with a message behind its length.
pub fn read_ack(buffer: &[u8]) -> (reading: AckReading)
    ensures
        reading@ == ack_reading(buffer@),
{
    if buffer.len() < 5 {
        return AckReading::Incomplete { needed: 5 };
    }
    if starts_with(buffer, &ack()) {
        return AckReading::Ack { used: 5 };
    }
    if !starts_with(buffer, &err()) {
        return AckReading::ProtocolError;
    }
    if buffer.len() < 7 {
        return AckReading::Incomplete { needed: 7 };
    }
    let len = (buffer[5] as usize) * 256 + (buffer[6] as usize);
    let used = 7 + len;
    if buffer.len() < used {
        return AckReading::Incomplete { needed: used };
    }
    let mut message: Vec<u8> = Vec::new();
    let mut i: usize = 7;
    while i < used
        invariant
            7 <= i <= used <= buffer@.len(),
            message@ == buffer@.subrange(7, i as int),
        decreases used - i,
    {
        message.push(buffer[i]);
        assert(message@ =~= buffer@.subrange(7, i + 1));
        i += 1;
    }
    AckReading::BackendError { message, used }
}

/// The answer to a command that the robot has done, or has failed to do with
/// a message: `!ACK`, or `!ERR` with the message behind its length. A message
/// that is longer than the longest frame is cut.
pub open spec fn response(outcome: Result<(), Seq<u8>>) -> Seq<u8> {
    match outcome {
        Ok(()) => ack_line(),
        Err(message) => {
            let len = if message.len() > MAX_LENGTH {
                MAX_LENGTH as int
            } else {
                message.len() as int
            };
            err_line() + length_bytes(len as u16) + message.take(len)
        },
    }
}

/// The answer to a command.
pub fn send_ack(outcome: Result<(), &[u8]>) -> (bytes: Vec<u8>)
    ensures
        bytes@ == response(
            match outcome {
                Ok(()) => Ok(()),
                Err(message) => Err(message@),
            },
        ),
{
    match outcome {
        Ok(()) => ack(),
        Err(message) => {
            let len = if message.len() > MAX_LENGTH {
                MAX_LENGTH
            } else {
                message.len()
            };
            let mut bytes = err();
            push_length(&mut bytes, len as u16);
            let mut i: usize = 0;
            let ghost start = bytes@;
            assert(bytes@ =~= start + message@.take(0));
            while i < len
                invariant
                    i <= len <= message@.len(),
                    bytes@ == start + message@.take(i as int),
                decreases len - i,
            {
                bytes.push(message[i]);
                assert(bytes@ =~= start + message@.take(i + 1));
                i += 1;
            }
            bytes
        },
    }
}

/// The answer to `!PICTURE`: `!ACK` and the state of the puzzle in a line.
pub fn send_picture(state: &Permutation) -> (bytes: Vec<u8>)
    ensures
        exists|cycles: Seq<Vec<usize>>|
            #[trigger] is_cycle_decomposition(state.mapping_view(), cycles) && bytes@ == ack_line() + notation(
                cycle_seqs(cycles),
            ) + seq![10u8],
{
    let mut bytes = ack();
    let text = write_permutation(state);
    push_all(&mut bytes, text.as_slice());
    bytes.push(10);
    bytes
}

/// Reads the state of the puzzle from the line behind the `!ACK` of
/// `!PICTURE`.
pub fn read_picture(line: &[u8]) -> (state: Result<Permutation, ParseError>)
    ensures
        match state {
            Ok(p) => crate::cycle_notation::parsed_permutation(line@) == Ok::<_, ParseError>(
                p.mapping_view(),
            ),
            Err(error) => crate::cycle_notation::parsed_permutation(line@) == Err::<Seq<usize>, _>(
                error,
            ),
        },
{
    parse_permutation(line)
}

/// A command as the server reads it.
#[derive(Debug)]
pub enum Command {
    Solve,
    Picture,
    Perform(Algorithm),
    /// The line is no command and no algorithm of the group.
    Unparsable,
}

/// Whether a byte is a blank, a tabulator, a line feed or a carriage return.
pub open spec fn is_space(byte: u8) -> bool {
    byte == 32 || byte == 9 || byte == 10 || byte == 13
}

/// The words read so far, and the word that is being read.
pub ghost struct Words {
    pub done: Seq<Seq<u8>>,
    pub open: Seq<u8>,
}

/// The words of the first `upto` bytes of a line: what stands between blanks.
pub open spec fn words_upto(line: Seq<u8>, upto: int) -> Words
    decreases upto,
{
    if upto <= 0 {
        Words { done: Seq::empty(), open: Seq::empty() }
    } else {
        let before = words_upto(line, upto - 1);
        let byte = line[upto - 1];
        if is_space(byte) {
            if before.open.len() > 0 {
                Words { done: before.done.push(before.open), open: Seq::empty() }
            } else {
                before
            }
        } else {
            Words { done: before.done, open: before.open.push(byte) }
        }
    }
}

/// The words of a line.
pub open spec fn words_of(line: Seq<u8>) -> Seq<Seq<u8>> {
    let all = words_upto(line, line.len() as int);
    if all.open.len() > 0 {
        all.done.push(all.open)
    } else {
        all.done
    }
}

/// Splits a line into its words.
pub fn split_words(line: &[u8]) -> (words: Vec<Vec<u8>>)
    ensures
        words@.len() == words_of(line@).len(),
        forall|i: int| 0 <= i < words@.len() ==> (#[trigger] words@[i])@ == words_of(line@)[i],
{
    let mut words: Vec<Vec<u8>> = Vec::new();
    let mut open: Vec<u8> = Vec::new();
    let mut i: usize = 0;
    while i < line.len()
        invariant
            i <= line@.len(),
            open@ == words_upto(line@, i as int).open,
            words@.len() == words_upto(line@, i as int).done.len(),
            forall|j: int|
                0 <= j < words@.len() ==> (#[trigger] words@[j])@ == words_upto(line@, i as int).done[j],
        decreases line@.len() - i,
    {
        let byte = line[i];
        if byte == 32 || byte == 9 || byte == 10 || byte == 13 {
            if open.len() > 0 {
                let mut word: Vec<u8> = Vec::new();
                std::mem::swap(&mut word, &mut open);
                words.push(word);
            }
        } else {
            open.push(byte);
        }
        i += 1;
    }
    if open.len() > 0 {
        words.push(open);
    }
    words
}

/// The algorithm whose moves a line names, with blanks between them. There is
/// none if a word is not the name of a move of the group.
pub fn parse_algorithm(group: Arc<PermutationGroup>, line: &[u8]) -> (algorithm: Option<Algorithm>)
    ensures
        match algorithm {
            Some(algorithm) => {
                &&& algorithm.group_view() == group
                &&& algorithm.moves_view().len() == words_of(line@).len()
                &&& forall|i: int|
                    0 <= i < words_of(line@).len() ==> find_generator(
                        group.generators_view(),
                        #[trigger] words_of(line@)[i],
                        0,
                    ) == Some(algorithm.moves_view()[i] as int)
            },
            None => exists|i: int|
                0 <= i < words_of(line@).len() && find_generator(
                    group.generators_view(),
                    #[trigger] words_of(line@)[i],
                    0,
                ) is None,
        },
{
    let words = split_words(line);
    let ghost given = words@;
    match Algorithm::new_from_move_seq(group, words) {
        Ok(algorithm) => {
            proof {
                assert forall|i: int| 0 <= i < words_of(line@).len() implies find_generator(
                    group.generators_view(),
                    #[trigger] words_of(line@)[i],
                    0,
                ) == Some(algorithm.moves_view()[i] as int) by {
                    assert(given[i]@ == words_of(line@)[i]);
                }
            }
            Some(algorithm)
        },
        Err(_) => {
            proof {
                let i = choose|i: int|
                    0 <= i < given.len() && find_generator(
                        group.generators_view(),
                        (#[trigger] given[i])@,
                        0,
                    ) is None;
                assert(given[i]@ == words_of(line@)[i]);
            }
            None
        },
    }
}

/// Reads a command of the client from a line: `!SOLVE`, `!PICTURE`, or the
/// moves of an algorithm. Blanks around the command do not count.
pub fn parse_command(group: Arc<PermutationGroup>, line: &[u8]) -> (command: Command)
    ensures
        match command {
            Command::Solve => words_of(line@) == seq![solve_word()],
            Command::Picture => words_of(line@) == seq![picture_word()],
            Command::Perform(algorithm) => {
                &&& words_of(line@) != seq![solve_word()]
                &&& words_of(line@) != seq![picture_word()]
                &&& algorithm.group_view() == group
                &&& algorithm.moves_view().len() == words_of(line@).len()
                &&& forall|i: int|
                    0 <= i < words_of(line@).len() ==> find_generator(
                        group.generators_view(),
                        #[trigger] words_of(line@)[i],
                        0,
                    ) == Some(algorithm.moves_view()[i] as int)
            },
            Command::Unparsable => {
                &&& words_of(line@) != seq![solve_word()]
                &&& words_of(line@) != seq![picture_word()]
                &&& exists|i: int|
                    0 <= i < words_of(line@).len() && find_generator(
                        group.generators_view(),
                        #[trigger] words_of(line@)[i],
                        0,
                    ) is None
            },
        },
{
    let words = split_words(line);
    if words.len() == 1 {
        let solve = encode_solve();
        let picture = encode_picture();
        let word = &words[0];
        if word.len() == 6 && starts_with(solve.as_slice(), word) {
            assert(solve@.take(6) =~= solve_word());
            assert(words_of(line@) =~= seq![solve_word()]);
            return Command::Solve;
        }
        if word.len() == 8 && starts_with(picture.as_slice(), word) {
            assert(picture@.take(8) =~= picture_word());
            assert(words_of(line@) =~= seq![picture_word()]);
            return Command::Picture;
        }
        proof {
            assert(solve@.take(6) =~= solve_word());
            assert(picture@.take(8) =~= picture_word());
            assert(words_of(line@)[0] == word@);
            if words_of(line@) == seq![solve_word()] {
                assert(seq![solve_word()][0] == solve_word());
            }
            if words_of(line@) == seq![picture_word()] {
                assert(seq![picture_word()][0] == picture_word());
            }
        }
    } else {
        proof {
            assert(seq![solve_word()].len() == 1);
            assert(seq![picture_word()].len() == 1);
        }
    }
    match parse_algorithm(group, line) {
        Some(algorithm) => Command::Perform(algorithm),
        None => Command::Unparsable,
    }
}

/// What the client remembers of the puzzle: the state that the last picture
/// has shown, as long as no algorithm has been performed since.
#[derive(Debug)]
pub struct RemoteRobot {
    current_state: Option<Permutation>,
}

impl RemoteRobot {
    /// The state that the client knows the puzzle to be in, if it knows.
    pub closed spec fn known(&self) -> Option<Permutation> {
        self.current_state
    }

    /// A client that knows nothing of the puzzle yet.
    pub fn new() -> (robot: RemoteRobot)
        ensures
            robot.known() is None,
    {
        RemoteRobot { current_state: None }
    }

    /// An algorithm is about to be performed: what was known is forgotten.
    /// Returns the command to send.
    pub fn compose_into(&mut self, algorithm: &Algorithm) -> (line: Vec<u8>)
        ensures
            final(self).known() is None,
            is_algorithm_line(line@, algorithm),
    {
        self.current_state = None;
        encode_algorithm(algorithm)
    }

    /// The state of the puzzle if it is known; else a picture has to be
    /// taken.
    pub fn cached_picture(&self) -> (state: Option<&Permutation>)
        ensures
            match state {
                Some(p) => self.known() == Some(*p),
                None => self.known() is None,
            },
    {
        self.current_state.as_ref()
    }

    /// A picture has come in.
    pub fn picture_taken(&mut self, state: Permutation)
        ensures
            final(self).known() == Some(state),
    {
        self.current_state = Some(state);
    }

    /// The puzzle is about to be solved: it will be in the state that moves
    /// nothing. Returns the command to send.
    pub fn solve(&mut self) -> (line: Vec<u8>)
        ensures
            final(self).known() matches Some(p) && p.mapping_view().len() == 0,
            line@ == solve_word() + seq![10u8],
    {
        self.current_state = Some(Permutation::identity());
        encode_solve()
    }
}

} // verus!
