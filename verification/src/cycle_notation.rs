//! Permutations in writing: cycles in round brackets, the numbers of a cycle
//! with commas between them, as in `(0, 1)(2, 5, 3)`.

use crate::permutations::{
    cycle_seqs, is_cycle_decomposition, permutation_of_cycles, Permutation,
};
use vstd::prelude::*;

verus! {

/// Where the reader stands in the text.
#[derive(Clone, Copy, Debug, PartialEq, Eq, Structural, Hash)]
pub enum Place {
    /// Outside of any cycle.
    Outside,
    /// Behind an opening bracket.
    Opened,
    /// In a number.
    InNumber,
    /// Behind a number and blanks.
    AfterNumber,
    /// Behind a comma.
    AfterComma,
}

/// What the reader has read.
pub ghost struct Reading {
    pub place: Place,
    /// The finished cycles.
    pub cycles: Seq<Seq<usize>>,
    /// The numbers of the open cycle.
    pub cycle: Seq<usize>,
    /// The digits of the open number.
    pub number: nat,
}

/// Why a text is no permutation.
#[derive(Clone, Copy, Debug, PartialEq, Eq, Structural, Hash)]
pub enum ParseError {
    /// The text is not a list of cycles.
    Syntax,
    /// The cycles do not stand for a permutation.
    NotAPermutation,
}

/// Whether a byte is a blank, a tabulator, a line feed or a carriage return.
pub open spec fn is_blank(byte: u8) -> bool {
    byte == 32 || byte == 9 || byte == 10 || byte == 13
}

/// What the reader has read after one more byte; nothing if the byte cannot
/// stand there.
pub open spec fn read_byte(reading: Reading, byte: u8) -> Option<Reading> {
    let digit = 48 <= byte <= 57;
    let value = (byte - 48) as nat;
    match reading.place {
        Place::Outside => if is_blank(byte) {
            Some(reading)
        } else if byte == 40 {
            Some(Reading { place: Place::Opened, cycle: Seq::empty(), ..reading })
        } else {
            None
        },
        Place::Opened => if is_blank(byte) {
            Some(reading)
        } else if digit {
            Some(Reading { place: Place::InNumber, number: value, ..reading })
        } else if byte == 41 {
            Some(Reading { place: Place::Outside, ..reading })
        } else {
            None
        },
        Place::InNumber => if digit {
            if reading.number * 10 + value <= usize::MAX {
                Some(Reading { number: reading.number * 10 + value, ..reading })
            } else {
                None
            }
        } else if is_blank(byte) {
            Some(
                Reading {
                    place: Place::AfterNumber,
                    cycle: reading.cycle.push(reading.number as usize),
                    ..reading
                },
            )
        } else if byte == 44 {
            Some(
                Reading {
                    place: Place::AfterComma,
                    cycle: reading.cycle.push(reading.number as usize),
                    ..reading
                },
            )
        } else if byte == 41 {
            Some(
                Reading {
                    place: Place::Outside,
                    cycles: reading.cycles.push(reading.cycle.push(reading.number as usize)),
                    cycle: Seq::empty(),
                    ..reading
                },
            )
        } else {
            None
        },
        Place::AfterNumber => if is_blank(byte) {
            Some(reading)
        } else if byte == 44 {
            Some(Reading { place: Place::AfterComma, ..reading })
        } else if byte == 41 {
            Some(
                Reading {
                    place: Place::Outside,
                    cycles: reading.cycles.push(reading.cycle),
                    cycle: Seq::empty(),
                    ..reading
                },
            )
        } else {
            None
        },
        Place::AfterComma => if is_blank(byte) {
            Some(reading)
        } else if digit {
            Some(Reading { place: Place::InNumber, number: value, ..reading })
        } else {
            None
        },
    }
}

/// What the reader has read after the first `upto` bytes of the text.
pub open spec fn read_upto(text: Seq<u8>, upto: int) -> Option<Reading>
    decreases upto,
{
    if upto <= 0 {
        Some(Reading { place: Place::Outside, cycles: Seq::empty(), cycle: Seq::empty(), number: 0 })
    } else {
        match read_upto(text, upto - 1) {
            Some(reading) => read_byte(reading, text[upto - 1]),
            None => None,
        }
    }
}

/// The cycles that a text lists; none if the text is no list of cycles.
pub open spec fn parsed_cycles(text: Seq<u8>) -> Option<Seq<Seq<usize>>> {
    match read_upto(text, text.len() as int) {
        Some(reading) => if reading.place == Place::Outside {
            Some(reading.cycles)
        } else {
            None
        },
        None => None,
    }
}

/// The permutation that a text stands for.
pub open spec fn parsed_permutation(text: Seq<u8>) -> Result<Seq<usize>, ParseError> {
    match parsed_cycles(text) {
        None => Err(ParseError::Syntax),
        Some(cycles) => match permutation_of_cycles(cycles) {
            Some(mapping) => Ok(mapping),
            None => Err(ParseError::NotAPermutation),
        },
    }
}

proof fn lemma_read_fails(text: Seq<u8>, at: int, upto: int)
    requires
        0 <= at <= upto,
        read_upto(text, at) is None,
    ensures
        read_upto(text, upto) is None,
    decreases upto - at,
{
    if at < upto {
        lemma_read_fails(text, at, upto - 1);
    }
}

fn blank(byte: u8) -> (is: bool)
    ensures
        is == is_blank(byte),
{
    byte == 32 || byte == 9 || byte == 10 || byte == 13
}

/// Reads a permutation from its cycles in writing. Blanks may stand between
/// numbers and brackets; a pair of brackets with nothing in it moves nothing.
pub fn parse_permutation(text: &[u8]) -> (permutation: Result<Permutation, ParseError>)
    ensures
        match permutation {
            Ok(p) => parsed_permutation(text@) == Ok::<_, ParseError>(p.mapping_view()),
            Err(error) => parsed_permutation(text@) == Err::<Seq<usize>, _>(error),
        },
{
    let mut place = Place::Outside;
    let mut cycles: Vec<Vec<usize>> = Vec::new();
    let mut cycle: Vec<usize> = Vec::new();
    let mut number: usize = 0;
    let mut i: usize = 0;
    assert(cycle_seqs(cycles@) =~= Seq::empty());
    while i < text.len()
        invariant
            i <= text@.len(),
            read_upto(text@, i as int) == Some(
                Reading { place, cycles: cycle_seqs(cycles@), cycle: cycle@, number: number as nat },
            ),
        decreases text@.len() - i,
    {
        let byte = text[i];
        let ghost before = Reading {
            place,
            cycles: cycle_seqs(cycles@),
            cycle: cycle@,
            number: number as nat,
        };
        let ghost finished = cycles@;
        let mut ok = true;
        match place {
            Place::Outside => {
                if blank(byte) {
                } else if byte == 40 {
                    place = Place::Opened;
                    cycle = Vec::new();
                } else {
                    ok = false;
                }
            },
            Place::Opened => {
                if blank(byte) {
                } else if byte >= 48 && byte <= 57 {
                    place = Place::InNumber;
                    number = (byte - 48) as usize;
                } else if byte == 41 {
                    place = Place::Outside;
                } else {
                    ok = false;
                }
            },
            Place::InNumber => {
                if byte >= 48 && byte <= 57 {
                    let value = (byte - 48) as usize;
                    if number > (usize::MAX - value) / 10 {
                        ok = false;
                    } else {
                        number = number * 10 + value;
                    }
                } else if blank(byte) {
                    place = Place::AfterNumber;
                    cycle.push(number);
                } else if byte == 44 {
                    place = Place::AfterComma;
                    cycle.push(number);
                } else if byte == 41 {
                    place = Place::Outside;
                    cycle.push(number);
                    let mut done: Vec<usize> = Vec::new();
                    std::mem::swap(&mut cycle, &mut done);
                    cycles.push(done);
                    assert(cycle_seqs(cycles@) =~= cycle_seqs(finished).push(before.cycle.push(number)));
                } else {
                    ok = false;
                }
            },
            Place::AfterNumber => {
                if blank(byte) {
                } else if byte == 44 {
                    place = Place::AfterComma;
                } else if byte == 41 {
                    place = Place::Outside;
                    let mut done: Vec<usize> = Vec::new();
                    std::mem::swap(&mut cycle, &mut done);
                    cycles.push(done);
                    assert(cycle_seqs(cycles@) =~= cycle_seqs(finished).push(before.cycle));
                } else {
                    ok = false;
                }
            },
            Place::AfterComma => {
                if blank(byte) {
                } else if byte >= 48 && byte <= 57 {
                    place = Place::InNumber;
                    number = (byte - 48) as usize;
                } else {
                    ok = false;
                }
            },
        }
        if !ok {
            proof {
                assert(read_byte(before, byte) is None);
                lemma_read_fails(text@, i as int + 1, text@.len() as int);
            }
            return Err(ParseError::Syntax);
        }
        proof {
            let after = Reading {
                place,
                cycles: cycle_seqs(cycles@),
                cycle: cycle@,
                number: number as nat,
            };
            assert(read_byte(before, byte) matches Some(expected) && expected.place == after.place
                && expected.cycles == after.cycles && expected.number == after.number
                && expected.cycle =~= after.cycle);
        }
        i += 1;
    }
    match place {
        Place::Outside => {},
        _ => {
            return Err(ParseError::Syntax);
        },
    }
    match Permutation::from_cycles(cycles) {
        Some(p) => Ok(p),
        None => Err(ParseError::NotAPermutation),
    }
}

/// The decimal digits of a number.
pub open spec fn decimal_digits(n: nat) -> Seq<u8>
    decreases n,
{
    if n < 10 {
        seq![(48 + n) as u8]
    } else {
        decimal_digits(n / 10).push((48 + n % 10) as u8)
    }
}

/// The first `upto` numbers of a cycle in writing, with a comma and a blank
/// between two numbers.
pub open spec fn cycle_text(cycle: Seq<usize>, upto: int) -> Seq<u8>
    decreases upto,
{
    if upto <= 0 {
        Seq::empty()
    } else if upto == 1 {
        decimal_digits(cycle[0] as nat)
    } else {
        cycle_text(cycle, upto - 1) + seq![44u8, 32u8] + decimal_digits(cycle[upto - 1] as nat)
    }
}

/// The first `upto` cycles in writing, each in round brackets.
pub open spec fn cycles_text(cycles: Seq<Seq<usize>>, upto: int) -> Seq<u8>
    decreases upto,
{
    if upto <= 0 {
        Seq::empty()
    } else {
        cycles_text(cycles, upto - 1) + seq![40u8] + cycle_text(
            cycles[upto - 1],
            cycles[upto - 1].len() as int,
        ) + seq![41u8]
    }
}

/// A list of cycles in writing; `()` if there is none.
pub open spec fn notation(cycles: Seq<Seq<usize>>) -> Seq<u8> {
    if cycles.len() == 0 {
        seq![40u8, 41u8]
    } else {
        cycles_text(cycles, cycles.len() as int)
    }
}

/// Appends the decimal digits of a number.
pub fn push_decimal(text: &mut Vec<u8>, n: u64)
    ensures
        final(text)@ == old(text)@ + decimal_digits(n as nat),
{
    let mut reversed: Vec<u8> = Vec::new();
    let mut left: u64 = n;
    assert(decimal_digits(n as nat) =~= decimal_digits(left as nat) + reversed@.reverse());
    while left >= 10
        invariant
            decimal_digits(n as nat) == decimal_digits(left as nat) + reversed@.reverse(),
        decreases left,
    {
        let digit = (48 + left % 10) as u8;
        let ghost before = reversed@;
        reversed.push(digit);
        proof {
            assert(reversed@.reverse() =~= seq![digit] + before.reverse());
            assert(decimal_digits(left as nat) =~= decimal_digits((left / 10) as nat) + seq![digit]);
            assert(decimal_digits((left / 10) as nat) + reversed@.reverse() =~= decimal_digits(
                left as nat,
            ) + before.reverse());
        }
        left = left / 10;
    }
    let ghost tail = reversed@;
    reversed.push((48 + left) as u8);
    proof {
        assert(decimal_digits(left as nat) =~= seq![(48 + left) as u8]);
        assert(reversed@.reverse() =~= decimal_digits(left as nat) + tail.reverse());
    }
    let mut k: usize = reversed.len();
    let ghost digits = reversed@.reverse();
    while k > 0
        invariant
            k <= reversed@.len(),
            digits == reversed@.reverse(),
            text@ == old(text)@ + digits.take(reversed@.len() - k),
        decreases k,
    {
        k -= 1;
        text.push(reversed[k]);
        assert(text@ =~= old(text)@ + digits.take(reversed@.len() - k));
    }
    assert(digits.take(reversed@.len() as int) =~= digits);
}

/// Writes a list of cycles: each in round brackets, its numbers with a comma
/// and a blank between them. No cycle at all is written as `()`.
pub fn write_cycles(cycles: &Vec<Vec<usize>>) -> (text: Vec<u8>)
    ensures
        text@ == notation(cycle_seqs(cycles@)),
{
    let mut text: Vec<u8> = Vec::new();
    if cycles.len() == 0 {
        text.push(40);
        text.push(41);
        assert(text@ =~= notation(cycle_seqs(cycles@)));
        return text;
    }
    let ghost seqs = cycle_seqs(cycles@);
    let mut a: usize = 0;
    while a < cycles.len()
        invariant
            a <= cycles@.len(),
            seqs == cycle_seqs(cycles@),
            text@ == cycles_text(seqs, a as int),
        decreases cycles@.len() - a,
    {
        let cycle = &cycles[a];
        let ghost start = text@;
        text.push(40);
        let mut j: usize = 0;
        while j < cycle.len()
            invariant
                j <= cycle@.len(),
                text@ == start + seq![40u8] + cycle_text(cycle@, j as int),
            decreases cycle@.len() - j,
        {
            let ghost before = text@;
            if j > 0 {
                text.push(44);
                text.push(32);
            }
            push_decimal(&mut text, cycle[j] as u64);
            proof {
                if j > 0 {
                    assert(text@ =~= before + seq![44u8, 32u8] + decimal_digits(cycle@[j as int] as nat));
                }
                assert(text@ =~= start + seq![40u8] + cycle_text(cycle@, j + 1));
            }
            j += 1;
        }
        text.push(41);
        assert(text@ =~= cycles_text(seqs, a + 1));
        a += 1;
    }
    text
}

/// Writes a permutation as its cycles.
pub fn write_permutation(permutation: &Permutation) -> (text: Vec<u8>)
    ensures
        exists|cycles: Seq<Vec<usize>>|
            #[trigger] is_cycle_decomposition(permutation.mapping_view(), cycles) && text@ == notation(
                cycle_seqs(cycles),
            ),
{
    let cycles = permutation.cycles();
    let text = write_cycles(&cycles);
    assert(is_cycle_decomposition(permutation.mapping_view(), cycles@));
    text
}

} // verus!
