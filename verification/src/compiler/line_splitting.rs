//! Breaking a list of words into lines of a bounded width: as few lines as
//! possible, and among these the way whose longest line is shortest.

use crate::permutations::Algorithm;
use crate::signature_facelets::Facelets;
use vstd::prelude::*;
use vstd::string::StringExecFns;

verus! {

/// The width that the moves of an algorithm are broken to, with what stands
/// before them.
pub const ALG_MAX_CHARS_WIDTH: usize = 50;

/// Lines as texts.
pub open spec fn texts(lines: Seq<Vec<u8>>) -> Seq<Seq<u8>> {
    Seq::new(lines.len(), |i: int| lines[i]@)
}

/// The lengths of words.
pub open spec fn lengths(words: Seq<Seq<u8>>) -> Seq<usize> {
    Seq::new(words.len(), |i: int| words[i].len() as usize)
}

/// The length of the line that holds the words from `start` up to `end`, with
/// a blank between two of them.
pub open spec fn line_len(lens: Seq<usize>, start: int, end: int) -> int
    decreases end - start,
{
    if end <= start {
        0
    } else if end == start + 1 {
        lens[start] as int
    } else {
        lens[start] + 1 + line_len(lens, start + 1, end)
    }
}

/// The best way to break the first `i` words into `k + 1` lines, as far as the
/// last line holds at most `upto` words: how many words the last line holds,
/// and how long the longest line is. It is the way with the shortest longest
/// line, and of several the one with the fewest words in the last line. There
/// is none if no such way keeps every line within the width.
pub open spec fn best_upto(lens: Seq<usize>, width: int, k: nat, i: int, upto: int) -> Option<(int, int)>
    decreases k, upto,
{
    if k == 0 {
        if 0 <= i <= lens.len() && line_len(lens, 0, i) <= width {
            Some((i, line_len(lens, 0, i)))
        } else {
            None
        }
    } else if upto <= 0 {
        None
    } else {
        let before = best_upto(lens, width, k, i, upto - 1);
        let last = line_len(lens, i - upto, i);
        if last > width {
            before
        } else {
            match best_upto(lens, width, (k - 1) as nat, i - upto, i - upto - (k - 1)) {
                None => before,
                Some((_, longest)) => {
                    let here = if longest >= last {
                        longest
                    } else {
                        last
                    };
                    match before {
                        Some((_, least)) => if least <= here {
                            before
                        } else {
                            Some((upto, here))
                        },
                        None => Some((upto, here)),
                    }
                },
            }
        }
    }
}

/// The best way to break the first `i` words into `k + 1` lines.
pub open spec fn best(lens: Seq<usize>, width: int, k: nat, i: int) -> Option<(int, int)> {
    best_upto(lens, width, k, i, i - k)
}

/// The fewest lines less one that the first `i` words can be broken into, at
/// least `k`.
pub open spec fn fewest_from(lens: Seq<usize>, width: int, k: nat, i: int) -> nat
    decreases i - k,
{
    if k >= i || best(lens, width, k, i) is Some {
        k
    } else {
        fewest_from(lens, width, k + 1, i)
    }
}

/// The words from `start` up to `end` in a line, with a blank between two of
/// them.
pub open spec fn joined(words: Seq<Seq<u8>>, start: int, end: int) -> Seq<u8>
    decreases end - start,
{
    if end <= start {
        Seq::empty()
    } else if end == start + 1 {
        words[start]
    } else {
        joined(words, start, end - 1) + seq![32u8] + words[end - 1]
    }
}

/// The first `i` words broken into `k + 1` lines in the best way.
pub open spec fn broken(words: Seq<Seq<u8>>, width: int, k: nat, i: int) -> Seq<Seq<u8>>
    decreases k,
{
    if k == 0 {
        seq![joined(words, 0, i)]
    } else {
        match best(lengths(words), width, k, i) {
            Some((last, _)) => broken(words, width, (k - 1) as nat, i - last).push(joined(words, i - last, i)),
            None => Seq::empty(),
        }
    }
}

/// The lines that words are broken into which are all shorter than the width:
/// as few lines as possible, the longest as short as possible.
pub open spec fn short_lines(words: Seq<Seq<u8>>, width: int) -> Seq<Seq<u8>> {
    if words.len() == 0 {
        Seq::empty()
    } else {
        broken(words, width, fewest_from(lengths(words), width, 0, words.len() as int), words.len() as int)
    }
}

/// Whether a word is too long to share a line.
pub open spec fn is_long(word: Seq<u8>, width: int) -> bool {
    word.len() >= width
}

/// The place of the first long word from `from` on; the number of words if
/// there is none.
pub open spec fn first_long(words: Seq<Seq<u8>>, width: int, from: int) -> int
    decreases words.len() - from,
{
    if from < 0 || from >= words.len() {
        words.len() as int
    } else if is_long(words[from], width) {
        from
    } else {
        first_long(words, width, from + 1)
    }
}

/// The lines that the words from `from` on are broken into: every long word
/// stands alone, and the words between two long words are broken into as few
/// lines as possible, the longest as short as possible.
pub open spec fn split_from(words: Seq<Seq<u8>>, width: int, from: int) -> Seq<Seq<u8>>
    decreases words.len() - from,
{
    if from < 0 || from >= words.len() {
        Seq::empty()
    } else {
        let at = first_long(words, width, from);
        let before = short_lines(words.subrange(from, at), width);
        if from <= at < words.len() {
            before + seq![words[at]] + split_from(words, width, at + 1)
        } else {
            before
        }
    }
}

proof fn lemma_first_long(words: Seq<Seq<u8>>, width: int, from: int)
    requires
        0 <= from <= words.len(),
    ensures
        from <= first_long(words, width, from) <= words.len(),
        first_long(words, width, from) < words.len() ==> is_long(
            words[first_long(words, width, from)],
            width,
        ),
        forall|i: int| from <= i < first_long(words, width, from) ==> !is_long(#[trigger] words[i], width),
    decreases words.len() - from,
{
    if from < words.len() && !is_long(words[from], width) {
        lemma_first_long(words, width, from + 1);
    }
}

/// A line with one more word at its end is longer by the word and a blank.
proof fn lemma_line_len_back(lens: Seq<usize>, start: int, end: int)
    requires
        0 <= start < end,
    ensures
        line_len(lens, start, end + 1) == line_len(lens, start, end) + 1 + lens[end],
        line_len(lens, start, end) >= 0,
    decreases end - start,
{
    if end > start + 1 {
        lemma_line_len_back(lens, start + 1, end);
        assert(line_len(lens, start, end + 1) == lens[start] + 1 + line_len(lens, start + 1, end + 1));
    } else {
        assert(line_len(lens, start + 1, start + 2) == lens[start + 1]);
        assert(line_len(lens, start, start + 2) == lens[start] + 1 + line_len(lens, start + 1, start + 2));
    }
}

/// A line that begins earlier or ends later is no shorter.
proof fn lemma_line_len_grows(lens: Seq<usize>, early: int, start: int, end: int, late: int)
    requires
        0 <= early <= start <= end <= late,
    ensures
        0 <= line_len(lens, start, end) <= line_len(lens, early, late),
    decreases late - early,
{
    if early < start {
        lemma_line_len_grows(lens, early + 1, start, end, late);
    } else if end < late {
        lemma_line_len_grows(lens, early, start, end, late - 1);
        if early < late - 1 {
            lemma_line_len_back(lens, early, late - 1);
        }
    } else if start < end {
        lemma_line_len_grows(lens, start + 1, start + 1, end, end);
    }
}

/// Last lines that are too long change nothing.
proof fn lemma_best_stuck(lens: Seq<usize>, width: int, k: nat, i: int, from: int, upto: int)
    requires
        k >= 1,
        0 <= from <= upto,
        forall|j: int| from < j <= upto ==> #[trigger] line_len(lens, i - j, i) > width,
    ensures
        best_upto(lens, width, k, i, upto) == best_upto(lens, width, k, i, from),
    decreases upto - from,
{
    if from < upto {
        lemma_best_stuck(lens, width, k, i, from, upto - 1);
        assert(line_len(lens, i - upto, i) > width);
    }
}

/// What the best way is made of: its last line holds words and stays within
/// the width, and the words before it are broken in their best way.
proof fn lemma_best_parts(lens: Seq<usize>, width: int, k: nat, i: int, upto: int)
    requires
        best_upto(lens, width, k, i, upto) is Some,
    ensures
        ({
            let (last, longest) = best_upto(lens, width, k, i, upto).unwrap();
            if k == 0 {
                last == i && 0 <= i <= lens.len() && longest == line_len(lens, 0, i) && longest <= width
            } else {
                &&& 1 <= last <= upto
                &&& line_len(lens, i - last, i) <= width
                &&& best(lens, width, (k - 1) as nat, i - last) is Some
                &&& longest == if best(lens, width, (k - 1) as nat, i - last).unwrap().1 >= line_len(
                    lens,
                    i - last,
                    i,
                ) {
                    best(lens, width, (k - 1) as nat, i - last).unwrap().1
                } else {
                    line_len(lens, i - last, i)
                }
            }
        }),
    decreases upto,
{
    if k > 0 && upto > 0 {
        let before = best_upto(lens, width, k, i, upto - 1);
        if before is Some {
            lemma_best_parts(lens, width, k, i, upto - 1);
        }
    }
}

/// Words that are all shorter than the width can stand one in a line.
proof fn lemma_singletons(lens: Seq<usize>, width: int, k: nat)
    requires
        k < lens.len(),
        forall|i: int| 0 <= i < lens.len() ==> (#[trigger] lens[i]) < width,
    ensures
        best(lens, width, k, k as int + 1) is Some,
    decreases k,
{
    if k > 0 {
        lemma_singletons(lens, width, (k - 1) as nat);
        assert(best_upto(lens, width, k, k as int + 1, 0) is None);
        assert(line_len(lens, k as int, k as int + 1) == lens[k as int]);
    } else {
        assert(line_len(lens, 0, 1) == lens[0]);
    }
}

/// A best way as the machine holds it.
pub open spec fn way_view(way: Option<(usize, usize)>) -> Option<(int, int)> {
    match way {
        Some((last, longest)) => Some((last as int, longest as int)),
        None => None,
    }
}

/// The best ways to break every beginning of the words into one line.
fn first_row(words: &[Vec<u8>], width: usize) -> (row: Vec<Option<(usize, usize)>>)
    ensures
        row@.len() == words@.len() + 1,
        forall|i: int|
            0 <= i <= words@.len() ==> way_view(#[trigger] row@[i]) == best(lengths(texts(words@)), width as int, 0, i),
{
    let ghost lens = lengths(texts(words@));
    let n = words.len();
    let mut row: Vec<Option<(usize, usize)>> = Vec::new();
    row.push(Some((0, 0)));
    let mut len: u128 = 0;
    let mut over = false;
    let mut i: usize = 0;
    while i < n
        invariant
            i <= n,
            n == words@.len(),
            lens == lengths(texts(words@)),
            row@.len() == i + 1,
            !over ==> len == line_len(lens, 0, i as int) && len <= width,
            over ==> line_len(lens, 0, i as int) > width,
            forall|j: int| 0 <= j <= i ==> way_view(#[trigger] row@[j]) == best(lens, width as int, 0, j),
        decreases n - i,
    {
        let word: usize = words[i].len();
        proof {
            if i > 0 {
                lemma_line_len_back(lens, 0, i as int);
            }
            lemma_line_len_grows(lens, 0, 0, i as int, i + 1);
            assert(lens[i as int] == word);
        }
        if !over {
            let longer: u128 = if i == 0 {
                word as u128
            } else {
                len + 1 + word as u128
            };
            if longer <= width as u128 {
                len = longer;
            } else {
                over = true;
            }
        }
        if over {
            row.push(None);
        } else {
            row.push(Some((i + 1, len as usize)));
        }
        i += 1;
    }
    row
}

/// The best way to break the first `i` words into `k + 1` lines, from the best
/// ways to break words into `k` lines.
fn best_entry(words: &[Vec<u8>], width: usize, before: &Vec<Option<(usize, usize)>>, k: usize, i: usize) -> (way:
    Option<(usize, usize)>)
    requires
        k >= 1,
        i <= words@.len(),
        before@.len() == words@.len() + 1,
        forall|j: int|
            0 <= j <= words@.len() ==> way_view(#[trigger] before@[j]) == best(
                lengths(texts(words@)),
                width as int,
                (k - 1) as nat,
                j,
            ),
    ensures
        way_view(way) == best(lengths(texts(words@)), width as int, k as nat, i as int),
{
    let ghost lens = lengths(texts(words@));
    let mut way: Option<(usize, usize)> = None;
    if i <= k {
        return None;
    }
    let most: usize = i - k;
    let mut last: u128 = 0;
    let mut j: usize = 1;
    while j <= most
        invariant
            1 <= j <= most + 1,
            most == i - k,
            k >= 1,
            i <= words@.len(),
            lens == lengths(texts(words@)),
            before@.len() == words@.len() + 1,
            forall|a: int|
                0 <= a <= words@.len() ==> way_view(#[trigger] before@[a]) == best(
                    lens,
                    width as int,
                    (k - 1) as nat,
                    a,
                ),
            j >= 2 ==> last == line_len(lens, i - (j - 1), i as int) && last <= width,
            way_view(way) == best_upto(lens, width as int, k as nat, i as int, j - 1),
        decreases most + 1 - j,
    {
        let word: usize = words[i - j].len();
        assert(lens[i - j] == word);
        let longer: u128 = if j == 1 {
            word as u128
        } else {
            word as u128 + 1 + last
        };
        assert(longer == line_len(lens, i - j, i as int));
        if longer > width as u128 {
            proof {
                assert forall|a: int| j - 1 < a <= most implies #[trigger] line_len(lens, i - a, i as int)
                    > width by {
                    lemma_line_len_grows(lens, i - a, i - j, i as int, i as int);
                }
                lemma_best_stuck(lens, width as int, k as nat, i as int, j - 1, most as int);
            }
            return way;
        }
        last = longer;
        match before[i - j] {
            Some((_, longest)) => {
                proof {
                    lemma_best_parts(lens, width as int, (k - 1) as nat, i - j, i - j - (k - 1));
                }
                let here: usize = if longest as u128 >= last {
                    longest
                } else {
                    last as usize
                };
                let better = match way {
                    Some((_, least)) => least > here,
                    None => true,
                };
                if better {
                    way = Some((j, here));
                }
            },
            None => {},
        }
        j += 1;
    }
    way
}

/// The words from `start` up to `end` in one line.
fn join_words(words: &[Vec<u8>], start: usize, end: usize) -> (line: Vec<u8>)
    requires
        start <= end <= words@.len(),
    ensures
        line@ == joined(texts(words@), start as int, end as int),
{
    let mut line: Vec<u8> = Vec::new();
    let mut at: usize = start;
    while at < end
        invariant
            start <= at <= end <= words@.len(),
            line@ == joined(texts(words@), start as int, at as int),
        decreases end - at,
    {
        if at > start {
            line.push(32);
        }
        let word = &words[at];
        let mut b: usize = 0;
        let ghost head = line@;
        while b < word.len()
            invariant
                b <= word@.len(),
                line@ == head + word@.take(b as int),
            decreases word@.len() - b,
        {
            line.push(word[b]);
            assert(line@ =~= head + word@.take(b + 1));
            b += 1;
        }
        assert(word@.take(word@.len() as int) =~= word@);
        assert(line@ =~= joined(texts(words@), start as int, at + 1));
        at += 1;
    }
    line
}

/// Breaks words that are all shorter than the width into lines: as few as
/// possible, and the longest as short as possible.
fn split_all_short_enough(words: &[Vec<u8>], width: usize) -> (lines: Vec<Vec<u8>>)
    requires
        forall|i: int| 0 <= i < words@.len() ==> (#[trigger] words@[i])@.len() < width,
    ensures
        texts(lines@) == short_lines(texts(words@), width as int),
{
    let ghost lens = lengths(texts(words@));
    let n = words.len();
    if n == 0 {
        let lines: Vec<Vec<u8>> = Vec::new();
        assert(texts(lines@) =~= short_lines(texts(words@), width as int));
        return lines;
    }
    let mut rows: Vec<Vec<Option<(usize, usize)>>> = Vec::new();
    rows.push(first_row(words, width));
    let mut k: usize = 0;
    while rows[k][n].is_none()
        invariant
            n == words@.len(),
            n >= 1,
            lens == lengths(texts(words@)),
            forall|i: int| 0 <= i < lens.len() ==> (#[trigger] lens[i]) < width,
            k < n,
            rows@.len() == k + 1,
            forall|r: int| 0 <= r <= k ==> (#[trigger] rows@[r])@.len() == n + 1,
            forall|r: int, i: int|
                0 <= r <= k && 0 <= i <= n ==> way_view(#[trigger] rows@[r]@[i]) == best(
                    lens,
                    width as int,
                    r as nat,
                    i,
                ),
            fewest_from(lens, width as int, 0, n as int) == fewest_from(lens, width as int, k as nat, n as int),
        decreases n - k,
    {
        proof {
            lemma_singletons(lens, width as int, (n - 1) as nat);
            assert(way_view(rows@[k as int]@[n as int]) == best(lens, width as int, k as nat, n as int));
        }
        let mut row: Vec<Option<(usize, usize)>> = Vec::new();
        while row.len() <= n
            invariant
                row@.len() <= n + 1,
                n == words@.len(),
                lens == lengths(texts(words@)),
                k + 1 < n,
                rows@.len() == k + 1,
                rows@[k as int]@.len() == n + 1,
                forall|a: int|
                    0 <= a <= n ==> way_view(#[trigger] rows@[k as int]@[a]) == best(
                        lens,
                        width as int,
                        k as nat,
                        a,
                    ),
                forall|a: int|
                    0 <= a < row@.len() ==> way_view(#[trigger] row@[a]) == best(
                        lens,
                        width as int,
                        (k + 1) as nat,
                        a,
                    ),
            decreases n + 1 - row@.len(),
        {
            let i: usize = row.len();
            let way = best_entry(words, width, &rows[k], k + 1, i);
            row.push(way);
        }
        let ghost held = rows@;
        rows.push(row);
        proof {
            assert forall|r: int, i: int| 0 <= r <= k + 1 && 0 <= i <= n implies way_view(
                #[trigger] rows@[r]@[i],
            ) == best(lens, width as int, r as nat, i) by {
                if r <= k {
                    assert(rows@[r] == held[r]);
                }
            }
            assert forall|r: int| 0 <= r <= k + 1 implies (#[trigger] rows@[r])@.len() == n + 1 by {
                if r <= k {
                    assert(rows@[r] == held[r]);
                }
            }
        }
        k += 1;
    }
    proof {
        assert(way_view(rows@[k as int]@[n as int]) == best(lens, width as int, k as nat, n as int));
        assert(fewest_from(lens, width as int, k as nat, n as int) == k);
    }
    let ghost all = broken(texts(words@), width as int, k as nat, n as int);
    let mut lines: Vec<Vec<u8>> = Vec::new();
    let mut r: usize = k;
    let mut i: usize = n;
    assert(all =~= broken(texts(words@), width as int, r as nat, i as int) + texts(lines@));
    while r > 0
        invariant
            r <= k,
            i <= n,
            n == words@.len(),
            lens == lengths(texts(words@)),
            rows@.len() == k + 1,
            forall|a: int| 0 <= a <= k ==> (#[trigger] rows@[a])@.len() == n + 1,
            forall|a: int, b: int|
                0 <= a <= k && 0 <= b <= n ==> way_view(#[trigger] rows@[a]@[b]) == best(
                    lens,
                    width as int,
                    a as nat,
                    b,
                ),
            best(lens, width as int, r as nat, i as int) is Some,
            all == broken(texts(words@), width as int, r as nat, i as int) + texts(lines@),
        decreases r,
    {
        assert(way_view(rows@[r as int]@[i as int]) == best(lens, width as int, r as nat, i as int));
        proof {
            lemma_best_parts(lens, width as int, r as nat, i as int, i - r);
        }
        let last: usize = match rows[r][i] {
            Some((last, _)) => last,
            None => 0,
        };
        let line = join_words(words, i - last, i);
        let ghost before = lines@;
        lines.insert(0, line);
        proof {
            let inner = broken(texts(words@), width as int, (r - 1) as nat, i - last);
            assert(broken(texts(words@), width as int, r as nat, i as int) == inner.push(line@));
            assert(texts(lines@) =~= seq![line@] + texts(before));
            assert(all =~= inner + texts(lines@));
        }
        i = i - last;
        r -= 1;
    }
    proof {
        lemma_best_parts(lens, width as int, 0, i as int, i as int);
    }
    let line = join_words(words, 0, i);
    let ghost before = lines@;
    lines.insert(0, line);
    proof {
        assert(texts(lines@) =~= seq![line@] + texts(before));
        assert(broken(texts(words@), width as int, 0, i as int) =~= seq![line@]);
    }
    lines
}

/// Breaks words into lines of a bounded width. A word that is as long as the
/// width or longer stands alone in its line; the words between two such words
/// are broken into as few lines as possible, and of the ways to do so into the
/// one whose longest line is shortest.
pub fn split_strings(words: &[Vec<u8>], line_width: usize) -> (lines: Vec<Vec<u8>>)
    ensures
        texts(lines@) == split_from(texts(words@), line_width as int, 0),
{
    let mut lines: Vec<Vec<u8>> = Vec::new();
    let mut from: usize = 0;
    assert(texts(lines@) =~= Seq::<Seq<u8>>::empty());
    while from < words.len()
        invariant
            from <= words@.len(),
            split_from(texts(words@), line_width as int, 0) == texts(lines@) + split_from(
                texts(words@),
                line_width as int,
                from as int,
            ),
        decreases words@.len() - from,
    {
        let mut at: usize = from;
        while at < words.len() && words[at].len() < line_width
            invariant
                from <= at <= words@.len(),
                first_long(texts(words@), line_width as int, from as int) == first_long(
                    texts(words@),
                    line_width as int,
                    at as int,
                ),
                forall|i: int| from <= i < at ==> (#[trigger] words@[i])@.len() < line_width,
            decreases words@.len() - at,
        {
            at += 1;
        }
        let part = vstd::slice::slice_subrange(words, from, at);
        assert(texts(part@) =~= texts(words@).subrange(from as int, at as int));
        let short = split_all_short_enough(part, line_width);
        let ghost held = lines@;
        let mut short = short;
        let ghost added = texts(short@);
        lines.append(&mut short);
        proof {
            assert(texts(lines@) =~= texts(held) + added);
        }
        if at < words.len() {
            let mut alone: Vec<u8> = Vec::new();
            let mut b: usize = 0;
            while b < words[at].len()
                invariant
                    at < words@.len(),
                    b <= words@[at as int]@.len(),
                    alone@ == words@[at as int]@.take(b as int),
                decreases words@[at as int]@.len() - b,
            {
                alone.push(words[at][b]);
                assert(alone@ =~= words@[at as int]@.take(b + 1));
                b += 1;
            }
            assert(words@[at as int]@.take(words@[at as int]@.len() as int) =~= words@[at as int]@);
            let ghost so_far = lines@;
            lines.push(alone);
            proof {
                assert(texts(lines@) =~= texts(so_far) + seq![words@[at as int]@]);
                assert(texts(lines@) + split_from(texts(words@), line_width as int, at + 1) =~= texts(held) + (added
                    + seq![words@[at as int]@] + split_from(texts(words@), line_width as int, at + 1)));
            }
            from = at + 1;
        } else {
            from = at;
        }
    }
    assert(texts(lines@) + split_from(texts(words@), line_width as int, from as int) =~= texts(lines@));
    lines
}

/// Whether `cuts` breaks the first `i` words into lines within the width:
/// it holds the places where the lines begin, and `i` at its end.
pub open spec fn is_breaking(lens: Seq<usize>, width: int, cuts: Seq<int>, i: int) -> bool {
    &&& cuts.len() >= 2
    &&& cuts[0] == 0
    &&& cuts.last() == i
    &&& i <= lens.len()
    &&& forall|t: int|
        0 <= t < cuts.len() - 1 ==> (#[trigger] cuts[t]) < cuts[t + 1] && line_len(lens, cuts[t], cuts[t + 1])
            <= width
}

/// The length of the longest of the first `upto` lines of a breaking.
pub open spec fn longest_line(lens: Seq<usize>, cuts: Seq<int>, upto: int) -> int
    decreases upto,
{
    if upto <= 0 {
        0
    } else {
        let before = longest_line(lens, cuts, upto - 1);
        let here = line_len(lens, cuts[upto - 1], cuts[upto]);
        if before >= here {
            before
        } else {
            here
        }
    }
}

proof fn lemma_best_considers(lens: Seq<usize>, width: int, k: nat, i: int, upto: int, j: int)
    requires
        k >= 1,
        1 <= j <= upto,
        line_len(lens, i - j, i) <= width,
        best(lens, width, (k - 1) as nat, i - j) is Some,
    ensures
        best_upto(lens, width, k, i, upto) is Some,
        best_upto(lens, width, k, i, upto).unwrap().1 <= line_len(lens, i - j, i) || best_upto(
            lens,
            width,
            k,
            i,
            upto,
        ).unwrap().1 <= best(lens, width, (k - 1) as nat, i - j).unwrap().1,
    decreases upto,
{
    if j < upto {
        lemma_best_considers(lens, width, k, i, upto - 1, j);
    }
}

proof fn lemma_cuts_grow(cuts: Seq<int>, t: int)
    requires
        cuts.len() >= 1,
        cuts[0] == 0,
        forall|a: int| 0 <= a < cuts.len() - 1 ==> (#[trigger] cuts[a]) < cuts[a + 1],
        0 <= t < cuts.len(),
    ensures
        cuts[t] >= t,
    decreases t,
{
    if t > 0 {
        lemma_cuts_grow(cuts, t - 1);
        assert(cuts[t - 1] < cuts[t - 1 + 1]);
    }
}

proof fn lemma_longest_same(lens: Seq<usize>, a: Seq<int>, b: Seq<int>, upto: int)
    requires
        0 <= upto < a.len(),
        upto < b.len(),
        forall|t: int| 0 <= t <= upto ==> a[t] == b[t],
    ensures
        longest_line(lens, a, upto) == longest_line(lens, b, upto),
    decreases upto,
{
    if upto > 0 {
        lemma_longest_same(lens, a, b, upto - 1);
    }
}

/// No way to break words into lines within the width has a shorter longest
/// line than the best way to break them into as many lines.
pub proof fn lemma_best_is_least(lens: Seq<usize>, width: int, cuts: Seq<int>, i: int)
    requires
        is_breaking(lens, width, cuts, i),
    ensures
        best(lens, width, (cuts.len() - 2) as nat, i) is Some,
        best(lens, width, (cuts.len() - 2) as nat, i).unwrap().1 <= longest_line(
            lens,
            cuts,
            cuts.len() - 1,
        ),
    decreases cuts.len(),
{
    let k = (cuts.len() - 2) as nat;
    let lines = cuts.len() - 1;
    if k == 0 {
        assert(cuts[0int] < cuts[0int + 1]);
        assert(longest_line(lens, cuts, 0) == 0);
        lemma_line_len_grows(lens, 0, 0, i, i);
    } else {
        let start = cuts[lines - 1];
        let front = cuts.drop_last();
        assert(cuts[lines - 1] < cuts[lines - 1 + 1]);
        assert(is_breaking(lens, width, front, start)) by {
            assert forall|t: int| 0 <= t < front.len() - 1 implies (#[trigger] front[t]) < front[t + 1]
                && line_len(lens, front[t], front[t + 1]) <= width by {
                assert(cuts[t] < cuts[t + 1]);
            }
        }
        lemma_best_is_least(lens, width, front, start);
        lemma_longest_same(lens, cuts, front, lines - 1);
        lemma_cuts_grow(cuts, lines - 1);
        lemma_best_considers(lens, width, k, i, i - k, i - start);
    }
}

/// Words cannot be broken into fewer lines within the width than the fewest
/// that a best way takes.
pub proof fn lemma_fewest_is_least(lens: Seq<usize>, width: int, cuts: Seq<int>, from: nat)
    requires
        is_breaking(lens, width, cuts, lens.len() as int),
        from <= cuts.len() - 2,
    ensures
        fewest_from(lens, width, from, lens.len() as int) <= cuts.len() - 2,
    decreases cuts.len() - 2 - from,
{
    lemma_best_is_least(lens, width, cuts, lens.len() as int);
    if from < cuts.len() - 2 {
        lemma_fewest_is_least(lens, width, cuts, from + 1);
    }
}

/// A line has the length of its words and the blanks between them.
proof fn lemma_joined_len(words: Seq<Seq<u8>>, start: int, end: int)
    requires
        0 <= start <= end <= words.len(),
        forall|i: int| 0 <= i < words.len() ==> (#[trigger] words[i]).len() <= usize::MAX,
    ensures
        joined(words, start, end).len() == line_len(lengths(words), start, end),
    decreases end - start,
{
    if end > start + 1 {
        lemma_joined_len(words, start, end - 1);
        lemma_line_len_back(lengths(words), start, end - 1);
    } else if end == start + 1 {
        assert(lengths(words)[start] == words[start].len());
    }
}

/// The best way to break words into lines takes as many lines as it is
/// asked for, and none of them is longer than the width or than the longest
/// line that the way admits.
pub proof fn lemma_broken_lines(words: Seq<Seq<u8>>, width: int, k: nat, i: int, t: int)
    requires
        best(lengths(words), width, k, i) is Some,
        forall|a: int| 0 <= a < words.len() ==> (#[trigger] words[a]).len() <= usize::MAX,
        0 <= t <= k,
        0 <= i <= words.len(),
    ensures
        broken(words, width, k, i).len() == k + 1,
        broken(words, width, k, i)[t].len() <= best(lengths(words), width, k, i).unwrap().1 <= width,
    decreases k,
{
    let lens = lengths(words);
    lemma_best_parts(lens, width, k, i, i - k);
    if k == 0 {
        lemma_joined_len(words, 0, i);
    } else {
        let last = best(lens, width, k, i).unwrap().0;
        lemma_broken_lines(words, width, (k - 1) as nat, i - last, if t < k {
            t
        } else {
            0
        });
        lemma_joined_len(words, i - last, i);
    }
}

/// Lines one below the other, each behind `padding` blanks; the first only
/// if `pad_first` says so.
pub open spec fn padded(lines: Seq<Seq<u8>>, padding: int, pad_first: bool, upto: int) -> Seq<u8>
    decreases upto,
{
    if upto <= 0 {
        Seq::empty()
    } else {
        let line = if upto == 1 && !pad_first {
            lines[upto - 1]
        } else {
            Seq::new(padding as nat, |i: int| 32u8) + lines[upto - 1]
        };
        if upto == 1 {
            line
        } else {
            padded(lines, padding, pad_first, upto - 1) + seq![10u8] + line
        }
    }
}

/// The names of the moves of an algorithm.
pub open spec fn move_names(alg: &Algorithm) -> Seq<Seq<u8>> {
    Seq::new(
        alg.moves_view().len(),
        |i: int| alg.group_view().generators_view()[alg.moves_view()[i] as int].name@,
    )
}

/// The width that is left for moves behind a padding.
pub open spec fn alg_width(padding: usize) -> int {
    if padding <= ALG_MAX_CHARS_WIDTH {
        ALG_MAX_CHARS_WIDTH - padding
    } else {
        0
    }
}

/// Moves in lines that are no longer than fifty letters with their padding.
pub open spec fn alg_text(names: Seq<Seq<u8>>, padding: usize, pad_first: bool) -> Seq<u8> {
    let lines = split_from(names, alg_width(padding), 0);
    padded(lines, padding as int, pad_first, lines.len() as int)
}

/// The moves of an algorithm in lines of no more than fifty letters with the
/// padding, each line behind `padding` blanks; the first only if `pad_first`
/// says so. With a padding of fifty or more every move stands alone.
pub fn stringify_alg(alg: &Algorithm, padding: usize, pad_first: bool) -> (text: Vec<u8>)
    ensures
        text@ == alg_text(move_names(alg), padding, pad_first),
{
    let names = alg.move_names();
    let width: usize = if padding <= ALG_MAX_CHARS_WIDTH {
        ALG_MAX_CHARS_WIDTH - padding
    } else {
        0
    };
    assert(texts(names@) =~= move_names(alg));
    let lines = split_strings(names.as_slice(), width);
    let ghost wanted = split_from(texts(names@), width as int, 0);
    let mut text: Vec<u8> = Vec::new();
    let mut at: usize = 0;
    while at < lines.len()
        invariant
            at <= lines@.len(),
            texts(lines@) == wanted,
            text@ == padded(wanted, padding as int, pad_first, at as int),
        decreases lines@.len() - at,
    {
        if at > 0 {
            text.push(10);
        }
        let ghost head = text@;
        if at > 0 || pad_first {
            let mut b: usize = 0;
            while b < padding
                invariant
                    b <= padding,
                    text@ == head + Seq::new(b as nat, |i: int| 32u8),
                decreases padding - b,
            {
                text.push(32);
                assert(text@ =~= head + Seq::new((b + 1) as nat, |i: int| 32u8));
                b += 1;
            }
        }
        let ghost padded_head = text@;
        let line = &lines[at];
        let mut b: usize = 0;
        while b < line.len()
            invariant
                b <= line@.len(),
                text@ == padded_head + line@.take(b as int),
            decreases line@.len() - b,
        {
            text.push(line[b]);
            assert(text@ =~= padded_head + line@.take(b + 1));
            b += 1;
        }
        proof {
            assert(line@.take(line@.len() as int) =~= line@);
            assert(wanted[at as int] == line@);
            assert(text@ =~= padded(wanted, padding as int, pad_first, at + 1));
        }
        at += 1;
    }
    assert(wanted.len() == lines@.len());
    text
}

/// The first `upto` names in a line, with a blank between two of them.
pub open spec fn pieces_line(pieces: Seq<String>, upto: int) -> Seq<char>
    decreases upto,
{
    if upto <= 0 {
        Seq::empty()
    } else if upto == 1 {
        pieces[0]@
    } else {
        pieces_line(pieces, upto - 1) + seq![' '] + pieces[upto - 1]@
    }
}

/// The pieces that the facelets lie on, in a line with a blank between two of
/// them.
pub fn stringify_facelets(facelets: &Facelets) -> (line: String)
    ensures
        line@ == pieces_line(facelets.pieces@, facelets.pieces@.len() as int),
{
    let mut line = String::new();
    let mut at: usize = 0;
    assert(line@ =~= pieces_line(facelets.pieces@, 0));
    while at < facelets.pieces.len()
        invariant
            at <= facelets.pieces@.len(),
            line@ == pieces_line(facelets.pieces@, at as int),
        decreases facelets.pieces@.len() - at,
    {
        if at > 0 {
            proof {
                reveal_strlit(" ");
            }
            line.append(" ");
            assert(" "@ =~= seq![' ']);
        }
        line.append(facelets.pieces[at].as_str());
        assert(line@ =~= pieces_line(facelets.pieces@, at + 1));
        at += 1;
    }
    line
}

} // verus!
