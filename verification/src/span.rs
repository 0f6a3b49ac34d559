//! Source positions.

use vstd::prelude::*;

verus! {

/// A stretch of a source file: the file's handle, the offset of the first byte
/// and the number of bytes.
#[derive(Clone, Copy, Debug, PartialEq, Eq, Structural, Hash)]
pub struct Span {
    pub file: usize,
    pub start: usize,
    pub len: usize,
}

/// A value together with the place in the source that it came from.
#[derive(Clone, Copy, Debug, PartialEq, Eq)]
pub struct WithSpan<T> {
    pub value: T,
    pub span: Span,
}

impl Span {
    /// The offset behind the last byte, or the largest offset if that is
    /// smaller.
    pub open spec fn end(self) -> int {
        if self.start + self.len > usize::MAX {
            usize::MAX as int
        } else {
            self.start + self.len
        }
    }

    pub fn new(file: usize, start: usize, len: usize) -> (span: Span)
        ensures
            span == (Span { file, start, len }),
    {
        Span { file, start, len }
    }

    /// The value `value` at this place.
    pub fn with<T>(self, value: T) -> (spanned: WithSpan<T>)
        ensures
            spanned == (WithSpan { value, span: self }),
    {
        WithSpan { value, span: self }
    }

    /// What `merge` gives: the shortest stretch of the file of `self` that
    /// covers both.
    pub open spec fn merged(self, other: Span) -> Span {
        let start = if self.start <= other.start {
            self.start
        } else {
            other.start
        };
        let end = if self.end() >= other.end() {
            self.end()
        } else {
            other.end()
        };
        Span { file: self.file, start, len: (end - start) as usize }
    }

    /// The shortest stretch that covers both spans.
    pub fn merge(self, other: Span) -> (span: Span)
        ensures
            span == self.merged(other),
    {
        let start = if self.start <= other.start {
            self.start
        } else {
            other.start
        };
        let own_end = if self.len > usize::MAX - self.start {
            usize::MAX
        } else {
            self.start + self.len
        };
        let other_end = if other.len > usize::MAX - other.start {
            usize::MAX
        } else {
            other.start + other.len
        };
        let end = if own_end >= other_end {
            own_end
        } else {
            other_end
        };
        Span { file: self.file, start, len: end - start }
    }
}


/// How many of the first `upto` bytes of `text` are line feeds.
pub open spec fn line_feeds(text: Seq<u8>, upto: int) -> nat
    decreases upto,
{
    if upto <= 0 {
        0
    } else {
        line_feeds(text, upto - 1) + if upto <= text.len() && text[upto - 1] == 10u8 {
            1nat
        } else {
            0nat
        }
    }
}

/// The offset of the first byte of the line that holds the byte `offset`:
/// behind the last line feed before it.
pub open spec fn line_start(text: Seq<u8>, offset: int) -> int
    decreases offset,
{
    if offset <= 0 {
        0
    } else if offset <= text.len() && text[offset - 1] == 10u8 {
        offset
    } else {
        line_start(text, offset - 1)
    }
}

/// A source file.
#[derive(Debug)]
pub struct File {
    pub contents: Vec<u8>,
}

impl File {
    pub fn new(contents: Vec<u8>) -> (file: File)
        ensures
            file.contents == contents,
    {
        File { contents }
    }

    /// Whether the span lies in the file.
    pub open spec fn holds(&self, span: Span) -> bool {
        span.start + span.len <= self.contents@.len() < usize::MAX
    }

    /// The line of the first byte of the span, counted from one.
    pub fn line(&self, span: Span) -> (line: usize)
        requires
            self.holds(span),
        ensures
            line == 1 + line_feeds(self.contents@, span.start as int),
    {
        let mut line: usize = 1;
        let mut i: usize = 0;
        while i < span.start
            invariant
                i <= span.start <= self.contents@.len() < usize::MAX,
                line == 1 + line_feeds(self.contents@, i as int),
                line <= 1 + i,
            decreases span.start - i,
        {
            if self.contents[i] == 10 {
                line += 1;
            }
            i += 1;
        }
        line
    }

    /// The place of the first byte of the span in its line, counted from one.
    pub fn col(&self, span: Span) -> (col: usize)
        requires
            self.holds(span),
        ensures
            col == 1 + span.start - line_start(self.contents@, span.start as int),
    {
        let mut at: usize = span.start;
        while at > 0 && self.contents[at - 1] != 10
            invariant
                at <= span.start <= self.contents@.len() < usize::MAX,
                line_start(self.contents@, span.start as int) == line_start(self.contents@, at as int),
            decreases at,
        {
            at -= 1;
        }
        1 + (span.start - at)
    }

    /// The bytes of the span.
    pub fn slice(&self, span: Span) -> (text: Vec<u8>)
        requires
            self.holds(span),
        ensures
            text@ == self.contents@.subrange(span.start as int, span.start + span.len),
    {
        let mut text: Vec<u8> = Vec::new();
        let mut i: usize = 0;
        while i < span.len
            invariant
                i <= span.len,
                span.start + span.len <= self.contents@.len() < usize::MAX,
                text@ == self.contents@.subrange(span.start as int, span.start + i),
            decreases span.len - i,
        {
            text.push(self.contents[span.start + i]);
            assert(self.contents@.subrange(span.start as int, span.start + i + 1)
                =~= self.contents@.subrange(span.start as int, span.start + i).push(
                self.contents@[span.start + i],
            ));
            i += 1;
        }
        text
    }
}

} // verus!
