//! Where JSON text comes from.
//!
//! A source hands out bytes one at a time and remembers how far it has come.
//! [`SliceRead`] and [`StrRead`] read from memory. A source that reads from
//! elsewhere implements [`Read`] too; its text is then the bytes it is going
//! to deliver.
use crate::ascii::LINE_FEED;
use vstd::prelude::*;

verus! {

/// The state of a source: a text and a place in it.
pub struct Cursor {
    /// The whole text, from its first byte on.
    pub bytes: Seq<u8>,
    /// The number of bytes consumed so far.
    pub pos: int,
    /// The error that the source fails with behind the last byte, where others
    /// report the end of the input.
    pub failure: Option<std::io::Error>,
    /// Whether the source can lend out pieces of its text.
    pub lends: bool,
}

impl Cursor {
    /// A place inside a text whose length can be counted.
    pub open spec fn valid(self) -> bool {
        0 <= self.pos <= self.bytes.len() <= usize::MAX
    }

    /// Whether the source fails behind the last byte.
    pub open spec fn broken(self) -> bool {
        self.failure is Some
    }

    /// Whether this can be the state of a source that has failed behind `text`.
    /// What it delivered before is what it was; of what it delivers from then
    /// on nothing is known.
    pub open spec fn resumes(self, text: Seq<u8>) -> bool {
        &&& text.len() <= self.pos
        &&& self.bytes.take(text.len() as int) == text
    }

    /// The same text, with `p` bytes consumed.
    pub open spec fn at(self, p: int) -> Cursor {
        Cursor { pos: p, ..self }
    }

    /// Whether all bytes have been consumed.
    pub open spec fn spent(self) -> bool {
        self.pos >= self.bytes.len()
    }

    /// The number of bytes up to and including the next one.
    pub open spec fn peek_end(self) -> int {
        if self.spent() {
            self.pos
        } else {
            self.pos + 1
        }
    }
}

/// The line and the column that the first `n` bytes of a text end in. Lines
/// are counted from one, as far as a `usize` goes; a line feed ends a line and
/// every other byte is a column.
pub open spec fn line_column(bytes: Seq<u8>, n: int) -> (nat, nat)
    decreases n,
{
    if n <= 0 {
        (1, 0)
    } else {
        let (line, column) = line_column(bytes, n - 1);
        if bytes[n - 1] == LINE_FEED {
            (if line < usize::MAX { line + 1 } else { line }, 0)
        } else {
            (line, column + 1)
        }
    }
}

/// Lines start at one and both counts fit a `usize`.
pub proof fn lemma_line_column_bounds(bytes: Seq<u8>, n: int)
    ensures
        1 <= line_column(bytes, n).0 <= usize::MAX,
        n >= 0 ==> line_column(bytes, n).1 <= n,
    decreases n,
{
    if n > 0 {
        lemma_line_column_bounds(bytes, n - 1);
    }
}

/// A place depends on nothing behind it.
pub proof fn lemma_line_column_prefix(a: Seq<u8>, b: Seq<u8>, n: int)
    requires
        n <= a.len(),
        n <= b.len(),
        forall|i: int| 0 <= i < n ==> a[i] == b[i],
    ensures
        line_column(a, n) == line_column(b, n),
    decreases n,
{
    if n > 0 {
        lemma_line_column_prefix(a, b, n - 1);
    }
}

/// No place in a text is on line zero.
pub proof fn lemma_line_column_bounds_all()
    ensures
        forall|bytes: Seq<u8>, n: int| (#[trigger] line_column(bytes, n)).0 >= 1,
{
    assert forall|bytes: Seq<u8>, n: int| (#[trigger] line_column(bytes, n)).0 >= 1 by {
        lemma_line_column_bounds(bytes, n);
    }
}

/// A place in a text as people count it.
#[derive(Debug, Clone, Copy, PartialEq, Eq, Structural)]
pub struct Position {
    /// The line, from one.
    pub line: usize,
    /// The column in bytes; zero before the first byte of a line.
    pub column: usize,
}

impl Position {
    /// Whether this is where the first `n` bytes of a text end.
    pub open spec fn ends(self, bytes: Seq<u8>, n: int) -> bool {
        (self.line as nat, self.column as nat) == line_column(bytes, n)
    }

    /// The place of `byte`, if it follows the byte that stands here.
    pub fn behind(self, byte: u8) -> (r: Position)
        requires
            self.column < usize::MAX,
        ensures
            forall|bytes: Seq<u8>, n: int|
                0 <= n < bytes.len() && bytes[n] == byte && #[trigger] self.ends(bytes, n)
                    ==> r.ends(bytes, n + 1),
            byte == 0x0a ==> r.column == 0 && r.line == (if self.line < usize::MAX {
                self.line + 1
            } else {
                usize::MAX as int
            }),
            byte != 0x0a ==> r.column == self.column + 1 && r.line == self.line,
    {
        if byte == LINE_FEED {
            Position { line: self.line.saturating_add(1), column: 0 }
        } else {
            Position { line: self.line, column: self.column + 1 }
        }
    }
}

/// Data that is either a piece of the input or built for the occasion.
#[derive(Debug)]
pub enum Reference<B, C> {
    /// A piece of the input.
    Borrowed(B),
    /// A copy, which differs from the input where that has escape sequences.
    Copied(C),
}

/// A source of JSON text.
pub trait Read<'de>: Sized {
    /// The state of the source.
    spec fn view(&self) -> Cursor;

    /// Whether the next byte has been looked at and not yet consumed.
    spec fn peeked(&self) -> bool;

    /// Consumes the next byte; `None` at the end of the input.
    fn next(&mut self) -> (r: core::result::Result<Option<u8>, std::io::Error>)
        requires
            old(self).view().valid(),
        ensures
            final(self).view().valid(),
            match r {
                Ok(Some(b)) => {
                    &&& !old(self).view().spent()
                    &&& b == old(self).view().bytes[old(self).view().pos]
                    &&& final(self).view() == old(self).view().at(old(self).view().pos + 1)
                },
                Ok(None) => {
                    &&& old(self).view().spent()
                    &&& !old(self).view().broken()
                    &&& final(self).view() == old(self).view()
                },
                Err(e) => {
                    &&& old(self).view().spent()
                    &&& old(self).view().failure == Some(e)
                    &&& final(self).view().pos == old(self).view().pos
                    &&& final(self).view().resumes(old(self).view().bytes)
                },
            },
    ;

    /// Looks at the next byte without consuming it; `None` at the end of the
    /// input.
    fn peek(&mut self) -> (r: core::result::Result<Option<u8>, std::io::Error>)
        requires
            old(self).view().valid(),
        ensures
            final(self).view().valid(),
            r is Ok ==> final(self).peeked(),
            match r {
                Ok(Some(b)) => {
                    &&& !old(self).view().spent()
                    &&& b == old(self).view().bytes[old(self).view().pos]
                    &&& final(self).view() == old(self).view()
                },
                Ok(None) => {
                    &&& old(self).view().spent()
                    &&& !old(self).view().broken()
                    &&& final(self).view() == old(self).view()
                },
                Err(e) => {
                    &&& old(self).view().spent()
                    &&& old(self).view().failure == Some(e)
                    &&& final(self).view().pos == old(self).view().pos
                    &&& final(self).view().resumes(old(self).view().bytes)
                },
            },
    ;

    /// Consumes the byte that was looked at.
    fn discard(&mut self)
        requires
            old(self).view().valid(),
            old(self).peeked(),
            !old(self).view().spent(),
        ensures
            final(self).view() == old(self).view().at(old(self).view().pos + 1),
    ;

    /// The place of the byte consumed last.
    fn position(&self) -> (r: Position)
        requires
            self.view().valid(),
        ensures
            r.ends(self.view().bytes, self.view().pos),
    ;

    /// The place of the byte that was looked at; at the end of the input, of
    /// the byte consumed last.
    fn peek_position(&self) -> (r: Position)
        requires
            self.view().valid(),
            self.peeked(),
        ensures
            r.ends(self.view().bytes, self.view().peek_end()),
    ;

    /// The number of bytes consumed so far.
    fn byte_offset(&self) -> (r: usize)
        requires
            self.view().valid(),
        ensures
            r == self.view().pos,
    ;

    /// The text from `start` up to `end`, where the source can lend it.
    fn lend(&self, start: usize, end: usize) -> (r: Option<&'de [u8]>)
        requires
            self.view().valid(),
            start <= end <= self.view().pos,
        ensures
            r is Some <==> self.view().lends,
            r matches Some(s) ==> s@ == self.view().bytes.subrange(start as int, end as int),
    ;
}

/// A source that reads from a byte slice.
#[derive(Debug)]
pub struct SliceRead<'a> {
    slice: &'a [u8],
    index: usize,
}

impl<'a> SliceRead<'a> {
    /// A source at the first byte of `slice`.
    pub fn new(slice: &'a [u8]) -> (r: SliceRead<'a>)
        ensures
            r@ == (Cursor { bytes: slice@, pos: 0, failure: None, lends: true }),
            r@.valid(),
    {
        let n: usize = slice.len();
        SliceRead { slice, index: 0 }
    }

    fn position_of_index(&self, n: usize) -> (r: Position)
        requires
            n <= self.slice@.len(),
        ensures
            r.ends(self.slice@, n as int),
    {
        let mut place: Position = Position { line: 1, column: 0 };
        let mut i: usize = 0;
        while i < n
            invariant
                i <= n <= self.slice@.len(),
                place.ends(self.slice@, i as int),
            decreases n - i,
        {
            proof {
                lemma_line_column_bounds(self.slice@, i as int);
            }
            place = place.behind(self.slice[i]);
            i = i + 1;
        }
        place
    }
}

impl<'a> Read<'a> for SliceRead<'a> {
    closed spec fn view(&self) -> Cursor {
        Cursor { bytes: self.slice@, pos: self.index as int, failure: None, lends: true }
    }

    open spec fn peeked(&self) -> bool {
        true
    }

    fn next(&mut self) -> (r: core::result::Result<Option<u8>, std::io::Error>) {
        if self.index < self.slice.len() {
            let b: u8 = self.slice[self.index];
            self.index = self.index + 1;
            Ok(Some(b))
        } else {
            Ok(None)
        }
    }

    fn peek(&mut self) -> (r: core::result::Result<Option<u8>, std::io::Error>) {
        if self.index < self.slice.len() {
            Ok(Some(self.slice[self.index]))
        } else {
            Ok(None)
        }
    }

    fn discard(&mut self) {
        self.index = self.index + 1;
    }

    fn position(&self) -> (r: Position) {
        self.position_of_index(self.index)
    }

    fn peek_position(&self) -> (r: Position) {
        if self.index < self.slice.len() {
            self.position_of_index(self.index + 1)
        } else {
            self.position_of_index(self.index)
        }
    }

    fn byte_offset(&self) -> (r: usize) {
        self.index
    }

    fn lend(&self, start: usize, end: usize) -> (r: Option<&'a [u8]>) {
        Some(vstd::slice::slice_subrange(self.slice, start, end))
    }
}

/// A source that reads from a string slice.
#[derive(Debug)]
pub struct StrRead<'a> {
    delegate: SliceRead<'a>,
}

impl<'a> StrRead<'a> {
    /// A source at the first byte of `s`.
    pub fn new(s: &'a str) -> (r: StrRead<'a>)
        ensures
            r@ == (Cursor {
                bytes: vstd::utf8::encode_utf8(s@),
                pos: 0,
                failure: None,
                lends: true,
            }),
            r@.valid(),
    {
        StrRead { delegate: SliceRead::new(s.as_bytes()) }
    }
}

impl<'a> Read<'a> for StrRead<'a> {
    closed spec fn view(&self) -> Cursor {
        self.delegate.view()
    }

    open spec fn peeked(&self) -> bool {
        true
    }

    fn next(&mut self) -> (r: core::result::Result<Option<u8>, std::io::Error>) {
        self.delegate.next()
    }

    fn peek(&mut self) -> (r: core::result::Result<Option<u8>, std::io::Error>) {
        self.delegate.peek()
    }

    fn discard(&mut self) {
        self.delegate.discard()
    }

    fn position(&self) -> (r: Position) {
        self.delegate.position()
    }

    fn peek_position(&self) -> (r: Position) {
        self.delegate.peek_position()
    }

    fn byte_offset(&self) -> (r: usize) {
        self.delegate.byte_offset()
    }

    fn lend(&self, start: usize, end: usize) -> (r: Option<&'a [u8]>) {
        self.delegate.lend(start, end)
    }
}

} // verus!
