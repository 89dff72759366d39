//! An input cursor that tracks the 1-based source line and column of its
//! byte position, as determined by the newlines in the input consumed so far.

use vstd::prelude::*;

verus! {

/// Newline byte.
pub const NL: u8 = 10;

/// Largest input length the parser accepts.  Lines, columns, spans and
/// sibling indices are all recorded as `i32` in the emitted locations, so
/// every coordinate derived from the input must fit in an `i32`; keeping the
/// length itself a little below `i32::MAX` leaves room for the small offsets
/// added along the way.
pub const INPUT_MAX: usize = 0x7fff_ff00;

/// The number of lines in `s.take(n)`: one more than the newlines among the
/// first `n` bytes.
pub open spec fn line_count(s: Seq<u8>, n: int) -> int
    decreases n,
{
    if n <= 0 {
        1
    } else {
        line_count(s, n - 1) + if s[n - 1] == NL {
            1int
        } else {
            0int
        }
    }
}

/// The position right after the last newline among the first `n` bytes of
/// `s`: the position where the line containing position `n` begins.
pub open spec fn line_begin(s: Seq<u8>, n: int) -> int
    decreases n,
{
    if n <= 0 {
        0
    } else if s[n - 1] == NL {
        n
    } else {
        line_begin(s, n - 1)
    }
}

/// The 1-based column of position `n` in `s`.
pub open spec fn col_at(s: Seq<u8>, n: int) -> int {
    n - line_begin(s, n) + 1
}

/// An input cursor: a byte position plus the 1-based line and column that
/// position lies on.
#[derive(Clone, Copy, Debug)]
pub struct Cursor {
    pub pos: usize,
    pub line: usize,
    pub col: usize,
}

impl Cursor {
    /// The cursor is inside `s` and its line and column agree with the
    /// newlines of the consumed prefix.
    pub open spec fn wf(self, s: Seq<u8>) -> bool {
        &&& self.pos <= s.len()
        &&& self.line == line_count(s, self.pos as int)
        &&& self.col == col_at(s, self.pos as int)
    }

    /// A cursor at the start of the input: line 1, column 1.
    pub fn start() -> (c: Cursor)
        ensures
            c.pos == 0,
            c.line == 1,
            c.col == 1,
    {
        Cursor { pos: 0, line: 1, col: 1 }
    }

    /// Step over one byte of `input`, keeping line and column in agreement.
    pub fn step(self, input: &Vec<u8>) -> (c: Cursor)
        requires
            self.wf(input@),
            self.pos < input@.len(),
            input@.len() <= INPUT_MAX,
        ensures
            c.wf(input@),
            c.pos == self.pos + 1,
    {
        proof {
            lemma_line_count_le(input@, self.pos as int);
            lemma_line_begin_range(input@, self.pos as int);
        }
        let b = input[self.pos];
        if b == NL {
            Cursor { pos: self.pos + 1, line: self.line + 1, col: 1 }
        } else {
            Cursor { pos: self.pos + 1, line: self.line, col: self.col + 1 }
        }
    }
}

/// Lines are counted from 1 and there is at most one line per byte:
/// `1 <= line_count(s, n) <= n + 1`.
pub proof fn lemma_line_count_le(s: Seq<u8>, n: int)
    ensures
        1 <= line_count(s, n),
        n >= 0 ==> line_count(s, n) <= n + 1,
        n < 0 ==> line_count(s, n) == 1,
    decreases n,
{
    if n > 0 {
        lemma_line_count_le(s, n - 1);
    }
}

/// The beginning of the current line lies between 0 and `n`.
pub proof fn lemma_line_begin_range(s: Seq<u8>, n: int)
    ensures
        n >= 0 ==> 0 <= line_begin(s, n) <= n,
        n < 0 ==> line_begin(s, n) == 0,
    decreases n,
{
    if n > 0 {
        lemma_line_begin_range(s, n - 1);
    }
}

/// Consuming more input never moves the line count down.
pub proof fn lemma_line_count_mono(s: Seq<u8>, m: int, n: int)
    requires
        m <= n,
    ensures
        line_count(s, m) <= line_count(s, n),
    decreases n - m,
{
    if m < n {
        lemma_line_count_mono(s, m, n - 1);
    }
}


/// A well-formed cursor's line and column are at least 1 and at most one
/// past its position.
pub proof fn lemma_cursor_bounds(c: Cursor, s: Seq<u8>)
    requires
        c.wf(s),
    ensures
        1 <= c.line <= c.pos + 1,
        1 <= c.col <= c.pos + 1,
{
    lemma_line_count_le(s, c.pos as int);
    lemma_line_begin_range(s, c.pos as int);
}

} // verus!
