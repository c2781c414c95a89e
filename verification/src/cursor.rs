//! The cursor: a byte buffer and a position in it.
//!
//! The cursor rests only on *stops*. Every offset of the buffer is a stop
//! but a line feed that a carriage return follows, which is stepped over
//! together with that carriage return, as one line break. The first byte is
//! always a stop, and so is the last: the cursor never leaves the buffer.
//!
//! Line and column are functions of the offset and the buffer alone, so a
//! move back to an offset restores the whole position.

use vstd::prelude::*;
use crate::ascii::{is_line_break, is_whitespace, CR, LF};
use crate::error::ScanError;
use crate::token::Position;

verus! {

/// Whether the cursor can rest on offset `p` of `src`.
pub open spec fn is_stop(src: Seq<u8>, p: int) -> bool {
    &&& 0 <= p < src.len()
    &&& !(p >= 1 && src[p] == LF && p + 1 < src.len() && src[p + 1] == CR)
}

/// The stop on which a move to offset `p` lands: `p` itself, or the
/// carriage return after it.
pub open spec fn land(src: Seq<u8>, p: int) -> int {
    if is_stop(src, p) {
        p
    } else {
        p + 1
    }
}

/// The stop after `p`, or `p` itself where `p` is on the last byte.
pub open spec fn next_stop(src: Seq<u8>, p: int) -> int {
    if p + 1 < src.len() {
        land(src, p + 1)
    } else {
        p
    }
}

/// The stop before `p`, for a stop `p` other than the first.
pub open spec fn prev_stop(src: Seq<u8>, p: int) -> int {
    if p >= 2 && !is_stop(src, p - 1) {
        p - 2
    } else {
        p - 1
    }
}

/// The greatest stop that is not after `p`.
pub open spec fn floor_stop(src: Seq<u8>, p: int) -> int {
    if is_stop(src, p) {
        p
    } else {
        p - 1
    }
}

/// The stop on which a move forward to offset `target` ends: the stop on
/// which it lands, or the last byte where `target` lies past the buffer
/// (offset 0 in an empty buffer).
pub open spec fn reach(src: Seq<u8>, target: int) -> int {
    if target < src.len() {
        land(src, target)
    } else if src.len() > 0 {
        src.len() - 1
    } else {
        0
    }
}

/// Whether arriving at offset `p` starts a new line.
pub open spec fn breaks_line(src: Seq<u8>, p: int) -> bool {
    p > 0 && is_stop(src, p) && is_line_break(src[p])
}

/// The line of offset `p`: the number of line breaks arrived at on the way
/// from the first byte to `p`.
#[verifier::opaque]
pub open spec fn line_of(src: Seq<u8>, p: int) -> nat
    decreases p,
{
    if p <= 0 {
        0
    } else if breaks_line(src, p) {
        line_of(src, p - 1) + 1
    } else {
        line_of(src, p - 1)
    }
}

/// The column of offset `p`: 1 on a line break, one more than the column
/// before it elsewhere, and 0 on the first byte.
#[verifier::opaque]
pub open spec fn column_of(src: Seq<u8>, p: int) -> nat
    decreases p,
{
    if p <= 0 {
        0
    } else if is_line_break(src[p]) {
        1
    } else {
        column_of(src, p - 1) + 1
    }
}

/// The stop reached from `p` by `k` moves forward.
pub open spec fn stops_forward(src: Seq<u8>, p: int, k: nat) -> int
    decreases k,
{
    if k == 0 {
        p
    } else {
        stops_forward(src, next_stop(src, p), (k - 1) as nat)
    }
}

/// The stop reached from `p` by `k` moves back, if that many stops lie
/// before `p`.
pub open spec fn stops_back(src: Seq<u8>, p: int, k: nat) -> Option<int>
    decreases k,
{
    if k == 0 {
        Some(p)
    } else if p <= 0 {
        None
    } else {
        stops_back(src, prev_stop(src, p), (k - 1) as nat)
    }
}

/// The stop reached from `p` by moving forward over whitespace. Whitespace
/// on the last byte is not left.
#[verifier::opaque]
pub open spec fn skip_whitespace(src: Seq<u8>, p: int) -> int
    decreases src.len() - p,
{
    if 0 <= p && p + 1 < src.len() && is_whitespace(src[p]) {
        skip_whitespace(src, next_stop(src, p))
    } else {
        p
    }
}

/// The position of the first byte.
pub open spec fn origin() -> Position {
    Position { line: 0, column: 0, offset: 0 }
}

/// The position that belongs to offset `p` of `src`.
pub open spec fn position_at(src: Seq<u8>, p: int) -> Position {
    Position {
        line: line_of(src, p) as usize,
        column: column_of(src, p) as usize,
        offset: p as usize,
    }
}

/// Neither line nor column exceeds the offset.
pub proof fn lemma_position_bounded(src: Seq<u8>, p: int)
    requires
        0 <= p,
    ensures
        line_of(src, p) <= p,
        column_of(src, p) <= p,
    decreases p,
{
    reveal(line_of);
    reveal(column_of);
    if p > 0 {
        lemma_position_bounded(src, p - 1);
    }
}

/// A move forward lands on a stop after the one it left, and no stop lies
/// between the two.
pub proof fn lemma_next_stop(src: Seq<u8>, p: int)
    requires
        is_stop(src, p),
        p + 1 < src.len(),
    ensures
        is_stop(src, next_stop(src, p)),
        p < next_stop(src, p) <= p + 2,
        prev_stop(src, next_stop(src, p)) == p,
        forall|q: int| p < q < next_stop(src, p) ==> !is_stop(src, q),
{
}

/// A move back lands on a stop before the one it left, and a move forward
/// from there returns.
pub proof fn lemma_prev_stop(src: Seq<u8>, p: int)
    requires
        is_stop(src, p),
        p > 0,
    ensures
        is_stop(src, prev_stop(src, p)),
        p - 2 <= prev_stop(src, p) < p,
        next_stop(src, prev_stop(src, p)) == p,
{
}

/// How line and column change over one move forward.
pub proof fn lemma_position_step(src: Seq<u8>, p: int)
    requires
        is_stop(src, p),
        p + 1 < src.len(),
    ensures
        ({
            let t = next_stop(src, p);
            &&& line_of(src, t) == line_of(src, p) + if is_line_break(src[t]) { 1nat } else { 0nat }
            &&& column_of(src, t) == if is_line_break(src[t]) { 1 } else { column_of(src, p) + 1 }
        }),
{
    reveal(line_of);
    reveal(column_of);
    let t = next_stop(src, p);
    if t == p + 2 {
        assert(!breaks_line(src, p + 1));
        assert(line_of(src, p + 1) == line_of(src, p));
    }
}

/// The first byte is at the origin.
pub proof fn lemma_position_origin(src: Seq<u8>)
    ensures
        position_at(src, 0) == origin(),
{
    reveal(line_of);
    reveal(column_of);
}

/// One step of moving over whitespace.
pub proof fn lemma_skip_whitespace_step(src: Seq<u8>, p: int)
    ensures
        skip_whitespace(src, p) == if 0 <= p && p + 1 < src.len() && is_whitespace(src[p]) {
            skip_whitespace(src, next_stop(src, p))
        } else {
            p
        },
{
    reveal(skip_whitespace);
}

/// Moving over whitespace never moves back, stays inside the buffer and
/// ends on a stop.
pub proof fn lemma_skip_whitespace(src: Seq<u8>, p: int)
    ensures
        p <= skip_whitespace(src, p),
        0 <= p < src.len() ==> skip_whitespace(src, p) < src.len(),
        is_stop(src, p) ==> is_stop(src, skip_whitespace(src, p)),
    decreases src.len() - p,
{
    lemma_skip_whitespace_step(src, p);
    if 0 <= p && p + 1 < src.len() && is_whitespace(src[p]) {
        lemma_skip_whitespace(src, next_stop(src, p));
    }
}

/// A cursor over a borrowed buffer.
#[derive(Debug, Clone, Copy)]
pub struct Cursor<'a> {
    src: &'a [u8],
    pos: Position,
}

impl<'a> Cursor<'a> {
    /// The buffer.
    pub closed spec fn buf(&self) -> Seq<u8> {
        self.src@
    }

    /// The position.
    pub closed spec fn pos(&self) -> Position {
        self.pos
    }

    /// The offset, as an integer.
    pub open spec fn at(&self) -> int {
        self.pos().offset as int
    }

    /// The cursor rests on a stop, and its line and column are those of its
    /// offset. On an empty buffer it rests at the origin.
    pub open spec fn wf(&self) -> bool {
        &&& self.pos() == position_at(self.buf(), self.at())
        &&& if self.buf().len() == 0 {
            self.at() == 0
        } else {
            is_stop(self.buf(), self.at())
        }
    }

    /// A cursor on the first byte of `src`.
    pub fn new(src: &'a [u8]) -> (c: Cursor<'a>)
        ensures
            c.wf(),
            c.buf() == src@,
            c.pos() == origin(),
    {
        proof {
            lemma_position_origin(src@);
        }
        Cursor { src, pos: Position { line: 0, column: 0, offset: 0 } }
    }

    /// The position.
    pub fn position(&self) -> (p: Position)
        ensures
            p == self.pos(),
    {
        self.pos
    }

    /// The length of the buffer.
    pub fn len(&self) -> (n: usize)
        ensures
            n == self.buf().len(),
    {
        self.src.len()
    }

    /// The byte under the cursor.
    pub fn current(&self) -> (c: u8)
        requires
            self.wf(),
            self.buf().len() > 0,
        ensures
            c == self.buf()[self.at()],
    {
        self.src[self.pos.offset]
    }

    /// Whether a byte lies past the cursor.
    pub fn can_forward(&self) -> (r: bool)
        requires
            self.wf(),
        ensures
            r == (self.at() + 1 < self.buf().len()),
    {
        self.pos.offset < self.src.len() && self.pos.offset + 1 < self.src.len()
    }

    /// Moves to the next stop and says whether it did. On the last byte,
    /// and on an empty buffer, nothing moves.
    pub fn forward(&mut self) -> (r: bool)
        requires
            old(self).wf(),
        ensures
            final(self).wf(),
            final(self).buf() == old(self).buf(),
            r == (old(self).at() + 1 < old(self).buf().len()),
            final(self).at() == next_stop(old(self).buf(), old(self).at()),
            !r ==> final(self).pos() == old(self).pos(),
    {
        let n: usize = self.src.len();
        if self.pos.offset >= n || self.pos.offset + 1 >= n {
            return false;
        }
        proof {
            lemma_next_stop(self.buf(), self.at());
            lemma_position_step(self.buf(), self.at());
            lemma_position_bounded(self.buf(), self.at());
        }
        let mut offset: usize = self.pos.offset + 1;
        let mut line: usize = self.pos.line;
        let mut column: usize = self.pos.column + 1;
        let c = self.src[offset];
        if c == LF {
            if self.assert_match(offset + 1, CR) {
                offset = offset + 1;
            }
            line = line + 1;
            column = 1;
        } else if c == CR {
            line = line + 1;
            column = 1;
        }
        self.pos = Position { line, column, offset };
        true
    }

    /// Whether the byte at `offset` exists and is `b`.
    pub fn assert_match(&self, offset: usize, b: u8) -> (r: bool)
        ensures
            r == (offset < self.buf().len() && self.buf()[offset as int] == b),
    {
        if offset >= self.src.len() {
            return false;
        }
        self.src[offset] == b
    }

    /// Whether a byte follows the cursor and is `b`.
    pub fn assert_next(&self, b: u8) -> (r: bool)
        requires
            self.wf(),
        ensures
            r == (self.at() + 1 < self.buf().len() && self.buf()[self.at() + 1] == b),
    {
        let n: usize = self.src.len();
        if self.pos.offset >= n || self.pos.offset + 1 >= n {
            return false;
        }
        self.src[self.pos.offset + 1] == b
    }

    /// Moves to the stop before the cursor. At the first byte nothing moves
    /// and the move is refused.
    pub fn back(&mut self) -> (r: Result<(), ScanError>)
        requires
            old(self).wf(),
        ensures
            final(self).wf(),
            final(self).buf() == old(self).buf(),
            r is Err <==> old(self).at() == 0,
            r is Err ==> r == Err::<(), ScanError>(ScanError::CursorUnderflow) && final(self).pos()
                == old(self).pos(),
            r is Ok ==> final(self).at() == prev_stop(old(self).buf(), old(self).at()),
    {
        let from: usize = self.pos.offset;
        if from == 0 {
            return Err(ScanError::CursorUnderflow);
        }
        let c = self.src[from];
        let mut offset: usize = from - 1;
        if c == CR && offset >= 1 && self.src[offset] == LF {
            offset = offset - 1;
        }
        proof {
            lemma_prev_stop(self.buf(), from as int);
            lemma_position_step(self.buf(), offset as int);
            lemma_position_bounded(self.buf(), offset as int);
        }
        let mut line: usize = self.pos.line;
        let mut column: usize = self.pos.column;
        if is_line_break(c) {
            line = line - 1;
            let mut q: usize = offset;
            column = 0;
            while q > 0 && !is_line_break(self.src[q])
                invariant
                    q <= offset < self.src@.len(),
                    column <= offset - q,
                    column_of(self.src@, offset as int) == column_of(self.src@, q as int) + column,
                decreases q,
            {
                proof {
                    reveal(column_of);
                }
                column = column + 1;
                q = q - 1;
            }
            proof {
                reveal(column_of);
            }
            if q > 0 {
                column = column + 1;
            }
        } else {
            column = column - 1;
        }
        self.pos = Position { line, column, offset };
        Ok(())
    }

    /// Moves `n` stops forward, or `-n` stops back where `n` is negative.
    /// Forward moves end on the last byte. Where fewer stops lie before the
    /// cursor than are asked for, nothing moves and the move is refused.
    pub fn seek(&mut self, n: isize) -> (r: Result<(), ScanError>)
        requires
            old(self).wf(),
        ensures
            final(self).wf(),
            final(self).buf() == old(self).buf(),
            n >= 0 ==> r is Ok && final(self).at() == stops_forward(
                old(self).buf(),
                old(self).at(),
                n as nat,
            ),
            n < 0 ==> match stops_back(old(self).buf(), old(self).at(), (-n) as nat) {
                Some(q) => r is Ok && final(self).at() == q,
                None => r == Err::<(), ScanError>(ScanError::CursorUnderflow) && final(self).pos()
                    == old(self).pos(),
            },
    {
        let start = self.pos;
        let mut i: isize = n;
        while i < 0
            invariant
                self.wf(),
                old(self).wf(),
                self.buf() == old(self).buf(),
                start == old(self).pos(),
                n <= i,
                i <= 0 || i == n,
                n >= 0 ==> self.pos() == old(self).pos(),
                n < 0 ==> stops_back(self.buf(), start.offset as int, (-n) as nat) == stops_back(
                    self.buf(),
                    self.at(),
                    (-i) as nat,
                ),
            decreases -i,
        {
            match self.back() {
                Ok(()) => {},
                Err(e) => {
                    self.pos = start;
                    return Err(e);
                },
            }
            i = i + 1;
        }
        while i > 0
            invariant
                self.wf(),
                self.buf() == old(self).buf(),
                0 <= i <= n || (i <= 0 && n < 0),
                n < 0 ==> stops_back(self.buf(), old(self).at(), (-n) as nat) == Some(self.at()),
                n >= 0 ==> stops_forward(self.buf(), old(self).at(), n as nat) == stops_forward(
                    self.buf(),
                    self.at(),
                    i as nat,
                ),
            decreases i,
        {
            self.forward();
            i = i - 1;
        }
        Ok(())
    }

    /// Moves back to offset `pos`, or to the stop before it where the cursor
    /// cannot rest on `pos`. Where `pos` is not before the cursor, nothing
    /// moves.
    pub fn back_pos_diff(&mut self, pos: usize)
        requires
            old(self).wf(),
        ensures
            final(self).wf(),
            final(self).buf() == old(self).buf(),
            final(self).at() == if pos < old(self).at() {
                floor_stop(old(self).buf(), pos as int)
            } else {
                old(self).at()
            },
    {
        while self.pos.offset > pos
            invariant
                self.wf(),
                self.buf() == old(self).buf(),
                self.at() <= old(self).at(),
                pos < old(self).at() ==> self.at() >= floor_stop(self.buf(), pos as int),
                pos >= old(self).at() ==> self.at() == old(self).at(),
            decreases self.at(),
        {
            proof {
                lemma_prev_stop(self.buf(), self.at());
            }
            let _ = self.back();
        }
    }

    /// Moves forward over whitespace.
    pub fn consume_whitespace(&mut self)
        requires
            old(self).wf(),
        ensures
            final(self).wf(),
            final(self).buf() == old(self).buf(),
            final(self).at() == skip_whitespace(old(self).buf(), old(self).at()),
    {
        while self.can_forward() && is_whitespace(self.current())
            invariant
                self.wf(),
                self.buf() == old(self).buf(),
                skip_whitespace(self.buf(), self.at()) == skip_whitespace(
                    old(self).buf(),
                    old(self).at(),
                ),
            decreases self.buf().len() - self.at(),
        {
            proof {
                lemma_skip_whitespace_step(self.buf(), self.at());
                lemma_next_stop(self.buf(), self.at());
            }
            self.forward();
        }
        proof {
            lemma_skip_whitespace_step(self.buf(), self.at());
        }
    }

    /// Moves forward until the cursor is at or past offset `target`, or on
    /// the last byte. Where `target` is not past the cursor, nothing moves.
    pub fn advance_to(&mut self, target: usize)
        requires
            old(self).wf(),
        ensures
            final(self).wf(),
            final(self).buf() == old(self).buf(),
            final(self).at() == if target > old(self).at() {
                reach(old(self).buf(), target as int)
            } else {
                old(self).at()
            },
    {
        while self.pos.offset < target && self.can_forward()
            invariant
                self.wf(),
                self.buf() == old(self).buf(),
                old(self).at() <= self.at(),
                target <= old(self).at() ==> self.at() == old(self).at(),
                target > old(self).at() ==> self.at() <= reach(self.buf(), target as int),
            decreases self.buf().len() - self.at(),
        {
            proof {
                lemma_next_stop(self.buf(), self.at());
            }
            self.forward();
        }
    }
}

} // verus!
