//! The scanner: a cursor, the delimiter pair, the mode, and the queue of
//! pending tokens. Each pull returns one token.

use std::collections::VecDeque;
use vstd::prelude::*;
use vstd::slice::slice_to_vec;
use crate::ascii::{is_line_break, EQS, GTR, LSS, MUL, QUO, REM, SLA};
use crate::cursor::{
    lemma_next_stop, lemma_skip_whitespace, next_stop, position_at, reach, skip_whitespace, Cursor,
};
use crate::error::ScanError;
use crate::extract::{
    ends_name, lemma_matches_at, lemma_name_ended, lemma_quoted_length, matches_at, name_at,
};
use crate::laws::{
    lemma_markup_shape, lemma_no_end_add, lemma_round_shape, lemma_tag_prefix_assoc, no_end,
};
use crate::model::{
    attributes_at, collect, comment_round, initial_core, markup_at, mode_of, open_round, raw_round,
    raw_span, remaining, round, span_with_prefix, lemma_collect_step, lemma_raw_span_step,
    lemma_value_span, statement_round, step, tag_end_at, tag_finish, tag_with_prefix, terminator_at,
    text_round, token_at, tokens_of, tokens_with_prefix, value_span, Core, Mode, Phase, Round,
    ScannerView, Source, Tag, Terminator,
};
use crate::token::{Operator, Payload, PayloadView, Position, Token, TokenKind, TokenView};

verus! {

/// The mathematical values of a sequence of tokens.
pub open spec fn token_views(tokens: Seq<Token>) -> Seq<TokenView> {
    tokens.map_values(|t: Token| t@)
}

/// The state `v` with the cursor at `offset`.
pub open spec fn moved(v: ScannerView, offset: int) -> ScannerView {
    ScannerView {
        source: v.source,
        core: Core { offset, literal: v.core.literal, phase: v.core.phase },
        pending: v.pending,
    }
}

/// The state `v` with `core` in place of its own.
pub open spec fn with_core(v: ScannerView, core: Core) -> ScannerView {
    ScannerView { source: v.source, core, pending: v.pending }
}

/// The tokens of `queue`, in their order, as a vector.
fn into_vec(queue: &mut VecDeque<Token>) -> (out: Vec<Token>)
    ensures
        token_views(out@) == token_views(old(queue)@),
{
    let ghost tokens = token_views(queue@);
    let mut out: Vec<Token> = Vec::new();
    assert(token_views(out@) + token_views(queue@) =~= tokens);
    loop
        invariant
            tokens == token_views(old(queue)@),
            tokens == token_views(out@) + token_views(queue@),
        decreases queue@.len(),
    {
        let ghost done = token_views(out@);
        let ghost left = token_views(queue@);
        match queue.pop_front() {
            Some(t) => {
                out.push(t);
                assert(token_views(out@) + token_views(queue@) =~= done + left);
            },
            None => {
                assert(token_views(out@) + token_views(queue@) =~= token_views(out@));
                return out;
            },
        }
    }
}

/// How the reading of a tag stands after one round over its attributes.
#[derive(Debug, Clone, Copy, PartialEq, Eq, Structural)]
pub enum TagStep {
    /// Further attributes or the terminator may follow.
    More,
    /// The terminator was read: the tag is complete.
    Complete,
}

/// A scanner over a borrowed buffer, with a borrowed delimiter pair.
#[derive(Debug)]
pub struct Scanner<'a> {
    cursor: Cursor<'a>,
    stmt_start: &'a [u8],
    stmt_end: &'a [u8],
    literal: bool,
    phase: Phase,
    tok_buf: VecDeque<Token>,
}

impl<'a> View for Scanner<'a> {
    type V = ScannerView;

    closed spec fn view(&self) -> ScannerView {
        ScannerView {
            source: Source {
                bytes: self.cursor.buf(),
                open: self.stmt_start@,
                close: self.stmt_end@,
            },
            core: Core { offset: self.cursor.at(), literal: self.literal, phase: self.phase },
            pending: token_views(self.tok_buf@),
        }
    }
}

impl<'a> Scanner<'a> {
    /// The cursor rests on a stop of the buffer, with the line and column
    /// of its offset.
    pub closed spec fn inv(&self) -> bool {
        self.cursor.wf()
    }

    /// The cursor is well formed, neither delimiter is empty, and no
    /// pending token is the sentinel.
    pub open spec fn wf(&self) -> bool {
        &&& self.inv()
        &&& self@.source.open.len() > 0
        &&& self@.source.close.len() > 0
        &&& no_end(self@.pending)
    }

    /// The position of the cursor.
    pub closed spec fn pos(&self) -> Position {
        self.cursor.pos()
    }

    /// A scanner at the first byte of `src`, in markup mode, with nothing
    /// pending.
    pub fn new(src: &'a [u8], stmt_start: &'a [u8], stmt_end: &'a [u8]) -> (s: Scanner<'a>)
        requires
            stmt_start@.len() > 0,
            stmt_end@.len() > 0,
        ensures
            s.wf(),
            s@ == (ScannerView {
                source: Source { bytes: src@, open: stmt_start@, close: stmt_end@ },
                core: initial_core(),
                pending: Seq::empty(),
            }),
    {
        let s = Scanner {
            cursor: Cursor::new(src),
            stmt_start,
            stmt_end,
            literal: false,
            phase: Phase::Text,
            tok_buf: VecDeque::new(),
        };
        assert(token_views(s.tok_buf@) =~= Seq::empty());
        s
    }

    /// The position of the cursor.
    pub fn position(&self) -> (p: Position)
        ensures
            p == self.pos(),
            p.offset == self@.core.offset,
            self.wf() ==> p == position_at(self@.source.bytes, self@.core.offset),
    {
        self.cursor.position()
    }

    /// Whether literal output is on.
    pub fn in_literal(&self) -> (r: bool)
        ensures
            r == self@.core.literal,
    {
        self.literal
    }

    /// The mode: statement or comment inside a statement, and else literal
    /// or markup, as literal output is on or off.
    pub fn mode(&self) -> (m: Mode)
        ensures
            m == mode_of(self@.core.literal, self@.core.phase),
    {
        match self.phase {
            Phase::Statement => Mode::Statement,
            Phase::LineComment | Phase::BlockComment => Mode::Comment,
            Phase::Text => if self.literal {
                Mode::Literal
            } else {
                Mode::Markup
            },
        }
    }

    /// The number of pending tokens.
    pub fn pending(&self) -> (n: usize)
        ensures
            n == self@.pending.len(),
    {
        self.tok_buf.len()
    }

    /// Steps over one byte, so that scanning can go on behind a place at
    /// which a pull fails. Says whether the cursor moved: on the last byte
    /// it does not.
    pub fn skip(&mut self) -> (r: bool)
        requires
            old(self).wf(),
        ensures
            final(self).wf(),
            r == (old(self)@.core.offset + 1 < old(self)@.source.bytes.len()),
            final(self)@ == moved(
                old(self)@,
                next_stop(old(self)@.source.bytes, old(self)@.core.offset),
            ),
            !r ==> final(self).pos() == old(self).pos(),
    {
        self.cursor.forward()
    }

    /// Matches the open delimiter at the cursor. On a match the cursor
    /// moves just past it, and the token carries the delimiter and the
    /// position at which it began. Else nothing changes.
    pub fn match_stmt_start(&mut self) -> (r: Option<Token>)
        requires
            old(self).wf(),
        ensures
            final(self).wf(),
            match r {
                Some(t) => {
                    &&& matches_at(
                        old(self)@.source.bytes,
                        old(self)@.core.offset,
                        old(self)@.source.open,
                    )
                    &&& t@ == token_at(
                        TokenKind::StatementOpen,
                        old(self)@.source.bytes,
                        old(self)@.core.offset,
                        PayloadView::Bytes(old(self)@.source.open),
                    )
                    &&& final(self)@ == moved(
                        old(self)@,
                        reach(
                            old(self)@.source.bytes,
                            old(self)@.core.offset + old(self)@.source.open.len(),
                        ),
                    )
                },
                None => {
                    &&& !matches_at(
                        old(self)@.source.bytes,
                        old(self)@.core.offset,
                        old(self)@.source.open,
                    )
                    &&& final(self)@ == old(self)@
                    &&& final(self).pos() == old(self).pos()
                },
            },
    {
        let pos = self.cursor.position();
        if !self.cursor.match_bytes(self.stmt_start) {
            return None;
        }
        let bytes = slice_to_vec(self.stmt_start);
        Some(Token { kind: TokenKind::StatementOpen, pos, payload: Payload::Bytes(bytes) })
    }

    /// Matches the close delimiter at the cursor. On a match the cursor
    /// moves just past it. Else nothing changes.
    pub fn match_stmt_end(&mut self) -> (r: bool)
        requires
            old(self).wf(),
        ensures
            final(self).wf(),
            r == matches_at(
                old(self)@.source.bytes,
                old(self)@.core.offset,
                old(self)@.source.close,
            ),
            r ==> final(self)@ == moved(
                old(self)@,
                reach(
                    old(self)@.source.bytes,
                    old(self)@.core.offset + old(self)@.source.close.len(),
                ),
            ),
            !r ==> final(self)@ == old(self)@ && final(self).pos() == old(self).pos(),
    {
        self.cursor.match_bytes(self.stmt_end)
    }

    /// One round inside a statement: the close delimiter, which ends the
    /// statement, or a comparison operator. At any other byte the sentinel
    /// is returned and nothing changes.
    pub fn scan_stmt(&mut self) -> (t: Token)
        requires
            old(self).wf(),
        ensures
            final(self).wf(),
            seq![t@] == statement_round(old(self)@.source, old(self)@.core).tokens,
            final(self)@ == with_core(
                old(self)@,
                statement_round(old(self)@.source, old(self)@.core).core,
            ),
            t.kind == TokenKind::End ==> final(self).pos() == old(self).pos(),
    {
        let pos = self.cursor.position();
        if self.cursor.len() == 0 {
            return Token { kind: TokenKind::End, pos, payload: Payload::Empty };
        }
        if self.match_stmt_end() {
            self.phase = Phase::Text;
            let bytes = slice_to_vec(self.stmt_end);
            return Token { kind: TokenKind::StatementClose, pos, payload: Payload::Bytes(bytes) };
        }
        let c = self.cursor.current();
        if c == LSS || c == GTR {
            let wide = self.cursor.assert_next(EQS);
            let op = if c == LSS {
                if wide {
                    Operator::LessEqual
                } else {
                    Operator::Less
                }
            } else {
                if wide {
                    Operator::GreaterEqual
                } else {
                    Operator::Greater
                }
            };
            let n: usize = if wide {
                2
            } else {
                1
            };
            self.cursor.advance_to(pos.offset + n);
            return Token { kind: TokenKind::Operator, pos, payload: Payload::Operator(op) };
        }
        Token { kind: TokenKind::End, pos, payload: Payload::Empty }
    }

    /// Reads a raw span from the cursor on: the bytes on which the cursor
    /// rests until the terminator `t` stands at the cursor, or the cursor
    /// is on the last byte. A line break or a `*/` that ends the span is
    /// consumed; an open delimiter is not.
    pub fn scan_raw(&mut self, t: Terminator) -> (bytes: Vec<u8>)
        requires
            old(self).wf(),
        ensures
            final(self).wf(),
            bytes@ == raw_span(
                old(self)@.source.bytes,
                old(self)@.source.open,
                t,
                old(self)@.core.offset,
            ).0,
            final(self)@ == moved(
                old(self)@,
                raw_span(
                    old(self)@.source.bytes,
                    old(self)@.source.open,
                    t,
                    old(self)@.core.offset,
                ).1,
            ),
    {
        let mut buf: Vec<u8> = Vec::new();
        let ghost src = self@.source.bytes;
        let ghost open = self@.source.open;
        let ghost start = self@.core.offset;
        assert(span_with_prefix(buf@, raw_span(src, open, t, start)) == raw_span(
            src,
            open,
            t,
            start,
        )) by {
            assert(buf@ + raw_span(src, open, t, start).0 =~= raw_span(src, open, t, start).0);
        }
        while self.cursor.can_forward()
            invariant
                self.wf(),
                self@ == moved(old(self)@, self@.core.offset),
                src == self@.source.bytes,
                open == self@.source.open,
                start == old(self)@.core.offset,
                raw_span(src, open, t, start) == span_with_prefix(
                    buf@,
                    raw_span(src, open, t, self@.core.offset),
                ),
            decreases src.len() - self@.core.offset,
        {
            let ghost p = self@.core.offset;
            let ghost acc = buf@;
            proof {
                lemma_raw_span_step(src, open, t, p);
                lemma_next_stop(src, p);
                lemma_matches_at(src, p, seq![MUL, SLA]);
            }
            let c = self.cursor.current();
            match t {
                Terminator::Open => {
                    if self.cursor.looking_at(self.stmt_start) {
                        assert(acc + Seq::<u8>::empty() =~= acc);
                        return buf;
                    }
                },
                Terminator::LineBreak => {
                    if is_line_break(c) {
                        self.cursor.forward();
                        assert(acc + Seq::<u8>::empty() =~= acc);
                        return buf;
                    }
                },
                Terminator::BlockClose => {
                    if c == MUL && self.cursor.assert_next(SLA) {
                        let offset: usize = self.cursor.position().offset;
                        let len: usize = self.cursor.len();
                        assert(offset + 2 <= len);
                        self.cursor.advance_to(offset + 2);
                        assert(acc + Seq::<u8>::empty() =~= acc);
                        return buf;
                    }
                },
            }
            assert(terminator_at(src, open, t, p) is None);
            buf.push(c);
            self.cursor.forward();
            assert(acc + (seq![c] + raw_span(src, open, t, self@.core.offset).0) =~= acc.push(c)
                + raw_span(src, open, t, self@.core.offset).0);
        }
        proof {
            lemma_raw_span_step(src, open, t, self@.core.offset);
        }
        assert(buf@ + Seq::<u8>::empty() =~= buf@);
        buf
    }

    /// One round inside a comment: the body of the comment, up to the end
    /// of its line or to `*/`, after which the statement goes on.
    pub fn scan_comment(&mut self) -> (t: Token)
        requires
            old(self).wf(),
        ensures
            final(self).wf(),
            seq![t@] == comment_round(old(self)@.source, old(self)@.core).tokens,
            final(self)@ == with_core(
                old(self)@,
                comment_round(old(self)@.source, old(self)@.core).core,
            ),
    {
        let pos = self.cursor.position();
        let t = match self.phase {
            Phase::LineComment => Terminator::LineBreak,
            _ => Terminator::BlockClose,
        };
        let body = self.scan_raw(t);
        self.phase = Phase::Statement;
        Token { kind: TokenKind::Comment, pos, payload: Payload::Bytes(body) }
    }

    /// One round at an open delimiter, if one stands at the cursor: the
    /// literal boundary where the toggle marker and the close delimiter
    /// follow, and else the open delimiter itself, after which a statement
    /// or a comment begins. Where no open delimiter stands at the cursor,
    /// nothing changes.
    pub fn scan_open(&mut self) -> (r: Option<Token>)
        requires
            old(self).wf(),
        ensures
            final(self).wf(),
            match r {
                Some(t) => {
                    &&& matches_at(
                        old(self)@.source.bytes,
                        old(self)@.core.offset,
                        old(self)@.source.open,
                    )
                    &&& seq![t@] == open_round(old(self)@.source, old(self)@.core).tokens
                    &&& final(self)@ == with_core(
                        old(self)@,
                        open_round(old(self)@.source, old(self)@.core).core,
                    )
                },
                None => {
                    &&& !matches_at(
                        old(self)@.source.bytes,
                        old(self)@.core.offset,
                        old(self)@.source.open,
                    )
                    &&& final(self)@ == old(self)@
                    &&& final(self).pos() == old(self).pos()
                },
            },
    {
        let tok = match self.match_stmt_start() {
            Some(t) => t,
            None => {
                return None;
            },
        };
        self.cursor.consume_whitespace();
        let after: usize = self.cursor.position().offset;
        let len: usize = self.cursor.len();
        let ghost src = self@.source.bytes;
        if self.cursor.current() == REM && self.cursor.can_forward() {
            self.cursor.forward();
            self.cursor.consume_whitespace();
            if self.match_stmt_end() {
                self.literal = !self.literal;
                self.phase = Phase::Text;
                return Some(
                    Token {
                        kind: TokenKind::LiteralBoundary,
                        pos: tok.pos,
                        payload: Payload::Flag(self.literal),
                    },
                );
            }
            proof {
                lemma_next_stop(src, after as int);
                lemma_skip_whitespace(src, next_stop(src, after as int));
            }
            self.cursor.back_pos_diff(after);
        }
        if self.cursor.current() == SLA && self.cursor.assert_next(SLA) {
            assert(after + 2 <= len);
            self.cursor.advance_to(after + 2);
            self.phase = Phase::LineComment;
        } else if self.cursor.current() == SLA && self.cursor.assert_next(MUL) {
            assert(after + 2 <= len);
            self.cursor.advance_to(after + 2);
            self.phase = Phase::BlockComment;
        } else {
            self.phase = Phase::Statement;
        }
        Some(tok)
    }

    /// Reads the value of the attribute whose `=` the cursor rests on: the
    /// `=`, whitespace, and a double-quoted string, on whose closing quote
    /// the cursor is left. Returns the string's content. On a failure
    /// nothing changes.
    pub fn scan_value(&mut self) -> (r: Result<Vec<u8>, ScanError>)
        requires
            old(self).wf(),
            old(self)@.source.bytes.len() > 0,
        ensures
            final(self).wf(),
            match value_span(old(self)@.source.bytes, old(self)@.core.offset) {
                Ok((content, close)) => {
                    &&& r matches Ok(v) && v@ == content
                    &&& final(self)@ == moved(old(self)@, close)
                },
                Err(e) => {
                    &&& r == Err::<Vec<u8>, ScanError>(e)
                    &&& final(self)@ == old(self)@
                    &&& final(self).pos() == old(self).pos()
                },
            },
    {
        let start: usize = self.cursor.position().offset;
        proof {
            if self@.core.offset + 1 < self@.source.bytes.len() {
                lemma_next_stop(self@.source.bytes, self@.core.offset);
            }
            lemma_skip_whitespace(
                self@.source.bytes,
                next_stop(self@.source.bytes, self@.core.offset),
            );
            lemma_quoted_length(
                self@.source.bytes,
                skip_whitespace(
                    self@.source.bytes,
                    next_stop(self@.source.bytes, self@.core.offset),
                ),
                QUO,
            );
        }
        self.cursor.forward();
        self.cursor.consume_whitespace();
        if self.cursor.current() != QUO {
            self.cursor.back_pos_diff(start);
            return Err(ScanError::ExpectedQuoteAfterEquals);
        }
        match self.cursor.extract_str(QUO) {
            Ok(content) => Ok(content),
            Err(e) => {
                self.cursor.back_pos_diff(start);
                Err(e)
            },
        }
    }

    /// Reads the terminator of a tag at the cursor, `/>` or `>`. Where
    /// neither stands there, nothing changes.
    pub fn scan_tag_end(&mut self) -> (r: Option<Token>)
        requires
            old(self).wf(),
            old(self)@.source.bytes.len() > 0,
        ensures
            final(self).wf(),
            match tag_end_at(old(self)@.source.bytes, old(self)@.core.offset) {
                Some((token, after)) => r matches Some(t) && t@ == token && final(self)@ == moved(
                    old(self)@,
                    after,
                ),
                None => {
                    &&& r is None
                    &&& final(self)@ == old(self)@
                    &&& final(self).pos() == old(self).pos()
                },
            },
    {
        let pos = self.cursor.position();
        let len: usize = self.cursor.len();
        let c = self.cursor.current();
        let mut bytes: Vec<u8> = Vec::new();
        if c == SLA && self.cursor.assert_next(GTR) {
            bytes.push(SLA);
            bytes.push(GTR);
            assert(bytes@ =~= seq![SLA, GTR]);
            assert(pos.offset + 2 <= len);
            self.cursor.advance_to(pos.offset + 2);
        } else if c == GTR {
            bytes.push(GTR);
            assert(bytes@ =~= seq![GTR]);
            assert(pos.offset + 1 <= len);
            self.cursor.advance_to(pos.offset + 1);
        } else {
            return None;
        }
        Some(Token { kind: TokenKind::MarkupTagEnd, pos, payload: Payload::Bytes(bytes) })
    }

    /// One round of reading a tag's attributes: whitespace, then an
    /// attribute with or without value, then the terminator or one byte
    /// that is stepped over. Returns the tokens read, and whether the tag
    /// goes on or is complete. Where the round finds that no tag stands
    /// here, and on a failure, nothing changes.
    pub fn scan_attribute(&mut self) -> (r: Result<Option<(TagStep, VecDeque<Token>)>, ScanError>)
        requires
            old(self).wf(),
            0 <= old(self)@.core.offset < old(self)@.source.bytes.len(),
        ensures
            final(self).wf(),
            final(self)@ == moved(old(self)@, final(self)@.core.offset),
            match r {
                Ok(Some((TagStep::More, added))) => {
                    &&& old(self)@.core.offset < final(self)@.core.offset
                        < old(self)@.source.bytes.len()
                    &&& attributes_at(old(self)@.source, old(self)@.core.offset)
                        == tag_with_prefix(
                        token_views(added@),
                        attributes_at(old(self)@.source, final(self)@.core.offset),
                    )
                },
                Ok(Some((TagStep::Complete, added))) => attributes_at(
                    old(self)@.source,
                    old(self)@.core.offset,
                ) == Ok::<Option<(Seq<TokenView>, int)>, ScanError>(
                    Some((token_views(added@), final(self)@.core.offset)),
                ),
                Ok(None) => {
                    &&& attributes_at(old(self)@.source, old(self)@.core.offset) == Ok::<
                        Option<(Seq<TokenView>, int)>,
                        ScanError,
                    >(None)
                    &&& final(self).pos() == old(self).pos()
                },
                Err(e) => {
                    &&& attributes_at(old(self)@.source, old(self)@.core.offset) == Err::<
                        Option<(Seq<TokenView>, int)>,
                        ScanError,
                    >(e)
                    &&& final(self).pos() == old(self).pos()
                },
            },
        decreases old(self)@.source.bytes.len(), 0int,
    {
        let start: usize = self.cursor.position().offset;
        let ghost s = self@.source;
        let ghost src = s.bytes;
        let ghost q = self@.core.offset;
        let mut added: VecDeque<Token> = VecDeque::new();
        assert(token_views(added@) =~= Seq::<TokenView>::empty());
        proof {
            lemma_skip_whitespace(src, q);
        }
        self.cursor.consume_whitespace();
        let ghost w = self@.core.offset;
        let pos = self.cursor.position();
        match self.cursor.match_dom_name(true, true, true) {
            Some(name) => {
                let ghost e = self@.core.offset;
                proof {
                    lemma_name_ended(src, w, true, true, true);
                    lemma_skip_whitespace(src, e);
                }
                if !ends_name(self.cursor.current()) {
                    assert(attributes_at(s, q) == Ok::<Option<(Seq<TokenView>, int)>, ScanError>(
                        None,
                    )) by {
                        reveal(attributes_at);
                    }
                    self.cursor.back_pos_diff(start);
                    return Ok(None);
                }
                let attr = Token {
                    kind: TokenKind::MarkupAttrName,
                    pos,
                    payload: Payload::Bytes(name),
                };
                let ghost attr_view = attr@;
                added.push_back(attr);
                self.cursor.consume_whitespace();
                let ghost w2 = self@.core.offset;
                if self.cursor.current() != EQS {
                    assert(token_views(added@) =~= seq![attr_view]);
                    assert(attributes_at(s, q) == tag_with_prefix(
                        seq![attr_view],
                        attributes_at(s, w2),
                    )) by {
                        reveal(attributes_at);
                    }
                    return Ok(Some((TagStep::More, added)));
                }
                let sym = Token {
                    kind: TokenKind::Symbol,
                    pos: self.cursor.position(),
                    payload: Payload::Byte(EQS),
                };
                let ghost sym_view = sym@;
                added.push_back(sym);
                assert(token_views(added@) =~= seq![attr_view, sym_view]);
                proof {
                    lemma_value_span(src, w2);
                }
                let content = match self.scan_value() {
                    Ok(c) => c,
                    Err(e) => {
                        assert(attributes_at(s, q) == Err::<
                            Option<(Seq<TokenView>, int)>,
                            ScanError,
                        >(e)) by {
                            reveal(attributes_at);
                        }
                        self.cursor.back_pos_diff(start);
                        return Err(e);
                    },
                };
                let ghost c = self@.core.offset;
                let ghost inner = Source { bytes: content@, open: s.open, close: s.close };
                let mut ts = Scanner::new(content.as_slice(), self.stmt_start, self.stmt_end);
                assert(remaining(ts@) == tokens_of(inner)) by {
                    match collect(inner, initial_core()) {
                        Ok(tokens) => {
                            assert(Seq::<TokenView>::empty() + tokens =~= tokens);
                        },
                        Err(e) => {},
                    }
                }
                match ts.scan_rest(&mut added) {
                    Ok(()) => {},
                    Err(e) => {
                        assert(attributes_at(s, q) == Err::<
                            Option<(Seq<TokenView>, int)>,
                            ScanError,
                        >(e)) by {
                            reveal(attributes_at);
                            reveal(collect);
                        }
                        self.cursor.back_pos_diff(start);
                        return Err(e);
                    },
                }
                assert(attributes_at(s, q) == tag_finish(
                    src,
                    seq![attr_view, sym_view] + collect(inner, initial_core()).unwrap(),
                    c,
                    if c + 1 < src.len() {
                        attributes_at(s, next_stop(src, c))
                    } else {
                        Ok(None)
                    },
                )) by {
                    reveal(attributes_at);
                    reveal(collect);
                }
            },
            None => {
                assert(attributes_at(s, q) == tag_finish(
                    src,
                    Seq::empty(),
                    w,
                    if w + 1 < src.len() {
                        attributes_at(s, next_stop(src, w))
                    } else {
                        Ok(None)
                    },
                )) by {
                    reveal(attributes_at);
                }
            },
        }
        let ghost t = self@.core.offset;
        let ghost prefix = token_views(added@);
        let ghost retry: Tag = if t + 1 < src.len() {
            attributes_at(s, next_stop(src, t))
        } else {
            Ok(None)
        };
        assert(attributes_at(s, q) == tag_finish(src, prefix, t, retry));
        match self.scan_tag_end() {
            Some(end) => {
                let ghost end_view = end@;
                added.push_back(end);
                assert(token_views(added@) =~= prefix.push(end_view));
                return Ok(Some((TagStep::Complete, added)));
            },
            None => {},
        }
        if !self.cursor.can_forward() {
            self.cursor.back_pos_diff(start);
            return Ok(None);
        }
        proof {
            lemma_next_stop(src, t);
        }
        self.cursor.forward();
        Ok(Some((TagStep::More, added)))
    }

    /// Reads one markup tag at the cursor and leaves its tokens pending:
    /// the tag's name, then for each attribute its name and, where it has
    /// a value, the `=` and the tokens of the value's content, and at last
    /// the terminator. Where no tag stands at the cursor, and on a
    /// failure, nothing changes.
    pub fn scan_dom(&mut self) -> (r: Result<bool, ScanError>)
        requires
            old(self).wf(),
        ensures
            final(self).wf(),
            match markup_at(old(self)@.source, old(self)@.core.offset) {
                Ok(Some((tokens, end))) => {
                    &&& r == Ok::<bool, ScanError>(true)
                    &&& final(self)@ == (ScannerView {
                        source: old(self)@.source,
                        core: Core {
                            offset: end,
                            literal: old(self)@.core.literal,
                            phase: old(self)@.core.phase,
                        },
                        pending: old(self)@.pending + tokens,
                    })
                },
                Ok(None) => {
                    &&& r == Ok::<bool, ScanError>(false)
                    &&& final(self)@ == old(self)@
                    &&& final(self).pos() == old(self).pos()
                },
                Err(e) => {
                    &&& r == Err::<bool, ScanError>(e)
                    &&& final(self)@ == old(self)@
                    &&& final(self).pos() == old(self).pos()
                },
            },
        decreases old(self)@.source.bytes.len(), 1int,
    {
        let start: usize = self.cursor.position().offset;
        let len: usize = self.cursor.len();
        let ghost s = self@.source;
        let ghost src = s.bytes;
        let ghost none = Ok::<Option<(Seq<TokenView>, int)>, ScanError>(None);
        if len == 0 || self.cursor.current() != LSS {
            assert(markup_at(s, start as int) == none) by {
                reveal(markup_at);
            }
            return Ok(false);
        }
        if !self.cursor.forward() {
            assert(markup_at(s, start as int) == none) by {
                reveal(markup_at);
            }
            return Ok(false);
        }
        if !self.cursor.can_forward() {
            assert(markup_at(s, start as int) == none) by {
                reveal(markup_at);
            }
            self.cursor.back_pos_diff(start);
            return Ok(false);
        }
        proof {
            lemma_next_stop(src, start as int);
            lemma_name_ended(src, next_stop(src, start as int), false, false, false);
        }
        let mut out: VecDeque<Token> = VecDeque::new();
        let pos = self.cursor.position();
        match self.cursor.match_dom_name(false, false, false) {
            None => {
                assert(markup_at(s, start as int) == none) by {
                    reveal(markup_at);
                }
                self.cursor.back_pos_diff(start);
                return Ok(false);
            },
            Some(name) => {
                if !ends_name(self.cursor.current()) {
                    assert(markup_at(s, start as int) == none) by {
                        reveal(markup_at);
                    }
                    self.cursor.back_pos_diff(start);
                    return Ok(false);
                }
                out.push_back(
                    Token { kind: TokenKind::MarkupTagStart, pos, payload: Payload::Bytes(name) },
                );
            },
        }
        assert(token_views(out@) =~= seq![
            token_at(
                TokenKind::MarkupTagStart,
                src,
                next_stop(src, start as int),
                PayloadView::Bytes(
                    name_at(src, next_stop(src, start as int), false, false, false).unwrap().0,
                ),
            ),
        ]);
        assert(markup_at(s, start as int) == tag_with_prefix(
            token_views(out@),
            attributes_at(s, self@.core.offset),
        )) by {
            reveal(markup_at);
            reveal(attributes_at);
        }
        loop
            invariant
                self.wf(),
                old(self).wf(),
                self@ == moved(old(self)@, self@.core.offset),
                s == old(self)@.source,
                src == s.bytes,
                start == old(self)@.core.offset,
                len == src.len(),
                start < self@.core.offset < len,
                markup_at(s, start as int) == tag_with_prefix(
                    token_views(out@),
                    attributes_at(s, self@.core.offset),
                ),
            decreases len - self@.core.offset,
        {
            let ghost prefix = token_views(out@);
            let ghost q = self@.core.offset;
            match self.scan_attribute() {
                Err(e) => {
                    self.cursor.back_pos_diff(start);
                    return Err(e);
                },
                Ok(None) => {
                    self.cursor.back_pos_diff(start);
                    return Ok(false);
                },
                Ok(Some((step, mut added))) => {
                    let ghost more = token_views(added@);
                    out.append(&mut added);
                    assert(token_views(out@) =~= prefix + more);
                    match step {
                        TagStep::More => {
                            proof {
                                lemma_tag_prefix_assoc(
                                    prefix,
                                    more,
                                    attributes_at(s, self@.core.offset),
                                );
                            }
                        },
                        TagStep::Complete => {
                            let ghost tokens = token_views(out@);
                            let ghost pending = token_views(self.tok_buf@);
                            self.tok_buf.append(&mut out);
                            proof {
                                assert(token_views(self.tok_buf@) =~= pending + tokens);
                                lemma_markup_shape(s, start as int);
                                lemma_no_end_add(pending, tokens);
                            }
                            return Ok(true);
                        },
                    }
                },
            }
        }
    }

    /// Pulls until the sentinel and puts the tokens, without the sentinel,
    /// at the end of `out`. After that every pull returns the sentinel. A
    /// failure ends the pulls.
    pub fn scan_rest(&mut self, out: &mut VecDeque<Token>) -> (r: Result<(), ScanError>)
        requires
            old(self).wf(),
        ensures
            final(self).wf(),
            final(self)@.source == old(self)@.source,
            match remaining(old(self)@) {
                Ok(tokens) => r is Ok && token_views(final(out)@) == token_views(old(out)@)
                    + tokens,
                Err(e) => r == Err::<(), ScanError>(e),
            },
            r is Ok ==> {
                &&& final(self)@.pending.len() == 0
                &&& step(final(self)@).next == final(self)@
                &&& step(final(self)@).result matches Ok(t) && t.kind == TokenKind::End
            },
        decreases old(self)@.source.bytes.len(), 3int,
    {
        let ghost goal = tokens_with_prefix(token_views(out@), remaining(self@));
        loop
            invariant
                self.wf(),
                self@.source == old(self)@.source,
                0 <= self@.core.offset,
                self@.core.offset < self@.source.bytes.len() || self@.source.bytes.len() == 0,
                goal == tokens_with_prefix(token_views(old(out)@), remaining(old(self)@)),
                goal == tokens_with_prefix(token_views(out@), remaining(self@)),
            decreases
                    self@.source.bytes.len() - self@.core.offset,
                    self@.pending.len(),
        {
            let ghost v = self@;
            let ghost acc = token_views(out@);
            proof {
                lemma_collect_step(v.source, v.core);
                lemma_round_shape(v.source, v.core);
            }
            let t = match self.scan() {
                Ok(t) => t,
                Err(e) => {
                    return Err(e);
                },
            };
            match t.kind {
                TokenKind::End => {
                    proof {
                        assert(acc + Seq::<TokenView>::empty() =~= acc);
                        assert(v.pending =~= Seq::<TokenView>::empty());
                        match remaining(old(self)@) {
                            Ok(tokens) => {},
                            Err(e) => {},
                        }
                    }
                    return Ok(());
                },
                _ => {},
            }
            let ghost view = t@;
            out.push_back(t);
            proof {
                assert(token_views(out@) =~= acc.push(view));
                if v.pending.len() > 0 {
                    let tail = v.pending.subrange(1, v.pending.len() as int);
                    match collect(v.source, v.core) {
                        Ok(rest) => {
                            assert(acc + (v.pending + rest) =~= acc.push(view) + (tail + rest));
                        },
                        Err(e) => {},
                    }
                } else {
                    let r = round(v.source, v.core).unwrap();
                    let tail = r.tokens.subrange(1, r.tokens.len() as int);
                    assert(v.pending =~= Seq::<TokenView>::empty());
                    match collect(v.source, r.core) {
                        Ok(rest) => {
                            assert(acc + (v.pending + (r.tokens + rest)) =~= acc.push(view) + (tail
                                + rest));
                        },
                        Err(e) => {},
                    }
                }
            }
        }
    }

    /// Returns the next token. A pending token comes first. Else, where
    /// nothing is left to read, the sentinel is returned. Else one round is
    /// made, as the mode asks: inside a statement the close delimiter or an
    /// operator; inside a comment its body; in text an open delimiter, a
    /// markup tag, or a raw span. A failure changes nothing, and neither
    /// does a pull that returns the sentinel.
    pub fn scan(&mut self) -> (r: Result<Token, ScanError>)
        requires
            old(self).wf(),
        ensures
            final(self).wf(),
            match step(old(self)@).result {
                Ok(t) => r matches Ok(token) && token@ == t,
                Err(e) => r == Err::<Token, ScanError>(e),
            },
            final(self)@ == step(old(self)@).next,
            r is Err ==> final(self).pos() == old(self).pos(),
            r matches Ok(token) && token.kind == TokenKind::End ==> final(self)@ == old(self)@
                && final(self).pos() == old(self).pos(),
        decreases old(self)@.source.bytes.len(), 2int,
    {
        let ghost v = self@;
        proof {
            lemma_round_shape(v.source, v.core);
        }
        let ghost tag = markup_at(v.source, v.core.offset);
        assert(!matches_at(v.source.bytes, v.core.offset, v.source.open) && !v.core.literal
            ==> text_round(v.source, v.core) == match tag {
            Err(e) => Err::<Round, ScanError>(e),
            Ok(Some((tokens, end))) => Ok(
                Round {
                    tokens,
                    core: Core { offset: end, literal: v.core.literal, phase: v.core.phase },
                },
            ),
            Ok(None) => Ok(raw_round(v.source, v.core)),
        }) by {
            reveal(markup_at);
        }
        match self.tok_buf.pop_front() {
            Some(t) => {
                assert(token_views(self.tok_buf@) =~= v.pending.subrange(
                    1,
                    v.pending.len() as int,
                ));
                assert(t@ == v.pending[0]);
                return Ok(t);
            },
            None => {},
        }
        assert(v.pending.len() == 0);
        assert(v.pending =~= Seq::<TokenView>::empty());
        let pos = self.cursor.position();
        if self.cursor.len() == 0 || !self.cursor.can_forward() {
            let t = Token { kind: TokenKind::End, pos, payload: Payload::Empty };
            assert(seq![t@].subrange(1, 1) =~= v.pending);
            return Ok(t);
        }
        match self.phase {
            Phase::Statement => {
                let t = self.scan_stmt();
                assert(seq![t@].subrange(1, 1) =~= v.pending);
                return Ok(t);
            },
            Phase::LineComment | Phase::BlockComment => {
                let t = self.scan_comment();
                assert(seq![t@].subrange(1, 1) =~= v.pending);
                return Ok(t);
            },
            Phase::Text => {},
        }
        match self.scan_open() {
            Some(t) => {
                assert(seq![t@].subrange(1, 1) =~= v.pending);
                return Ok(t);
            },
            None => {},
        }
        if !self.literal && self.cursor.current() == LSS {
            let found = match self.scan_dom() {
                Ok(found) => found,
                Err(e) => {
                    return Err(e);
                },
            };
            if found {
                proof {
                    lemma_markup_shape(v.source, v.core.offset);
                }
                let ghost tokens = markup_at(v.source, v.core.offset).unwrap().unwrap().0;
                assert(v.pending + tokens =~= tokens);
                match self.tok_buf.pop_front() {
                    Some(t) => {
                        assert(token_views(self.tok_buf@) =~= tokens.subrange(
                            1,
                            tokens.len() as int,
                        ));
                        assert(t@ == tokens[0]);
                        return Ok(t);
                    },
                    None => {
                        return Ok(vstd::pervasive::unreached());
                    },
                }
            }
        }
        let bytes = self.scan_raw(Terminator::Open);
        let kind = if self.literal {
            TokenKind::Literal
        } else {
            TokenKind::Data
        };
        let t = Token { kind, pos, payload: Payload::Bytes(bytes) };
        assert(seq![t@].subrange(1, 1) =~= v.pending);
        Ok(t)
    }

    /// All tokens of `src`, scanned from its first byte in markup mode, up
    /// to the sentinel and without it.
    pub fn scan_all(src: &[u8], stmt_start: &[u8], stmt_end: &[u8]) -> (r: Result<
        Vec<Token>,
        ScanError,
    >)
        requires
            stmt_start@.len() > 0,
            stmt_end@.len() > 0,
        ensures
            match tokens_of(Source { bytes: src@, open: stmt_start@, close: stmt_end@ }) {
                Ok(tokens) => r matches Ok(v) && token_views(v@) == tokens,
                Err(e) => r == Err::<Vec<Token>, ScanError>(e),
            },
    {
        let mut scanner = Scanner::new(src, stmt_start, stmt_end);
        let ghost source = Source { bytes: src@, open: stmt_start@, close: stmt_end@ };
        assert(remaining(scanner@) == tokens_of(source)) by {
            match collect(source, initial_core()) {
                Ok(tokens) => {
                    assert(Seq::<TokenView>::empty() + tokens =~= tokens);
                },
                Err(e) => {},
            }
        }
        let mut queue: VecDeque<Token> = VecDeque::new();
        assert(token_views(queue@) =~= Seq::<TokenView>::empty());
        match scanner.scan_rest(&mut queue) {
            Ok(()) => {},
            Err(e) => {
                return Err(e);
            },
        }
        let ghost tokens = token_views(queue@);
        assert(tokens =~= tokens_of(source).unwrap()) by {
            assert(Seq::<TokenView>::empty() + tokens_of(source).unwrap() =~= tokens_of(
                source,
            ).unwrap());
        }
        Ok(into_vec(&mut queue))
    }
}

} // verus!
