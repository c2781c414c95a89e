//! The scanner as mathematics: what one pull returns and how it changes the
//! state, as functions on sequences of bytes.
//!
//! A pull that finds nothing pending makes one *round*: it reads one
//! construct at the cursor and yields the tokens of that construct, one for
//! most constructs and several for a markup tag. The first is returned and
//! the others wait in the pending queue.

use vstd::prelude::*;
use crate::ascii::{is_line_break, EQS, GTR, LSS, MUL, QUO, REM, SLA};
use crate::cursor::{lemma_skip_whitespace, next_stop, position_at, reach, skip_whitespace};
use crate::error::ScanError;
use crate::extract::{
    is_name_end, lemma_name_ended, lemma_quoted_length, matches_at, name_at, quoted_at,
};
use crate::token::{Operator, PayloadView, TokenKind, TokenView};

verus! {

/// What the scanner is reading, apart from whether literal output is on.
#[derive(Debug, Clone, Copy, PartialEq, Eq, Structural)]
pub enum Phase {
    /// Text between statements: markup, or literal output.
    Text,
    /// The inside of a statement.
    Statement,
    /// A comment that ends with its line.
    LineComment,
    /// A comment that ends with `*/`.
    BlockComment,
}

/// The scanner's mode.
#[derive(Debug, Clone, Copy, PartialEq, Eq, Structural)]
pub enum Mode {
    /// Text in which markup tags are recognised.
    Markup,
    /// The inside of a statement.
    Statement,
    /// Text that is passed on as it is.
    Literal,
    /// The inside of a comment.
    Comment,
}

/// What ends a raw span.
#[derive(Debug, Clone, Copy, PartialEq, Eq, Structural)]
pub enum Terminator {
    /// The open delimiter, which is left unconsumed.
    Open,
    /// A line break, which is consumed.
    LineBreak,
    /// `*/`, which is consumed.
    BlockClose,
}

/// The buffer and the delimiter pair.
pub struct Source {
    pub bytes: Seq<u8>,
    pub open: Seq<u8>,
    pub close: Seq<u8>,
}

/// The part of the state that a round reads and changes.
pub struct Core {
    pub offset: int,
    pub literal: bool,
    pub phase: Phase,
}

/// What a round yields: at least one token, and the state after it.
pub struct Round {
    pub tokens: Seq<TokenView>,
    pub core: Core,
}

/// The state in which a scanner starts.
pub open spec fn initial_core() -> Core {
    Core { offset: 0, literal: false, phase: Phase::Text }
}

/// The mode that a state is in.
pub open spec fn mode_of(literal: bool, phase: Phase) -> Mode {
    match phase {
        Phase::Statement => Mode::Statement,
        Phase::LineComment | Phase::BlockComment => Mode::Comment,
        Phase::Text => if literal {
            Mode::Literal
        } else {
            Mode::Markup
        },
    }
}

/// A token that begins at offset `at` of `src`.
pub open spec fn token_at(kind: TokenKind, src: Seq<u8>, at: int, payload: PayloadView)
    -> TokenView {
    TokenView { kind, pos: position_at(src, at), payload }
}

/// The sentinel, at offset `at`.
pub open spec fn end_token(src: Seq<u8>, at: int) -> TokenView {
    token_at(TokenKind::End, src, at, PayloadView::Empty)
}

/// Whether nothing is left to read: the buffer is empty or the cursor is on
/// its last byte.
pub open spec fn exhausted(src: Seq<u8>, offset: int) -> bool {
    offset + 1 >= src.len()
}

/// The comparison operator at offset `p`, with its length.
pub open spec fn operator_at(src: Seq<u8>, p: int) -> Option<(Operator, int)> {
    if !(0 <= p < src.len()) {
        None
    } else if src[p] == LSS {
        if p + 1 < src.len() && src[p + 1] == EQS {
            Some((Operator::LessEqual, 2))
        } else {
            Some((Operator::Less, 1))
        }
    } else if src[p] == GTR {
        if p + 1 < src.len() && src[p + 1] == EQS {
            Some((Operator::GreaterEqual, 2))
        } else {
            Some((Operator::Greater, 1))
        }
    } else {
        None
    }
}

/// A round inside a statement. The close delimiter ends the statement; a
/// comparison operator is a token; at any other byte the round yields the
/// sentinel and changes nothing.
pub open spec fn statement_round(s: Source, c: Core) -> Round {
    let p = c.offset;
    if matches_at(s.bytes, p, s.close) {
        Round {
            tokens: seq![
                token_at(TokenKind::StatementClose, s.bytes, p, PayloadView::Bytes(s.close)),
            ],
            core: Core {
                offset: reach(s.bytes, p + s.close.len()),
                literal: c.literal,
                phase: Phase::Text,
            },
        }
    } else {
        match operator_at(s.bytes, p) {
            Some((op, n)) => Round {
                tokens: seq![token_at(TokenKind::Operator, s.bytes, p, PayloadView::Operator(op))],
                core: Core { offset: reach(s.bytes, p + n), literal: c.literal, phase: c.phase },
            },
            None => Round { tokens: seq![end_token(s.bytes, p)], core: c },
        }
    }
}

/// The number of bytes to consume where the terminator `t` stands at offset
/// `p`; `None` where it does not stand there.
pub open spec fn terminator_at(src: Seq<u8>, open: Seq<u8>, t: Terminator, p: int) -> Option<int> {
    match t {
        Terminator::Open => if matches_at(src, p, open) {
            Some(0)
        } else {
            None
        },
        Terminator::LineBreak => if 0 <= p < src.len() && is_line_break(src[p]) {
            Some(1)
        } else {
            None
        },
        Terminator::BlockClose => if matches_at(src, p, seq![MUL, SLA]) {
            Some(2)
        } else {
            None
        },
    }
}

/// `rest` with `head` put before its bytes.
pub open spec fn span_with_prefix(head: Seq<u8>, rest: (Seq<u8>, int)) -> (Seq<u8>, int) {
    (head + rest.0, rest.1)
}

/// The raw span that begins at offset `p`: the bytes on which the cursor
/// rests until the terminator `t` stands at the cursor or the cursor is on
/// the last byte, with the offset of the cursor after the span and its
/// terminator. The last byte of the buffer is never part of a span.
#[verifier::opaque]
pub open spec fn raw_span(src: Seq<u8>, open: Seq<u8>, t: Terminator, p: int) -> (Seq<u8>, int)
    decreases src.len() - p,
{
    if p < 0 || p + 1 >= src.len() {
        (Seq::empty(), p)
    } else {
        match terminator_at(src, open, t, p) {
            Some(n) => (
                Seq::empty(),
                if n == 0 {
                    p
                } else {
                    reach(src, p + n)
                },
            ),
            None => span_with_prefix(seq![src[p]], raw_span(src, open, t, next_stop(src, p))),
        }
    }
}

/// One step of a raw span.
pub proof fn lemma_raw_span_step(src: Seq<u8>, open: Seq<u8>, t: Terminator, p: int)
    ensures
        raw_span(src, open, t, p) == if p < 0 || p + 1 >= src.len() {
            (Seq::<u8>::empty(), p)
        } else {
            match terminator_at(src, open, t, p) {
                Some(n) => (
                    Seq::<u8>::empty(),
                    if n == 0 {
                        p
                    } else {
                        reach(src, p + n)
                    },
                ),
                None => span_with_prefix(seq![src[p]], raw_span(src, open, t, next_stop(src, p))),
            }
        },
{
    reveal(raw_span);
}

/// A round inside a comment: the comment's body, after which the statement
/// goes on.
pub open spec fn comment_round(s: Source, c: Core) -> Round {
    let t = if c.phase == Phase::LineComment {
        Terminator::LineBreak
    } else {
        Terminator::BlockClose
    };
    let (body, end) = raw_span(s.bytes, s.open, t, c.offset);
    Round {
        tokens: seq![token_at(TokenKind::Comment, s.bytes, c.offset, PayloadView::Bytes(body))],
        core: Core { offset: end, literal: c.literal, phase: Phase::Statement },
    }
}

/// A round over raw text: the span up to the next open delimiter, tagged by
/// whether literal output is on.
pub open spec fn raw_round(s: Source, c: Core) -> Round {
    let (bytes, end) = raw_span(s.bytes, s.open, Terminator::Open, c.offset);
    let kind = if c.literal {
        TokenKind::Literal
    } else {
        TokenKind::Data
    };
    Round {
        tokens: seq![token_at(kind, s.bytes, c.offset, PayloadView::Bytes(bytes))],
        core: Core { offset: end, literal: c.literal, phase: c.phase },
    }
}

/// The offset of the cursor after the open delimiter at `p` and the
/// whitespace behind it.
pub open spec fn after_open(s: Source, p: int) -> int {
    skip_whitespace(s.bytes, reach(s.bytes, p + s.open.len()))
}

/// Where the literal-toggle marker stands at offset `a` and the close
/// delimiter follows it, with nothing but whitespace between: the offset of
/// that close delimiter.
pub open spec fn toggle_at(s: Source, a: int) -> Option<int> {
    if 0 <= a && a + 1 < s.bytes.len() && s.bytes[a] == REM {
        let b = skip_whitespace(s.bytes, next_stop(s.bytes, a));
        if matches_at(s.bytes, b, s.close) {
            Some(b)
        } else {
            None
        }
    } else {
        None
    }
}

/// The phase that the bytes at offset `a`, just behind an open delimiter,
/// begin, with the number of bytes that announce it.
pub open spec fn opened_phase(src: Seq<u8>, a: int) -> (Phase, int) {
    if 0 <= a && a + 1 < src.len() && src[a] == SLA && src[a + 1] == SLA {
        (Phase::LineComment, 2)
    } else if 0 <= a && a + 1 < src.len() && src[a] == SLA && src[a + 1] == MUL {
        (Phase::BlockComment, 2)
    } else {
        (Phase::Statement, 0)
    }
}

/// A round at an open delimiter, which stands at the cursor. Where the
/// literal-toggle marker and the close delimiter follow, literal output is
/// switched. Else a statement begins, or a comment where `//` or `/*`
/// follows.
pub open spec fn open_round(s: Source, c: Core) -> Round {
    let p = c.offset;
    let a = after_open(s, p);
    match toggle_at(s, a) {
        Some(b) => Round {
            tokens: seq![
                token_at(TokenKind::LiteralBoundary, s.bytes, p, PayloadView::Flag(!c.literal)),
            ],
            core: Core {
                offset: reach(s.bytes, b + s.close.len()),
                literal: !c.literal,
                phase: Phase::Text,
            },
        },
        None => {
            let (phase, n) = opened_phase(s.bytes, a);
            Round {
                tokens: seq![
                    token_at(TokenKind::StatementOpen, s.bytes, p, PayloadView::Bytes(s.open)),
                ],
                core: Core {
                    offset: if n == 0 {
                        a
                    } else {
                        reach(s.bytes, a + n)
                    },
                    literal: c.literal,
                    phase,
                },
            }
        },
    }
}

/// The outcome of reading a markup tag: its tokens and the offset of the
/// cursor after it, or no match, or a failure.
pub type Tag = Result<Option<(Seq<TokenView>, int)>, ScanError>;

/// `rest` with the tokens `head` put before its tokens.
pub open spec fn tag_with_prefix(head: Seq<TokenView>, rest: Tag) -> Tag {
    match rest {
        Ok(Some((tokens, end))) => Ok(Some((head + tokens, end))),
        Ok(None) => Ok(None),
        Err(e) => Err(e),
    }
}

/// The terminator of a tag at offset `t`, `/>` or `>`, with the offset of
/// the cursor after it.
pub open spec fn tag_end_at(src: Seq<u8>, t: int) -> Option<(TokenView, int)> {
    if 0 <= t && t + 1 < src.len() && src[t] == SLA && src[t + 1] == GTR {
        Some(
            (
                token_at(TokenKind::MarkupTagEnd, src, t, PayloadView::Bytes(seq![SLA, GTR])),
                reach(src, t + 2),
            ),
        )
    } else if 0 <= t < src.len() && src[t] == GTR {
        Some(
            (
                token_at(TokenKind::MarkupTagEnd, src, t, PayloadView::Bytes(seq![GTR])),
                reach(src, t + 1),
            ),
        )
    } else {
        None
    }
}

/// The tag whose tokens so far are `prefix`, with the cursor at offset `t`:
/// done where a terminator stands at `t`, and else what `retry` gives, the
/// reading of further attributes behind the byte at `t`.
pub open spec fn tag_finish(src: Seq<u8>, prefix: Seq<TokenView>, t: int, retry: Tag) -> Tag {
    match tag_end_at(src, t) {
        Some((token, after)) => Ok(Some((prefix.push(token), after))),
        None => tag_with_prefix(prefix, retry),
    }
}

/// The value of the attribute whose `=` stands at offset `w`: behind the
/// `=` and whitespace a double quote must stand, which opens a quoted
/// string. Gives the string's content and the offset of its closing quote.
pub open spec fn value_span(src: Seq<u8>, w: int) -> Result<(Seq<u8>, int), ScanError> {
    let v = skip_whitespace(src, next_stop(src, w));
    if !(0 <= v < src.len()) || src[v] != QUO {
        Err(ScanError::ExpectedQuoteAfterEquals)
    } else {
        match quoted_at(src, v, QUO) {
            None => Err(ScanError::UnterminatedString),
            Some((content, c)) => Ok((content, c)),
        }
    }
}

/// The content of an attribute's value begins behind the `=` and is
/// shorter than the buffer, in which its closing quote lies.
pub proof fn lemma_value_span(src: Seq<u8>, w: int)
    requires
        0 <= w < src.len(),
    ensures
        value_span(src, w) matches Ok((content, c)) ==> {
            &&& w <= c < src.len()
            &&& content.len() < src.len()
        },
{
    lemma_skip_whitespace(src, next_stop(src, w));
    lemma_quoted_length(src, skip_whitespace(src, next_stop(src, w)), QUO);
}

/// The attributes and the terminator of a tag, read from offset `q`.
///
/// Each round skips whitespace and tries an attribute name. A name that the
/// buffer's end cuts short is no match of the whole tag. A name without `=`
/// behind it is an attribute without value, and the next round follows. A
/// name with `=` must have a double-quoted value: its content is tokenised
/// as a buffer of its own, and those tokens follow the `=`. After a value,
/// and where no name stands, a terminator ends the tag; any other byte is
/// stepped over and the next round follows. The end of the buffer without a
/// terminator is no match.
#[verifier::opaque]
pub open spec fn attributes_at(s: Source, q: int) -> Tag
    decreases s.bytes.len(), 0int, s.bytes.len() - q,
{
    let src = s.bytes;
    if q < 0 || q >= src.len() {
        Ok(None)
    } else {
        let w = skip_whitespace(src, q);
        proof {
            lemma_skip_whitespace(src, q);
        }
        match name_at(src, w, true, true, true) {
            Some((name, e)) => {
                proof {
                    lemma_name_ended(src, w, true, true, true);
                    lemma_skip_whitespace(src, e);
                }
                if !is_name_end(src[e]) {
                    Ok(None)
                } else {
                    let attr = token_at(
                        TokenKind::MarkupAttrName,
                        src,
                        w,
                        PayloadView::Bytes(name),
                    );
                    let w2 = skip_whitespace(src, e);
                    if src[w2] != EQS {
                        tag_with_prefix(seq![attr], attributes_at(s, w2))
                    } else {
                        let sym = token_at(TokenKind::Symbol, src, w2, PayloadView::Byte(EQS));
                        proof {
                            lemma_value_span(src, w2);
                        }
                        match value_span(src, w2) {
                            Err(e) => Err(e),
                            Ok((content, c)) => match collect(
                                Source { bytes: content, open: s.open, close: s.close },
                                initial_core(),
                            ) {
                                Err(e) => Err(e),
                                Ok(sub) => tag_finish(
                                    src,
                                    seq![attr, sym] + sub,
                                    c,
                                    if c + 1 < src.len() {
                                        attributes_at(s, next_stop(src, c))
                                    } else {
                                        Ok(None)
                                    },
                                ),
                            },
                        }
                    }
                }
            },
            None => tag_finish(
                src,
                Seq::empty(),
                w,
                if w + 1 < src.len() {
                    attributes_at(s, next_stop(src, w))
                } else {
                    Ok(None)
                },
            ),
        }
    }
}

/// The markup tag at offset `p`: `<`, a name that begins with a letter, and
/// the attributes and terminator behind it. No match where `<` does not
/// stand at `p`, where fewer than two bytes follow it, or where no complete
/// name follows it.
#[verifier::opaque]
pub open spec fn markup_at(s: Source, p: int) -> Tag
    decreases s.bytes.len(), 1int, 0int,
{
    let src = s.bytes;
    if p < 0 || p + 1 >= src.len() || src[p] != LSS {
        Ok(None)
    } else {
        let n = next_stop(src, p);
        if n + 1 >= src.len() {
            Ok(None)
        } else {
            match name_at(src, n, false, false, false) {
                None => Ok(None),
                Some((name, q)) => if !is_name_end(src[q]) {
                    Ok(None)
                } else {
                    tag_with_prefix(
                        seq![token_at(TokenKind::MarkupTagStart, src, n, PayloadView::Bytes(name))],
                        attributes_at(s, q),
                    )
                },
            }
        }
    }
}

/// A round in text. An open delimiter at the cursor is read as such. Else,
/// where literal output is off and `<` stands at the cursor, a markup tag
/// is tried. Where neither is there, the round yields a raw span.
pub open spec fn text_round(s: Source, c: Core) -> Result<Round, ScanError>
    decreases s.bytes.len(), 2int, 0int,
{
    if matches_at(s.bytes, c.offset, s.open) {
        Ok(open_round(s, c))
    } else if !c.literal {
        match markup_at(s, c.offset) {
            Err(e) => Err(e),
            Ok(Some((tokens, end))) => Ok(
                Round { tokens, core: Core { offset: end, literal: c.literal, phase: c.phase } },
            ),
            Ok(None) => Ok(raw_round(s, c)),
        }
    } else {
        Ok(raw_round(s, c))
    }
}

/// One round from the state `c`: the sentinel where nothing is left to
/// read, and else what the phase asks for.
pub open spec fn round(s: Source, c: Core) -> Result<Round, ScanError>
    decreases s.bytes.len(), 3int, 0int,
{
    if c.offset < 0 || exhausted(s.bytes, c.offset) {
        Ok(Round { tokens: seq![end_token(s.bytes, c.offset)], core: c })
    } else {
        match c.phase {
            Phase::Statement => Ok(statement_round(s, c)),
            Phase::LineComment | Phase::BlockComment => Ok(comment_round(s, c)),
            Phase::Text => text_round(s, c),
        }
    }
}

/// Whether the round `r` from the state `c` has moved the cursor forward
/// inside the buffer.
pub open spec fn advances(s: Source, c: Core, r: Round) -> bool {
    c.offset < r.core.offset < s.bytes.len()
}

/// `rest` with the tokens `head` put before it.
pub open spec fn tokens_with_prefix(
    head: Seq<TokenView>,
    rest: Result<Seq<TokenView>, ScanError>,
) -> Result<Seq<TokenView>, ScanError> {
    match rest {
        Ok(tokens) => Ok(head + tokens),
        Err(e) => Err(e),
    }
}

/// The tokens of all rounds from the state `c` on, up to the sentinel and
/// without it, or the first failure. Where neither delimiter is empty,
/// every round but the one that yields the sentinel moves the cursor
/// forward, so the rounds are followed to the sentinel
/// (`laws::law_rounds_are_followed`).
#[verifier::opaque]
pub open spec fn collect(s: Source, c: Core) -> Result<Seq<TokenView>, ScanError>
    decreases s.bytes.len(), 4int, s.bytes.len() - c.offset,
{
    match round(s, c) {
        Err(e) => Err(e),
        Ok(r) => if r.tokens.len() == 0 || r.tokens[0].kind == TokenKind::End || !advances(
            s,
            c,
            r,
        ) {
            Ok(Seq::empty())
        } else {
            tokens_with_prefix(r.tokens, collect(s, r.core))
        },
    }
}

/// One step of following the rounds.
pub proof fn lemma_collect_step(s: Source, c: Core)
    ensures
        collect(s, c) == match round(s, c) {
            Err(e) => Err(e),
            Ok(r) => if r.tokens.len() == 0 || r.tokens[0].kind == TokenKind::End || !advances(
                s,
                c,
                r,
            ) {
                Ok(Seq::<TokenView>::empty())
            } else {
                tokens_with_prefix(r.tokens, collect(s, r.core))
            },
        },
{
    reveal(collect);
}

/// All tokens of a buffer, scanned from its first byte in markup mode, or
/// the first failure.
pub open spec fn tokens_of(s: Source) -> Result<Seq<TokenView>, ScanError> {
    collect(s, initial_core())
}

/// The state of a scanner: the buffer and delimiters, the state that rounds
/// change, and the tokens that wait to be returned.
pub struct ScannerView {
    pub source: Source,
    pub core: Core,
    pub pending: Seq<TokenView>,
}

/// What one pull gives: the state after it, and the token or the failure.
pub struct Step {
    pub next: ScannerView,
    pub result: Result<TokenView, ScanError>,
}

/// One pull. A pending token is returned first. Else a round is made: its
/// first token is returned and the others are left pending. A failure
/// changes nothing.
pub open spec fn step(v: ScannerView) -> Step {
    if v.pending.len() > 0 {
        Step {
            next: ScannerView {
                source: v.source,
                core: v.core,
                pending: v.pending.subrange(1, v.pending.len() as int),
            },
            result: Ok(v.pending[0]),
        }
    } else {
        match round(v.source, v.core) {
            Err(e) => Step { next: v, result: Err(e) },
            Ok(r) => Step {
                next: ScannerView {
                    source: v.source,
                    core: r.core,
                    pending: r.tokens.subrange(1, r.tokens.len() as int),
                },
                result: Ok(r.tokens[0]),
            },
        }
    }
}

/// The tokens that the pulls from the state `v` on return, up to the
/// sentinel and without it, or the first failure.
pub open spec fn remaining(v: ScannerView) -> Result<Seq<TokenView>, ScanError> {
    tokens_with_prefix(v.pending, collect(v.source, v.core))
}

} // verus!
