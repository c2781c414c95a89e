//! What holds of every round and of every pull. A round yields tokens, none
//! but a lone first one is the sentinel, and it moves the cursor forward
//! unless it yields the sentinel. Pending tokens are returned first; the
//! sentinel, once returned, is returned for ever; a failure changes nothing;
//! and two literal boundaries in a row leave literal output as it was.

use vstd::prelude::*;
use crate::cursor::{is_stop, lemma_skip_whitespace, next_stop, prev_stop, reach, skip_whitespace};
use crate::error::ScanError;
use crate::extract::{is_name_end, lemma_name_ended, matches_at, name_at};
use crate::ascii::EQS;
use crate::model::{
    advances, lemma_collect_step, lemma_raw_span_step, after_open, attributes_at, collect,
    initial_core, markup_at, open_round, raw_span, round, tag_end_at, lemma_value_span, remaining,
    tag_finish, tag_with_prefix, terminator_at, tokens_with_prefix, step, token_at, value_span,
    Core, Phase, ScannerView, Source, Tag, Terminator,
};
use crate::token::{PayloadView, TokenKind, TokenView};

verus! {

/// Whether none of `tokens` is the sentinel.
pub open spec fn no_end(tokens: Seq<TokenView>) -> bool {
    forall|i: int| 0 <= i < tokens.len() ==> (#[trigger] tokens[i]).kind != TokenKind::End
}

/// Two runs of tokens without sentinel make one without sentinel.
pub proof fn lemma_no_end_add(a: Seq<TokenView>, b: Seq<TokenView>)
    requires
        no_end(a),
        no_end(b),
    ensures
        no_end(a + b),
{
    assert forall|i: int| 0 <= i < (a + b).len() implies (#[trigger] (a + b)[i]).kind
        != TokenKind::End by {
        if i < a.len() {
            assert((a + b)[i] == a[i]);
        } else {
            assert((a + b)[i] == b[i - a.len()]);
        }
    }
}

/// A tag that is finished behind tokens without sentinel has tokens
/// without sentinel, and ends where its terminator or its further
/// attributes end.
proof fn lemma_tag_finish_shape(src: Seq<u8>, prefix: Seq<TokenView>, t: int, retry: Tag)
    requires
        no_end(prefix),
        0 <= t < src.len(),
        retry matches Ok(Some((tokens, end))) ==> {
            &&& t < end < src.len()
            &&& tokens.len() >= 1
            &&& no_end(tokens)
        },
    ensures
        tag_finish(src, prefix, t, retry) matches Ok(Some((tokens, end))) ==> {
            &&& t <= end < src.len()
            &&& tokens.len() >= 1
            &&& no_end(tokens)
        },
{
    match tag_end_at(src, t) {
        Some((token, after)) => {
            assert(token.kind == TokenKind::MarkupTagEnd);
            assert(no_end(seq![token]));
            lemma_no_end_add(prefix, seq![token]);
            assert(prefix.push(token) =~= prefix + seq![token]);
        },
        None => {
            match retry {
                Ok(Some((tokens, end))) => {
                    lemma_no_end_add(prefix, tokens);
                },
                _ => {},
            }
        },
    }
}

/// Tokens put before a tag in two parts are put before it as one.
pub proof fn lemma_tag_prefix_assoc(a: Seq<TokenView>, b: Seq<TokenView>, rest: Tag)
    ensures
        tag_with_prefix(a, tag_with_prefix(b, rest)) == tag_with_prefix(a + b, rest),
{
    match rest {
        Ok(Some((tokens, end))) => {
            assert(a + (b + tokens) =~= (a + b) + tokens);
        },
        _ => {},
    }
}

/// A raw span ends at or after its start and inside the buffer. It ends
/// after its start where more than one byte is left, unless the open
/// delimiter ends it at once.
pub proof fn lemma_raw_span_bounds(src: Seq<u8>, open: Seq<u8>, t: Terminator, p: int)
    requires
        0 <= p < src.len(),
    ensures
        p <= raw_span(src, open, t, p).1 < src.len(),
        p + 1 < src.len() && (t != Terminator::Open || !matches_at(src, p, open)) ==> p
            < raw_span(src, open, t, p).1,
    decreases src.len() - p,
{
    lemma_raw_span_step(src, open, t, p);
    if p + 1 < src.len() && terminator_at(src, open, t, p) is None {
        lemma_raw_span_bounds(src, open, t, next_stop(src, p));
    }
}

/// A round at an open delimiter moves the cursor forward.
pub proof fn lemma_open_round_advances(s: Source, c: Core)
    requires
        s.open.len() > 0,
        s.close.len() > 0,
        0 <= c.offset,
        c.offset + 1 < s.bytes.len(),
    ensures
        advances(s, c, open_round(s, c)),
{
    let p = c.offset;
    let a0 = reach(s.bytes, p + s.open.len());
    lemma_skip_whitespace(s.bytes, a0);
    let a = after_open(s, p);
    if a + 1 < s.bytes.len() {
        lemma_skip_whitespace(s.bytes, next_stop(s.bytes, a));
    }
}

/// What the rounds from a state on yield holds no sentinel.
pub proof fn lemma_collect_no_end(s: Source, c: Core)
    requires
        s.open.len() > 0,
        s.close.len() > 0,
    ensures
        collect(s, c) matches Ok(tokens) ==> no_end(tokens),
    decreases s.bytes.len(), 4int, s.bytes.len() - c.offset,
{
    lemma_collect_step(s, c);
    match round(s, c) {
        Err(e) => {},
        Ok(r) => {
            if r.tokens.len() == 0 || r.tokens[0].kind == TokenKind::End || !advances(s, c, r) {
            } else {
                lemma_round_shape(s, c);
                lemma_collect_no_end(s, r.core);
                match collect(s, r.core) {
                    Ok(rest) => {
                        let tail = r.tokens.subrange(1, r.tokens.len() as int);
                        lemma_no_end_add(seq![r.tokens[0]], tail);
                        assert(seq![r.tokens[0]] + tail =~= r.tokens);
                        lemma_no_end_add(r.tokens, rest);
                    },
                    Err(e) => {},
                }
            }
        },
    }
}

/// A tag's attributes and terminator end at or after their start and
/// inside the buffer, and their tokens, of which there is at least one,
/// hold no sentinel.
pub proof fn lemma_attributes_shape(s: Source, q: int)
    requires
        s.open.len() > 0,
        s.close.len() > 0,
    ensures
        attributes_at(s, q) matches Ok(Some((tokens, end))) ==> {
            &&& 0 <= q <= end < s.bytes.len()
            &&& tokens.len() >= 1
            &&& no_end(tokens)
        },
    decreases s.bytes.len(), 0int, s.bytes.len() - q,
{
    reveal(attributes_at);
    let src = s.bytes;
    if 0 <= q < src.len() {
        let w = skip_whitespace(src, q);
        lemma_skip_whitespace(src, q);
        match name_at(src, w, true, true, true) {
            Some((name, e)) => {
                lemma_name_ended(src, w, true, true, true);
                lemma_skip_whitespace(src, e);
                if is_name_end(src[e]) {
                    let attr_token = token_at(
                        TokenKind::MarkupAttrName,
                        src,
                        w,
                        PayloadView::Bytes(name),
                    );
                    let w2 = skip_whitespace(src, e);
                    if src[w2] != EQS {
                        lemma_attributes_shape(s, w2);
                        match attributes_at(s, w2) {
                            Ok(Some((tokens, end))) => {
                                lemma_no_end_add(seq![attr_token], tokens);
                            },
                            _ => {},
                        }
                    } else {
                        lemma_value_span(src, w2);
                        match value_span(src, w2) {
                            Err(e) => {},
                            Ok((content, c)) => {
                                let inner = Source {
                                    bytes: content,
                                    open: s.open,
                                    close: s.close,
                                };
                                lemma_collect_no_end(inner, initial_core());
                                let retry: Tag = if c + 1 < src.len() {
                                    lemma_attributes_shape(s, next_stop(src, c));
                                    attributes_at(s, next_stop(src, c))
                                } else {
                                    Ok(None)
                                };
                                match collect(inner, initial_core()) {
                                    Ok(sub) => {
                                        let sym = token_at(
                                            TokenKind::Symbol,
                                            src,
                                            w2,
                                            PayloadView::Byte(EQS),
                                        );
                                        lemma_no_end_add(seq![attr_token, sym], sub);
                                        lemma_tag_finish_shape(
                                            src,
                                            seq![attr_token, sym] + sub,
                                            c,
                                            retry,
                                        );
                                    },
                                    Err(e) => {},
                                }
                            },
                        }
                    }
                }
            },
            None => {
                let retry: Tag = if w + 1 < src.len() {
                    lemma_attributes_shape(s, next_stop(src, w));
                    attributes_at(s, next_stop(src, w))
                } else {
                    Ok(None)
                };
                lemma_tag_finish_shape(src, Seq::empty(), w, retry);
            },
        }
    }
}

/// A markup tag ends after its start and inside the buffer, and its
/// tokens, of which there are at least two, hold no sentinel.
pub proof fn lemma_markup_shape(s: Source, p: int)
    requires
        s.open.len() > 0,
        s.close.len() > 0,
    ensures
        markup_at(s, p) matches Ok(Some((tokens, end))) ==> {
            &&& 0 <= p < end < s.bytes.len()
            &&& tokens.len() >= 2
            &&& tokens[0].kind == TokenKind::MarkupTagStart
            &&& no_end(tokens)
        },
    decreases s.bytes.len(), 1int, 0int,
{
    reveal(markup_at);
    reveal(attributes_at);
    let src = s.bytes;
    if 0 <= p && p + 1 < src.len() {
        let n = next_stop(src, p);
        if n + 1 < src.len() {
            lemma_name_ended(src, n, false, false, false);
            match name_at(src, n, false, false, false) {
                None => {},
                Some((name, q)) => {
                    lemma_attributes_shape(s, q);
                    match attributes_at(s, q) {
                        Ok(Some((tokens, end))) => {
                            let start = token_at(
                                TokenKind::MarkupTagStart,
                                src,
                                n,
                                PayloadView::Bytes(name),
                            );
                            assert(no_end(seq![start]));
                            lemma_no_end_add(seq![start], tokens);
                            assert((seq![start] + tokens)[0] == start);
                        },
                        _ => {},
                    }
                },
            }
        }
    }
}

/// A round yields at least one token, and none but a lone first one is
/// the sentinel. A round that yields the sentinel changes nothing; every
/// other round moves the cursor forward inside the buffer.
pub proof fn lemma_round_shape(s: Source, c: Core)
    requires
        s.open.len() > 0,
        s.close.len() > 0,
    ensures
        round(s, c) matches Ok(r) ==> {
            &&& r.tokens.len() >= 1
            &&& no_end(r.tokens.subrange(1, r.tokens.len() as int))
            &&& if r.tokens[0].kind == TokenKind::End {
                r.core == c && r.tokens.len() == 1
            } else {
                advances(s, c, r)
            }
        },
    decreases s.bytes.len(), 3int, 0int,
{
    reveal(markup_at);
    if c.offset < 0 || c.offset + 1 >= s.bytes.len() {
    } else {
        match c.phase {
            Phase::Statement => {},
            Phase::LineComment => {
                lemma_raw_span_bounds(s.bytes, s.open, Terminator::LineBreak, c.offset);
            },
            Phase::BlockComment => {
                lemma_raw_span_bounds(s.bytes, s.open, Terminator::BlockClose, c.offset);
            },
            Phase::Text => {
                if matches_at(s.bytes, c.offset, s.open) {
                    lemma_open_round_advances(s, c);
                } else {
                    lemma_raw_span_bounds(s.bytes, s.open, Terminator::Open, c.offset);
                    if !c.literal {
                        lemma_markup_shape(s, c.offset);
                    }
                }
            },
        }
    }
}

/// The state after `n` pulls from the state `v`, failures included.
pub open spec fn after_pulls(v: ScannerView, n: nat) -> ScannerView
    decreases n,
{
    if n == 0 {
        v
    } else {
        after_pulls(step(v).next, (n - 1) as nat)
    }
}

/// Once a pull has returned the sentinel, every later pull returns it too,
/// and none of them changes the state, the position included.
pub proof fn law_end_is_stable(v: ScannerView, n: nat)
    requires
        v.source.open.len() > 0,
        v.source.close.len() > 0,
        no_end(v.pending),
        step(v).result matches Ok(t) && t.kind == TokenKind::End,
    ensures
        step(v).next == v,
        after_pulls(v, n) == v,
        step(after_pulls(v, n)).result == step(v).result,
    decreases n,
{
    lemma_round_shape(v.source, v.core);
    if v.pending.len() > 0 {
        assert(v.pending[0].kind != TokenKind::End);
    }
    let r = round(v.source, v.core).unwrap();
    assert(r.tokens.subrange(1, r.tokens.len() as int) =~= v.pending);
    if n > 0 {
        law_end_is_stable(v, (n - 1) as nat);
    }
}

/// A failure changes nothing, so the pull after it fails in the same way.
pub proof fn law_failure_changes_nothing(v: ScannerView)
    requires
        step(v).result is Err,
    ensures
        step(v).next == v,
        step(step(v).next).result == step(v).result,
{
}

/// Pending tokens are returned first, in the order in which they wait, and
/// returning one moves nothing but the queue.
pub proof fn law_pending_first(v: ScannerView)
    requires
        v.pending.len() > 0,
    ensures
        step(v).result == Ok::<TokenView, ScanError>(v.pending[0]),
        step(v).next.core == v.core,
        step(v).next.pending == v.pending.subrange(1, v.pending.len() as int),
{
}

/// A round whose first token is a literal boundary has read the toggle: it
/// yields that token alone, with the switched flag as its payload, and
/// leaves literal output switched.
pub proof fn lemma_literal_boundary(s: Source, c: Core)
    requires
        s.open.len() > 0,
        s.close.len() > 0,
        round(s, c) matches Ok(r) && r.tokens.len() > 0 && r.tokens[0].kind
            == TokenKind::LiteralBoundary,
    ensures
        round(s, c) matches Ok(r) && r.tokens == seq![
            token_at(TokenKind::LiteralBoundary, s.bytes, c.offset, PayloadView::Flag(!c.literal)),
        ] && r.core.literal == !c.literal && r.core.phase == Phase::Text,
{
    lemma_markup_shape(s, c.offset);
    reveal(markup_at);
}

/// Two literal boundaries in a row, with nothing pending before the first,
/// carry the switched flag and then the first flag again, and leave literal
/// output as it was.
pub proof fn law_literal_toggle_twice(v: ScannerView)
    requires
        v.source.open.len() > 0,
        v.source.close.len() > 0,
        v.pending.len() == 0,
        step(v).result matches Ok(t) && t.kind == TokenKind::LiteralBoundary,
        step(step(v).next).result matches Ok(t) && t.kind == TokenKind::LiteralBoundary,
    ensures
        step(v).result matches Ok(t) && t.payload == PayloadView::Flag(!v.core.literal),
        step(v).next.core.literal == !v.core.literal,
        step(step(v).next).result matches Ok(t) && t.payload == PayloadView::Flag(
            v.core.literal,
        ),
        step(step(v).next).next.core.literal == v.core.literal,
{
    lemma_literal_boundary(v.source, v.core);
    let w = step(v).next;
    let r = round(v.source, v.core).unwrap();
    assert(r.tokens.subrange(1, r.tokens.len() as int) =~= Seq::<TokenView>::empty());
    lemma_literal_boundary(w.source, w.core);
}

/// With nothing pending, a pull that returns the open delimiter leaves the
/// scanner inside a statement or a comment, and a pull that returns the
/// close delimiter leaves it outside of both, with literal output as it
/// was.
pub proof fn law_delimiters_switch_mode(v: ScannerView)
    requires
        v.source.open.len() > 0,
        v.source.close.len() > 0,
        v.pending.len() == 0,
    ensures
        step(v).result matches Ok(t) ==> (t.kind == TokenKind::StatementOpen ==> {
            &&& step(v).next.core.phase != Phase::Text
            &&& step(v).next.core.literal == v.core.literal
            &&& t.payload == PayloadView::Bytes(v.source.open)
        }),
        step(v).result matches Ok(t) ==> (t.kind == TokenKind::StatementClose ==> {
            &&& step(v).next.core.phase == Phase::Text
            &&& step(v).next.core.literal == v.core.literal
            &&& t.payload == PayloadView::Bytes(v.source.close)
        }),
{
    lemma_markup_shape(v.source, v.core.offset);
    reveal(markup_at);
}

/// A move forward and the move back from where it ends undo each other.
pub proof fn law_back_undoes_forward(src: Seq<u8>, p: int)
    requires
        is_stop(src, p),
    ensures
        p + 1 < src.len() ==> prev_stop(src, next_stop(src, p)) == p,
        p > 0 ==> next_stop(src, prev_stop(src, p)) == p,
{
}

/// The rounds are followed up to the one that yields the sentinel: none of
/// them is cut off for want of progress.
pub proof fn law_rounds_are_followed(s: Source, c: Core)
    requires
        s.open.len() > 0,
        s.close.len() > 0,
    ensures
        collect(s, c) == match round(s, c) {
            Err(e) => Err::<Seq<TokenView>, ScanError>(e),
            Ok(r) => if r.tokens[0].kind == TokenKind::End {
                Ok(Seq::<TokenView>::empty())
            } else {
                tokens_with_prefix(r.tokens, collect(s, r.core))
            },
        },
{
    lemma_round_shape(s, c);
    lemma_collect_step(s, c);
}

/// The tokens that remain are what the pulls return one by one: nothing
/// after the sentinel, the failure after a failure, and else the token
/// returned, followed by what remains after that pull.
pub proof fn law_remaining_by_pulls(v: ScannerView)
    requires
        v.source.open.len() > 0,
        v.source.close.len() > 0,
        no_end(v.pending),
    ensures
        remaining(v) == match step(v).result {
            Err(e) => Err::<Seq<TokenView>, ScanError>(e),
            Ok(t) => if t.kind == TokenKind::End {
                Ok(Seq::<TokenView>::empty())
            } else {
                tokens_with_prefix(seq![t], remaining(step(v).next))
            },
        },
{
    lemma_round_shape(v.source, v.core);
    lemma_collect_step(v.source, v.core);
    if v.pending.len() > 0 {
        let tail = v.pending.subrange(1, v.pending.len() as int);
        assert(v.pending[0].kind != TokenKind::End);
        match collect(v.source, v.core) {
            Ok(rest) => {
                assert(seq![v.pending[0]] + (tail + rest) =~= v.pending + rest);
            },
            Err(e) => {},
        }
    } else {
        assert(v.pending =~= Seq::<TokenView>::empty());
        match round(v.source, v.core) {
            Err(e) => {},
            Ok(r) => {
                let tail = r.tokens.subrange(1, r.tokens.len() as int);
                if r.tokens[0].kind == TokenKind::End {
                    assert(v.pending + Seq::<TokenView>::empty() =~= Seq::<TokenView>::empty());
                } else {
                    match collect(v.source, r.core) {
                        Ok(rest) => {
                            assert(seq![r.tokens[0]] + (tail + rest) =~= v.pending + (r.tokens
                                + rest));
                        },
                        Err(e) => {},
                    }
                }
            },
        }
    }
}

} // verus!
