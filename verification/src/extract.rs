//! The recognisers that read through the cursor: a fixed byte sequence, a
//! name, and a quoted string. Each either consumes what it recognised or
//! leaves the cursor where it was.

use vstd::prelude::*;
use crate::ascii::{
    is_digit, is_lower_letter, is_upper_letter, is_whitespace, ATS, BKS, DLS, EQS, GTR, SLA, UND,
};
use crate::cursor::{is_stop, land, lemma_next_stop, next_stop, reach, Cursor};
use crate::error::ScanError;

verus! {

/// Whether the bytes of `src` that begin at offset `p` are `pat`.
pub open spec fn matches_at(src: Seq<u8>, p: int, pat: Seq<u8>) -> bool {
    &&& 0 <= p
    &&& p + pat.len() <= src.len()
    &&& src.subrange(p, p + pat.len()) == pat
}

/// Whether `c` may begin a name. Letters always may; `$`, `@` and `_` only
/// where the matching flag allows it.
pub open spec fn is_name_start(c: u8, dollar: bool, at: bool, underscore: bool) -> bool {
    ||| is_lower_letter(c)
    ||| is_upper_letter(c)
    ||| (dollar && c == DLS)
    ||| (at && c == ATS)
    ||| (underscore && c == UND)
}

/// Whether `c` may continue a name: a letter, a digit or `_`.
pub open spec fn is_name_part(c: u8) -> bool {
    is_lower_letter(c) || is_upper_letter(c) || is_digit(c) || c == UND
}

/// Whether `c` ends a name: whitespace, `/`, `>` or `=`.
pub open spec fn is_name_end(c: u8) -> bool {
    is_whitespace(c) || c == SLA || c == GTR || c == EQS
}

/// The first offset at or after `p` that holds no name byte; the length of
/// `src` where name bytes run to the end.
#[verifier::opaque]
pub open spec fn name_limit(src: Seq<u8>, p: int) -> int
    decreases src.len() - p,
{
    if 0 <= p < src.len() && is_name_part(src[p]) {
        name_limit(src, p + 1)
    } else {
        p
    }
}

/// The name that begins at offset `p`, with the offset on which the cursor
/// rests after it: the byte that ended the name, or the last byte where the
/// name runs to the end of the buffer. `None` where the byte at `p` cannot
/// begin a name, or where the name runs into a byte that neither continues
/// nor ends it.
pub open spec fn name_at(src: Seq<u8>, p: int, dollar: bool, at: bool, underscore: bool) -> Option<
    (Seq<u8>, int),
> {
    if !(0 <= p < src.len()) || !is_name_start(src[p], dollar, at, underscore) {
        None
    } else {
        let e = name_limit(src, p + 1);
        if e >= src.len() {
            Some((src.subrange(p, src.len() as int), src.len() - 1))
        } else if is_name_end(src[e]) {
            Some((src.subrange(p, e), land(src, e)))
        } else {
            None
        }
    }
}

/// `rest` with `head` put before its bytes.
pub open spec fn with_prefix(head: Seq<u8>, rest: Option<(Seq<u8>, int)>) -> Option<
    (Seq<u8>, int),
> {
    match rest {
        Some((s, e)) => Some((head + s, e)),
        None => None,
    }
}

/// The content of the quoted string whose opening quote the cursor rests on
/// at offset `p`, with the offset of the closing `quote`. A backslash is
/// dropped and the byte after it taken as it is. `None` where the buffer
/// ends before an unescaped `quote`.
#[verifier::opaque]
pub open spec fn quoted_at(src: Seq<u8>, p: int, quote: u8) -> Option<(Seq<u8>, int)>
    decreases src.len() - p,
{
    if p < 0 || p + 1 >= src.len() {
        None
    } else {
        let a = next_stop(src, p);
        let c = src[a];
        if c == BKS {
            if a + 1 >= src.len() {
                None
            } else {
                let b = next_stop(src, a);
                with_prefix(seq![src[b]], quoted_at(src, b, quote))
            }
        } else if c == quote {
            Some((Seq::empty(), a))
        } else {
            with_prefix(seq![c], quoted_at(src, a, quote))
        }
    }
}

/// The bytes at `p` are `pat` exactly where each of them is the byte of
/// `pat` at its place.
pub proof fn lemma_matches_at(src: Seq<u8>, p: int, pat: Seq<u8>)
    ensures
        matches_at(src, p, pat) <==> {
            &&& 0 <= p
            &&& p + pat.len() <= src.len()
            &&& forall|i: int| 0 <= i < pat.len() ==> src[p + i] == pat[i]
        },
{
    if 0 <= p && p + pat.len() <= src.len() {
        let sub = src.subrange(p, p + pat.len());
        if forall|i: int| 0 <= i < pat.len() ==> src[p + i] == pat[i] {
            assert(sub =~= pat);
        }
        if sub == pat {
            assert forall|i: int| 0 <= i < pat.len() implies src[p + i] == pat[i] by {
                assert(sub[i] == src[p + i]);
            }
        }
    }
}

/// One step of a run of name bytes.
pub proof fn lemma_name_limit_step(src: Seq<u8>, p: int)
    ensures
        name_limit(src, p) == if 0 <= p < src.len() && is_name_part(src[p]) {
            name_limit(src, p + 1)
        } else {
            p
        },
{
    reveal(name_limit);
}

/// One step of a quoted string.
pub proof fn lemma_quoted_step(src: Seq<u8>, p: int, quote: u8)
    ensures
        quoted_at(src, p, quote) == if p < 0 || p + 1 >= src.len() {
            None
        } else {
            let a = next_stop(src, p);
            let c = src[a];
            if c == BKS {
                if a + 1 >= src.len() {
                    None
                } else {
                    let b = next_stop(src, a);
                    with_prefix(seq![src[b]], quoted_at(src, b, quote))
                }
            } else if c == quote {
                Some((Seq::<u8>::empty(), a))
            } else {
                with_prefix(seq![c], quoted_at(src, a, quote))
            }
        },
{
    reveal(quoted_at);
}

/// The run of name bytes that begins at `p` ends at or after `p` and inside
/// the buffer or at its end, on the first byte that is no name byte.
pub proof fn lemma_name_limit(src: Seq<u8>, p: int)
    requires
        0 <= p <= src.len(),
    ensures
        p <= name_limit(src, p) <= src.len(),
        name_limit(src, p) < src.len() ==> !is_name_part(src[name_limit(src, p)]),
        forall|i: int| p <= i < name_limit(src, p) ==> is_name_part(#[trigger] src[i]),
    decreases src.len() - p,
{
    reveal(name_limit);
    if p < src.len() && is_name_part(src[p]) {
        lemma_name_limit(src, p + 1);
    }
}

/// A name that a name-ending byte follows is not empty, and the cursor
/// rests after it, inside the buffer, on a byte that ends names.
pub proof fn lemma_name_ended(src: Seq<u8>, p: int, dollar: bool, at: bool, underscore: bool)
    ensures
        name_at(src, p, dollar, at, underscore) matches Some((name, e)) ==> {
            &&& 0 <= p <= e < src.len()
            &&& name.len() >= 1
            &&& (is_stop(src, p) ==> is_stop(src, e))
            &&& (is_name_end(src[e]) ==> p < e && p + name.len() <= e)
        },
{
    if 0 <= p < src.len() {
        lemma_name_limit(src, p + 1);
    }
}

/// A quoted string's content is shorter than the span between its quotes.
pub proof fn lemma_quoted_length(src: Seq<u8>, p: int, quote: u8)
    ensures
        quoted_at(src, p, quote) matches Some((s, e)) ==> {
            &&& 0 <= p < e < src.len()
            &&& s.len() <= e - p - 1
        },
    decreases src.len() - p,
{
    reveal(quoted_at);
    if 0 <= p && p + 1 < src.len() {
        let a = next_stop(src, p);
        if src[a] == BKS {
            if a + 1 < src.len() {
                lemma_quoted_length(src, next_stop(src, a), quote);
            }
        } else if src[a] != quote {
            lemma_quoted_length(src, a, quote);
        }
    }
}

/// Whether `c` ends a name: whitespace, `/`, `>` or `=`.
pub fn ends_name(c: u8) -> (r: bool)
    ensures
        r == is_name_end(c),
{
    is_whitespace(c) || c == SLA || c == GTR || c == EQS
}

impl<'a> Cursor<'a> {
    /// Whether the bytes of the buffer that begin at the cursor are `pat`.
    pub fn looking_at(&self, pat: &[u8]) -> (r: bool)
        requires
            self.wf(),
        ensures
            r == matches_at(self.buf(), self.at(), pat@),
    {
        let start: usize = self.position().offset;
        let n: usize = pat.len();
        let len: usize = self.len();
        if start > len || n > len - start {
            return false;
        }
        let mut i: usize = 0;
        while i < n
            invariant
                start == self.at(),
                n == pat@.len(),
                i <= n,
                len == self.buf().len(),
                start + n <= len,
                forall|j: int| 0 <= j < i ==> self.buf()[start + j] == pat@[j],
            decreases n - i,
        {
            if !self.assert_match(start + i, pat[i]) {
                assert(self.buf().subrange(start as int, start + n)[i as int] != pat@[i as int]);
                return false;
            }
            i = i + 1;
        }
        assert(self.buf().subrange(start as int, start + n) =~= pat@);
        true
    }

    /// Compares the buffer at the cursor with `pat`, byte for byte. On a
    /// match the cursor moves just past the matched bytes; else it stays.
    pub fn match_bytes(&mut self, pat: &[u8]) -> (r: bool)
        requires
            old(self).wf(),
        ensures
            final(self).wf(),
            final(self).buf() == old(self).buf(),
            r == matches_at(old(self).buf(), old(self).at(), pat@),
            r ==> final(self).at() == if pat@.len() > 0 {
                reach(old(self).buf(), old(self).at() + pat@.len())
            } else {
                old(self).at()
            },
            !r ==> final(self).pos() == old(self).pos(),
    {
        if !self.looking_at(pat) {
            return false;
        }
        let start: usize = self.position().offset;
        let len: usize = self.len();
        assert(start + pat@.len() <= len);
        self.advance_to(start + pat.len());
        true
    }

    /// Extracts a name at the cursor. The first byte must be a letter, or
    /// `$`, `@` or `_` where the matching flag is set; letters, digits and
    /// `_` may follow. The name ends before whitespace, `/`, `>` or `=`,
    /// on which the cursor then rests, or at the end of the buffer. Any
    /// other byte is no match, and the cursor stays where it was.
    pub fn match_dom_name(
        &mut self,
        allow_dollar_prefix: bool,
        allow_at_prefix: bool,
        allow_underline: bool,
    ) -> (r: Option<Vec<u8>>)
        requires
            old(self).wf(),
            old(self).buf().len() > 0,
        ensures
            final(self).wf(),
            final(self).buf() == old(self).buf(),
            match name_at(
                old(self).buf(),
                old(self).at(),
                allow_dollar_prefix,
                allow_at_prefix,
                allow_underline,
            ) {
                Some((name, end)) => r matches Some(v) && v@ == name && final(self).at() == end,
                None => r is None && final(self).pos() == old(self).pos(),
            },
    {
        let c = self.current();
        if !allow_dollar_prefix && c == DLS {
            return None;
        }
        if !allow_at_prefix && c == ATS {
            return None;
        }
        if !allow_underline && c == UND {
            return None;
        }
        let mut buf: Vec<u8> = Vec::new();
        if is_lower_letter(c) || is_upper_letter(c) || c == DLS || c == ATS || c == UND {
            buf.push(c);
        } else {
            return None;
        }
        let start: usize = self.position().offset;
        let ghost src = self.buf();
        assert(buf@ =~= src.subrange(start as int, start + 1));
        while self.can_forward()
            invariant
                self.wf(),
                old(self).wf(),
                self.buf() == src,
                src == old(self).buf(),
                start == old(self).at(),
                start <= self.at() < src.len(),
                is_name_start(
                    src[start as int],
                    allow_dollar_prefix,
                    allow_at_prefix,
                    allow_underline,
                ),
                buf@ == src.subrange(start as int, self.at() + 1),
                name_limit(src, start + 1) == name_limit(src, self.at() + 1),
            decreases src.len() - self.at(),
        {
            let ghost before = self.at();
            proof {
                lemma_name_limit_step(src, before + 1);
                lemma_next_stop(src, before);
            }
            self.forward();
            let c = self.current();
            if is_whitespace(c) || c == SLA || c == GTR || c == EQS {
                assert(is_name_end(src[before + 1]));
                assert(name_limit(src, before + 1) == before + 1);
                assert(self.at() == land(src, before + 1));
                return Some(buf);
            } else if is_lower_letter(c) || is_upper_letter(c) || is_digit(c) || c == UND {
                buf.push(c);
                assert(buf@ =~= src.subrange(start as int, self.at() + 1));
                continue ;
            }
            self.back_pos_diff(start);
            return None;
        }
        proof {
            lemma_name_limit_step(src, src.len() as int);
        }
        assert(buf@ =~= src.subrange(start as int, src.len() as int));
        Some(buf)
    }

    /// Extracts the quoted string whose opening quote the cursor rests on,
    /// up to the first `end` that no backslash precedes, and leaves the
    /// cursor on that closing byte. A backslash is dropped and the byte
    /// after it is taken as it is. Where the buffer ends first, the cursor
    /// stays where it was and the string is reported as unterminated.
    pub fn extract_str(&mut self, end: u8) -> (r: Result<Vec<u8>, ScanError>)
        requires
            old(self).wf(),
        ensures
            final(self).wf(),
            final(self).buf() == old(self).buf(),
            match quoted_at(old(self).buf(), old(self).at(), end) {
                Some((content, close)) => r matches Ok(v) && v@ == content && final(self).at()
                    == close,
                None => {
                    &&& r == Err::<Vec<u8>, ScanError>(ScanError::UnterminatedString)
                    &&& final(self).pos() == old(self).pos()
                },
            },
    {
        let mut s: Vec<u8> = Vec::new();
        let start: usize = self.position().offset;
        let ghost src = self.buf();
        assert(with_prefix(s@, quoted_at(src, self.at(), end)) == quoted_at(src, self.at(), end))
            by {
            match quoted_at(src, self.at(), end) {
                Some((t, e)) => {
                    assert(s@ + t =~= t);
                },
                None => {},
            }
        }
        while self.can_forward()
            invariant
                self.wf(),
                old(self).wf(),
                self.buf() == src,
                src == old(self).buf(),
                start == old(self).at(),
                start <= self.at(),
                quoted_at(src, start as int, end) == with_prefix(
                    s@,
                    quoted_at(src, self.at(), end),
                ),
            decreases src.len() - self.at(),
        {
            proof {
                lemma_quoted_step(src, self.at(), end);
                lemma_next_stop(src, self.at());
            }
            let ghost acc = s@;
            let ghost p = self.at();
            self.forward();
            let c = self.current();
            if c == BKS {
                if self.can_forward() {
                    proof {
                        lemma_next_stop(src, self.at());
                    }
                    self.forward();
                    let e = self.current();
                    s.push(e);
                    proof {
                        lemma_with_prefix_push(acc, e, quoted_at(src, self.at(), end));
                    }
                } else {
                    proof {
                        lemma_quoted_step(src, self.at(), end);
                    }
                }
                continue ;
            } else if c == end {
                assert(acc + Seq::<u8>::empty() =~= acc);
                return Ok(s);
            }
            s.push(c);
            proof {
                lemma_with_prefix_push(acc, c, quoted_at(src, self.at(), end));
            }
        }
        proof {
            lemma_quoted_step(src, self.at(), end);
        }
        self.back_pos_diff(start);
        Err(ScanError::UnterminatedString)
    }
}

/// Putting `acc` before what `c` was put before gives what results from
/// putting `acc` with `c` at its end before the rest.
proof fn lemma_with_prefix_push(acc: Seq<u8>, c: u8, rest: Option<(Seq<u8>, int)>)
    ensures
        with_prefix(acc, with_prefix(seq![c], rest)) == with_prefix(acc.push(c), rest),
{
    match rest {
        Some((t, e)) => {
            assert(acc + (seq![c] + t) =~= acc.push(c) + t);
        },
        None => {},
    }
}

} // verus!
