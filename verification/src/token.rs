//! Tokens, their kinds and payloads, and the positions they carry.

use vstd::prelude::*;

verus! {

/// A place in the buffer. `offset` is the byte index; `line` and `column`
/// are derived from it and from the buffer's contents.
#[derive(Debug, Clone, Copy, PartialEq, Eq, Structural)]
pub struct Position {
    pub line: usize,
    pub column: usize,
    pub offset: usize,
}

/// What a token is.
#[derive(Debug, Clone, Copy, PartialEq, Eq, Structural)]
pub enum TokenKind {
    /// The open delimiter, met outside a statement.
    StatementOpen,
    /// The close delimiter, met inside a statement.
    StatementClose,
    /// A comparison operator inside a statement.
    Operator,
    /// The name that follows `<`.
    MarkupTagStart,
    /// The name of an attribute.
    MarkupAttrName,
    /// A single significant byte; at present only `=`.
    Symbol,
    /// The `>` or `/>` that ends a tag.
    MarkupTagEnd,
    /// A literal-toggle marker enclosed in the delimiter pair.
    LiteralBoundary,
    /// The body of a comment.
    Comment,
    /// Raw bytes met while literal output is on.
    Literal,
    /// Raw bytes met in markup.
    Data,
    /// No more input.
    End,
}

/// The comparison operators recognised inside a statement.
#[derive(Debug, Clone, Copy, PartialEq, Eq, Structural)]
pub enum Operator {
    /// `<`
    Less,
    /// `<=`
    LessEqual,
    /// `>`
    Greater,
    /// `>=`
    GreaterEqual,
}

/// What a token carries besides its kind and position.
#[derive(Debug, Clone)]
pub enum Payload {
    /// Nothing.
    Empty,
    /// A run of bytes: a delimiter, a name, a terminator or a raw span.
    Bytes(Vec<u8>),
    /// One byte.
    Byte(u8),
    /// Whether literal output is on after the token.
    Flag(bool),
    /// Which operator was read.
    Operator(Operator),
}

/// The mathematical value of a [`Payload`].
pub enum PayloadView {
    Empty,
    Bytes(Seq<u8>),
    Byte(u8),
    Flag(bool),
    Operator(Operator),
}

impl View for Payload {
    type V = PayloadView;

    open spec fn view(&self) -> PayloadView {
        match *self {
            Payload::Empty => PayloadView::Empty,
            Payload::Bytes(b) => PayloadView::Bytes(b@),
            Payload::Byte(c) => PayloadView::Byte(c),
            Payload::Flag(f) => PayloadView::Flag(f),
            Payload::Operator(o) => PayloadView::Operator(o),
        }
    }
}

/// A token: its kind, the position at which it began, and its payload.
#[derive(Debug, Clone)]
pub struct Token {
    pub kind: TokenKind,
    pub pos: Position,
    pub payload: Payload,
}

/// The mathematical value of a [`Token`].
pub struct TokenView {
    pub kind: TokenKind,
    pub pos: Position,
    pub payload: PayloadView,
}

impl View for Token {
    type V = TokenView;

    open spec fn view(&self) -> TokenView {
        TokenView { kind: self.kind, pos: self.pos, payload: self.payload@ }
    }
}

/// Whether `a` and `b` hold the same bytes.
pub fn same_bytes(a: &Vec<u8>, b: &Vec<u8>) -> (r: bool)
    ensures
        r == (a@ == b@),
{
    if a.len() != b.len() {
        return false;
    }
    let mut i: usize = 0;
    while i < a.len()
        invariant
            a@.len() == b@.len(),
            i <= a@.len(),
            forall|j: int| 0 <= j < i ==> a@[j] == b@[j],
        decreases a@.len() - i,
    {
        if a[i] != b[i] {
            return false;
        }
        i = i + 1;
    }
    assert(a@ =~= b@);
    true
}

impl PartialEq for Payload {
    /// Two payloads are equal where their values are.
    fn eq(&self, other: &Payload) -> (r: bool) {
        match (self, other) {
            (Payload::Empty, Payload::Empty) => true,
            (Payload::Bytes(a), Payload::Bytes(b)) => same_bytes(a, b),
            (Payload::Byte(a), Payload::Byte(b)) => *a == *b,
            (Payload::Flag(a), Payload::Flag(b)) => *a == *b,
            (Payload::Operator(a), Payload::Operator(b)) => *a == *b,
            _ => false,
        }
    }
}

impl vstd::std_specs::cmp::PartialEqSpecImpl for Payload {
    open spec fn obeys_eq_spec() -> bool {
        true
    }

    open spec fn eq_spec(&self, other: &Payload) -> bool {
        self@ == other@
    }
}

impl PartialEq for Token {
    /// Two tokens are equal where kind, position and payload are.
    fn eq(&self, other: &Token) -> (r: bool) {
        self.kind == other.kind && self.pos == other.pos && self.payload == other.payload
    }
}

impl vstd::std_specs::cmp::PartialEqSpecImpl for Token {
    open spec fn obeys_eq_spec() -> bool {
        true
    }

    open spec fn eq_spec(&self, other: &Token) -> bool {
        self@ == other@
    }
}

impl Token {
    /// The token's kind.
    pub fn kind(&self) -> (k: &TokenKind)
        ensures
            *k == self.kind,
    {
        &self.kind
    }
}

} // verus!
