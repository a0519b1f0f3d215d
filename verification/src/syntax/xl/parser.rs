//! A recovering recursive-descent parser for XL that builds a lossless
//! concrete syntax tree: every token of the source, trivia included, is a
//! leaf of the tree, in source order.

use vstd::prelude::*;
use crate::syntax::{Span, SyntaxError};
use crate::syntax::tree::{leaves, lemma_leaves_insert_open, lemma_leaves_update_open, upto, Trivia};
use crate::syntax::xl::lexer::{token_error, token_message, Token};

pub use crate::syntax::tree::NodeRef;

verus! {

/// One step of an XL tree in preorder.
pub type Event = crate::syntax::tree::Event<Rule>;

/// What an XL tree node is: a token leaf or an interior node of some rule.
pub type NodeKind = crate::syntax::tree::NodeKind<Token, Rule>;

/// One node of an XL tree in preorder.
pub type CstNode = crate::syntax::tree::CstNode<Token, Rule>;

/// An XL tree node with its span, as seen by queries.
pub type Node = crate::syntax::tree::Node<Token, Rule>;

/// The concrete syntax tree of an XL text.
pub type CstData = crate::syntax::tree::CstData<Token, Rule>;

/// The kinds of interior nodes of the concrete syntax tree.
#[derive(Clone, Copy, Debug, PartialEq, Eq, Structural)]
pub enum Rule {
    Program,
    Body,
    Block,
    LetBinding,
    DeclBinding,
    DefBinding,
    NativeBinding,
    TypeBinding,
    ImportBinding,
    TypeScheme,
    TypeParameters,
    ContractExpr,
    FunctionContract,
    Decorator,
    DecoratorPath,
    Arguments,
    SectionArguments,
    Argument,
    StringLiteral,
    Interpolation,
    IntExpr,
    FloatExpr,
    StringExpr,
    BytesExpr,
    AtomExpr,
    VariableExpr,
    ArrayExpr,
    ParenExpr,
    DictExpr,
    DictField,
    Closure,
    Parameters,
    UnaryExpr,
    BinaryExpr,
    FieldExpr,
    CallExpr,
    SectionExpr,
    PipelineExpr,
    IfExpr,
    MatchExpr,
    MatchArm,
    IdentifierPattern,
    IntPattern,
    FloatPattern,
    StringPattern,
    AtomPattern,
    TaggedPattern,
    TuplePattern,
    Error,
}

/// Whitespace, comments and invalid tokens: kept in the tree, skipped by the
/// grammar.
pub open spec fn spec_is_trivia(t: Token) -> bool {
    t == Token::Whitespace || t == Token::Comment || t == Token::Error
}

pub fn is_trivia(t: Token) -> (b: bool)
    ensures
        b == spec_is_trivia(t),
{
    t == Token::Whitespace || t == Token::Comment || t == Token::Error
}

impl Trivia for Token {
    fn is_trivia(&self) -> bool {
        is_trivia(*self)
    }
}

/// The state of a parse: the token stream of one source, the position of
/// the next token, the events emitted so far and the diagnostics.
pub struct Parser {
    pub src: Vec<u8>,
    pub tokens: Vec<Token>,
    pub spans: Vec<Span>,
    pub pos: usize,
    pub events: Vec<Event>,
    pub errors: Vec<SyntaxError>,
}

/// The position of the first significant token at or after `pos`, or the
/// end of the stream.
pub open spec fn skip_pos(tokens: Seq<Token>, pos: int) -> int
    decreases tokens.len() - pos,
{
    if pos < 0 || pos >= tokens.len() {
        pos
    } else if spec_is_trivia(tokens[pos]) {
        skip_pos(tokens, pos + 1)
    } else {
        pos
    }
}

/// The index of the `n`-th significant token (0-based) at or after `i`, or
/// the end of the stream.
pub open spec fn nth_index(tokens: Seq<Token>, i: int, n: nat) -> int
    decreases tokens.len() - i,
{
    if i < 0 || i >= tokens.len() {
        tokens.len() as int
    } else if spec_is_trivia(tokens[i]) {
        nth_index(tokens, i + 1, n)
    } else if n == 0 {
        i
    } else {
        nth_index(tokens, i + 1, (n - 1) as nat)
    }
}

/// The token at index `i`, or `EOF` past the end.
pub open spec fn token_at(tokens: Seq<Token>, i: int) -> Token {
    if 0 <= i < tokens.len() {
        tokens[i]
    } else {
        Token::EOF
    }
}

/// Skipping trivia twice skips no more than once.
pub proof fn lemma_skip_pos_twice(tokens: Seq<Token>, pos: int)
    requires
        0 <= pos,
    ensures
        skip_pos(tokens, skip_pos(tokens, pos)) == skip_pos(tokens, pos),
        pos <= skip_pos(tokens, pos),
    decreases tokens.len() - pos,
{
    if pos < tokens.len() && spec_is_trivia(tokens[pos]) {
        lemma_skip_pos_twice(tokens, pos + 1);
    }
}

impl Parser {
    /// The index of the next significant token.
    pub open spec fn next_index(self) -> int {
        skip_pos(self.tokens@, self.pos as int)
    }

    /// The next significant token, or `EOF`.
    pub open spec fn next_token(self) -> Token {
        if self.next_index() < self.tokens@.len() {
            self.tokens@[self.next_index()]
        } else {
            Token::EOF
        }
    }

    /// `next` has emitted, right after the trivia before the next
    /// significant token of `self`, a node of rule `r`, and has closed its
    /// last node.
    pub open spec fn opened_node(self, next: Parser, r: Rule) -> bool {
        let m = self.events@.len() + self.next_index() - self.pos;
        &&& m < next.events@.len()
        &&& next.events@[m] == Event::Open(r)
        &&& next.events@.last() == Event::Close
    }

    /// `next` reports an error with `message` that `self` did not.
    pub open spec fn reported(self, next: Parser, message: Seq<char>) -> bool {
        exists|k: int| self.errors@.len() <= k < next.errors@.len() && (#[trigger] next.errors@[k]).message@ == message
    }

    /// The tokens not consumed yet.
    pub open spec fn remaining(self) -> int {
        self.tokens@.len() - self.pos
    }

    /// The parser's invariant: the emitted leaves are exactly the consumed
    /// tokens, in order, and every span lies in the source.
    pub open spec fn inv(self) -> bool {
        &&& self.tokens@.len() == self.spans@.len()
        &&& self.pos <= self.tokens@.len()
        &&& self.src@.len() <= u32::MAX
        &&& leaves(self.events@) == upto(self.pos as int)
        &&& forall|k: int|
            0 <= k < self.spans@.len() ==> (#[trigger] self.spans@[k]).start <= self.spans@[k].end
                <= self.src@.len()
        &&& forall|k: int|
            0 <= k < self.errors@.len() ==> (#[trigger] self.errors@[k]).span.start
                <= self.errors@[k].span.end <= self.src@.len()
        &&& self.invalid_tokens_reported()
    }

    /// Reports stay reported while the errors only grow and no token is
    /// consumed.
    pub proof fn lemma_reported_kept(self, next: Parser)
        requires
            self.invalid_tokens_reported(),
            next.pos <= self.pos,
            next.tokens@ == self.tokens@,
            next.spans@ == self.spans@,
            self.errors@.len() <= next.errors@.len(),
            forall|k: int| 0 <= k < self.errors@.len() ==> next.errors@[k] == self.errors@[k],
        ensures
            next.invalid_tokens_reported(),
    {
        assert forall|k: int| 0 <= k < next.pos && #[trigger] token_message(next.tokens@[k]) is Some implies exists|j: int|
            0 <= j < next.errors@.len() && (#[trigger] next.errors@[j]).span == next.spans@[k]
                && next.errors@[j].message@ == token_message(next.tokens@[k])->Some_0 by {
            assert(token_message(self.tokens@[k]) is Some);
            let j = choose|j: int|
                0 <= j < self.errors@.len() && (#[trigger] self.errors@[j]).span == self.spans@[k]
                    && self.errors@[j].message@ == token_message(self.tokens@[k])->Some_0;
            assert(next.errors@[j] == self.errors@[j]);
        }
    }

    /// Every invalid token consumed so far has an error with its message at
    /// its span.
    pub open spec fn invalid_tokens_reported(self) -> bool {
        forall|k: int|
            0 <= k < self.pos && #[trigger] token_message(self.tokens@[k]) is Some ==> exists|j: int|
                0 <= j < self.errors@.len() && (#[trigger] self.errors@[j]).span == self.spans@[k]
                    && self.errors@[j].message@ == token_message(self.tokens@[k])->Some_0
    }

    /// `self` and `other` parse the same input.
    pub open spec fn same_input(self, other: Parser) -> bool {
        &&& self.src@ == other.src@
        &&& self.tokens@ == other.tokens@
        &&& self.spans@ == other.spans@
    }

    /// Steps that only add: same input, never moving backwards, keeping the
    /// invariant.
    pub open spec fn step(self, next: Parser) -> bool {
        &&& next.inv()
        &&& next.same_input(self)
        &&& self.pos <= next.pos
        &&& self.events@.len() <= next.events@.len()
        &&& forall|k: int| 0 <= k < self.events@.len() ==> next.events@[k] == self.events@[k]
        &&& self.errors@.len() <= next.errors@.len()
        &&& forall|k: int| 0 <= k < self.errors@.len() ==> next.errors@[k] == self.errors@[k]
    }

    /// `next` differs from `self` by an insertion or a change at or after
    /// `m` in the events: the input, the invariant and the position stay.
    pub open spec fn edit_from(self, next: Parser, m: int) -> bool {
        &&& next.inv()
        &&& next.same_input(self)
        &&& self.pos == next.pos
        &&& self.events@.len() <= next.events@.len()
        &&& forall|k: int| 0 <= k < m ==> next.events@[k] == self.events@[k]
        &&& next.errors@ == self.errors@
    }

    /// The next token is significant, or every token is consumed.
    pub open spec fn at_significant(self) -> bool {
        self.pos >= self.tokens@.len() || !spec_is_trivia(self.tokens@[self.pos as int])
    }

    /// `true` when every token is consumed.
    pub fn at_end(&self) -> (b: bool)
        ensures
            b == (self.pos >= self.tokens@.len()),
    {
        self.pos >= self.tokens.len()
    }

    /// The next token, trivia included, or `EOF`.
    pub fn current(&self) -> (t: Token)
        requires
            self.inv(),
        ensures
            self.pos < self.tokens@.len() ==> t == self.tokens@[self.pos as int],
            self.pos >= self.tokens@.len() ==> t == Token::EOF,
    {
        if self.pos < self.tokens.len() {
            self.tokens[self.pos]
        } else {
            Token::EOF
        }
    }

    /// The span of the next token, or the empty span at the end of the text.
    pub fn current_span(&self) -> (s: Span)
        requires
            self.inv(),
        ensures
            s.start <= s.end <= self.src@.len(),
            self.pos < self.tokens@.len() ==> s == self.spans@[self.pos as int],
            self.pos >= self.tokens@.len() ==> s == (Span { start: self.src@.len() as usize, end: self.src@.len() as usize }),
    {
        if self.pos < self.tokens.len() {
            self.spans[self.pos]
        } else {
            let n = self.src.len();
            Span { start: n, end: n }
        }
    }

    /// Reports `message` at the next token.
    pub fn error(&mut self, message: &str)
        requires
            old(self).inv(),
        ensures
            old(self).step(*final(self)),
            final(self).pos == old(self).pos,
            final(self).events@ == old(self).events@,
            final(self).errors@.len() == old(self).errors@.len() + 1,
            final(self).errors@.last().message@ == message@,
    {
        let span = self.current_span();
        let ghost before = *self;
        self.errors.push(SyntaxError { message: String::from_str(message), span });
        proof {
            before.lemma_reported_kept(*self);
        }
    }

    /// Consumes the next token as a leaf of the innermost open node, and
    /// reports it if the lexer found it invalid.
    pub fn bump(&mut self)
        requires
            old(self).inv(),
            old(self).pos < old(self).tokens@.len(),
        ensures
            old(self).step(*final(self)),
            final(self).pos == old(self).pos + 1,
            final(self).events@ == old(self).events@.push(Event::Tok(old(self).pos)),
    {
        let p = self.pos;
        let n = self.tokens.len();
        assert(p < n);
        let t = self.tokens[p];
        let span = self.spans[p];
        let ghost before = *self;
        match token_error(t, span) {
            Some(e) => {
                self.errors.push(e);
            },
            None => {},
        }
        self.events.push(Event::Tok(p));
        let ghost at = *self;
        proof {
            before.lemma_reported_kept(at);
        }
        proof {
            assert(self.events@.drop_last() == old(self).events@);
            assert(upto(old(self).pos as int).push(old(self).pos as int) =~= upto(
                old(self).pos + 1,
            ));
        }
        self.pos = p + 1;
        proof {
            assert forall|k: int| 0 <= k < self.pos && #[trigger] token_message(self.tokens@[k]) is Some implies exists|j: int|
                0 <= j < self.errors@.len() && (#[trigger] self.errors@[j]).span == self.spans@[k]
                    && self.errors@[j].message@ == token_message(self.tokens@[k])->Some_0 by {
                if k < p {
                    assert(token_message(at.tokens@[k]) is Some);
                    let j = choose|j: int|
                        0 <= j < at.errors@.len() && (#[trigger] at.errors@[j]).span == at.spans@[k]
                            && at.errors@[j].message@ == token_message(at.tokens@[k])->Some_0;
                    assert(self.errors@[j] == at.errors@[j]);
                } else {
                    let j = self.errors@.len() - 1;
                    assert(self.errors@[j].span == self.spans@[k]);
                }
            }
        }
    }

    /// Consumes the trivia before the next significant token.
    pub fn skip_trivia(&mut self)
        requires
            old(self).inv(),
        ensures
            old(self).step(*final(self)),
            final(self).at_significant(),
            final(self).pos == skip_pos(old(self).tokens@, old(self).pos as int),
            final(self).events@.len() == old(self).events@.len() + final(self).pos - old(self).pos,
            old(self).at_significant() ==> *final(self) == *old(self),
    {
        while self.pos < self.tokens.len() && is_trivia(self.tokens[self.pos])
            invariant
                old(self).step(*self),
                skip_pos(self.tokens@, self.pos as int) == skip_pos(old(self).tokens@, old(self).pos as int),
                self.events@.len() == old(self).events@.len() + self.pos - old(self).pos,
                old(self).at_significant() ==> *self == *old(self),
            decreases self.remaining(),
        {
            self.bump();
        }
    }

    /// The next significant token, or `EOF`; the trivia before it is
    /// consumed.
    pub fn peek(&mut self) -> (t: Token)
        requires
            old(self).inv(),
        ensures
            old(self).step(*final(self)),
            final(self).at_significant(),
            final(self).pos == skip_pos(old(self).tokens@, old(self).pos as int),
            final(self).events@.len() == old(self).events@.len() + final(self).pos - old(self).pos,
            old(self).at_significant() ==> *final(self) == *old(self),
            final(self).pos < final(self).tokens@.len() ==> t == final(self).tokens@[final(self).pos as int],
            final(self).pos >= final(self).tokens@.len() ==> t == Token::EOF,
    {
        self.skip_trivia();
        self.current()
    }

    /// The `n`-th significant token from the next one on (0-based), without
    /// consuming anything, and its index, or `EOF` and the length.
    pub fn nth(&self, n: usize) -> (r: (Token, usize))
        requires
            self.inv(),
        ensures
            r.1 <= self.tokens@.len(),
            r.1 < self.tokens@.len() ==> r.0 == self.tokens@[r.1 as int],
            r.1 >= self.tokens@.len() ==> r.0 == Token::EOF,
            r.1 == nth_index(self.tokens@, self.pos as int, n as nat),
    {
        let mut i = self.pos;
        let mut seen: usize = 0;
        while i < self.tokens.len()
            invariant
                self.pos <= i <= self.tokens@.len(),
                self.inv(),
                seen <= n,
                nth_index(self.tokens@, i as int, (n - seen) as nat) == nth_index(self.tokens@, self.pos as int, n as nat),
            decreases self.tokens@.len() - i,
        {
            if !is_trivia(self.tokens[i]) {
                if seen == n {
                    return (self.tokens[i], i);
                }
                if seen < n {
                    seen = seen + 1;
                }
            }
            i = i + 1;
        }
        (Token::EOF, i)
    }

    /// Consumes trivia and returns the position where a node opened now
    /// would begin.
    pub fn mark(&mut self) -> (m: usize)
        requires
            old(self).inv(),
        ensures
            old(self).step(*final(self)),
            final(self).at_significant(),
            old(self).at_significant() ==> *final(self) == *old(self),
            final(self).pos == skip_pos(old(self).tokens@, old(self).pos as int),
            m == final(self).events@.len(),
            m == old(self).events@.len() + final(self).pos - old(self).pos,
    {
        self.skip_trivia();
        self.events.len()
    }

    /// Opens a node of kind `r` before the next significant token.
    pub fn open(&mut self, r: Rule) -> (m: usize)
        requires
            old(self).inv(),
        ensures
            old(self).step(*final(self)),
            final(self).at_significant(),
            old(self).at_significant() ==> final(self).pos == old(self).pos,
            final(self).pos == skip_pos(old(self).tokens@, old(self).pos as int),
            m == old(self).events@.len() + final(self).pos - old(self).pos,
            old(self).events@.len() <= m,
            m + 1 == final(self).events@.len(),
            final(self).events@[m as int] == Event::Open(r),
    {
        let m = self.mark();
        let ghost before = self.events@;
        let ghost marked = *self;
        self.events.push(Event::Open(r));
        proof {
            assert(self.events@.drop_last() =~= before);
            marked.lemma_reported_kept(*self);
        }
        m
    }

    /// Opens a node of kind `r` at an earlier mark, so that it encloses
    /// everything emitted since.
    pub fn open_at(&mut self, m: usize, r: Rule)
        requires
            old(self).inv(),
            m <= old(self).events@.len(),
        ensures
            old(self).edit_from(*final(self), m as int),
            final(self).events@ == old(self).events@.insert(m as int, Event::Open(r)),
    {
        proof {
            lemma_leaves_insert_open(self.events@, m as int, r);
        }
        self.events.insert(m, Event::Open(r));
    }

    /// Changes the kind of the node opened at `m`.
    pub fn retag(&mut self, m: usize, r: Rule)
        requires
            old(self).inv(),
            m < old(self).events@.len(),
            old(self).events@[m as int] is Open,
        ensures
            old(self).edit_from(*final(self), m as int),
            final(self).events@ == old(self).events@.update(m as int, Event::Open(r)),
    {
        proof {
            lemma_leaves_update_open(self.events@, m as int, r);
        }
        self.events.set(m, Event::Open(r));
    }

    /// Closes the innermost open node.
    pub fn close(&mut self)
        requires
            old(self).inv(),
        ensures
            old(self).step(*final(self)),
            final(self).pos == old(self).pos,
            final(self).events@ == old(self).events@.push(Event::Close),
    {
        self.events.push(Event::Close);
        proof {
            assert(self.events@.drop_last() == old(self).events@);
            old(self).lemma_reported_kept(*self);
        }
    }

    /// Consumes the next significant token if it is `t`; otherwise reports
    /// `message` there and consumes nothing.
    pub fn expect(&mut self, t: Token, message: &str) -> (found: bool)
        requires
            old(self).inv(),
        ensures
            old(self).step(*final(self)),
            found == (skip_pos(old(self).tokens@, old(self).pos as int) < old(self).tokens@.len() && old(self).tokens@[skip_pos(old(self).tokens@, old(self).pos as int)] == t),
            found ==> final(self).pos == skip_pos(old(self).tokens@, old(self).pos as int) + 1,
            !found ==> final(self).pos == skip_pos(old(self).tokens@, old(self).pos as int),
            !found ==> final(self).errors@.len() > 0 && final(self).errors@.last().message@ == message@,
    {
        let next = self.peek();
        if next == t && self.pos < self.tokens.len() {
            self.bump();
            true
        } else {
            self.error(message);
            false
        }
    }

    /// Consumes the next significant token if it is `t`.
    pub fn bump_if(&mut self, t: Token) -> (found: bool)
        requires
            old(self).inv(),
        ensures
            old(self).step(*final(self)),
            found == (skip_pos(old(self).tokens@, old(self).pos as int) < old(self).tokens@.len() && old(self).tokens@[skip_pos(old(self).tokens@, old(self).pos as int)] == t),
            found ==> final(self).pos == skip_pos(old(self).tokens@, old(self).pos as int) + 1,
            !found ==> final(self).pos == skip_pos(old(self).tokens@, old(self).pos as int),
    {
        let next = self.peek();
        if next == t && self.pos < self.tokens.len() {
            self.bump();
            true
        } else {
            false
        }
    }

    /// Consumes the next token, which is significant, into an error node.
    pub fn bump_error(&mut self)
        requires
            old(self).inv(),
        ensures
            old(self).step(*final(self)),
            old(self).pos < old(self).tokens@.len() ==> final(self).pos > old(self).pos,
    {
        if self.pos < self.tokens.len() {
            self.open(Rule::Error);
            if self.pos < self.tokens.len() {
                self.bump();
            }
            self.close();
        }
    }
}

} // verus!

verus! {

// ---------------------------------------------------------------------------
// Token classes used by the grammar.

/// Tokens that begin an expression.
pub open spec fn spec_starts_expression(t: Token) -> bool {
    t == Token::Int || t == Token::Float || t == Token::DoubleQuote || t == Token::Bytes || t
        == Token::Atom || t == Token::Identifier || t == Token::LBracket || t == Token::LParen || t
        == Token::LBrace || t == Token::Fn || t == Token::If || t == Token::Match || t
        == Token::Minus
}

pub fn starts_expression(t: Token) -> (b: bool)
    ensures
        b == spec_starts_expression(t),
{
    t == Token::Int || t == Token::Float || t == Token::DoubleQuote || t == Token::Bytes || t
        == Token::Atom || t == Token::Identifier || t == Token::LBracket || t == Token::LParen || t
        == Token::LBrace || t == Token::Fn || t == Token::If || t == Token::Match || t
        == Token::Minus
}

/// Tokens that begin a binding: its keyword, or a decorator.
pub fn starts_binding(t: Token) -> (b: bool)
    ensures
        b == (t == Token::Let || t == Token::Decl || t == Token::Def || t == Token::Native || t
            == Token::Type || t == Token::Import || t == Token::At),
{
    t == Token::Let || t == Token::Decl || t == Token::Def || t == Token::Native || t
        == Token::Type || t == Token::Import || t == Token::At
}

/// Tokens at which error recovery stops instead of consuming them.
pub open spec fn spec_is_sync(t: Token) -> bool {
    t == Token::Semicolon || t == Token::RParen || t == Token::RBracket || t
        == Token::RBrace || t == Token::Comma || t == Token::FatArrow || t == Token::EOF || t
        == Token::Let || t == Token::Decl || t == Token::Def || t == Token::Native || t
        == Token::Type || t == Token::Import || t == Token::Else
}

/// Tokens that begin a primary expression: those of an expression but `-`.
pub open spec fn spec_starts_primary(t: Token) -> bool {
    spec_starts_expression(t) && t != Token::Minus
}

/// Tokens that begin a pattern.
pub open spec fn spec_starts_pattern(t: Token) -> bool {
    t == Token::Identifier || t == Token::Placeholder || t == Token::Int || t == Token::Float || t
        == Token::DoubleQuote || t == Token::Atom || t == Token::LParen
}

pub fn is_sync(t: Token) -> (b: bool)
    ensures
        b == spec_is_sync(t),
        b == (t == Token::Semicolon || t == Token::RParen || t == Token::RBracket || t
            == Token::RBrace || t == Token::Comma || t == Token::FatArrow || t == Token::EOF || t
            == Token::Let || t == Token::Decl || t == Token::Def || t == Token::Native || t
            == Token::Type || t == Token::Import || t == Token::Else),
{
    t == Token::Semicolon || t == Token::RParen || t == Token::RBracket || t == Token::RBrace || t
        == Token::Comma || t == Token::FatArrow || t == Token::EOF || t == Token::Let || t
        == Token::Decl || t == Token::Def || t == Token::Native || t == Token::Type || t
        == Token::Import || t == Token::Else
}

/// The first significant token at or after index `i`, and its index, or
/// `EOF` and the length.
pub fn next_significant(p: &Parser, i: usize) -> (r: (Token, usize))
    requires
        p.inv(),
    ensures
        r.1 <= p.tokens@.len(),
        r.1 < p.tokens@.len() ==> r.0 == p.tokens@[r.1 as int],
        r.1 >= p.tokens@.len() ==> r.0 == Token::EOF,
{
    let mut k = i;
    while k < p.tokens.len() && is_trivia(p.tokens[k])
        invariant
            p.inv(),
        decreases p.tokens@.len() - k,
    {
        k = k + 1;
    }
    if k < p.tokens.len() {
        (p.tokens[k], k)
    } else {
        (Token::EOF, p.tokens.len())
    }
}

/// The index just after the string literal whose opening quote is token
/// `i`, following nested interpolations and the strings inside them.
pub fn string_end(p: &Parser, i: usize) -> (j: usize)
    requires
        p.inv(),
        i < p.tokens@.len(),
    ensures
        i < j <= p.tokens@.len(),
{
    // Each frame is 0 inside a string, or `d + 1` inside an interpolation
    // with `d` open braces.
    let n = p.tokens.len();
    let mut frames: Vec<usize> = Vec::new();
    frames.push(0);
    let mut k = i + 1;
    while k < p.tokens.len() && frames.len() > 0
        invariant
            p.inv(),
            i < k <= p.tokens@.len(),
        decreases p.tokens@.len() - k,
    {
        let t = p.tokens[k];
        let last = frames.len() - 1;
        let top = frames[last];
        if top == 0 {
            if t == Token::DoubleQuote {
                frames.pop();
            } else if t == Token::InterpolationStart {
                frames.push(1);
            }
        } else {
            if t == Token::LBrace {
                if top < usize::MAX {
                    frames.set(last, top + 1);
                }
            } else if t == Token::RBrace {
                if top == 1 {
                    frames.pop();
                } else {
                    frames.set(last, top - 1);
                }
            } else if t == Token::DoubleQuote {
                frames.push(0);
            }
        }
        k = k + 1;
    }
    k
}

/// `true` when token `i` is spelled exactly `word`.
pub fn token_is_word(p: &Parser, i: usize, word: &[u8]) -> (b: bool)
    requires
        p.inv(),
        i < p.tokens@.len(),
    ensures
        b == (p.src@.subrange(p.spans@[i as int].start as int, p.spans@[i as int].end as int)
            == word@),
{
    let span = p.spans[i];
    if span.end - span.start != word.len() {
        proof {
            assert(p.src@.subrange(span.start as int, span.end as int).len() != word@.len());
        }
        return false;
    }
    let mut k: usize = 0;
    while k < word.len()
        invariant
            p.inv(),
            span == p.spans@[i as int],
            span.end - span.start == word@.len(),
            span.end <= p.src@.len(),
            k <= word@.len(),
            forall|q: int| 0 <= q < k ==> p.src@[span.start + q] == word@[q],
        decreases word@.len() - k,
    {
        if p.src[span.start + k] != word[k] {
            proof {
                assert(p.src@.subrange(span.start as int, span.end as int)[k as int] != word@[k as int]);
            }
            return false;
        }
        k = k + 1;
    }
    assert(p.src@.subrange(span.start as int, span.end as int) =~= word@);
    true
}

// ---------------------------------------------------------------------------
// Expressions, from the loosest operator to the primaries.

/// `a |> f |> g`, left-associative.
pub fn parse_expression(p: &mut Parser)
    requires
        old(p).inv(),
    ensures
        old(p).step(*final(p)),
        old(p).next_index() < old(p).tokens@.len() && !spec_is_sync(old(p).next_token()) ==> final(p).pos > old(p).next_index(),
        !spec_starts_expression(old(p).next_token()) ==> old(p).reported(*final(p), "expected expression"@),
    decreases old(p).remaining(), 20int,
{
    let m = p.mark();
    parse_comparison(p);
    loop
        invariant
            old(p).step(*p),
            old(p).next_index() < old(p).tokens@.len() && !spec_is_sync(old(p).next_token()) ==> p.pos > old(p).next_index(),
            !spec_starts_expression(old(p).next_token()) ==> old(p).reported(*p, "expected expression"@),
            old(p).events@.len() <= m <= p.events@.len(),
        decreases p.remaining(),
    {
        let t = p.peek();
        if t != Token::Pipe {
            break;
        }
        p.open_at(m, Rule::PipelineExpr);
        p.bump();
        parse_comparison(p);
        p.close();
    }
}

/// `a < b` and `a == b`. The tree keeps chains such as `a < b == c`; the
/// lowering rejects them, since comparisons do not associate.
pub fn parse_comparison(p: &mut Parser)
    requires
        old(p).inv(),
    ensures
        old(p).step(*final(p)),
        old(p).next_index() < old(p).tokens@.len() && !spec_is_sync(old(p).next_token()) ==> final(p).pos > old(p).next_index(),
        !spec_starts_expression(old(p).next_token()) ==> old(p).reported(*final(p), "expected expression"@),
        final(p).next_token() != Token::Less && final(p).next_token() != Token::EqualEqual && final(p).next_token() != Token::Plus && final(p).next_token() != Token::Minus && final(p).next_token() != Token::Star && final(p).next_token() != Token::Slash,
    decreases old(p).remaining(), 19int,
{
    let m = p.mark();
    parse_additive(p);
    loop
        invariant
            old(p).step(*p),
            old(p).next_index() < old(p).tokens@.len() && !spec_is_sync(old(p).next_token()) ==> p.pos > old(p).next_index(),
            !spec_starts_expression(old(p).next_token()) ==> old(p).reported(*p, "expected expression"@),
            old(p).events@.len() <= m <= p.events@.len(),
            p.next_token() != Token::Plus && p.next_token() != Token::Minus && p.next_token() != Token::Star && p.next_token() != Token::Slash,
        ensures
            p.next_token() != Token::Less && p.next_token() != Token::EqualEqual && p.next_token() != Token::Plus && p.next_token() != Token::Minus && p.next_token() != Token::Star && p.next_token() != Token::Slash,
        decreases p.remaining(),
    {
        let t = p.peek();
        if t != Token::Less && t != Token::EqualEqual {
            break;
        }
        p.open_at(m, Rule::BinaryExpr);
        p.bump();
        parse_additive(p);
        p.close();
    }
}

/// `a + b` and `a - b`, left-associative.
pub fn parse_additive(p: &mut Parser)
    requires
        old(p).inv(),
    ensures
        old(p).step(*final(p)),
        old(p).next_index() < old(p).tokens@.len() && !spec_is_sync(old(p).next_token()) ==> final(p).pos > old(p).next_index(),
        !spec_starts_expression(old(p).next_token()) ==> old(p).reported(*final(p), "expected expression"@),
        final(p).next_token() != Token::Plus && final(p).next_token() != Token::Minus && final(p).next_token() != Token::Star && final(p).next_token() != Token::Slash,
    decreases old(p).remaining(), 18int,
{
    let m = p.mark();
    parse_multiplicative(p);
    loop
        invariant
            old(p).step(*p),
            old(p).next_index() < old(p).tokens@.len() && !spec_is_sync(old(p).next_token()) ==> p.pos > old(p).next_index(),
            !spec_starts_expression(old(p).next_token()) ==> old(p).reported(*p, "expected expression"@),
            old(p).events@.len() <= m <= p.events@.len(),
            p.next_token() != Token::Star && p.next_token() != Token::Slash,
        ensures
            p.next_token() != Token::Plus && p.next_token() != Token::Minus && p.next_token() != Token::Star && p.next_token() != Token::Slash,
        decreases p.remaining(),
    {
        let t = p.peek();
        if t != Token::Plus && t != Token::Minus {
            break;
        }
        p.open_at(m, Rule::BinaryExpr);
        p.bump();
        parse_multiplicative(p);
        p.close();
    }
}

/// `a * b` and `a / b`, left-associative.
pub fn parse_multiplicative(p: &mut Parser)
    requires
        old(p).inv(),
    ensures
        old(p).step(*final(p)),
        old(p).next_index() < old(p).tokens@.len() && !spec_is_sync(old(p).next_token()) ==> final(p).pos > old(p).next_index(),
        !spec_starts_expression(old(p).next_token()) ==> old(p).reported(*final(p), "expected expression"@),
        final(p).next_token() != Token::Star && final(p).next_token() != Token::Slash,
    decreases old(p).remaining(), 17int,
{
    let m = p.mark();
    parse_unary(p);
    loop
        invariant
            old(p).step(*p),
            old(p).next_index() < old(p).tokens@.len() && !spec_is_sync(old(p).next_token()) ==> p.pos > old(p).next_index(),
            !spec_starts_expression(old(p).next_token()) ==> old(p).reported(*p, "expected expression"@),
            old(p).events@.len() <= m <= p.events@.len(),
        ensures
            p.next_token() != Token::Star && p.next_token() != Token::Slash,
        decreases p.remaining(),
    {
        let t = p.peek();
        if t != Token::Star && t != Token::Slash {
            break;
        }
        p.open_at(m, Rule::BinaryExpr);
        p.bump();
        parse_unary(p);
        p.close();
    }
}

/// `-a`
pub fn parse_unary(p: &mut Parser)
    requires
        old(p).inv(),
    ensures
        old(p).step(*final(p)),
        old(p).next_index() < old(p).tokens@.len() && !spec_is_sync(old(p).next_token()) ==> final(p).pos > old(p).next_index(),
        !spec_starts_expression(old(p).next_token()) ==> old(p).reported(*final(p), "expected expression"@),
    decreases old(p).remaining(), 16int,
{
    let t = p.peek();
    if t == Token::Minus {
        p.open(Rule::UnaryExpr);
        p.bump();
        parse_unary(p);
        p.close();
    } else {
        parse_postfix(p);
    }
}

/// Calls `f(a)`, call sections `f\(_, a)` and field accesses `a.b`.
pub fn parse_postfix(p: &mut Parser)
    requires
        old(p).inv(),
    ensures
        old(p).step(*final(p)),
        old(p).next_index() < old(p).tokens@.len() && !spec_is_sync(old(p).next_token()) ==> final(p).pos > old(p).next_index(),
        !spec_starts_primary(old(p).next_token()) ==> old(p).reported(*final(p), "expected expression"@),
    decreases old(p).remaining(), 15int,
{
    let m = p.mark();
    parse_primary(p);
    loop
        invariant
            old(p).step(*p),
            old(p).next_index() < old(p).tokens@.len() && !spec_is_sync(old(p).next_token()) ==> p.pos > old(p).next_index(),
            !spec_starts_primary(old(p).next_token()) ==> old(p).reported(*p, "expected expression"@),
            old(p).events@.len() <= m <= p.events@.len(),
        decreases p.remaining(),
    {
        let t = p.peek();
        let before = p.pos;
        if t == Token::LParen {
            p.open_at(m, Rule::CallExpr);
            parse_arguments(p);
            p.close();
        } else if t == Token::SectionLParen {
            p.open_at(m, Rule::SectionExpr);
            parse_section_arguments(p);
            p.close();
        } else if t == Token::Dot {
            p.open_at(m, Rule::FieldExpr);
            p.bump();
            p.expect(Token::Identifier, "expected field name");
            p.close();
        } else {
            break;
        }
        if p.pos == before {
            break;
        }
    }
}

/// `(a, b, ...)` after a callee.
pub fn parse_arguments(p: &mut Parser)
    requires
        old(p).inv(),
    ensures
        old(p).step(*final(p)),
        old(p).opened_node(*final(p), Rule::Arguments),
        old(p).next_token() == Token::LParen ==> final(p).pos > old(p).next_index(),
        old(p).next_token() != Token::LParen ==> final(p).pos == old(p).next_index() && old(p).reported(*final(p), "expected `(`"@),
    decreases old(p).remaining(), 13int,
{
    p.open(Rule::Arguments);
    let t = p.peek();
    if t == Token::LParen {
        p.bump();
        parse_expression_list(p, Token::RParen);
        p.expect(Token::RParen, "expected `)`");
    } else {
        p.error("expected `(`");
    }
    p.close();
}

/// The comma-separated expressions before `end`, which is not consumed.
pub fn parse_expression_list(p: &mut Parser, end: Token)
    requires
        old(p).inv(),
    ensures
        old(p).step(*final(p)),
        final(p).at_significant(),
        end != Token::Comma && final(p).pos < final(p).tokens@.len() ==> final(p).tokens@[final(p).pos as int] != Token::Comma,
        old(p).next_token() != end && old(p).next_index() < old(p).tokens@.len() && !spec_is_sync(old(p).next_token()) ==> final(p).pos > old(p).next_index(),
    decreases old(p).remaining(), 21int,
{
    proof {
        lemma_skip_pos_twice(p.tokens@, p.pos as int);
    }
    loop
        invariant
            old(p).step(*p),
            p.pos > old(p).next_index() || p.next_index() == old(p).next_index(),
        ensures
            old(p).step(*p),
            p.at_significant(),
            end != Token::Comma && p.pos < p.tokens@.len() ==> p.tokens@[p.pos as int] != Token::Comma,
            old(p).next_token() != end && old(p).next_index() < old(p).tokens@.len() && !spec_is_sync(old(p).next_token()) ==> p.pos > old(p).next_index(),
        decreases p.remaining(),
    {
        let t = p.peek();
        if t == end || t == Token::EOF {
            break;
        }
        parse_expression(p);
        let next = p.peek();
        if next == Token::Comma {
            p.bump();
        } else {
            break;
        }
    }
}

/// `\(a, _, _1)` after a callee: arguments that may be placeholders.
pub fn parse_section_arguments(p: &mut Parser)
    requires
        old(p).inv(),
    ensures
        old(p).step(*final(p)),
        old(p).opened_node(*final(p), Rule::SectionArguments),
        old(p).next_token() == Token::SectionLParen ==> final(p).pos > old(p).next_index(),
        old(p).next_token() != Token::SectionLParen ==> final(p).pos == old(p).next_index() && old(p).reported(*final(p), "expected `\\(`"@),
    decreases old(p).remaining(), 13int,
{
    p.open(Rule::SectionArguments);
    let ghost m: int = (p.events@.len() - 1) as int;
    let t = p.peek();
    if t == Token::SectionLParen {
        p.bump();
        loop
            invariant
                old(p).step(*p),
                m == old(p).events@.len() + old(p).next_index() - old(p).pos,
                0 <= m < p.events@.len(),
                p.events@[m] == Event::Open(Rule::SectionArguments),
                p.pos > old(p).next_index(),
                p.pos > old(p).pos,
            decreases p.remaining(),
        {
            let t = p.peek();
            if t == Token::RParen || t == Token::EOF {
                break;
            }
            p.open(Rule::Argument);
            let a = p.peek();
            if a == Token::Placeholder || a == Token::IndexedPlaceholder {
                p.bump();
            } else {
                parse_expression(p);
            }
            p.close();
            let next = p.peek();
            if next == Token::Comma {
                p.bump();
            } else {
                break;
            }
        }
        p.expect(Token::RParen, "expected `)`");
    } else {
        p.error("expected `\\(`");
    }
    p.close();
}

/// The primary expressions: literals, variables, brackets, braces,
/// closures, conditionals and matches. Anything else is reported, and
/// consumed into an error node unless recovery stops at it.
pub fn parse_primary(p: &mut Parser)
    requires
        old(p).inv(),
    ensures
        old(p).step(*final(p)),
        old(p).next_index() < old(p).tokens@.len() && !spec_is_sync(old(p).next_token()) ==> final(p).pos > old(p).next_index(),
        !spec_starts_primary(old(p).next_token()) ==> old(p).reported(*final(p), "expected expression"@),
        spec_is_sync(old(p).next_token()) ==> final(p).pos == old(p).next_index(),
    decreases old(p).remaining(), 14int,
{
    let t = p.peek();
    if t == Token::Int {
        parse_token_node(p, Rule::IntExpr);
    } else if t == Token::Float {
        parse_token_node(p, Rule::FloatExpr);
    } else if t == Token::Bytes {
        parse_token_node(p, Rule::BytesExpr);
    } else if t == Token::Atom {
        parse_token_node(p, Rule::AtomExpr);
    } else if t == Token::Identifier {
        parse_token_node(p, Rule::VariableExpr);
    } else if t == Token::DoubleQuote {
        p.open(Rule::StringExpr);
        parse_string_literal(p);
        p.close();
    } else if t == Token::LBracket {
        parse_delimited(p, Rule::ArrayExpr, Token::RBracket, "expected `]`");
    } else if t == Token::LParen {
        parse_delimited(p, Rule::ParenExpr, Token::RParen, "expected `)`");
    } else if t == Token::LBrace {
        if brace_starts_dict(p) {
            parse_dict(p);
        } else {
            parse_block(p);
        }
    } else if t == Token::Fn {
        parse_closure(p);
    } else if t == Token::If {
        parse_if(p);
    } else if t == Token::Match {
        parse_match(p);
    } else {
        p.error("expected expression");
        if !is_sync(t) {
            p.bump_error();
        }
    }
}

/// A node of kind `r` holding the next token.
pub fn parse_token_node(p: &mut Parser, r: Rule)
    requires
        old(p).inv(),
    ensures
        old(p).step(*final(p)),
        old(p).opened_node(*final(p), r),
        final(p).pos == (if old(p).next_index() < old(p).tokens@.len() { old(p).next_index() + 1 } else { old(p).next_index() }),
{
    p.open(r);
    if p.pos < p.tokens.len() {
        p.bump();
    }
    p.close();
}

/// `[a, b]` or `(a, b)`: an opening token, expressions, and `end`.
pub fn parse_delimited(p: &mut Parser, r: Rule, end: Token, message: &str)
    requires
        old(p).inv(),
    ensures
        old(p).step(*final(p)),
        old(p).opened_node(*final(p), r),
        old(p).next_index() < old(p).tokens@.len() ==> final(p).pos > old(p).next_index(),
    decreases old(p).remaining(), 10int,
{
    p.open(r);
    if p.pos < p.tokens.len() {
        p.bump();
        parse_expression_list(p, end);
        p.expect(end, message);
    }
    p.close();
}

/// `true` when the `{` at the next significant token opens a Dict rather
/// than a block: it is followed by `}`, a decorator, or a field name and `:`.
pub fn brace_starts_dict(p: &Parser) -> (b: bool)
    requires
        p.inv(),
    ensures
        ({
            let t1 = token_at(p.tokens@, nth_index(p.tokens@, p.pos as int, 1));
            let t2 = token_at(p.tokens@, nth_index(p.tokens@, p.pos as int, 2));
            &&& (t1 == Token::RBrace || t1 == Token::At) ==> b
            &&& t1 == Token::Identifier ==> (b == (t2 == Token::Colon))
            &&& b ==> (t1 == Token::RBrace || t1 == Token::At || t1 == Token::Identifier || t1 == Token::DoubleQuote)
        }),
{
    let (t1, i1) = p.nth(1);
    if t1 == Token::RBrace || t1 == Token::At {
        true
    } else if t1 == Token::Identifier {
        let (t2, _) = p.nth(2);
        t2 == Token::Colon
    } else if t1 == Token::DoubleQuote && i1 < p.tokens.len() {
        let j = string_end(p, i1);
        let (t2, _) = next_significant(p, j);
        t2 == Token::Colon
    } else {
        false
    }
}

/// A string literal: `"`, text, escapes and interpolations `\{ e }`, `"`.
pub fn parse_string_literal(p: &mut Parser)
    requires
        old(p).inv(),
    ensures
        old(p).step(*final(p)),
        old(p).opened_node(*final(p), Rule::StringLiteral),
        old(p).next_token() == Token::DoubleQuote ==> final(p).pos > old(p).next_index(),
        old(p).next_token() != Token::DoubleQuote ==> final(p).pos == old(p).next_index() && old(p).reported(*final(p), "expected string"@),
    decreases old(p).remaining(), 3int,
{
    p.open(Rule::StringLiteral);
    let ghost m: int = (p.events@.len() - 1) as int;
    let t = p.peek();
    if t != Token::DoubleQuote {
        p.error("expected string");
        p.close();
        return;
    }
    p.bump();
    loop
        invariant
            old(p).step(*p),
            m == old(p).events@.len() + old(p).next_index() - old(p).pos,
            0 <= m < p.events@.len(),
            p.events@[m] == Event::Open(Rule::StringLiteral),
            p.pos > old(p).next_index(),
            p.pos > old(p).pos,
        decreases p.remaining(),
    {
        let t = p.current();
        if t == Token::StringText || t == Token::EscapeSequence || t
            == Token::UnknownEscapeSequence || t == Token::UnterminatedEscapeSequence {
            p.bump();
        } else if t == Token::InterpolationStart {
            parse_interpolation(p);
        } else if t == Token::DoubleQuote {
            p.bump();
            break;
        } else {
            p.error("expected `\"`");
            break;
        }
    }
    p.close();
}

/// `\{ e }` inside a string literal.
pub fn parse_interpolation(p: &mut Parser)
    requires
        old(p).inv(),
        old(p).pos < old(p).tokens@.len(),
        old(p).tokens@[old(p).pos as int] == Token::InterpolationStart,
    ensures
        old(p).step(*final(p)),
        final(p).pos > old(p).pos,
    decreases old(p).remaining(), 2int,
{
    p.open(Rule::Interpolation);
    p.bump();
    parse_expression(p);
    p.expect(Token::RBrace, "expected `}`");
    p.close();
}

/// `{ field: value, ... }`
pub fn parse_dict(p: &mut Parser)
    requires
        old(p).inv(),
    ensures
        old(p).step(*final(p)),
        old(p).opened_node(*final(p), Rule::DictExpr),
        old(p).next_index() < old(p).tokens@.len() ==> final(p).pos > old(p).next_index(),
    decreases old(p).remaining(), 10int,
{
    p.open(Rule::DictExpr);
    let ghost m: int = (p.events@.len() - 1) as int;
    if p.pos >= p.tokens.len() {
        p.close();
        return;
    }
    p.bump();
    loop
        invariant
            old(p).step(*p),
            m == old(p).events@.len() + old(p).next_index() - old(p).pos,
            0 <= m < p.events@.len(),
            p.events@[m] == Event::Open(Rule::DictExpr),
            p.pos > old(p).next_index(),
            p.pos > old(p).pos,
        decreases p.remaining(),
    {
        let t = p.peek();
        if t == Token::RBrace || t == Token::EOF {
            break;
        }
        parse_dict_field(p);
        let next = p.peek();
        if next == Token::Comma {
            p.bump();
        } else {
            break;
        }
    }
    p.expect(Token::RBrace, "expected `}`");
    p.close();
}

/// `@decorator name: value` or `"name": value` inside a Dict.
pub fn parse_dict_field(p: &mut Parser)
    requires
        old(p).inv(),
    ensures
        old(p).step(*final(p)),
        old(p).opened_node(*final(p), Rule::DictField),
    decreases old(p).remaining(), 25int,
{
    p.open(Rule::DictField);
    parse_decorators(p);
    let t = p.peek();
    if t == Token::Identifier {
        p.bump();
    } else if t == Token::DoubleQuote {
        parse_string_literal(p);
    } else {
        p.error("expected field name");
    }
    p.expect(Token::Colon, "expected `:`");
    parse_expression(p);
    p.close();
}

/// Decorators `@path` and `@path(arguments)` before a binding or a field.
pub fn parse_decorators(p: &mut Parser)
    requires
        old(p).inv(),
    ensures
        old(p).step(*final(p)),
        final(p).at_significant(),
        final(p).pos < final(p).tokens@.len() ==> final(p).tokens@[final(p).pos as int] != Token::At,
    decreases old(p).remaining(), 5int,
{
    loop
        invariant
            old(p).step(*p),
        ensures
            old(p).step(*p),
            p.at_significant(),
            p.pos < p.tokens@.len() ==> p.tokens@[p.pos as int] != Token::At,
        decreases p.remaining(),
    {
        let t = p.peek();
        if t != Token::At {
            break;
        }
        let start = p.pos;
        p.open(Rule::Decorator);
        p.bump();
        p.open(Rule::DecoratorPath);
        p.expect(Token::Identifier, "expected decorator name");
        loop
            invariant
                old(p).step(*p),
                p.pos > start >= old(p).pos,
            decreases p.remaining(),
        {
            let d = p.peek();
            if d != Token::Dot {
                break;
            }
            p.bump();
            p.expect(Token::Identifier, "expected decorator name");
        }
        p.close();
        let a = p.peek();
        if a == Token::LParen {
            parse_arguments(p);
        }
        p.close();
    }
}

/// `{ bindings; result }`
pub fn parse_block(p: &mut Parser)
    requires
        old(p).inv(),
    ensures
        old(p).step(*final(p)),
        old(p).opened_node(*final(p), Rule::Block),
        old(p).next_token() == Token::LBrace ==> final(p).pos > old(p).next_index(),
        old(p).next_token() != Token::LBrace ==> final(p).pos == old(p).next_index() && old(p).reported(*final(p), "expected `{`"@),
    decreases old(p).remaining(), 10int,
{
    p.open(Rule::Block);
    let t = p.peek();
    if t != Token::LBrace {
        p.error("expected `{`");
        p.close();
        return;
    }
    p.bump();
    parse_body(p, true);
    p.expect(Token::RBrace, "expected `}`");
    p.close();
}

/// `fn(a, b) { body }`
pub fn parse_closure(p: &mut Parser)
    requires
        old(p).inv(),
    ensures
        old(p).step(*final(p)),
        old(p).opened_node(*final(p), Rule::Closure),
        old(p).next_index() < old(p).tokens@.len() ==> final(p).pos > old(p).next_index(),
    decreases old(p).remaining(), 10int,
{
    p.open(Rule::Closure);
    let ghost m: int = (p.events@.len() - 1) as int;
    if p.pos < p.tokens.len() {
        p.bump();
        p.open(Rule::Parameters);
        if p.expect(Token::LParen, "expected `(`") {
            loop
                invariant
                    old(p).step(*p),
                    m == old(p).events@.len() + old(p).next_index() - old(p).pos,
                    0 <= m < p.events@.len(),
                    p.events@[m] == Event::Open(Rule::Closure),
                    p.pos > old(p).next_index(),
                    p.pos > old(p).pos,
                decreases p.remaining(),
            {
                let t = p.peek();
                if t != Token::Identifier {
                    break;
                }
                p.bump();
                let next = p.peek();
                if next == Token::Comma {
                    p.bump();
                } else {
                    break;
                }
            }
            p.expect(Token::RParen, "expected `)`");
        }
        p.close();
        parse_block(p);
    }
    p.close();
}

/// `if condition { ... } else { ... }`
pub fn parse_if(p: &mut Parser)
    requires
        old(p).inv(),
    ensures
        old(p).step(*final(p)),
        old(p).opened_node(*final(p), Rule::IfExpr),
        old(p).next_index() < old(p).tokens@.len() ==> final(p).pos > old(p).next_index(),
    decreases old(p).remaining(), 10int,
{
    p.open(Rule::IfExpr);
    if p.pos < p.tokens.len() {
        p.bump();
        parse_expression(p);
        parse_block(p);
        if p.expect(Token::Else, "expected `else`") {
            parse_block(p);
        }
    }
    p.close();
}

/// `match value { pattern => result, ... }`
pub fn parse_match(p: &mut Parser)
    requires
        old(p).inv(),
    ensures
        old(p).step(*final(p)),
        old(p).opened_node(*final(p), Rule::MatchExpr),
        old(p).next_index() < old(p).tokens@.len() ==> final(p).pos > old(p).next_index(),
    decreases old(p).remaining(), 10int,
{
    p.open(Rule::MatchExpr);
    let ghost m: int = (p.events@.len() - 1) as int;
    if p.pos < p.tokens.len() {
        p.bump();
        parse_expression(p);
        if p.expect(Token::LBrace, "expected `{`") {
            loop
                invariant
                    old(p).step(*p),
                    m == old(p).events@.len() + old(p).next_index() - old(p).pos,
                    0 <= m < p.events@.len(),
                    p.events@[m] == Event::Open(Rule::MatchExpr),
                    p.pos > old(p).next_index(),
                    p.pos > old(p).pos,
                decreases p.remaining(),
            {
                let t = p.peek();
                if t == Token::RBrace || t == Token::EOF {
                    break;
                }
                parse_match_arm(p);
                let next = p.peek();
                if next == Token::Comma {
                    p.bump();
                } else {
                    break;
                }
            }
            p.expect(Token::RBrace, "expected `}`");
        }
    }
    p.close();
}

/// `pattern => result`
pub fn parse_match_arm(p: &mut Parser)
    requires
        old(p).inv(),
    ensures
        old(p).step(*final(p)),
        old(p).opened_node(*final(p), Rule::MatchArm),
    decreases old(p).remaining(), 25int,
{
    p.open(Rule::MatchArm);
    parse_pattern(p);
    p.expect(Token::FatArrow, "expected `=>`");
    parse_expression(p);
    p.close();
}

/// Patterns: names and `_`, numbers, strings, atoms, tagged atoms
/// `'Tag(pattern)` and tuples.
pub fn parse_pattern(p: &mut Parser)
    requires
        old(p).inv(),
    ensures
        old(p).step(*final(p)),
        old(p).next_index() < old(p).tokens@.len() && !spec_is_sync(old(p).next_token()) ==> final(p).pos > old(p).next_index(),
        !spec_starts_pattern(old(p).next_token()) ==> old(p).reported(*final(p), "expected pattern"@),
        spec_is_sync(old(p).next_token()) ==> final(p).pos == old(p).next_index(),
    decreases old(p).remaining(), 4int,
{
    let t = p.peek();
    if t == Token::Identifier || t == Token::Placeholder {
        parse_token_node(p, Rule::IdentifierPattern);
    } else if t == Token::Int {
        parse_token_node(p, Rule::IntPattern);
    } else if t == Token::Float {
        parse_token_node(p, Rule::FloatPattern);
    } else if t == Token::DoubleQuote {
        p.open(Rule::StringPattern);
        parse_string_literal(p);
        p.close();
    } else if t == Token::Atom {
        let (t1, _) = p.nth(1);
        if t1 == Token::LParen {
            p.open(Rule::TaggedPattern);
            if p.pos < p.tokens.len() {
                p.bump();
                p.bump_if(Token::LParen);
                parse_pattern(p);
                p.expect(Token::RParen, "expected `)`");
            }
            p.close();
        } else {
            parse_token_node(p, Rule::AtomPattern);
        }
    } else if t == Token::LParen {
        p.open(Rule::TuplePattern);
        if p.pos < p.tokens.len() {
            p.bump();
            loop
                invariant
                    old(p).step(*p),
                    p.pos > old(p).next_index(),
                    p.pos > old(p).pos,
                decreases p.remaining(),
            {
                let t = p.peek();
                if t == Token::RParen || t == Token::EOF {
                    break;
                }
                parse_pattern(p);
                let next = p.peek();
                if next == Token::Comma {
                    p.bump();
                } else {
                    break;
                }
            }
            p.expect(Token::RParen, "expected `)`");
        }
        p.close();
    } else {
        p.error("expected pattern");
        if !is_sync(t) {
            p.bump_error();
        }
    }
}

// ---------------------------------------------------------------------------
// Bodies, bindings and type schemes.

/// Bindings and a result expression, up to the end of the text, or up to
/// `}` inside a block. Stray tokens are reported and kept in error nodes.
pub fn parse_body(p: &mut Parser, in_block: bool)
    requires
        old(p).inv(),
    ensures
        old(p).step(*final(p)),
        !in_block ==> final(p).pos == final(p).tokens@.len(),
    decreases old(p).remaining(), 40int,
{
    p.open(Rule::Body);
    loop
        invariant
            old(p).step(*p),
        ensures
            old(p).step(*p),
            !in_block ==> p.pos >= p.tokens@.len(),
        decreases p.remaining(),
    {
        let t = p.peek();
        if t == Token::EOF || (in_block && t == Token::RBrace) {
            if !in_block && p.pos < p.tokens.len() {
                // An `EOF` token inside the stream: keep it, and go on.
                p.bump_error();
                continue;
            }
            break;
        }
        let before = p.pos;
        if starts_binding(t) {
            parse_binding(p);
        } else if starts_expression(t) {
            parse_expression(p);
            let next = p.peek();
            if !(next == Token::EOF || (in_block && next == Token::RBrace)) {
                if in_block {
                    p.error("expected `}` after the result expression");
                } else {
                    p.error("expected end of input after the result expression");
                }
            }
        } else {
            if in_block {
                p.error("expected binding or expression");
            } else {
                p.error("expected binding or expression");
            }
            p.bump_error();
        }
        if p.pos == before {
            if p.pos < p.tokens.len() {
                p.bump_error();
            } else {
                break;
            }
        }
    }
    p.close();
}

/// A binding, with its decorators: `let`, `decl`, `def`, `native`, `type`
/// or `import`, up to and including its `;`.
pub fn parse_binding(p: &mut Parser)
    requires
        old(p).inv(),
    ensures
        old(p).step(*final(p)),
        old(p).opened_node(*final(p), Rule::LetBinding) || old(p).opened_node(*final(p), Rule::DeclBinding)
            || old(p).opened_node(*final(p), Rule::DefBinding) || old(p).opened_node(*final(p), Rule::NativeBinding)
            || old(p).opened_node(*final(p), Rule::TypeBinding) || old(p).opened_node(*final(p), Rule::ImportBinding),
    decreases old(p).remaining(), 30int,
{
    let m = p.open(Rule::LetBinding);
    parse_decorators(p);
    let t = p.peek();
    if p.pos >= p.tokens.len() || !(t == Token::Let || t == Token::Decl || t == Token::Def || t
        == Token::Native || t == Token::Type || t == Token::Import) {
        p.error("expected binding");
        p.close();
        return;
    }
    let r = if t == Token::Let {
        Rule::LetBinding
    } else if t == Token::Decl {
        Rule::DeclBinding
    } else if t == Token::Def {
        Rule::DefBinding
    } else if t == Token::Native {
        Rule::NativeBinding
    } else if t == Token::Type {
        Rule::TypeBinding
    } else {
        Rule::ImportBinding
    };
    p.retag(m, r);
    p.bump();
    p.expect(Token::Identifier, "expected binding name");
    if t == Token::Let {
        if p.bump_if(Token::Colon) {
            parse_expression(p);
        }
        p.expect(Token::Equal, "expected `=`");
        parse_expression(p);
    } else if t == Token::Decl || t == Token::Native {
        p.expect(Token::Colon, "expected `:`");
        parse_type_scheme(p);
    } else if t == Token::Def {
        if p.bump_if(Token::Colon) {
            parse_type_scheme(p);
        }
        p.expect(Token::Equal, "expected `=`");
        parse_expression(p);
    } else if t == Token::Type {
        p.expect(Token::Equal, "expected `=`");
        parse_expression(p);
    } else {
        p.expect(Token::From, "expected `from`");
        parse_string_literal(p);
    }
    p.expect(Token::Semicolon, "expected `;`");
    p.close();
}

/// `for(A, B) contract` or a bare contract.
pub fn parse_type_scheme(p: &mut Parser)
    requires
        old(p).inv(),
    ensures
        old(p).step(*final(p)),
        old(p).opened_node(*final(p), Rule::TypeScheme),
    decreases old(p).remaining(), 7int,
{
    p.open(Rule::TypeScheme);
    let ghost m: int = (p.events@.len() - 1) as int;
    let t = p.peek();
    let for_word: Vec<u8> = vec![102u8, 111u8, 114u8];
    if t == Token::Identifier && p.pos < p.tokens.len() && token_is_word(
        p,
        p.pos,
        for_word.as_slice(),
    ) {
        let (t1, _) = p.nth(1);
        if t1 == Token::LParen {
            p.bump();
            p.open(Rule::TypeParameters);
            p.bump_if(Token::LParen);
            loop
                invariant
                    old(p).step(*p),
                    m == old(p).events@.len() + old(p).next_index() - old(p).pos,
                    0 <= m < p.events@.len(),
                    p.events@[m] == Event::Open(Rule::TypeScheme),
                    p.pos > old(p).pos,
                decreases p.remaining(),
            {
                let a = p.peek();
                if a != Token::Identifier {
                    break;
                }
                p.bump();
                let next = p.peek();
                if next == Token::Comma {
                    p.bump();
                } else {
                    break;
                }
            }
            p.expect(Token::RParen, "expected `)`");
            p.close();
        }
    }
    parse_contract(p);
    p.close();
}

/// A contract: `Name`, `Name(contracts)`, or a function contract
/// `Name(contracts) -> contract`.
pub fn parse_contract(p: &mut Parser)
    requires
        old(p).inv(),
    ensures
        old(p).step(*final(p)),
        old(p).next_token() == Token::Identifier ==> final(p).pos > old(p).next_index() && (old(p).opened_node(*final(p), Rule::ContractExpr)
            || old(p).opened_node(*final(p), Rule::FunctionContract)),
        old(p).next_token() != Token::Identifier ==> old(p).reported(*final(p), "expected type"@),
        old(p).next_index() < old(p).tokens@.len() && !spec_is_sync(old(p).next_token()) && old(p).next_token() != Token::Equal ==> final(p).pos > old(p).next_index(),
    decreases old(p).remaining(), 6int,
{
    let t = p.peek();
    if t != Token::Identifier {
        p.error("expected type");
        if !is_sync(t) && t != Token::Equal {
            p.bump_error();
        }
        return;
    }
    let m = p.open(Rule::ContractExpr);
    p.bump();
    if p.bump_if(Token::LParen) {
        loop
            invariant
                old(p).step(*p),
                p.pos > old(p).next_index(),
                old(p).next_token() == Token::Identifier,
                p.pos > old(p).pos,
                old(p).events@.len() <= m < p.events@.len(),
                p.events@[m as int] == Event::Open(Rule::ContractExpr),
            decreases p.remaining(),
        {
            let a = p.peek();
            if a == Token::RParen || a == Token::EOF {
                break;
            }
            parse_contract(p);
            let next = p.peek();
            if next == Token::Comma {
                p.bump();
            } else {
                break;
            }
        }
        p.expect(Token::RParen, "expected `)`");
    }
    if p.bump_if(Token::Arrow) {
        p.retag(m, Rule::FunctionContract);
        parse_contract(p);
    }
    p.close();
}

/// The whole text: a body, then anything left over in error nodes.
pub fn parse_program(p: &mut Parser)
    requires
        old(p).inv(),
        old(p).events@.len() == 0,
    ensures
        old(p).step(*final(p)),
        final(p).pos == final(p).tokens@.len(),
        final(p).events@.len() > 0,
        final(p).events@[0] == Event::Open(Rule::Program),
{
    // The root opens before any trivia, so that it spans the whole text.
    p.events.push(Event::Open(Rule::Program));
    proof {
        assert(p.events@.drop_last() =~= old(p).events@);
        old(p).lemma_reported_kept(*p);
    }
    parse_body(p, false);
    p.close();
}

} // verus!
