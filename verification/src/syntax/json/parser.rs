//! A recovering recursive-descent parser for JSON that builds a lossless
//! concrete syntax tree: every token of the text, whitespace and invalid
//! input included, is a leaf of the tree, in text order.

use vstd::prelude::*;
use crate::syntax::{Span, SyntaxError};
use crate::syntax::json::lexer::Token;
use crate::syntax::tree::{leaves, upto, Trivia};

pub use crate::syntax::tree::NodeRef;

verus! {

/// The kinds of interior nodes of a JSON tree.
#[derive(Clone, Copy, Debug, PartialEq, Eq, Structural)]
pub enum Rule {
    Document,
    Object,
    Member,
    Array,
    String,
    Literal,
    Error,
}

/// One step of a JSON tree in preorder.
pub type Event = crate::syntax::tree::Event<Rule>;

/// What a JSON tree node is: a token leaf or an interior node of some rule.
pub type NodeKind = crate::syntax::tree::NodeKind<Token, Rule>;

/// One node of a JSON tree in preorder.
pub type CstNode = crate::syntax::tree::CstNode<Token, Rule>;

/// A JSON tree node with its span, as seen by queries.
pub type Node = crate::syntax::tree::Node<Token, Rule>;

/// The concrete syntax tree of a JSON text.
pub type CstData = crate::syntax::tree::CstData<Token, Rule>;

/// Whitespace and invalid input: kept in the tree, skipped by the grammar.
pub open spec fn spec_is_trivia(t: Token) -> bool {
    t == Token::Whitespace || t == Token::Error
}

pub fn is_trivia(t: Token) -> (b: bool)
    ensures
        b == spec_is_trivia(t),
{
    t == Token::Whitespace || t == Token::Error
}

impl Trivia for Token {
    fn is_trivia(&self) -> bool {
        is_trivia(*self)
    }
}

/// The state of a parse: the token stream of one text of `len` bytes, the
/// position of the next token, the events emitted so far and the
/// diagnostics.
pub struct Parser {
    pub len: usize,
    pub tokens: Vec<Token>,
    pub spans: Vec<Span>,
    pub pos: usize,
    pub events: Vec<Event>,
    pub errors: Vec<SyntaxError>,
}

/// The position of the first significant token at or after `pos`, or the
/// end of the stream.
pub open spec fn skip_pos(tokens: Seq<Token>, pos: int) -> int
    decreases tokens.len() - pos,
{
    if pos < 0 || pos >= tokens.len() {
        pos
    } else if spec_is_trivia(tokens[pos]) {
        skip_pos(tokens, pos + 1)
    } else {
        pos
    }
}

impl Parser {
    /// The tokens not consumed yet.
    pub open spec fn remaining(self) -> int {
        self.tokens@.len() - self.pos
    }

    /// The emitted leaves are exactly the consumed tokens, in order, and
    /// every span lies in the text.
    pub open spec fn inv(self) -> bool {
        &&& self.tokens@.len() == self.spans@.len()
        &&& self.pos <= self.tokens@.len()
        &&& self.len <= u32::MAX
        &&& leaves(self.events@) == upto(self.pos as int)
        &&& forall|k: int|
            0 <= k < self.spans@.len() ==> (#[trigger] self.spans@[k]).start <= self.spans@[k].end
                <= self.len
        &&& forall|k: int|
            0 <= k < self.errors@.len() ==> (#[trigger] self.errors@[k]).span.start
                <= self.errors@[k].span.end <= self.len
    }

    /// Steps that only add: same input, never moving backwards, keeping the
    /// invariant; earlier events and diagnostics stay.
    pub open spec fn step(self, next: Parser) -> bool {
        &&& next.inv()
        &&& next.len == self.len
        &&& next.tokens@ == self.tokens@
        &&& next.spans@ == self.spans@
        &&& self.pos <= next.pos
        &&& self.events@.len() <= next.events@.len()
        &&& forall|k: int| 0 <= k < self.events@.len() ==> next.events@[k] == self.events@[k]
        &&& self.errors@.len() <= next.errors@.len()
        &&& forall|k: int| 0 <= k < self.errors@.len() ==> next.errors@[k] == self.errors@[k]
    }

    /// The next token is significant, or every token is consumed.
    pub open spec fn at_significant(self) -> bool {
        self.pos >= self.tokens@.len() || !spec_is_trivia(self.tokens@[self.pos as int])
    }

    /// The next token, trivia included, or `EOF`.
    pub fn current(&self) -> (t: Token)
        requires
            self.inv(),
        ensures
            self.pos < self.tokens@.len() ==> t == self.tokens@[self.pos as int],
            self.pos >= self.tokens@.len() ==> t == Token::EOF,
    {
        if self.pos < self.tokens.len() {
            self.tokens[self.pos]
        } else {
            Token::EOF
        }
    }

    /// Reports `message` at the next token, or at the end of the text.
    pub fn error(&mut self, message: &str)
        requires
            old(self).inv(),
        ensures
            old(self).step(*final(self)),
            final(self).pos == old(self).pos,
            final(self).events@ == old(self).events@,
            final(self).errors@.len() == old(self).errors@.len() + 1,
            final(self).errors@.last().message@ == message@,
    {
        let span = if self.pos < self.tokens.len() {
            self.spans[self.pos]
        } else {
            Span { start: self.len, end: self.len }
        };
        self.errors.push(SyntaxError { message: String::from_str(message), span });
    }

    /// Consumes the next token as a leaf of the innermost open node.
    pub fn bump(&mut self)
        requires
            old(self).inv(),
            old(self).pos < old(self).tokens@.len(),
        ensures
            old(self).step(*final(self)),
            final(self).pos == old(self).pos + 1,
            final(self).events@ == old(self).events@.push(Event::Tok(old(self).pos)),
            final(self).errors@ == old(self).errors@,
    {
        let p = self.pos;
        let n = self.tokens.len();
        assert(p < n);
        self.events.push(Event::Tok(p));
        proof {
            assert(self.events@.drop_last() == old(self).events@);
            assert(upto(old(self).pos as int).push(old(self).pos as int) =~= upto(
                old(self).pos + 1,
            ));
        }
        self.pos = p + 1;
    }

    /// Consumes the trivia before the next significant token.
    pub fn skip_trivia(&mut self)
        requires
            old(self).inv(),
        ensures
            old(self).step(*final(self)),
            final(self).at_significant(),
            final(self).pos == skip_pos(old(self).tokens@, old(self).pos as int),
            final(self).errors@ == old(self).errors@,
            old(self).at_significant() ==> *final(self) == *old(self),
    {
        while self.pos < self.tokens.len() && is_trivia(self.tokens[self.pos])
            invariant
                old(self).step(*self),
                skip_pos(self.tokens@, self.pos as int) == skip_pos(old(self).tokens@, old(self).pos as int),
                self.errors@ == old(self).errors@,
                old(self).at_significant() ==> *self == *old(self),
            decreases self.remaining(),
        {
            self.bump();
        }
    }

    /// The next significant token, or `EOF`; the trivia before it is
    /// consumed.
    pub fn peek(&mut self) -> (t: Token)
        requires
            old(self).inv(),
        ensures
            old(self).step(*final(self)),
            final(self).at_significant(),
            final(self).pos == skip_pos(old(self).tokens@, old(self).pos as int),
            final(self).errors@ == old(self).errors@,
            final(self).pos < final(self).tokens@.len() ==> t == final(self).tokens@[final(self).pos as int],
            final(self).pos >= final(self).tokens@.len() ==> t == Token::EOF,
    {
        self.skip_trivia();
        self.current()
    }

    /// Opens a node of kind `r` before the next significant token.
    pub fn open(&mut self, r: Rule)
        requires
            old(self).inv(),
        ensures
            old(self).step(*final(self)),
            final(self).at_significant(),
            final(self).errors@ == old(self).errors@,
            old(self).at_significant() ==> final(self).pos == old(self).pos,
    {
        self.skip_trivia();
        let ghost before = self.events@;
        self.events.push(Event::Open(r));
        proof {
            assert(self.events@.drop_last() =~= before);
        }
    }

    /// Closes the innermost open node.
    pub fn close(&mut self)
        requires
            old(self).inv(),
        ensures
            old(self).step(*final(self)),
            final(self).pos == old(self).pos,
            final(self).errors@ == old(self).errors@,
            final(self).events@ == old(self).events@.push(Event::Close),
    {
        self.events.push(Event::Close);
        proof {
            assert(self.events@.drop_last() == old(self).events@);
        }
    }

    /// Consumes the next significant token if it is `t`; otherwise reports
    /// `message` there and consumes nothing.
    pub fn expect(&mut self, t: Token, message: &str) -> (found: bool)
        requires
            old(self).inv(),
        ensures
            old(self).step(*final(self)),
            found == (skip_pos(old(self).tokens@, old(self).pos as int) < old(self).tokens@.len() && old(self).tokens@[skip_pos(old(self).tokens@, old(self).pos as int)] == t),
            found ==> final(self).pos == skip_pos(old(self).tokens@, old(self).pos as int) + 1,
            found ==> final(self).errors@ == old(self).errors@,
            !found ==> final(self).pos == skip_pos(old(self).tokens@, old(self).pos as int),
            !found ==> final(self).errors@.len() == old(self).errors@.len() + 1
                && final(self).errors@.last().message@ == message@,
    {
        let next = self.peek();
        if next == t && self.pos < self.tokens.len() {
            self.bump();
            true
        } else {
            self.error(message);
            false
        }
    }
}

/// Tokens that begin a JSON value.
pub open spec fn spec_starts_value(t: Token) -> bool {
    t == Token::LBrace || t == Token::LBracket || t == Token::DoubleQuote || t == Token::Number
        || t == Token::True || t == Token::False || t == Token::Null
}

pub fn starts_value(t: Token) -> (b: bool)
    ensures
        b == spec_starts_value(t),
{
    t == Token::LBrace || t == Token::LBracket || t == Token::DoubleQuote || t == Token::Number
        || t == Token::True || t == Token::False || t == Token::Null
}

/// The parse consumed nothing only where the next token is not `t`.
pub open spec fn progress_at(before: Parser, after: Parser, t: Token) -> bool {
    after.pos == before.pos ==> before.pos >= before.tokens@.len() || before.tokens@[before.pos as int] != t
}

/// A value: an object, an array, a string or a literal. Where none
/// begins, reports `expected a JSON value`; a token that cannot continue
/// the enclosing value (`,` `:` `}` `]`, or the end) is left in place,
/// any other is consumed into an error node.
pub fn parse_value(p: &mut Parser)
    requires
        old(p).inv(),
    ensures
        old(p).step(*final(p)),
        final(p).pos == old(p).pos ==> old(p).pos >= old(p).tokens@.len() || !spec_starts_value(
            old(p).tokens@[old(p).pos as int],
        ),
    decreases old(p).remaining(), 3int,
{
    let t = p.peek();
    if t == Token::LBrace {
        parse_object(p);
    } else if t == Token::LBracket {
        parse_array(p);
    } else if t == Token::DoubleQuote {
        parse_string(p);
    } else if t == Token::Number || t == Token::True || t == Token::False || t == Token::Null {
        p.open(Rule::Literal);
        if p.pos < p.tokens.len() {
            p.bump();
        }
        p.close();
    } else {
        p.error("expected a JSON value");
        if t != Token::Comma && t != Token::Colon && t != Token::RBrace && t != Token::RBracket
            && p.pos < p.tokens.len() {
            p.open(Rule::Error);
            if p.pos < p.tokens.len() {
                p.bump();
            }
            p.close();
        }
    }
}

/// A string: `"`, text and escapes, `"`.
pub fn parse_string(p: &mut Parser)
    requires
        old(p).inv(),
    ensures
        old(p).step(*final(p)),
        progress_at(*old(p), *final(p), Token::DoubleQuote),
    decreases old(p).remaining(), 1int,
{
    p.open(Rule::String);
    let t = p.peek();
    if t != Token::DoubleQuote || p.pos >= p.tokens.len() {
        p.error("expected a string");
        p.close();
        return;
    }
    p.bump();
    loop
        invariant
            old(p).step(*p),
            p.pos > old(p).pos,
        decreases p.remaining(),
    {
        let t = p.current();
        if p.pos >= p.tokens.len() {
            p.error("unterminated string");
            break;
        } else if t == Token::DoubleQuote {
            p.bump();
            break;
        } else {
            p.bump();
        }
    }
    p.close();
}

/// `{ "key": value, ... }`; a member that follows another without a `,`
/// is reported and parsed.
pub fn parse_object(p: &mut Parser)
    requires
        old(p).inv(),
    ensures
        old(p).step(*final(p)),
        old(p).pos < old(p).tokens@.len() ==> final(p).pos > old(p).pos,
    decreases old(p).remaining(), 2int,
{
    p.open(Rule::Object);
    if p.pos >= p.tokens.len() {
        p.close();
        return;
    }
    p.bump();
    let t = p.peek();
    if t != Token::RBrace {
        loop
            invariant
                old(p).step(*p),
                p.pos > old(p).pos,
            decreases p.remaining(),
        {
            parse_member(p);
            let next = p.peek();
            if next == Token::Comma && p.pos < p.tokens.len() {
                p.bump();
            } else if next == Token::DoubleQuote && p.pos < p.tokens.len() {
                p.error("expected `,` or `}`");
            } else {
                break;
            }
        }
    }
    p.expect(Token::RBrace, "expected `,` or `}`");
    p.close();
}

/// `"key": value` inside an object.
pub fn parse_member(p: &mut Parser)
    requires
        old(p).inv(),
    ensures
        old(p).step(*final(p)),
        progress_at(*old(p), *final(p), Token::DoubleQuote),
    decreases old(p).remaining(), 4int,
{
    p.open(Rule::Member);
    parse_string(p);
    p.expect(Token::Colon, "expected `:`");
    parse_value(p);
    p.close();
}

/// `[ value, ... ]`; a value that follows another without a `,` is
/// reported and parsed.
pub fn parse_array(p: &mut Parser)
    requires
        old(p).inv(),
    ensures
        old(p).step(*final(p)),
        old(p).pos < old(p).tokens@.len() ==> final(p).pos > old(p).pos,
    decreases old(p).remaining(), 2int,
{
    p.open(Rule::Array);
    if p.pos >= p.tokens.len() {
        p.close();
        return;
    }
    p.bump();
    let t = p.peek();
    if t != Token::RBracket {
        loop
            invariant
                old(p).step(*p),
                p.pos > old(p).pos,
            decreases p.remaining(),
        {
            parse_value(p);
            let next = p.peek();
            if next == Token::Comma && p.pos < p.tokens.len() {
                p.bump();
            } else if starts_value(next) && p.pos < p.tokens.len() {
                p.error("expected `,` or `]`");
            } else {
                break;
            }
        }
    }
    p.expect(Token::RBracket, "expected `,` or `]`");
    p.close();
}

/// A whole document: one value, and nothing after it but whitespace. The
/// root spans the whole text; every token is consumed.
pub fn parse_document(p: &mut Parser)
    requires
        old(p).inv(),
        old(p).events@.len() == 0,
    ensures
        old(p).step(*final(p)),
        final(p).pos == final(p).tokens@.len(),
        final(p).events@.len() > 0,
        final(p).events@[0] == Event::Open(Rule::Document),
{
    p.events.push(Event::Open(Rule::Document));
    proof {
        assert(p.events@.drop_last() =~= old(p).events@);
    }
    parse_value(p);
    let t = p.peek();
    if t != Token::EOF {
        p.error("expected end of input");
    }
    while p.pos < p.tokens.len()
        invariant
            old(p).step(*p),
            p.events@.len() > 0,
            p.events@[0] == Event::Open(Rule::Document),
        decreases p.remaining(),
    {
        let t = p.current();
        if is_trivia(t) {
            p.bump();
        } else {
            p.open(Rule::Error);
            if p.pos < p.tokens.len() {
                p.bump();
            }
            p.close();
        }
    }
    p.close();
}

} // verus!
