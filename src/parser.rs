use vstd::prelude::*;
use crate::ast::{AstNode, BinaryOperator, Expr, Numeral, NumeralModel, UnaryOperator};
use crate::token::{Tokens, TokenModel, token_models};
use crate::tokenizer::append_range;

verus! {

/// Why a token sequence is no expression. Positions are token indices; a
/// position equal to the number of tokens means the tokens ran out.
#[derive(Debug, Clone, Copy, PartialEq, Eq, Structural)]
pub enum ParseError {
    /// An atom (number, constant, `(` or function name) was needed here.
    ExpectedAtom { position: usize },
    /// A parenthesised expression was not closed by `)` here.
    ExpectedRightParen { position: usize },
}

/// A subtree and the position after the tokens it was built from, or an error.
pub type Parsed = Result<(Expr, int), ParseError>;

pub open spec fn unary_of(t: TokenModel) -> Option<UnaryOperator> {
    match t {
        TokenModel::Sin => Some(UnaryOperator::Sin),
        TokenModel::Cos => Some(UnaryOperator::Cos),
        TokenModel::Tan => Some(UnaryOperator::Tan),
        TokenModel::Sqrt => Some(UnaryOperator::Sqrt),
        TokenModel::Exp => Some(UnaryOperator::Exp),
        _ => None,
    }
}

/// `atom := NUMBER | PI | E | '(' expression ')' | FUNCTION atom`
pub open spec fn atom_at(t: Seq<TokenModel>, p: int) -> Parsed
    decreases t.len() - p, 0int,
{
    if p < 0 || p >= t.len() {
        Err(ParseError::ExpectedAtom { position: p as usize })
    } else {
        match t[p] {
            TokenModel::Number { literal } => Ok(
                (Expr::Number(NumeralModel::Decimal { literal }), p + 1),
            ),
            TokenModel::Pi => Ok((Expr::Number(NumeralModel::Pi), p + 1)),
            TokenModel::E => Ok((Expr::Number(NumeralModel::E), p + 1)),
            TokenModel::LeftParen => match expression_at(t, p + 1) {
                Ok((n, q)) => if 0 <= q < t.len() && t[q] is RightParen {
                    Ok((n, q + 1))
                } else {
                    Err(ParseError::ExpectedRightParen { position: q as usize })
                },
                Err(e) => Err(e),
            },
            _ => match unary_of(t[p]) {
                Some(op) => match atom_at(t, p + 1) {
                    Ok((n, q)) => Ok((Expr::Unary(op, Box::new(n)), q)),
                    Err(e) => Err(e),
                },
                None => Err(ParseError::ExpectedAtom { position: p as usize }),
            },
        }
    }
}

/// `factor := atom ('^' atom)*`, grouped to the left.
pub open spec fn factor_at(t: Seq<TokenModel>, p: int) -> Parsed
    decreases t.len() - p, 1int,
{
    match atom_at(t, p) {
        Ok((n, q)) => if p < q <= t.len() {
            factor_rest(t, q, n)
        } else {
            Err(ParseError::ExpectedAtom { position: p as usize })
        },
        Err(e) => Err(e),
    }
}

/// The `('^' atom)*` tail of a factor whose left part `acc` ends before `q`.
pub open spec fn factor_rest(t: Seq<TokenModel>, q: int, acc: Expr) -> Parsed
    decreases t.len() - q, 0int,
{
    if 0 <= q < t.len() && t[q] is Power {
        match atom_at(t, q + 1) {
            Ok((n, r)) => if q + 1 < r <= t.len() {
                factor_rest(t, r, Expr::Binary(BinaryOperator::Power, Box::new(acc), Box::new(n)))
            } else {
                Err(ParseError::ExpectedAtom { position: q as usize })
            },
            Err(e) => Err(e),
        }
    } else {
        Ok((acc, q))
    }
}

pub open spec fn multiplicative_of(t: TokenModel) -> Option<BinaryOperator> {
    match t {
        TokenModel::Multiply => Some(BinaryOperator::Multiply),
        TokenModel::Divide => Some(BinaryOperator::Divide),
        _ => None,
    }
}

pub open spec fn additive_of(t: TokenModel) -> Option<BinaryOperator> {
    match t {
        TokenModel::Plus => Some(BinaryOperator::Add),
        TokenModel::Minus => Some(BinaryOperator::Subtract),
        _ => None,
    }
}

/// `term := factor (('*' | '/') factor)*`, grouped to the left.
pub open spec fn term_at(t: Seq<TokenModel>, p: int) -> Parsed
    decreases t.len() - p, 2int,
{
    match factor_at(t, p) {
        Ok((n, q)) => if p < q <= t.len() {
            term_rest(t, q, n)
        } else {
            Err(ParseError::ExpectedAtom { position: p as usize })
        },
        Err(e) => Err(e),
    }
}

pub open spec fn term_rest(t: Seq<TokenModel>, q: int, acc: Expr) -> Parsed
    decreases t.len() - q, 0int,
{
    if 0 <= q < t.len() && multiplicative_of(t[q]) is Some {
        match factor_at(t, q + 1) {
            Ok((n, r)) => if q + 1 < r <= t.len() {
                term_rest(
                    t,
                    r,
                    Expr::Binary(multiplicative_of(t[q])->0, Box::new(acc), Box::new(n)),
                )
            } else {
                Err(ParseError::ExpectedAtom { position: q as usize })
            },
            Err(e) => Err(e),
        }
    } else {
        Ok((acc, q))
    }
}

/// `expression := term (('+' | '-') term)*`, grouped to the left.
pub open spec fn expression_at(t: Seq<TokenModel>, p: int) -> Parsed
    decreases t.len() - p, 3int,
{
    match term_at(t, p) {
        Ok((n, q)) => if p < q <= t.len() {
            expression_rest(t, q, n)
        } else {
            Err(ParseError::ExpectedAtom { position: p as usize })
        },
        Err(e) => Err(e),
    }
}

pub open spec fn expression_rest(t: Seq<TokenModel>, q: int, acc: Expr) -> Parsed
    decreases t.len() - q, 0int,
{
    if 0 <= q < t.len() && additive_of(t[q]) is Some {
        match term_at(t, q + 1) {
            Ok((n, r)) => if q + 1 < r <= t.len() {
                expression_rest(
                    t,
                    r,
                    Expr::Binary(additive_of(t[q])->0, Box::new(acc), Box::new(n)),
                )
            } else {
                Err(ParseError::ExpectedAtom { position: q as usize })
            },
            Err(e) => Err(e),
        }
    } else {
        Ok((acc, q))
    }
}

/// The tree of a token sequence: the expression that starts at its first
/// token. Tokens after that expression are not read.
pub open spec fn tree_of(t: Seq<TokenModel>) -> Result<Expr, ParseError> {
    match expression_at(t, 0) {
        Ok((n, _)) => Ok(n),
        Err(e) => Err(e),
    }
}

/// `r`, with the cursor at `pos` after it, is the outcome `s`.
pub open spec fn agrees(r: Result<AstNode, ParseError>, pos: usize, s: Parsed) -> bool {
    match r {
        Ok(n) => s == Ok::<(Expr, int), ParseError>((n@, pos as int)),
        Err(e) => s == Err::<(Expr, int), ParseError>(e),
    }
}

/// A recursive-descent parser over a token sequence, with a cursor.
pub struct Parser {
    pub tokens: Vec<Tokens>,
    pub position: usize,
}

fn copy_literal(v: &Vec<char>) -> (r: Vec<char>)
    ensures
        r@ == v@,
{
    let mut r: Vec<char> = Vec::new();
    append_range(&mut r, v, 0, v.len());
    assert(r@ =~= v@);
    r
}

impl Parser {
    pub open spec fn models(&self) -> Seq<TokenModel> {
        token_models(self.tokens@)
    }

    pub open spec fn wf(&self) -> bool {
        self.position <= self.tokens@.len()
    }

    pub fn new(tokens: Vec<Tokens>) -> (p: Parser)
        ensures
            p.wf(),
            p.tokens == tokens,
            p.position == 0,
    {
        Parser { tokens, position: 0 }
    }

    /// Parses the expression that starts at the cursor and leaves the cursor
    /// after it.
    pub fn parse(&mut self) -> (r: Result<AstNode, ParseError>)
        requires
            old(self).wf(),
        ensures
            final(self).wf(),
            final(self).tokens == old(self).tokens,
            agrees(r, final(self).position, expression_at(old(self).models(), old(self).position as int)),
    {
        self.parse_expression()
    }

    fn parse_expression(&mut self) -> (r: Result<AstNode, ParseError>)
        requires
            old(self).wf(),
        ensures
            final(self).wf(),
            final(self).tokens == old(self).tokens,
            agrees(r, final(self).position, expression_at(old(self).models(), old(self).position as int)),
            old(self).position <= final(self).position,
            r is Ok ==> old(self).position < final(self).position,
        decreases old(self).tokens@.len() - old(self).position, 3int,
    {
        let ghost t = self.models();
        let ghost p0 = self.position as int;
        let mut node = match self.parse_term() {
            Ok(n) => n,
            Err(e) => {
                return Err(e);
            },
        };
        let mut failure: Option<ParseError> = None;
        loop
            invariant_except_break
                failure is None,
                expression_at(t, p0) == expression_rest(t, self.position as int, node@),
            invariant
                self.wf(),
                self.tokens == old(self).tokens,
                self.models() == t,
                t == old(self).models(),
                p0 == old(self).position,
                p0 < self.position,
            ensures
                self.wf(),
                self.tokens == old(self).tokens,
                p0 < self.position,
                match failure {
                    Some(e) => expression_at(t, p0) == Err::<(Expr, int), ParseError>(e),
                    None => expression_at(t, p0) == Ok::<(Expr, int), ParseError>((node@, self.position as int)),
                },
            decreases self.tokens@.len() - self.position,
        {
            let op = match self.current_token() {
                Some(Tokens::Plus) => Some(BinaryOperator::Add),
                Some(Tokens::Minus) => Some(BinaryOperator::Subtract),
                _ => None,
            };
            match op {
                None => {
                    break;
                },
                Some(op) => {
                    self.next_token();
                    match self.parse_term() {
                        Ok(right) => {
                            node = AstNode::BinaryOp { op, left: Box::new(node), right: Box::new(right) };
                        },
                        Err(e) => {
                            failure = Some(e);
                            break;
                        },
                    }
                },
            }
        }
        match failure {
            Some(e) => Err(e),
            None => Ok(node),
        }
    }

    fn parse_term(&mut self) -> (r: Result<AstNode, ParseError>)
        requires
            old(self).wf(),
        ensures
            final(self).wf(),
            final(self).tokens == old(self).tokens,
            agrees(r, final(self).position, term_at(old(self).models(), old(self).position as int)),
            old(self).position <= final(self).position,
            r is Ok ==> old(self).position < final(self).position,
        decreases old(self).tokens@.len() - old(self).position, 2int,
    {
        let ghost t = self.models();
        let ghost p0 = self.position as int;
        let mut node = match self.parse_factor() {
            Ok(n) => n,
            Err(e) => {
                return Err(e);
            },
        };
        let mut failure: Option<ParseError> = None;
        loop
            invariant_except_break
                failure is None,
                term_at(t, p0) == term_rest(t, self.position as int, node@),
            invariant
                self.wf(),
                self.tokens == old(self).tokens,
                self.models() == t,
                t == old(self).models(),
                p0 == old(self).position,
                p0 < self.position,
            ensures
                self.wf(),
                self.tokens == old(self).tokens,
                p0 < self.position,
                match failure {
                    Some(e) => term_at(t, p0) == Err::<(Expr, int), ParseError>(e),
                    None => term_at(t, p0) == Ok::<(Expr, int), ParseError>((node@, self.position as int)),
                },
            decreases self.tokens@.len() - self.position,
        {
            let op = match self.current_token() {
                Some(Tokens::Multiply) => Some(BinaryOperator::Multiply),
                Some(Tokens::Divide) => Some(BinaryOperator::Divide),
                _ => None,
            };
            match op {
                None => {
                    break;
                },
                Some(op) => {
                    self.next_token();
                    match self.parse_factor() {
                        Ok(right) => {
                            node = AstNode::BinaryOp { op, left: Box::new(node), right: Box::new(right) };
                        },
                        Err(e) => {
                            failure = Some(e);
                            break;
                        },
                    }
                },
            }
        }
        match failure {
            Some(e) => Err(e),
            None => Ok(node),
        }
    }

    fn parse_factor(&mut self) -> (r: Result<AstNode, ParseError>)
        requires
            old(self).wf(),
        ensures
            final(self).wf(),
            final(self).tokens == old(self).tokens,
            agrees(r, final(self).position, factor_at(old(self).models(), old(self).position as int)),
            old(self).position <= final(self).position,
            r is Ok ==> old(self).position < final(self).position,
        decreases old(self).tokens@.len() - old(self).position, 1int,
    {
        let ghost t = self.models();
        let ghost p0 = self.position as int;
        let mut node = match self.parse_exponent() {
            Ok(n) => n,
            Err(e) => {
                return Err(e);
            },
        };
        let mut failure: Option<ParseError> = None;
        loop
            invariant_except_break
                failure is None,
                factor_at(t, p0) == factor_rest(t, self.position as int, node@),
            invariant
                self.wf(),
                self.tokens == old(self).tokens,
                self.models() == t,
                t == old(self).models(),
                p0 == old(self).position,
                p0 < self.position,
            ensures
                self.wf(),
                self.tokens == old(self).tokens,
                p0 < self.position,
                match failure {
                    Some(e) => factor_at(t, p0) == Err::<(Expr, int), ParseError>(e),
                    None => factor_at(t, p0) == Ok::<(Expr, int), ParseError>((node@, self.position as int)),
                },
            decreases self.tokens@.len() - self.position,
        {
            let is_power = match self.current_token() {
                Some(Tokens::Power) => true,
                _ => false,
            };
            if !is_power {
                break;
            }
            self.next_token();
            match self.parse_exponent() {
                Ok(right) => {
                    node = AstNode::BinaryOp {
                        op: BinaryOperator::Power,
                        left: Box::new(node),
                        right: Box::new(right),
                    };
                },
                Err(e) => {
                    failure = Some(e);
                    break;
                },
            }
        }
        match failure {
            Some(e) => Err(e),
            None => Ok(node),
        }
    }

    /// An operand of `^`: a single atom.
    fn parse_exponent(&mut self) -> (r: Result<AstNode, ParseError>)
        requires
            old(self).wf(),
        ensures
            final(self).wf(),
            final(self).tokens == old(self).tokens,
            agrees(r, final(self).position, atom_at(old(self).models(), old(self).position as int)),
            old(self).position <= final(self).position,
            r is Ok ==> old(self).position < final(self).position,
        decreases old(self).tokens@.len() - old(self).position, 0int, 1int,
    {
        self.parse_atom()
    }

    fn parse_atom(&mut self) -> (r: Result<AstNode, ParseError>)
        requires
            old(self).wf(),
        ensures
            final(self).wf(),
            final(self).tokens == old(self).tokens,
            agrees(r, final(self).position, atom_at(old(self).models(), old(self).position as int)),
            old(self).position <= final(self).position,
            r is Ok ==> old(self).position < final(self).position,
        decreases old(self).tokens@.len() - old(self).position, 0int, 0int,
    {
        let p = self.position;
        if p >= self.tokens.len() {
            return Err(ParseError::ExpectedAtom { position: p });
        }
        let mut leaf: Option<Numeral> = None;
        let mut unary: Option<UnaryOperator> = None;
        let mut opens = false;
        match &self.tokens[p] {
            Tokens::Number { literal } => {
                leaf = Some(Numeral::Decimal { literal: copy_literal(literal) });
            },
            Tokens::Pi => {
                leaf = Some(Numeral::Pi);
            },
            Tokens::E => {
                leaf = Some(Numeral::E);
            },
            Tokens::LeftParen => {
                opens = true;
            },
            Tokens::Sin => {
                unary = Some(UnaryOperator::Sin);
            },
            Tokens::Cos => {
                unary = Some(UnaryOperator::Cos);
            },
            Tokens::Tan => {
                unary = Some(UnaryOperator::Tan);
            },
            Tokens::Sqrt => {
                unary = Some(UnaryOperator::Sqrt);
            },
            Tokens::Exp => {
                unary = Some(UnaryOperator::Exp);
            },
            _ => {},
        }
        self.next_token();
        if let Some(n) = leaf {
            return Ok(AstNode::Number(n));
        }
        if opens {
            let node = match self.parse_expression() {
                Ok(n) => n,
                Err(e) => {
                    return Err(e);
                },
            };
            let closed = match self.current_token() {
                Some(Tokens::RightParen) => true,
                _ => false,
            };
            if !closed {
                return Err(ParseError::ExpectedRightParen { position: self.position });
            }
            self.next_token();
            return Ok(node);
        }
        match unary {
            Some(op) => match self.parse_atom() {
                Ok(operand) => Ok(AstNode::UnaryOp { op, operand: Box::new(operand) }),
                Err(e) => Err(e),
            },
            None => Err(ParseError::ExpectedAtom { position: p }),
        }
    }

    /// The token under the cursor, or `None` once the tokens have run out.
    fn current_token(&self) -> (r: Option<&Tokens>)
        requires
            self.wf(),
        ensures
            r == (if self.position < self.tokens@.len() {
                Some(&self.tokens@[self.position as int])
            } else {
                None
            }),
    {
        if self.position < self.tokens.len() {
            Some(&self.tokens[self.position])
        } else {
            None
        }
    }

    /// Moves the cursor past the current token.
    fn next_token(&mut self)
        requires
            old(self).position < old(self).tokens@.len(),
        ensures
            final(self).tokens == old(self).tokens,
            final(self).position == old(self).position + 1,
    {
        if self.position < self.tokens.len() {
            self.position = self.position + 1;
        }
    }
}

/// The tree of a whole token sequence.
pub fn parse_tokens(tokens: Vec<Tokens>) -> (r: Result<AstNode, ParseError>)
    ensures
        match r {
            Ok(n) => tree_of(token_models(tokens@)) == Ok::<Expr, ParseError>(n@),
            Err(e) => tree_of(token_models(tokens@)) == Err::<Expr, ParseError>(e),
        },
{
    let mut parser = Parser::new(tokens);
    parser.parse()
}

/// The leaf of a decimal literal.
pub open spec fn leaf(a: Seq<char>) -> Expr {
    Expr::Number(NumeralModel::Decimal { literal: a })
}

pub open spec fn num(a: Seq<char>) -> TokenModel {
    TokenModel::Number { literal: a }
}

/// A chain of powers groups to the left: `a ^ b ^ c` is `(a ^ b) ^ c`.
pub proof fn lemma_power_chain_groups_left(a: Seq<char>, b: Seq<char>, c: Seq<char>)
    ensures
        tree_of(seq![num(a), TokenModel::Power, num(b), TokenModel::Power, num(c)]) == Ok::<
            Expr,
            ParseError,
        >(
            Expr::Binary(
                BinaryOperator::Power,
                Box::new(Expr::Binary(BinaryOperator::Power, Box::new(leaf(a)), Box::new(leaf(b)))),
                Box::new(leaf(c)),
            ),
        ),
{
    let t = seq![num(a), TokenModel::Power, num(b), TokenModel::Power, num(c)];
    let ab = Expr::Binary(BinaryOperator::Power, Box::new(leaf(a)), Box::new(leaf(b)));
    let abc = Expr::Binary(BinaryOperator::Power, Box::new(ab), Box::new(leaf(c)));
    assert(atom_at(t, 0) == Ok::<(Expr, int), ParseError>((leaf(a), 1)));
    assert(atom_at(t, 2) == Ok::<(Expr, int), ParseError>((leaf(b), 3)));
    assert(atom_at(t, 4) == Ok::<(Expr, int), ParseError>((leaf(c), 5)));
    assert(factor_rest(t, 5, abc) == Ok::<(Expr, int), ParseError>((abc, 5)));
    assert(factor_rest(t, 3, ab) == Ok::<(Expr, int), ParseError>((abc, 5)));
    assert(factor_rest(t, 1, leaf(a)) == Ok::<(Expr, int), ParseError>((abc, 5)));
    assert(factor_at(t, 0) == Ok::<(Expr, int), ParseError>((abc, 5)));
    assert(term_rest(t, 5, abc) == Ok::<(Expr, int), ParseError>((abc, 5)));
    assert(term_at(t, 0) == Ok::<(Expr, int), ParseError>((abc, 5)));
    assert(expression_rest(t, 5, abc) == Ok::<(Expr, int), ParseError>((abc, 5)));
}

/// `*` binds tighter than `+`: `a + b * c` is `a + (b * c)`.
pub proof fn lemma_product_binds_tighter_than_sum(a: Seq<char>, b: Seq<char>, c: Seq<char>)
    ensures
        tree_of(seq![num(a), TokenModel::Plus, num(b), TokenModel::Multiply, num(c)]) == Ok::<
            Expr,
            ParseError,
        >(
            Expr::Binary(
                BinaryOperator::Add,
                Box::new(leaf(a)),
                Box::new(Expr::Binary(BinaryOperator::Multiply, Box::new(leaf(b)), Box::new(leaf(c)))),
            ),
        ),
{
    let t = seq![num(a), TokenModel::Plus, num(b), TokenModel::Multiply, num(c)];
    let bc = Expr::Binary(BinaryOperator::Multiply, Box::new(leaf(b)), Box::new(leaf(c)));
    let abc = Expr::Binary(BinaryOperator::Add, Box::new(leaf(a)), Box::new(bc));
    assert(atom_at(t, 0) == Ok::<(Expr, int), ParseError>((leaf(a), 1)));
    assert(factor_rest(t, 1, leaf(a)) == Ok::<(Expr, int), ParseError>((leaf(a), 1)));
    assert(factor_at(t, 0) == Ok::<(Expr, int), ParseError>((leaf(a), 1)));
    assert(term_rest(t, 1, leaf(a)) == Ok::<(Expr, int), ParseError>((leaf(a), 1)));
    assert(term_at(t, 0) == Ok::<(Expr, int), ParseError>((leaf(a), 1)));
    assert(atom_at(t, 2) == Ok::<(Expr, int), ParseError>((leaf(b), 3)));
    assert(factor_rest(t, 3, leaf(b)) == Ok::<(Expr, int), ParseError>((leaf(b), 3)));
    assert(factor_at(t, 2) == Ok::<(Expr, int), ParseError>((leaf(b), 3)));
    assert(atom_at(t, 4) == Ok::<(Expr, int), ParseError>((leaf(c), 5)));
    assert(factor_rest(t, 5, leaf(c)) == Ok::<(Expr, int), ParseError>((leaf(c), 5)));
    assert(factor_at(t, 4) == Ok::<(Expr, int), ParseError>((leaf(c), 5)));
    assert(term_rest(t, 5, bc) == Ok::<(Expr, int), ParseError>((bc, 5)));
    assert(term_rest(t, 3, leaf(b)) == Ok::<(Expr, int), ParseError>((bc, 5)));
    assert(term_at(t, 2) == Ok::<(Expr, int), ParseError>((bc, 5)));
    assert(expression_rest(t, 5, abc) == Ok::<(Expr, int), ParseError>((abc, 5)));
    assert(expression_rest(t, 1, leaf(a)) == Ok::<(Expr, int), ParseError>((abc, 5)));
}

/// A function name applies to the single atom after it: `f a + b` is
/// `f(a) + b`.
pub proof fn lemma_function_binds_to_next_atom(f: TokenModel, a: Seq<char>, b: Seq<char>)
    requires
        unary_of(f) is Some,
    ensures
        tree_of(seq![f, num(a), TokenModel::Plus, num(b)]) == Ok::<Expr, ParseError>(
            Expr::Binary(
                BinaryOperator::Add,
                Box::new(Expr::Unary(unary_of(f)->0, Box::new(leaf(a)))),
                Box::new(leaf(b)),
            ),
        ),
{
    let t = seq![f, num(a), TokenModel::Plus, num(b)];
    let fa = Expr::Unary(unary_of(f)->0, Box::new(leaf(a)));
    let sum = Expr::Binary(BinaryOperator::Add, Box::new(fa), Box::new(leaf(b)));
    assert(atom_at(t, 1) == Ok::<(Expr, int), ParseError>((leaf(a), 2)));
    assert(atom_at(t, 0) == Ok::<(Expr, int), ParseError>((fa, 2)));
    assert(factor_rest(t, 2, fa) == Ok::<(Expr, int), ParseError>((fa, 2)));
    assert(factor_at(t, 0) == Ok::<(Expr, int), ParseError>((fa, 2)));
    assert(term_rest(t, 2, fa) == Ok::<(Expr, int), ParseError>((fa, 2)));
    assert(term_at(t, 0) == Ok::<(Expr, int), ParseError>((fa, 2)));
    assert(atom_at(t, 3) == Ok::<(Expr, int), ParseError>((leaf(b), 4)));
    assert(factor_rest(t, 4, leaf(b)) == Ok::<(Expr, int), ParseError>((leaf(b), 4)));
    assert(factor_at(t, 3) == Ok::<(Expr, int), ParseError>((leaf(b), 4)));
    assert(term_rest(t, 4, leaf(b)) == Ok::<(Expr, int), ParseError>((leaf(b), 4)));
    assert(term_at(t, 3) == Ok::<(Expr, int), ParseError>((leaf(b), 4)));
    assert(expression_rest(t, 4, sum) == Ok::<(Expr, int), ParseError>((sum, 4)));
    assert(expression_rest(t, 2, fa) == Ok::<(Expr, int), ParseError>((sum, 4)));
}

/// An operator with nothing after it is an error: after `a` and a binary
/// operator, an atom is expected where the tokens run out.
pub proof fn lemma_trailing_operator_fails(a: Seq<char>, op: TokenModel)
    requires
        additive_of(op) is Some || multiplicative_of(op) is Some || op is Power,
    ensures
        tree_of(seq![num(a), op]) == Err::<Expr, ParseError>(ParseError::ExpectedAtom { position: 2 }),
{
    let t = seq![num(a), op];
    let missing = Err::<(Expr, int), ParseError>(ParseError::ExpectedAtom { position: 2 });
    assert(atom_at(t, 0) == Ok::<(Expr, int), ParseError>((leaf(a), 1)));
    assert(atom_at(t, 2) == missing);
    if op is Power {
        assert(factor_rest(t, 1, leaf(a)) == missing);
        assert(factor_at(t, 0) == missing);
        assert(term_at(t, 0) == missing);
    } else {
        assert(factor_rest(t, 1, leaf(a)) == Ok::<(Expr, int), ParseError>((leaf(a), 1)));
        assert(factor_at(t, 0) == Ok::<(Expr, int), ParseError>((leaf(a), 1)));
        assert(factor_at(t, 2) == missing);
        if multiplicative_of(op) is Some {
            assert(term_rest(t, 1, leaf(a)) == missing);
            assert(term_at(t, 0) == missing);
        } else {
            assert(term_rest(t, 1, leaf(a)) == Ok::<(Expr, int), ParseError>((leaf(a), 1)));
            assert(term_at(t, 0) == Ok::<(Expr, int), ParseError>((leaf(a), 1)));
            assert(term_at(t, 2) == missing);
            assert(expression_rest(t, 1, leaf(a)) == missing);
        }
    }
}

} // verus!
