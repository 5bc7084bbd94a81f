use vstd::prelude::*;

verus! {

#[derive(Debug, Clone, Copy, PartialEq, Eq, Structural)]
pub enum UnaryOperator {
    Sin,
    Cos,
    Tan,
    Sqrt,
    Exp,
}

#[derive(Debug, Clone, Copy, PartialEq, Eq, Structural)]
pub enum BinaryOperator {
    Add,
    Subtract,
    Multiply,
    Divide,
    Power,
}

/// The value of a leaf: a decimal literal as written, or a named constant.
#[derive(Debug, Clone, PartialEq)]
pub enum Numeral {
    Decimal { literal: Vec<char> },
    Pi,
    E,
}

pub enum NumeralModel {
    Decimal { literal: Seq<char> },
    Pi,
    E,
}

impl View for Numeral {
    type V = NumeralModel;

    open spec fn view(&self) -> NumeralModel {
        match self {
            Numeral::Decimal { literal } => NumeralModel::Decimal { literal: literal@ },
            Numeral::Pi => NumeralModel::Pi,
            Numeral::E => NumeralModel::E,
        }
    }
}

/// An expression tree; each node owns its operands.
#[derive(Debug, PartialEq)]
pub enum AstNode {
    Number(Numeral),
    UnaryOp { op: UnaryOperator, operand: Box<AstNode> },
    BinaryOp { op: BinaryOperator, left: Box<AstNode>, right: Box<AstNode> },
}

/// The mathematical model of an expression tree.
pub enum Expr {
    Number(NumeralModel),
    Unary(UnaryOperator, Box<Expr>),
    Binary(BinaryOperator, Box<Expr>, Box<Expr>),
}

pub open spec fn expr_of(n: AstNode) -> Expr
    decreases n,
{
    match n {
        AstNode::Number(v) => Expr::Number(v@),
        AstNode::UnaryOp { op, operand } => Expr::Unary(op, Box::new(expr_of(*operand))),
        AstNode::BinaryOp { op, left, right } => Expr::Binary(
            op,
            Box::new(expr_of(*left)),
            Box::new(expr_of(*right)),
        ),
    }
}

impl View for AstNode {
    type V = Expr;

    open spec fn view(&self) -> Expr {
        expr_of(*self)
    }
}

} // verus!
