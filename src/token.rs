use vstd::prelude::*;

verus! {

/// One lexical unit of an input line.
///
/// A number keeps its decimal text (an optional `-`, digits, and at most one
/// `.` followed by digits); turning that text into a machine number is left
/// to the caller.
#[derive(Debug, Clone, PartialEq)]
pub enum Tokens {
    Plus,
    Minus,
    Multiply,
    Divide,
    Modulo,
    Power,
    LeftParen,
    RightParen,
    Number { literal: Vec<char> },
    Sin,
    Cos,
    Tan,
    Sqrt,
    Pi,
    E,
    Exp,
}

/// The mathematical model of a token: the same shapes, with a number's text
/// as a sequence of characters.
pub enum TokenModel {
    Plus,
    Minus,
    Multiply,
    Divide,
    Modulo,
    Power,
    LeftParen,
    RightParen,
    Number { literal: Seq<char> },
    Sin,
    Cos,
    Tan,
    Sqrt,
    Pi,
    E,
    Exp,
}

impl View for Tokens {
    type V = TokenModel;

    open spec fn view(&self) -> TokenModel {
        match self {
            Tokens::Plus => TokenModel::Plus,
            Tokens::Minus => TokenModel::Minus,
            Tokens::Multiply => TokenModel::Multiply,
            Tokens::Divide => TokenModel::Divide,
            Tokens::Modulo => TokenModel::Modulo,
            Tokens::Power => TokenModel::Power,
            Tokens::LeftParen => TokenModel::LeftParen,
            Tokens::RightParen => TokenModel::RightParen,
            Tokens::Number { literal } => TokenModel::Number { literal: literal@ },
            Tokens::Sin => TokenModel::Sin,
            Tokens::Cos => TokenModel::Cos,
            Tokens::Tan => TokenModel::Tan,
            Tokens::Sqrt => TokenModel::Sqrt,
            Tokens::Pi => TokenModel::Pi,
            Tokens::E => TokenModel::E,
            Tokens::Exp => TokenModel::Exp,
        }
    }
}

/// The models of a sequence of tokens, one for one.
pub open spec fn token_models(ts: Seq<Tokens>) -> Seq<TokenModel> {
    ts.map_values(|t: Tokens| t@)
}

pub proof fn lemma_token_models_push(ts: Seq<Tokens>, t: Tokens)
    ensures
        token_models(ts.push(t)) == token_models(ts).push(t@),
{
    assert(token_models(ts.push(t)) =~= token_models(ts).push(t@));
}

pub proof fn lemma_token_models_drop_last(ts: Seq<Tokens>)
    requires
        ts.len() > 0,
    ensures
        token_models(ts.drop_last()) == token_models(ts).drop_last(),
{
    assert(token_models(ts.drop_last()) =~= token_models(ts).drop_last());
}

} // verus!
