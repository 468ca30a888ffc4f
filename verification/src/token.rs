//! The tokens of a postfix sequence and their mathematical view.

use crate::operator::Operator;
use vstd::prelude::*;

verus! {

/// One element of a postfix sequence: an operator, or the text of an operand,
/// kept as written and read as a number only when the sequence is evaluated.
#[derive(Debug, PartialEq)]
pub enum Token {
    Operator(Operator),
    Operand(String),
}

/// What a [`Token`] holds, with the operand's text as a sequence of characters.
pub enum TokenView {
    Operator(Operator),
    Operand(Seq<char>),
}

impl View for Token {
    type V = TokenView;

    open spec fn view(&self) -> TokenView {
        match self {
            Token::Operator(op) => TokenView::Operator(*op),
            Token::Operand(text) => TokenView::Operand(text@),
        }
    }
}

/// The views of a sequence of tokens, in order.
pub open spec fn views_of(tokens: Seq<Token>) -> Seq<TokenView> {
    tokens.map_values(|token: Token| token@)
}

/// Appending a token appends its view.
pub proof fn lemma_views_of_push(tokens: Seq<Token>, token: Token)
    ensures
        views_of(tokens.push(token)) == views_of(tokens).push(token@),
{
    assert(views_of(tokens.push(token)) =~= views_of(tokens).push(token@));
}

} // verus!
