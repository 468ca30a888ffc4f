//! Evaluation of a postfix sequence on an operand stack.
//!
//! The evaluator is written for any type of number `V`. Its caller supplies
//! the two things that depend on the numbers: how the text of an operand is
//! read, and what an operator makes of two values. Either may give nothing
//! (`None`), which ends the evaluation with an error.

use crate::operator::Operator;
use crate::token::{views_of, Token, TokenView};
use vstd::prelude::*;

verus! {

/// The postfix sequence does not evaluate to one value.
#[derive(Debug, Clone, PartialEq)]
pub struct PostfixEvalError;

impl PostfixEvalError {
    /// The message shown for this error.
    pub fn to_string(&self) -> (message: String)
        ensures
            message@ == "Invalid postfix expression"@,
    {
        String::from_str("Invalid postfix expression")
    }
}

/// The stack with the value pushed, or the failure where there is no value.
pub open spec fn push_outcome<V>(stack: Seq<V>, outcome: Option<V>) -> Option<Seq<V>> {
    match outcome {
        Some(value) => Some(stack.push(value)),
        None => None,
    }
}

/// What the evaluation returns for the stack it ends with (`None`: it
/// failed before the end): the value, if exactly one is left.
pub open spec fn verdict<V>(end: Option<Seq<V>>) -> Result<V, PostfixEvalError> {
    match end {
        Some(stack) => if stack.len() == 1 {
            Ok(stack[0])
        } else {
            Err(PostfixEvalError)
        },
        None => Err(PostfixEvalError),
    }
}

/// One token acts on the operand stack, for numbers that are read by `read`
/// and combined by `operate`. An operand is read and pushed. A binary
/// operator takes the top of the stack as its right operand and the value
/// below as its left operand, and pushes what it makes of them. The result
/// is `None`, a failure, where the operand cannot be read, where fewer than
/// two values are on the stack, where the operator gives no value, and for a
/// parenthesis.
pub open spec fn act<V>(
    read: spec_fn(Seq<char>) -> Option<V>,
    operate: spec_fn(Operator, V, V) -> Option<V>,
    stack: Seq<V>,
    token: TokenView,
) -> Option<Seq<V>> {
    match token {
        TokenView::Operand(text) => push_outcome(stack, read(text)),
        TokenView::Operator(op) => if op.is_binary() && stack.len() >= 2 {
            push_outcome(
                stack.take(stack.len() - 2),
                operate(op, stack[stack.len() - 2], stack[stack.len() - 1]),
            )
        } else {
            None
        },
    }
}

/// The tokens act on the stack one after the other; the first failure ends
/// the run.
pub open spec fn run<V>(
    read: spec_fn(Seq<char>) -> Option<V>,
    operate: spec_fn(Operator, V, V) -> Option<V>,
    tokens: Seq<TokenView>,
    stack: Seq<V>,
) -> Option<Seq<V>>
    decreases tokens.len(),
{
    if tokens.len() == 0 {
        Some(stack)
    } else {
        match run(read, operate, tokens.drop_last(), stack) {
            Some(reached) => act(read, operate, reached, tokens.last()),
            None => None,
        }
    }
}

/// The value of a postfix sequence: the one value that a run from the empty
/// stack leaves, if it leaves exactly one.
pub open spec fn postfix_value<V>(
    read: spec_fn(Seq<char>) -> Option<V>,
    operate: spec_fn(Operator, V, V) -> Option<V>,
    tokens: Seq<TokenView>,
) -> Result<V, PostfixEvalError> {
    verdict(run(read, operate, tokens, Seq::empty()))
}

/// One step of an evaluation that calls `read` and `operate`, stated over
/// what the two may return: from `before` the token may lead to `after`.
/// `None` is the failed evaluation, which stays failed.
pub open spec fn token_allows<V, R, O>(
    read: R,
    operate: O,
    before: Option<Seq<V>>,
    token: Token,
    after: Option<Seq<V>>,
) -> bool where R: Fn(&String) -> Option<V>, O: Fn(Operator, V, V) -> Option<V> {
    match before {
        None => after is None,
        Some(stack) => match token {
            Token::Operand(text) => exists|outcome: Option<V>|
                #[trigger] read.ensures((&text,), outcome) && after == push_outcome(
                    stack,
                    outcome,
                ),
            Token::Operator(op) => if op.is_binary() && stack.len() >= 2 {
                exists|outcome: Option<V>|
                    #[trigger] operate.ensures(
                        (op, stack[stack.len() - 2], stack[stack.len() - 1]),
                        outcome,
                    ) && after == push_outcome(stack.take(stack.len() - 2), outcome)
            } else {
                after is None
            },
        },
    }
}

/// From the empty stack the tokens, taken one after the other, may lead to
/// `end`.
pub open spec fn run_allows<V, R, O>(
    read: R,
    operate: O,
    tokens: Seq<Token>,
    end: Option<Seq<V>>,
) -> bool where R: Fn(&String) -> Option<V>, O: Fn(Operator, V, V) -> Option<V>
    decreases tokens.len(),
{
    if tokens.len() == 0 {
        end == Some(Seq::<V>::empty())
    } else {
        exists|before: Option<Seq<V>>|
            run_allows(read, operate, tokens.drop_last(), before) && #[trigger] token_allows(
                read,
                operate,
                before,
                tokens.last(),
                end,
            )
    }
}

/// The two functions return what `read_as` and `operate_as` say, and
/// nothing else.
pub open spec fn computes<V, R, O>(
    read: R,
    operate: O,
    read_as: spec_fn(Seq<char>) -> Option<V>,
    operate_as: spec_fn(Operator, V, V) -> Option<V>,
) -> bool where R: Fn(&String) -> Option<V>, O: Fn(Operator, V, V) -> Option<V> {
    &&& forall|text: &String, outcome: Option<V>| #[trigger]
        read.ensures((text,), outcome) ==> outcome == read_as(text@)
    &&& forall|op: Operator, a: V, b: V, outcome: Option<V>| #[trigger]
        operate.ensures((op, a, b), outcome) ==> outcome == operate_as(op, a, b)
}

/// An evaluation that has failed after some of the tokens has failed after
/// all of them.
proof fn lemma_failure_stays<V, R, O>(read: R, operate: O, tokens: Seq<Token>, done: int) where
    R: Fn(&String) -> Option<V>,
    O: Fn(Operator, V, V) -> Option<V>,

    requires
        0 <= done <= tokens.len(),
        run_allows(read, operate, tokens.take(done), None::<Seq<V>>),
    ensures
        run_allows(read, operate, tokens, None::<Seq<V>>),
    decreases tokens.len() - done,
{
    if done == tokens.len() {
        assert(tokens.take(done) == tokens);
    } else {
        lemma_run_allows_next(read, operate, tokens, done, None::<Seq<V>>, None::<Seq<V>>);
        lemma_failure_stays(read, operate, tokens, done + 1);
    }
}

/// One more token extends a run.
proof fn lemma_run_allows_next<V, R, O>(
    read: R,
    operate: O,
    tokens: Seq<Token>,
    done: int,
    before: Option<Seq<V>>,
    after: Option<Seq<V>>,
) where R: Fn(&String) -> Option<V>, O: Fn(Operator, V, V) -> Option<V>
    requires
        0 <= done < tokens.len(),
        run_allows(read, operate, tokens.take(done), before),
        token_allows(read, operate, before, tokens[done], after),
    ensures
        run_allows(read, operate, tokens.take(done + 1), after),
{
    let next = tokens.take(done + 1);
    assert(next.drop_last() == tokens.take(done));
    assert(next.last() == tokens[done]);
}

/// However an evaluation ends, where `read` and `operate` compute functions
/// its result is the value of the postfix sequence under these functions.
proof fn lemma_result_is_value<V, R, O>(
    read: R,
    operate: O,
    tokens: Seq<Token>,
    end: Option<Seq<V>>,
    result: Result<V, PostfixEvalError>,
) where R: Fn(&String) -> Option<V>, O: Fn(Operator, V, V) -> Option<V>
    requires
        run_allows(read, operate, tokens, end),
        result == verdict(end),
    ensures
        forall|
            read_as: spec_fn(Seq<char>) -> Option<V>,
            operate_as: spec_fn(Operator, V, V) -> Option<V>,
        | #[trigger]
            computes(read, operate, read_as, operate_as) ==> result == postfix_value(
                read_as,
                operate_as,
                views_of(tokens),
            ),
{
    assert forall|
        read_as: spec_fn(Seq<char>) -> Option<V>,
        operate_as: spec_fn(Operator, V, V) -> Option<V>,
    | #[trigger] computes(read, operate, read_as, operate_as) implies result == postfix_value(
        read_as,
        operate_as,
        views_of(tokens),
    ) by {
        lemma_run_allows_computes(read, operate, read_as, operate_as, tokens, end);
    }
}

/// Evaluates a postfix sequence. `read` gives the number that the text of an
/// operand stands for, `operate` what a binary operator makes of its left
/// and right operand; `None` from either ends the evaluation with an error.
///
/// The tokens are taken from the left. An operand is read and pushed on the
/// stack. An operator takes the two topmost values, the top one as its right
/// operand, and pushes the result. The evaluation fails when an operand
/// cannot be read, when an operator finds fewer than two values, when an
/// operator gives no value, at a parenthesis, and when at the end the stack
/// does not hold exactly one value, which is otherwise the result.
pub fn evaluate<V, R, O>(tokens: Vec<Token>, read: R, operate: O) -> (result: Result<
    V,
    PostfixEvalError,
>) where R: Fn(&String) -> Option<V>, O: Fn(Operator, V, V) -> Option<V>
    requires
        forall|text: &String| #[trigger] read.requires((text,)),
        forall|op: Operator, a: V, b: V| op.is_binary() ==> #[trigger] operate.requires((op, a, b)),
    ensures
        exists|end: Option<Seq<V>>|
            #[trigger] run_allows(read, operate, tokens@, end) && result == verdict(end),
        forall|
            read_as: spec_fn(Seq<char>) -> Option<V>,
            operate_as: spec_fn(Operator, V, V) -> Option<V>,
        | #[trigger]
            computes(read, operate, read_as, operate_as) ==> result == postfix_value(
                read_as,
                operate_as,
                views_of(tokens@),
            ),
{
    let mut operands: Vec<V> = Vec::new();
    let mut done: usize = 0;
    while done < tokens.len()
        invariant
            done <= tokens.len(),
            forall|text: &String| #[trigger] read.requires((text,)),
            forall|op: Operator, a: V, b: V|
                op.is_binary() ==> #[trigger] operate.requires((op, a, b)),
            run_allows(read, operate, tokens@.take(done as int), Some(operands@)),
        decreases tokens.len() - done,
    {
        let ghost before = operands@;
        let ghost mut after: Option<Seq<V>> = None;
        let mut failed = true;
        match &tokens[done] {
            Token::Operand(text) => {
                let outcome = read(text);
                proof {
                    after = push_outcome(before, outcome);
                    assert(token_allows(read, operate, Some(before), tokens@[done as int], after));
                }
                if let Some(value) = outcome {
                    operands.push(value);
                    failed = false;
                }
            },
            Token::Operator(op) => {
                let binary = match op {
                    Operator::OpenParen | Operator::CloseParen => false,
                    _ => true,
                };
                if binary && operands.len() >= 2 {
                    let right = operands.pop().unwrap();
                    let left = operands.pop().unwrap();
                    assert(operands@ == before.take(before.len() - 2));
                    let outcome = operate(*op, left, right);
                    proof {
                        after = push_outcome(operands@, outcome);
                        assert(token_allows(
                            read,
                            operate,
                            Some(before),
                            tokens@[done as int],
                            after,
                        ));
                    }
                    if let Some(value) = outcome {
                        operands.push(value);
                        failed = false;
                    }
                } else {
                    assert(token_allows(read, operate, Some(before), tokens@[done as int], after));
                }
            },
        }
        proof {
            lemma_run_allows_next(read, operate, tokens@, done as int, Some(before), after);
        }
        done += 1;
        if failed {
            proof {
                lemma_failure_stays(read, operate, tokens@, done as int);
                lemma_result_is_value(read, operate, tokens@, None, Err(PostfixEvalError));
            }
            return Err(PostfixEvalError);
        }
    }
    let ghost end = Some(operands@);
    assert(tokens@.take(done as int) == tokens@);
    if operands.len() != 1 {
        proof {
            lemma_result_is_value(read, operate, tokens@, end, Err(PostfixEvalError));
        }
        return Err(PostfixEvalError);
    }
    let value = operands.pop().unwrap();
    proof {
        lemma_result_is_value(read, operate, tokens@, end, Ok(value));
    }
    Ok(value)
}

/// Where `read` and `operate` return what `read_as` and `operate_as` say,
/// an evaluation can only end as the run over the tokens' views does.
pub proof fn lemma_run_allows_computes<V, R, O>(
    read: R,
    operate: O,
    read_as: spec_fn(Seq<char>) -> Option<V>,
    operate_as: spec_fn(Operator, V, V) -> Option<V>,
    tokens: Seq<Token>,
    end: Option<Seq<V>>,
) where R: Fn(&String) -> Option<V>, O: Fn(Operator, V, V) -> Option<V>
    requires
        computes(read, operate, read_as, operate_as),
        run_allows(read, operate, tokens, end),
    ensures
        end == run(read_as, operate_as, views_of(tokens), Seq::empty()),
    decreases tokens.len(),
{
    if tokens.len() > 0 {
        let before = choose|before: Option<Seq<V>>|
            run_allows(read, operate, tokens.drop_last(), before) && #[trigger] token_allows(
                read,
                operate,
                before,
                tokens.last(),
                end,
            );
        lemma_run_allows_computes(read, operate, read_as, operate_as, tokens.drop_last(), before);
        assert(views_of(tokens).drop_last() =~= views_of(tokens.drop_last()));
        assert(views_of(tokens).last() == tokens.last()@);
    } else {
        assert(views_of(tokens) =~= Seq::<TokenView>::empty());
    }
}

/// Where `read` and `operate` return what `read_as` and `operate_as` say,
/// what [`evaluate`] returns is the value of the postfix sequence.
pub proof fn lemma_evaluate_computes<V, R, O>(
    read: R,
    operate: O,
    read_as: spec_fn(Seq<char>) -> Option<V>,
    operate_as: spec_fn(Operator, V, V) -> Option<V>,
    tokens: Seq<Token>,
    result: Result<V, PostfixEvalError>,
) where R: Fn(&String) -> Option<V>, O: Fn(Operator, V, V) -> Option<V>
    requires
        computes(read, operate, read_as, operate_as),
        exists|end: Option<Seq<V>>|
            #[trigger] run_allows(read, operate, tokens, end) && result == verdict(end),
    ensures
        result == postfix_value(read_as, operate_as, views_of(tokens)),
{
    let end = choose|end: Option<Seq<V>>|
        #[trigger] run_allows(read, operate, tokens, end) && result == verdict(end);
    lemma_run_allows_computes(read, operate, read_as, operate_as, tokens, end);
}

/// A run that has not failed holds one value for each operand it met, less
/// one for each operator.
proof fn lemma_allowed_depth<V, R, O>(read: R, operate: O, tokens: Seq<Token>, stack: Seq<V>) where
    R: Fn(&String) -> Option<V>,
    O: Fn(Operator, V, V) -> Option<V>,

    requires
        run_allows(read, operate, tokens, Some(stack)),
    ensures
        stack.len() + operator_count(views_of(tokens)) == operand_count(views_of(tokens)),
    decreases tokens.len(),
{
    if tokens.len() > 0 {
        let before = choose|before: Option<Seq<V>>|
            run_allows(read, operate, tokens.drop_last(), before) && #[trigger] token_allows(
                read,
                operate,
                before,
                tokens.last(),
                Some(stack),
            );
        lemma_allowed_depth(read, operate, tokens.drop_last(), before->0);
        assert(views_of(tokens).drop_last() =~= views_of(tokens.drop_last()));
        assert(views_of(tokens).last() == tokens.last()@);
    } else {
        assert(views_of(tokens) =~= Seq::<TokenView>::empty());
    }
}

/// Where the tokens may lead to `end`, the first `done` of them may lead to
/// the state that is returned, and if that is the failure, so is `end`.
proof fn lemma_allowed_prefix<V, R, O>(
    read: R,
    operate: O,
    tokens: Seq<Token>,
    end: Option<Seq<V>>,
    done: int,
) -> (reached: Option<Seq<V>>) where R: Fn(&String) -> Option<V>, O: Fn(Operator, V, V) -> Option<V>
    requires
        0 <= done <= tokens.len(),
        run_allows(read, operate, tokens, end),
    ensures
        run_allows(read, operate, tokens.take(done), reached),
        reached is None ==> end is None,
    decreases tokens.len(),
{
    if done == tokens.len() {
        assert(tokens.take(done) =~= tokens);
        end
    } else {
        let before = choose|before: Option<Seq<V>>|
            run_allows(read, operate, tokens.drop_last(), before) && #[trigger] token_allows(
                read,
                operate,
                before,
                tokens.last(),
                end,
            );
        assert(tokens.drop_last().take(done) =~= tokens.take(done));
        lemma_allowed_prefix(read, operate, tokens.drop_last(), before, done)
    }
}

/// Whatever `read` and `operate` return, an evaluation gives a value only
/// for tokens with one operand more than operators. Here `end` is a state
/// that [`evaluate`] may end in.
pub proof fn lemma_result_needs_one_more_operand<V, R, O>(
    read: R,
    operate: O,
    tokens: Seq<Token>,
    end: Option<Seq<V>>,
) where R: Fn(&String) -> Option<V>, O: Fn(Operator, V, V) -> Option<V>
    requires
        run_allows(read, operate, tokens, end),
        verdict(end) is Ok,
    ensures
        operand_count(views_of(tokens)) == operator_count(views_of(tokens)) + 1,
{
    lemma_allowed_depth(read, operate, tokens, end->0);
}

/// An evaluation fails where `read` gives no value for one of the operands.
pub proof fn lemma_unreadable_operand_ends_evaluation<V, R, O>(
    read: R,
    operate: O,
    tokens: Seq<Token>,
    end: Option<Seq<V>>,
    at: int,
) where R: Fn(&String) -> Option<V>, O: Fn(Operator, V, V) -> Option<V>
    requires
        run_allows(read, operate, tokens, end),
        0 <= at < tokens.len(),
        tokens[at] matches Token::Operand(text) && forall|outcome: Option<V>| #[trigger]
            read.ensures((&text,), outcome) ==> outcome is None,
    ensures
        verdict(end) is Err,
{
    let reached = lemma_allowed_prefix(read, operate, tokens, end, at + 1);
    let upto = tokens.take(at + 1);
    assert(upto.last() == tokens[at]);
    assert(reached is None);
}

/// An evaluation fails where an operator finds fewer than two values on the
/// stack: so it is where the tokens before the operator hold fewer than two
/// operands more than operators.
pub proof fn lemma_starved_operator_ends_evaluation<V, R, O>(
    read: R,
    operate: O,
    tokens: Seq<Token>,
    end: Option<Seq<V>>,
    at: int,
) where R: Fn(&String) -> Option<V>, O: Fn(Operator, V, V) -> Option<V>
    requires
        run_allows(read, operate, tokens, end),
        0 <= at < tokens.len(),
        tokens[at] is Operator,
        operand_count(views_of(tokens.take(at))) < operator_count(views_of(tokens.take(at))) + 2,
    ensures
        verdict(end) is Err,
{
    let reached = lemma_allowed_prefix(read, operate, tokens, end, at + 1);
    let upto = tokens.take(at + 1);
    assert(upto.last() == tokens[at]);
    assert(upto.drop_last() =~= tokens.take(at));
    let before = choose|before: Option<Seq<V>>|
        run_allows(read, operate, upto.drop_last(), before) && #[trigger] token_allows(
            read,
            operate,
            before,
            upto.last(),
            reached,
        );
    if before is Some {
        lemma_allowed_depth(read, operate, tokens.take(at), before->0);
    }
    assert(reached is None);
}

/// The number of operands among the tokens.
pub open spec fn operand_count(tokens: Seq<TokenView>) -> nat
    decreases tokens.len(),
{
    if tokens.len() == 0 {
        0
    } else if tokens.last() is Operand {
        operand_count(tokens.drop_last()) + 1
    } else {
        operand_count(tokens.drop_last())
    }
}

/// The number of operators among the tokens.
pub open spec fn operator_count(tokens: Seq<TokenView>) -> nat
    decreases tokens.len(),
{
    if tokens.len() == 0 {
        0
    } else if tokens.last() is Operator {
        operator_count(tokens.drop_last()) + 1
    } else {
        operator_count(tokens.drop_last())
    }
}

/// Each operand adds one value to the stack and each operator takes one
/// away.
pub proof fn lemma_run_depth<V>(
    read: spec_fn(Seq<char>) -> Option<V>,
    operate: spec_fn(Operator, V, V) -> Option<V>,
    tokens: Seq<TokenView>,
    stack: Seq<V>,
)
    ensures
        run(read, operate, tokens, stack) matches Some(reached) ==> reached.len()
            + operator_count(tokens) == stack.len() + operand_count(tokens),
    decreases tokens.len(),
{
    if tokens.len() > 0 {
        lemma_run_depth(read, operate, tokens.drop_last(), stack);
    }
}

/// A run that fails after some of the tokens fails for all of them.
pub proof fn lemma_run_failure_stays<V>(
    read: spec_fn(Seq<char>) -> Option<V>,
    operate: spec_fn(Operator, V, V) -> Option<V>,
    tokens: Seq<TokenView>,
    stack: Seq<V>,
    done: int,
)
    requires
        0 <= done <= tokens.len(),
        run(read, operate, tokens.take(done), stack) is None,
    ensures
        run(read, operate, tokens, stack) is None,
    decreases tokens.len() - done,
{
    if done == tokens.len() {
        assert(tokens.take(done) =~= tokens);
    } else {
        assert(tokens.take(done + 1).drop_last() =~= tokens.take(done));
        lemma_run_failure_stays(read, operate, tokens, stack, done + 1);
    }
}

/// A postfix sequence that has a value has one operand more than it has
/// operators.
pub proof fn lemma_value_needs_one_more_operand<V>(
    read: spec_fn(Seq<char>) -> Option<V>,
    operate: spec_fn(Operator, V, V) -> Option<V>,
    tokens: Seq<TokenView>,
)
    ensures
        postfix_value(read, operate, tokens) is Ok ==> operand_count(tokens) == operator_count(
            tokens,
        ) + 1,
{
    lemma_run_depth(read, operate, tokens, Seq::<V>::empty());
}

/// A postfix sequence with an operand that cannot be read has no value.
pub proof fn lemma_unreadable_operand_fails<V>(
    read: spec_fn(Seq<char>) -> Option<V>,
    operate: spec_fn(Operator, V, V) -> Option<V>,
    tokens: Seq<TokenView>,
    at: int,
)
    requires
        0 <= at < tokens.len(),
        tokens[at] matches TokenView::Operand(text) && read(text) is None,
    ensures
        postfix_value(read, operate, tokens) is Err,
{
    let upto = tokens.take(at + 1);
    assert(upto.last() == tokens[at]);
    assert(run(read, operate, upto, Seq::<V>::empty()) is None);
    lemma_run_failure_stays(read, operate, tokens, Seq::<V>::empty(), at + 1);
}

/// A postfix sequence with an operator that finds fewer than two values on
/// the stack has no value: so it is where the tokens before the operator
/// hold fewer than two operands more than operators.
pub proof fn lemma_starved_operator_fails<V>(
    read: spec_fn(Seq<char>) -> Option<V>,
    operate: spec_fn(Operator, V, V) -> Option<V>,
    tokens: Seq<TokenView>,
    at: int,
)
    requires
        0 <= at < tokens.len(),
        tokens[at] is Operator,
        operand_count(tokens.take(at)) < operator_count(tokens.take(at)) + 2,
    ensures
        postfix_value(read, operate, tokens) is Err,
{
    let upto = tokens.take(at + 1);
    assert(upto.last() == tokens[at]);
    assert(upto.drop_last() =~= tokens.take(at));
    lemma_run_depth(read, operate, tokens.take(at), Seq::<V>::empty());
    assert(run(read, operate, upto, Seq::<V>::empty()) is None);
    lemma_run_failure_stays(read, operate, tokens, Seq::<V>::empty(), at + 1);
}

/// A postfix sequence with a parenthesis in it has no value.
pub proof fn lemma_parenthesis_fails<V>(
    read: spec_fn(Seq<char>) -> Option<V>,
    operate: spec_fn(Operator, V, V) -> Option<V>,
    tokens: Seq<TokenView>,
    at: int,
)
    requires
        0 <= at < tokens.len(),
        tokens[at] matches TokenView::Operator(op) && !op.is_binary(),
    ensures
        postfix_value(read, operate, tokens) is Err,
{
    let upto = tokens.take(at + 1);
    assert(upto.last() == tokens[at]);
    assert(run(read, operate, upto, Seq::<V>::empty()) is None);
    lemma_run_failure_stays(read, operate, tokens, Seq::<V>::empty(), at + 1);
}

/// A postfix sequence with an operator that gives no value for the two
/// values it finds has no value.
pub proof fn lemma_valueless_operation_fails<V>(
    read: spec_fn(Seq<char>) -> Option<V>,
    operate: spec_fn(Operator, V, V) -> Option<V>,
    tokens: Seq<TokenView>,
    at: int,
)
    requires
        0 <= at < tokens.len(),
        tokens[at] is Operator,
        run(read, operate, tokens.take(at), Seq::<V>::empty()) matches Some(stack) && stack.len()
            >= 2 && operate(
            tokens[at]->Operator_0,
            stack[stack.len() - 2],
            stack[stack.len() - 1],
        ) is None,
    ensures
        postfix_value(read, operate, tokens) is Err,
{
    let upto = tokens.take(at + 1);
    assert(upto.last() == tokens[at]);
    assert(upto.drop_last() =~= tokens.take(at));
    assert(run(read, operate, upto, Seq::<V>::empty()) is None);
    lemma_run_failure_stays(read, operate, tokens, Seq::<V>::empty(), at + 1);
}

} // verus!
