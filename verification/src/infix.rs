//! Infix expressions as trees, and what the scan and the evaluation make of
//! a well formed one.

use crate::evaluator::{
    act, computes, lemma_evaluate_computes, postfix_value, push_outcome, run, run_allows, verdict,
    PostfixEvalError,
};
use crate::operator::{operator_of, Operator};
use crate::token::{views_of, Token, TokenView};
use crate::tokenizer::{postfix_of, strip_whitespace, Scan};
use vstd::prelude::*;

verus! {

/// An infix expression as it is read with the usual precedence: an operand,
/// two expressions joined by a binary operator, or an expression in
/// parentheses.
pub enum Infix {
    Operand(Seq<char>),
    Binary(Operator, Box<Infix>, Box<Infix>),
    Group(Box<Infix>),
}

/// The text has no operator symbol in it.
pub open spec fn is_plain(text: Seq<char>) -> bool {
    forall|i: int| 0 <= i < text.len() ==> operator_of(#[trigger] text[i]) is None
}

impl Infix {
    /// The expression as it is written.
    pub open spec fn render(self) -> Seq<char>
        decreases self,
    {
        match self {
            Infix::Operand(text) => text,
            Infix::Binary(op, left, right) => left.render() + seq![op.symbol()] + right.render(),
            Infix::Group(inner) => seq!['('] + inner.render() + seq![')'],
        }
    }

    /// How tightly the expression holds together: the rank of its operator,
    /// and above every rank for an operand and for a group.
    pub open spec fn level(self) -> nat {
        match self {
            Infix::Binary(op, _, _) => op.rank(),
            _ => 4,
        }
    }

    /// The tree is the reading of its text under the precedence ranks, with
    /// operators of one rank taken from left to right: the left operand of
    /// an operator holds together at least as tightly as the operator, its
    /// right operand more tightly. Operands are not empty and hold no
    /// operator symbol.
    pub open spec fn well_formed(self) -> bool
        decreases self,
    {
        match self {
            Infix::Operand(text) => text.len() > 0 && is_plain(text),
            Infix::Binary(op, left, right) => {
                &&& op.is_binary()
                &&& left.well_formed()
                &&& right.well_formed()
                &&& left.level() >= op.rank()
                &&& right.level() > op.rank()
            },
            Infix::Group(inner) => inner.well_formed(),
        }
    }

    /// The expression in postfix order: each operator after its two
    /// operands.
    pub open spec fn postfix(self) -> Seq<TokenView>
        decreases self,
    {
        match self {
            Infix::Operand(text) => seq![TokenView::Operand(text)],
            Infix::Binary(op, left, right) => left.postfix() + right.postfix()
                + seq![TokenView::Operator(op)],
            Infix::Group(inner) => inner.postfix(),
        }
    }

    /// The value of the expression, for numbers that are read by `read` and
    /// combined by `operate`: `None` where an operand cannot be read or an
    /// operator gives no value.
    pub open spec fn value<V>(
        self,
        read: spec_fn(Seq<char>) -> Option<V>,
        operate: spec_fn(Operator, V, V) -> Option<V>,
    ) -> Option<V>
        decreases self,
    {
        match self {
            Infix::Operand(text) => read(text),
            Infix::Binary(op, left, right) => match (
                left.value(read, operate),
                right.value(read, operate),
            ) {
                (Some(a), Some(b)) => if op.is_binary() {
                    operate(op, a, b)
                } else {
                    None
                },
                _ => None,
            },
            Infix::Group(inner) => inner.value(read, operate),
        }
    }

    /// The operators that still wait when the expression has been scanned:
    /// its own and those down its right operands.
    spec fn waiting(self) -> Seq<Operator>
        decreases self,
    {
        match self {
            Infix::Binary(op, _, right) => seq![op] + right.waiting(),
            _ => Seq::empty(),
        }
    }

    /// The tokens that have been put out when the expression has been
    /// scanned.
    spec fn emitted(self) -> Seq<TokenView>
        decreases self,
    {
        match self {
            Infix::Operand(_) => Seq::empty(),
            Infix::Binary(_, left, right) => left.postfix() + right.emitted(),
            Infix::Group(inner) => inner.postfix(),
        }
    }

    /// The operand that is still being read when the expression has been
    /// scanned.
    spec fn unread(self) -> Seq<char>
        decreases self,
    {
        match self {
            Infix::Operand(text) => text,
            Infix::Binary(_, _, right) => right.unread(),
            Infix::Group(_) => Seq::empty(),
        }
    }
}

/// The token of an operand that is being read, if there is one.
spec fn operand_token(text: Seq<char>) -> Seq<TokenView> {
    if text.len() > 0 {
        seq![TokenView::Operand(text)]
    } else {
        Seq::empty()
    }
}

/// The operators as tokens, the last one first.
spec fn unwound(ops: Seq<Operator>) -> Seq<TokenView>
    decreases ops.len(),
{
    if ops.len() == 0 {
        Seq::empty()
    } else {
        seq![TokenView::Operator(ops.last())] + unwound(ops.drop_last())
    }
}

/// An arriving operator of the given rank leaves the stack as it is.
spec fn rests(pending: Seq<Operator>, rank: nat) -> bool {
    pending.len() == 0 || pending.last() is OpenParen || pending.last().rank() < rank
}

proof fn lemma_unwound_front(op: Operator, ops: Seq<Operator>)
    ensures
        unwound(seq![op] + ops) == unwound(ops).push(TokenView::Operator(op)),
    decreases ops.len(),
{
    reveal_with_fuel(unwound, 2);
    let all = seq![op] + ops;
    if ops.len() == 0 {
        assert(all.drop_last() =~= Seq::<Operator>::empty());
        assert(unwound(all) =~= unwound(ops).push(TokenView::Operator(op)));
    } else {
        assert(all.drop_last() =~= seq![op] + ops.drop_last());
        assert(all.last() == ops.last());
        lemma_unwound_front(op, ops.drop_last());
        assert(unwound(all) =~= unwound(ops).push(TokenView::Operator(op)));
    }
}

proof fn lemma_feed_concat(scan: Scan, first: Seq<char>, second: Seq<char>)
    ensures
        scan.feed(first + second) == scan.feed(first).feed(second),
    decreases second.len(),
{
    if second.len() == 0 {
        assert(first + second =~= first);
    } else {
        assert((first + second).drop_last() =~= first + second.drop_last());
        assert((first + second).last() == second.last());
        lemma_feed_concat(scan, first, second.drop_last());
    }
}

proof fn lemma_feed_one(scan: Scan, c: char)
    ensures
        scan.feed(seq![c]) == scan.step(c),
{
    assert(seq![c].drop_last() =~= Seq::<char>::empty());
    assert(scan.feed(seq![c].drop_last()) == scan);
}

proof fn lemma_feed_plain(scan: Scan, text: Seq<char>)
    requires
        is_plain(text),
    ensures
        scan.feed(text) == (Scan {
            pending: scan.pending,
            output: scan.output,
            operand: scan.operand + text,
        }),
    decreases text.len(),
{
    if text.len() == 0 {
        assert(scan.operand + text =~= scan.operand);
    } else {
        let front = text.drop_last();
        assert(is_plain(front)) by {
            assert forall|i: int| 0 <= i < front.len() implies operator_of(
                #[trigger] front[i],
            ) is None by {
                assert(front[i] == text[i]);
            }
        }
        lemma_feed_plain(scan, front);
        assert(operator_of(text.last()) is None) by {
            assert(text.last() == text[text.len() - 1]);
        }
        assert((scan.operand + front).push(text.last()) =~= scan.operand + text);
    }
}

/// An operator of rank `rank` arrives over waiting operators of that rank
/// or higher: they all leave, top first.
proof fn lemma_yield_unwinds(base: Scan, ops: Seq<Operator>, rank: nat)
    requires
        rests(base.pending, rank),
        forall|i: int| 0 <= i < ops.len() ==> (#[trigger] ops[i]).is_binary() && ops[i].rank() >= rank,
    ensures
        (Scan { pending: base.pending + ops, output: base.output, operand: base.operand }).yield_to(
            rank,
        ) == (Scan {
            pending: base.pending,
            output: base.output + unwound(ops),
            operand: base.operand,
        }),
    decreases ops.len(),
{
    let loaded = Scan { pending: base.pending + ops, output: base.output, operand: base.operand };
    if ops.len() == 0 {
        assert(base.pending + ops =~= base.pending);
        assert(base.output + unwound(ops) =~= base.output);
    } else {
        let top = ops.last();
        assert(top == ops[ops.len() - 1]);
        assert(loaded.pending.last() == top);
        assert(loaded.pending.drop_last() =~= base.pending + ops.drop_last());
        let lower = Scan {
            pending: base.pending,
            output: base.output.push(TokenView::Operator(top)),
            operand: base.operand,
        };
        lemma_yield_unwinds(lower, ops.drop_last(), rank);
        assert(loaded.pop_to_output() == (Scan {
            pending: lower.pending + ops.drop_last(),
            output: lower.output,
            operand: lower.operand,
        }));
        assert(lower.output + unwound(ops.drop_last()) =~= base.output + unwound(ops));
    }
}

/// A closing parenthesis arrives over an open one and binary operators: the
/// operators leave, top first, and the open parenthesis is dropped.
proof fn lemma_close_unwinds(base: Scan, ops: Seq<Operator>)
    requires
        forall|i: int| 0 <= i < ops.len() ==> (#[trigger] ops[i]).is_binary(),
    ensures
        (Scan {
            pending: base.pending.push(Operator::OpenParen) + ops,
            output: base.output,
            operand: base.operand,
        }).close() == (Scan {
            pending: base.pending,
            output: base.output + unwound(ops),
            operand: base.operand,
        }),
    decreases ops.len(),
{
    let opened = base.pending.push(Operator::OpenParen);
    let loaded = Scan { pending: opened + ops, output: base.output, operand: base.operand };
    if ops.len() == 0 {
        assert(opened + ops =~= opened);
        assert(opened.drop_last() =~= base.pending);
        assert(base.output + unwound(ops) =~= base.output);
    } else {
        let top = ops.last();
        assert(top == ops[ops.len() - 1]);
        assert(loaded.pending.last() == top);
        assert(loaded.pending.drop_last() =~= opened + ops.drop_last());
        let lower = Scan {
            pending: base.pending,
            output: base.output.push(TokenView::Operator(top)),
            operand: base.operand,
        };
        lemma_close_unwinds(lower, ops.drop_last());
        assert(loaded.pop_to_output() == (Scan {
            pending: lower.pending.push(Operator::OpenParen) + ops.drop_last(),
            output: lower.output,
            operand: lower.operand,
        }));
        assert(lower.output + unwound(ops.drop_last()) =~= base.output + unwound(ops));
    }
}

/// The operators that wait after a well formed expression are binary and
/// of its level or a higher rank.
proof fn lemma_waiting_ranks(e: Infix)
    requires
        e.well_formed(),
    ensures
        forall|i: int|
            0 <= i < e.waiting().len() ==> (#[trigger] e.waiting()[i]).is_binary()
                && e.waiting()[i].rank() >= e.level(),
    decreases e,
{
    match e {
        Infix::Binary(op, left, right) => {
            lemma_waiting_ranks(*right);
            assert forall|i: int| 0 <= i < e.waiting().len() implies (#[trigger] e.waiting()[
                i
            ]).is_binary() && e.waiting()[i].rank() >= e.level() by {
                if i > 0 {
                    assert(e.waiting()[i] == right.waiting()[i - 1]);
                }
            }
        },
        _ => {},
    }
}

/// What the scan of a well formed expression has put out, the operand it
/// still reads and the operators that still wait make up its postfix order.
proof fn lemma_scan_parts(e: Infix)
    requires
        e.well_formed(),
    ensures
        e.emitted() + operand_token(e.unread()) + unwound(e.waiting()) == e.postfix(),
    decreases e,
{
    match e {
        Infix::Operand(text) => {
            assert(e.emitted() + operand_token(e.unread()) + unwound(e.waiting()) =~= e.postfix());
        },
        Infix::Binary(op, left, right) => {
            lemma_scan_parts(*right);
            lemma_unwound_front(op, right.waiting());
            assert(e.emitted() + operand_token(e.unread()) + unwound(e.waiting()) =~= left.postfix()
                + (right.emitted() + operand_token(right.unread()) + unwound(right.waiting()))
                + seq![TokenView::Operator(op)]);
        },
        Infix::Group(inner) => {
            assert(e.emitted() + operand_token(e.unread()) + unwound(e.waiting()) =~= e.postfix());
        },
    }
}

/// An operator arrives after a well formed left operand that holds together
/// at least as tightly: the operand is complete in the output, and the
/// operator waits.
proof fn lemma_operator_follows(scan: Scan, left: Infix, op: Operator)
    requires
        left.well_formed(),
        op.is_binary(),
        left.level() >= op.rank(),
        rests(scan.pending, op.rank()),
    ensures
        (Scan {
            pending: scan.pending + left.waiting(),
            output: scan.output + left.emitted(),
            operand: left.unread(),
        }).step(op.symbol()) == (Scan {
            pending: scan.pending.push(op),
            output: scan.output + left.postfix(),
            operand: Seq::empty(),
        }),
{
    let reached = Scan {
        pending: scan.pending + left.waiting(),
        output: scan.output + left.emitted(),
        operand: left.unread(),
    };
    let flushed = reached.flush();
    let base = Scan {
        pending: scan.pending,
        output: scan.output + left.emitted() + operand_token(left.unread()),
        operand: Seq::empty(),
    };
    assert(flushed.output =~= base.output);
    assert(flushed.operand =~= base.operand);
    assert(flushed == (Scan {
        pending: base.pending + left.waiting(),
        output: base.output,
        operand: base.operand,
    }));
    lemma_waiting_ranks(left);
    lemma_yield_unwinds(base, left.waiting(), op.rank());
    lemma_scan_parts(left);
    assert(base.output + unwound(left.waiting()) =~= scan.output + (left.emitted()
        + operand_token(left.unread()) + unwound(left.waiting())));
}

/// A closing parenthesis arrives after a well formed expression that
/// followed the open one: the expression is complete in the output, and
/// the open parenthesis is gone.
proof fn lemma_group_closes(scan: Scan, inner: Infix)
    requires
        inner.well_formed(),
    ensures
        (Scan {
            pending: scan.pending.push(Operator::OpenParen) + inner.waiting(),
            output: scan.output + inner.emitted(),
            operand: inner.unread(),
        }).step(')') == (Scan {
            pending: scan.pending,
            output: scan.output + inner.postfix(),
            operand: Seq::empty(),
        }),
{
    let reached = Scan {
        pending: scan.pending.push(Operator::OpenParen) + inner.waiting(),
        output: scan.output + inner.emitted(),
        operand: inner.unread(),
    };
    let flushed = reached.flush();
    let base = Scan {
        pending: scan.pending,
        output: scan.output + inner.emitted() + operand_token(inner.unread()),
        operand: Seq::empty(),
    };
    assert(flushed.output =~= base.output);
    assert(flushed.operand =~= base.operand);
    assert(flushed == (Scan {
        pending: base.pending.push(Operator::OpenParen) + inner.waiting(),
        output: base.output,
        operand: base.operand,
    }));
    lemma_waiting_ranks(inner);
    lemma_close_unwinds(base, inner.waiting());
    lemma_scan_parts(inner);
    assert(base.output + unwound(inner.waiting()) =~= scan.output + (inner.emitted()
        + operand_token(inner.unread()) + unwound(inner.waiting())));
}

/// The scan of a well formed expression, begun between operands over a
/// stack that the expression's operators leave as it is.
proof fn lemma_feed_infix(scan: Scan, e: Infix)
    requires
        e.well_formed(),
        scan.operand.len() == 0,
        rests(scan.pending, e.level()),
    ensures
        scan.feed(e.render()) == (Scan {
            pending: scan.pending + e.waiting(),
            output: scan.output + e.emitted(),
            operand: e.unread(),
        }),
    decreases e,
{
    match e {
        Infix::Operand(text) => {
            lemma_feed_plain(scan, text);
            assert(scan.operand + text =~= text);
            assert(scan.pending + e.waiting() =~= scan.pending);
            assert(scan.output + e.emitted() =~= scan.output);
        },
        Infix::Binary(op, left, right) => {
            let symbol = seq![op.symbol()];
            lemma_feed_concat(scan, left.render() + symbol, right.render());
            lemma_feed_concat(scan, left.render(), symbol);
            lemma_feed_one(scan.feed(left.render()), op.symbol());
            lemma_feed_infix(scan, *left);
            lemma_operator_follows(scan, *left, op);
            let after_op = Scan {
                pending: scan.pending.push(op),
                output: scan.output + left.postfix(),
                operand: Seq::empty(),
            };
            assert(scan.feed(left.render() + symbol) == after_op);
            lemma_feed_infix(after_op, *right);
            assert(after_op.pending + right.waiting() =~= scan.pending + e.waiting());
            assert(after_op.output + right.emitted() =~= scan.output + e.emitted());
        },
        Infix::Group(inner) => {
            let open = seq!['('];
            let shut = seq![')'];
            lemma_feed_concat(scan, open + inner.render(), shut);
            lemma_feed_concat(scan, open, inner.render());
            lemma_feed_one(scan, '(');
            let opened = Scan {
                pending: scan.pending.push(Operator::OpenParen),
                output: scan.output,
                operand: scan.operand,
            };
            assert(scan.step('(') == opened);
            lemma_feed_infix(opened, *inner);
            lemma_feed_one(opened.feed(inner.render()), ')');
            lemma_group_closes(scan, *inner);
            assert(scan.pending + e.waiting() =~= scan.pending);
            assert(scan.output + e.emitted() =~= scan.output + inner.postfix());
        },
    }
}

/// The postfix sequence of a well formed infix expression is the postfix
/// order of its tree: operators of a higher rank are applied before those
/// of a lower one, operators of one rank from left to right, and what
/// stands in parentheses before what stands around it. White space in the
/// expression makes no difference.
pub proof fn lemma_postfix_of_infix(expression: Seq<char>, e: Infix)
    requires
        e.well_formed(),
        strip_whitespace(expression) == e.render(),
    ensures
        postfix_of(expression) == e.postfix(),
{
    let group = Infix::Group(Box::new(e));
    let start = Scan::start();
    assert(group.well_formed());
    lemma_feed_infix(start, group);
    let open = seq!['('];
    let shut = seq![')'];
    lemma_feed_concat(start, open + e.render(), shut);
    lemma_feed_concat(start, open, e.render());
    lemma_feed_one(start, '(');
    lemma_feed_one(start.step('(').feed(e.render()), ')');
    assert(start.output + group.emitted() =~= e.postfix());
}

/// A run over one sequence and then another is the run over both.
pub proof fn lemma_run_concat<V>(
    read: spec_fn(Seq<char>) -> Option<V>,
    operate: spec_fn(Operator, V, V) -> Option<V>,
    first: Seq<TokenView>,
    second: Seq<TokenView>,
    stack: Seq<V>,
)
    ensures
        run(read, operate, first + second, stack) == match run(read, operate, first, stack) {
            Some(reached) => run(read, operate, second, reached),
            None => None,
        },
    decreases second.len(),
{
    if second.len() == 0 {
        assert(first + second =~= first);
    } else {
        assert((first + second).drop_last() =~= first + second.drop_last());
        assert((first + second).last() == second.last());
        lemma_run_concat(read, operate, first, second.drop_last(), stack);
    }
}

/// A run over the postfix order of a tree pushes the value of the tree, and
/// fails where the tree has no value.
pub proof fn lemma_run_postfix<V>(
    read: spec_fn(Seq<char>) -> Option<V>,
    operate: spec_fn(Operator, V, V) -> Option<V>,
    e: Infix,
    stack: Seq<V>,
)
    ensures
        run(read, operate, e.postfix(), stack) == push_outcome(stack, e.value(read, operate)),
    decreases e,
{
    match e {
        Infix::Operand(text) => {
            let one = seq![TokenView::Operand(text)];
            assert(one.drop_last() =~= Seq::<TokenView>::empty());
            assert(run(read, operate, one.drop_last(), stack) == Some(stack));
        },
        Infix::Binary(op, left, right) => {
            let last = seq![TokenView::Operator(op)];
            lemma_run_concat(read, operate, left.postfix() + right.postfix(), last, stack);
            lemma_run_concat(read, operate, left.postfix(), right.postfix(), stack);
            lemma_run_postfix(read, operate, *left, stack);
            if let Some(a) = left.value(read, operate) {
                lemma_run_postfix(read, operate, *right, stack.push(a));
                if let Some(b) = right.value(read, operate) {
                    let both = stack.push(a).push(b);
                    assert(last.drop_last() =~= Seq::<TokenView>::empty());
                    assert(run(read, operate, last.drop_last(), both) == Some(both));
                    assert(run(read, operate, last, both) == act(
                        read,
                        operate,
                        both,
                        TokenView::Operator(op),
                    ));
                    assert(both.take(both.len() - 2) =~= stack);
                }
            }
        },
        Infix::Group(inner) => {
            lemma_run_postfix(read, operate, *inner, stack);
        },
    }
}

/// Scanning a well formed infix expression and evaluating the result gives
/// the value of its tree, and fails exactly where the tree has no value.
pub proof fn lemma_value_of_infix<V>(
    read: spec_fn(Seq<char>) -> Option<V>,
    operate: spec_fn(Operator, V, V) -> Option<V>,
    expression: Seq<char>,
    e: Infix,
)
    requires
        e.well_formed(),
        strip_whitespace(expression) == e.render(),
    ensures
        postfix_value(read, operate, postfix_of(expression)) == match e.value(read, operate) {
            Some(value) => Ok::<V, PostfixEvalError>(value),
            None => Err(PostfixEvalError),
        },
{
    lemma_postfix_of_infix(expression, e);
    lemma_run_postfix(read, operate, e, Seq::<V>::empty());
}

/// Tokenizing a well formed infix expression and evaluating the tokens,
/// with a `read` and an `operate` that compute `read_as` and `operate_as`,
/// returns the value of the expression's tree, and an error exactly where
/// the tree has no value. Here `tokens` stands for what [`tokenize`] returns
/// for the expression and `result` for what [`evaluate`] returns for these
/// tokens.
///
/// [`tokenize`]: crate::tokenizer::tokenize
/// [`evaluate`]: crate::evaluator::evaluate
pub proof fn lemma_tokenize_then_evaluate<V, R, O>(
    read: R,
    operate: O,
    read_as: spec_fn(Seq<char>) -> Option<V>,
    operate_as: spec_fn(Operator, V, V) -> Option<V>,
    expression: Seq<char>,
    e: Infix,
    tokens: Seq<Token>,
    result: Result<V, PostfixEvalError>,
) where R: Fn(&String) -> Option<V>, O: Fn(Operator, V, V) -> Option<V>
    requires
        e.well_formed(),
        strip_whitespace(expression) == e.render(),
        computes(read, operate, read_as, operate_as),
        views_of(tokens) == postfix_of(expression),
        exists|end: Option<Seq<V>>|
            #[trigger] run_allows(read, operate, tokens, end) && result == verdict(end),
    ensures
        result == match e.value(read_as, operate_as) {
            Some(value) => Ok::<V, PostfixEvalError>(value),
            None => Err(PostfixEvalError),
        },
{
    lemma_evaluate_computes(read, operate, read_as, operate_as, tokens, result);
    lemma_value_of_infix(read_as, operate_as, expression, e);
}

/// What stands in parentheses is applied before the operator around it,
/// whatever the ranks of the operators inside.
pub proof fn lemma_groups_come_first(
    expression: Seq<char>,
    op: Operator,
    left: Infix,
    right: Infix,
)
    requires
        op.is_binary(),
        left.well_formed(),
        right.well_formed(),
        strip_whitespace(expression) == seq!['('] + left.render() + seq![')'] + seq![op.symbol()]
            + (seq!['('] + right.render() + seq![')']),
    ensures
        postfix_of(expression) == left.postfix() + right.postfix() + seq![
            TokenView::Operator(op),
        ],
{
    let e = Infix::Binary(
        op,
        Box::new(Infix::Group(Box::new(left))),
        Box::new(Infix::Group(Box::new(right))),
    );
    reveal_with_fuel(Infix::well_formed, 3);
    reveal_with_fuel(Infix::render, 3);
    reveal_with_fuel(Infix::postfix, 3);
    assert(e.well_formed());
    assert(e.render() =~= strip_whitespace(expression));
    lemma_postfix_of_infix(expression, e);
}

/// Two operators of one rank are applied from left to right, and of two
/// operators of different ranks the higher one first, where each operand is
/// an operand or stands in parentheses.
pub proof fn lemma_order_of_two_operators(
    expression: Seq<char>,
    a: Infix,
    first: Operator,
    b: Infix,
    second: Operator,
    c: Infix,
)
    requires
        first.is_binary(),
        second.is_binary(),
        a.well_formed() && a.level() == 4,
        b.well_formed() && b.level() == 4,
        c.well_formed() && c.level() == 4,
        strip_whitespace(expression) == a.render() + seq![first.symbol()] + b.render() + seq![
            second.symbol(),
        ] + c.render(),
    ensures
        first.rank() >= second.rank() ==> postfix_of(expression) == a.postfix() + b.postfix()
            + seq![TokenView::Operator(first)] + c.postfix() + seq![TokenView::Operator(second)],
        first.rank() < second.rank() ==> postfix_of(expression) == a.postfix() + b.postfix()
            + c.postfix() + seq![TokenView::Operator(second)] + seq![
            TokenView::Operator(first),
        ],
{
    reveal_with_fuel(Infix::well_formed, 3);
    reveal_with_fuel(Infix::render, 3);
    reveal_with_fuel(Infix::postfix, 3);
    if first.rank() >= second.rank() {
        let e = Infix::Binary(
            second,
            Box::new(Infix::Binary(first, Box::new(a), Box::new(b))),
            Box::new(c),
        );
        assert(e.well_formed());
        assert(e.render() =~= strip_whitespace(expression));
        lemma_postfix_of_infix(expression, e);
        assert(e.postfix() =~= a.postfix() + b.postfix() + seq![TokenView::Operator(first)]
            + c.postfix() + seq![TokenView::Operator(second)]);
    } else {
        let e = Infix::Binary(
            first,
            Box::new(a),
            Box::new(Infix::Binary(second, Box::new(b), Box::new(c))),
        );
        assert(e.well_formed());
        assert(e.render() =~= strip_whitespace(expression));
        lemma_postfix_of_infix(expression, e);
        assert(e.postfix() =~= a.postfix() + b.postfix() + c.postfix() + seq![
            TokenView::Operator(second),
        ] + seq![TokenView::Operator(first)]);
    }
}

} // verus!
