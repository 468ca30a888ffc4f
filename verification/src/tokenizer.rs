//! The shunting-yard scan: from an infix expression to its postfix sequence.

use crate::operator::{operator_of, Operator};
use crate::token::{lemma_views_of_push, views_of, Token, TokenView};
use vstd::prelude::*;

verus! {

/// Whether the character is white space (the Unicode property `White_Space`).
pub open spec fn is_whitespace_char(c: char) -> bool {
    ||| c == '\u{0009}'
    ||| c == '\u{000A}'
    ||| c == '\u{000B}'
    ||| c == '\u{000C}'
    ||| c == '\u{000D}'
    ||| c == '\u{0020}'
    ||| c == '\u{0085}'
    ||| c == '\u{00A0}'
    ||| c == '\u{1680}'
    ||| c == '\u{2000}'
    ||| c == '\u{2001}'
    ||| c == '\u{2002}'
    ||| c == '\u{2003}'
    ||| c == '\u{2004}'
    ||| c == '\u{2005}'
    ||| c == '\u{2006}'
    ||| c == '\u{2007}'
    ||| c == '\u{2008}'
    ||| c == '\u{2009}'
    ||| c == '\u{200A}'
    ||| c == '\u{2028}'
    ||| c == '\u{2029}'
    ||| c == '\u{202F}'
    ||| c == '\u{205F}'
    ||| c == '\u{3000}'
}

/// The test that keeps the characters that are not white space.
pub open spec fn not_whitespace() -> spec_fn(char) -> bool {
    |c: char| !is_whitespace_char(c)
}

/// The expression with every white space character removed.
pub open spec fn strip_whitespace(expression: Seq<char>) -> Seq<char> {
    expression.filter(not_whitespace())
}

/// The state of a scan: the operators that wait for their right operand,
/// the postfix sequence built so far, and the operand being read.
pub struct Scan {
    /// The operator stack, its top last. Open parentheses wait here too.
    pub pending: Seq<Operator>,
    /// The tokens put out so far, in postfix order.
    pub output: Seq<TokenView>,
    /// The characters of the operand that is being read.
    pub operand: Seq<char>,
}

impl Scan {
    /// The state before the first character.
    pub open spec fn start() -> Scan {
        Scan { pending: Seq::empty(), output: Seq::empty(), operand: Seq::empty() }
    }

    /// Puts out the operand that was being read, if there is one.
    pub open spec fn flush(self) -> Scan {
        if self.operand.len() > 0 {
            Scan {
                pending: self.pending,
                output: self.output.push(TokenView::Operand(self.operand)),
                operand: Seq::empty(),
            }
        } else {
            self
        }
    }

    /// Moves the top waiting operator to the output.
    pub open spec fn pop_to_output(self) -> Scan
        recommends
            self.pending.len() > 0,
    {
        Scan {
            pending: self.pending.drop_last(),
            output: self.output.push(TokenView::Operator(self.pending.last())),
            operand: self.operand,
        }
    }

    /// A closing parenthesis arrives: the waiting operators go to the output,
    /// top first, until an open parenthesis is met, which is dropped. Without
    /// an open parenthesis, all of them go.
    pub open spec fn close(self) -> Scan
        decreases self.pending.len(),
    {
        if self.pending.len() == 0 {
            self
        } else if self.pending.last() is OpenParen {
            Scan {
                pending: self.pending.drop_last(),
                output: self.output,
                operand: self.operand,
            }
        } else {
            self.pop_to_output().close()
        }
    }

    /// A binary operator of the given rank arrives: the waiting operators of
    /// that rank or a higher one go to the output, top first, up to the
    /// nearest open parenthesis.
    pub open spec fn yield_to(self, rank: nat) -> Scan
        decreases self.pending.len(),
    {
        if self.pending.len() == 0 {
            self
        } else if self.pending.last() is OpenParen || self.pending.last().rank() < rank {
            self
        } else {
            self.pop_to_output().yield_to(rank)
        }
    }

    /// An operator arrives, after the operand before it was put out.
    pub open spec fn shift(self, op: Operator) -> Scan {
        match op {
            Operator::OpenParen => Scan {
                pending: self.pending.push(op),
                output: self.output,
                operand: self.operand,
            },
            Operator::CloseParen => self.close(),
            _ => {
                let yielded = self.yield_to(op.rank());
                Scan {
                    pending: yielded.pending.push(op),
                    output: yielded.output,
                    operand: yielded.operand,
                }
            },
        }
    }

    /// One character arrives: an operator symbol ends the operand and is
    /// shifted; any other character belongs to the operand.
    pub open spec fn step(self, c: char) -> Scan {
        match operator_of(c) {
            Some(op) => self.flush().shift(op),
            None => Scan {
                pending: self.pending,
                output: self.output,
                operand: self.operand.push(c),
            },
        }
    }

    /// The characters arrive one after the other.
    pub open spec fn feed(self, chars: Seq<char>) -> Scan
        decreases chars.len(),
    {
        if chars.len() == 0 {
            self
        } else {
            self.feed(chars.drop_last()).step(chars.last())
        }
    }
}

/// The postfix sequence of an expression: white space is removed, the rest
/// is enclosed in one more pair of parentheses and scanned from the left.
pub open spec fn postfix_of(expression: Seq<char>) -> Seq<TokenView> {
    Scan::start().step('(').feed(strip_whitespace(expression)).step(')').output
}

/// Removing white space from a sequence with one more character.
pub proof fn lemma_strip_whitespace_push(expression: Seq<char>, c: char)
    ensures
        strip_whitespace(expression.push(c)) == if is_whitespace_char(c) {
            strip_whitespace(expression)
        } else {
            strip_whitespace(expression).push(c)
        },
{
    expression.lemma_filter_push(c, not_whitespace());
}

/// Whether the character is white space.
fn is_whitespace(c: char) -> (yes: bool)
    ensures
        yes == is_whitespace_char(c),
{
    c == '\u{0009}' || c == '\u{000A}' || c == '\u{000B}' || c == '\u{000C}' || c == '\u{000D}'
        || c == '\u{0020}' || c == '\u{0085}' || c == '\u{00A0}' || c == '\u{1680}' || c
        == '\u{2000}' || c == '\u{2001}' || c == '\u{2002}' || c == '\u{2003}' || c == '\u{2004}'
        || c == '\u{2005}' || c == '\u{2006}' || c == '\u{2007}' || c == '\u{2008}' || c
        == '\u{2009}' || c == '\u{200A}' || c == '\u{2028}' || c == '\u{2029}' || c == '\u{202F}'
        || c == '\u{205F}' || c == '\u{3000}'
}

/// Builds the text of an operand from its characters with `String::from_iter`:
/// the string holds exactly these characters, in this order.
#[verifier::external_body]
fn text_of(chars: &Vec<char>) -> (text: String)
    ensures
        text@ == chars@,
{
    String::from_iter(chars.iter())
}

/// The buffers of a scan in progress.
struct Scanner {
    pending: Vec<Operator>,
    output: Vec<Token>,
    operand: Vec<char>,
}

impl View for Scanner {
    type V = Scan;

    closed spec fn view(&self) -> Scan {
        Scan { pending: self.pending@, output: views_of(self.output@), operand: self.operand@ }
    }
}

impl Scanner {
    fn new() -> (scanner: Scanner)
        ensures
            scanner@ == Scan::start(),
    {
        let scanner = Scanner { pending: Vec::new(), output: Vec::new(), operand: Vec::new() };
        assert(views_of(scanner.output@) =~= Seq::empty());
        scanner
    }

    fn flush(&mut self)
        ensures
            final(self)@ == old(self)@.flush(),
    {
        if self.operand.len() > 0 {
            let text = text_of(&self.operand);
            proof {
                lemma_views_of_push(self.output@, Token::Operand(text));
            }
            self.output.push(Token::Operand(text));
            self.operand.clear();
        }
    }

    fn pop_to_output(&mut self)
        requires
            old(self).pending.len() > 0,
        ensures
            final(self)@ == old(self)@.pop_to_output(),
    {
        let top = self.pending.pop().unwrap();
        proof {
            lemma_views_of_push(self.output@, Token::Operator(top));
        }
        self.output.push(Token::Operator(top));
    }

    fn close(&mut self)
        ensures
            final(self)@ == old(self)@.close(),
    {
        while self.pending.len() > 0
            invariant_except_break
                self@.close() == old(self)@.close(),
            ensures
                self@ == old(self)@.close(),
            decreases self.pending.len(),
        {
            match self.pending[self.pending.len() - 1] {
                Operator::OpenParen => {
                    self.pending.pop();
                    break ;
                },
                _ => {
                    self.pop_to_output();
                },
            }
        }
    }

    fn yield_to(&mut self, rank: u8)
        ensures
            final(self)@ == old(self)@.yield_to(rank as nat),
    {
        while self.pending.len() > 0
            invariant
                self@.yield_to(rank as nat) == old(self)@.yield_to(rank as nat),
            ensures
                self@ == old(self)@.yield_to(rank as nat),
            decreases self.pending.len(),
        {
            let top = self.pending[self.pending.len() - 1];
            let stop = match top {
                Operator::OpenParen => true,
                _ => top.precidence() < rank,
            };
            if stop {
                break ;
            }
            self.pop_to_output();
        }
    }

    fn accept(&mut self, c: char)
        ensures
            final(self)@ == old(self)@.step(c),
    {
        match Operator::try_from(c) {
            Ok(op) => {
                self.flush();
                match op {
                    Operator::OpenParen => {
                        self.pending.push(op);
                    },
                    Operator::CloseParen => {
                        self.close();
                    },
                    _ => {
                        self.yield_to(op.precidence());
                        self.pending.push(op);
                    },
                }
            },
            Err(_) => {
                self.operand.push(c);
            },
        }
    }
}

/// Reorders an infix expression into its postfix sequence.
///
/// Every input has a postfix sequence, and nothing is rejected here: an
/// expression that is not well formed shows, if at all, when its tokens are
/// evaluated. No parenthesis is among the tokens, and no operand is empty or
/// holds an operator symbol or white space.
pub fn tokenize(expr: &str) -> (tokens: Vec<Token>)
    ensures
        views_of(tokens@) == postfix_of(expr@),
        forall|i: int| 0 <= i < tokens.len() ==> is_tidy(#[trigger] tokens[i]@),
{
    let mut scanner = Scanner::new();
    scanner.accept('(');
    for c in it: expr.chars()
        invariant
            it.seq() == expr@,
            scanner@ == Scan::start().step('(').feed(
                strip_whitespace(expr@.take(it.index())),
            ),
    {
        proof {
            let read = expr@.take(it.index());
            assert(expr@.take(it.index() + 1) == read.push(c));
            lemma_strip_whitespace_push(read, c);
            assert(strip_whitespace(read).push(c).drop_last() == strip_whitespace(read));
        }
        if !is_whitespace(c) {
            scanner.accept(c);
        }
    }
    proof {
        assert(expr@.take(expr@.len() as int) == expr@);
        lemma_postfix_is_tidy(expr@);
    }
    scanner.accept(')');
    assert forall|i: int| 0 <= i < scanner.output.len() implies is_tidy(
        #[trigger] scanner.output[i]@,
    ) by {
        assert(views_of(scanner.output@) == postfix_of(expr@));
        assert(scanner.output[i]@ == views_of(scanner.output@)[i]);
        assert(is_tidy(postfix_of(expr@)[i]));
    }
    scanner.output
}

/// A token as the scan puts it out: a binary operator, or an operand that
/// is not empty and holds neither an operator symbol nor white space.
pub open spec fn is_tidy(token: TokenView) -> bool {
    match token {
        TokenView::Operator(op) => op.is_binary(),
        TokenView::Operand(text) => text.len() > 0 && is_operand_text(text),
    }
}

/// No character of the text is an operator symbol or white space.
pub open spec fn is_operand_text(text: Seq<char>) -> bool {
    forall|i: int|
        0 <= i < text.len() ==> operator_of(#[trigger] text[i]) is None && !is_whitespace_char(
            text[i],
        )
}

/// What holds of the state during every scan of an expression without
/// white space.
spec fn in_order(scan: Scan) -> bool {
    &&& forall|i: int| 0 <= i < scan.pending.len() ==> !(#[trigger] scan.pending[i] is CloseParen)
    &&& forall|i: int| 0 <= i < scan.output.len() ==> is_tidy(#[trigger] scan.output[i])
    &&& is_operand_text(scan.operand)
}

proof fn lemma_close_in_order(scan: Scan)
    requires
        in_order(scan),
    ensures
        in_order(scan.close()),
    decreases scan.pending.len(),
{
    if scan.pending.len() > 0 && !(scan.pending.last() is OpenParen) {
        assert(!(scan.pending[scan.pending.len() - 1] is CloseParen));
        lemma_close_in_order(scan.pop_to_output());
    }
}

proof fn lemma_yield_in_order(scan: Scan, rank: nat)
    requires
        in_order(scan),
    ensures
        in_order(scan.yield_to(rank)),
    decreases scan.pending.len(),
{
    if scan.pending.len() > 0 && !(scan.pending.last() is OpenParen || scan.pending.last().rank()
        < rank) {
        assert(!(scan.pending[scan.pending.len() - 1] is CloseParen));
        lemma_yield_in_order(scan.pop_to_output(), rank);
    }
}

proof fn lemma_step_in_order(scan: Scan, c: char)
    requires
        in_order(scan),
        !is_whitespace_char(c),
    ensures
        in_order(scan.step(c)),
{
    match operator_of(c) {
        Some(op) => {
            let flushed = scan.flush();
            assert(in_order(flushed));
            match op {
                Operator::OpenParen => {},
                Operator::CloseParen => {
                    lemma_close_in_order(flushed);
                },
                _ => {
                    lemma_yield_in_order(flushed, op.rank());
                },
            }
        },
        None => {},
    }
}

proof fn lemma_feed_in_order(scan: Scan, chars: Seq<char>)
    requires
        in_order(scan),
        forall|i: int| 0 <= i < chars.len() ==> !is_whitespace_char(#[trigger] chars[i]),
    ensures
        in_order(scan.feed(chars)),
    decreases chars.len(),
{
    if chars.len() > 0 {
        let front = chars.drop_last();
        assert forall|i: int| 0 <= i < front.len() implies !is_whitespace_char(
            #[trigger] front[i],
        ) by {
            assert(front[i] == chars[i]);
        }
        lemma_feed_in_order(scan, front);
        assert(chars.last() == chars[chars.len() - 1]);
        lemma_step_in_order(scan.feed(front), chars.last());
    }
}

/// Whatever the expression, its postfix sequence holds no parenthesis, and
/// its operands are not empty and hold no operator symbol and no white
/// space.
pub proof fn lemma_postfix_is_tidy(expression: Seq<char>)
    ensures
        forall|i: int|
            0 <= i < postfix_of(expression).len() ==> is_tidy(#[trigger] postfix_of(expression)[i]),
{
    let stripped = strip_whitespace(expression);
    assert forall|i: int| 0 <= i < stripped.len() implies !is_whitespace_char(
        #[trigger] stripped[i],
    ) by {
        expression.lemma_filter_pred(not_whitespace(), i);
    }
    let opened = Scan::start().step('(');
    lemma_step_in_order(Scan::start(), '(');
    lemma_feed_in_order(opened, stripped);
    lemma_step_in_order(opened.feed(stripped), ')');
}

/// The postfix sequence is determined by the characters of the expression:
/// two expressions that read the same have the same postfix sequence.
pub proof fn lemma_postfix_is_determined(first: Seq<char>, second: Seq<char>)
    requires
        first =~= second,
    ensures
        postfix_of(first) == postfix_of(second),
{
}

} // verus!
