//! Tokens, error kinds and the closed set of word behaviors.

use vstd::prelude::*;

verus! {

/// A stack operand: a signed machine integer.
pub type Value = i32;

/// The error kinds; every failing evaluation reports exactly one of them.
#[derive(Debug, PartialEq, Eq, Structural)]
pub enum Error {
    /// `/` was executed with a zero right-hand operand.
    DivisionByZero,
    /// A stack-consuming built-in was invoked with too few operands.
    StackUnderflow,
    /// A tokenized word name had no match in the word table.
    UnknownWord,
    /// A malformed `:`-definition: missing name, premature end of input
    /// before `;`, or a body word that fails to resolve at compile time.
    InvalidWord,
}

/// The result of an evaluation step or of a whole evaluation call.
pub type ForthResult = Result<(), Error>;

/// The operator a built-in arithmetic word applies.
#[derive(Clone, Copy, Debug, PartialEq, Eq, Structural)]
pub enum ArithOp {
    Add,
    Sub,
    Mul,
    Div,
}

/// The closed set of behaviors a word-table entry can have.
#[derive(Clone, Copy, Debug, PartialEq, Eq, Structural)]
pub enum Behavior {
    /// Pop the right then the left operand, push `left OP right`.
    Arithmetic(ArithOp),
    /// Push a copy of the top operand.
    Dup,
    /// Remove the top operand.
    DropTop,
    /// Exchange the two top operands.
    Swap,
    /// Push a copy of the operand below the top.
    Over,
    /// No effect; bound to `:`, whose table index the evaluator intercepts
    /// before dispatch to trigger compilation.
    Nop,
    /// Re-inject the entry's stored body at the front of the token queue.
    Expand,
}

/// A lexical unit of the language.
#[derive(Debug)]
pub enum Token {
    /// An unresolved word name, stored upper-cased.
    Word(String),
    /// A reference to a word-table slot, produced by resolution or compilation.
    WordIndex(usize),
    /// An immediate operand push.
    Number(Value),
}

/// The mathematical value of a [`Token`].
#[verifier::ext_equal]
pub ghost enum TokenV {
    Word(Seq<char>),
    WordIndex(int),
    Number(i32),
}

impl View for Token {
    type V = TokenV;

    open spec fn view(&self) -> TokenV {
        match self {
            Token::Word(s) => TokenV::Word(s@),
            Token::WordIndex(i) => TokenV::WordIndex(*i as int),
            Token::Number(v) => TokenV::Number(*v),
        }
    }
}

impl DeepView for Token {
    type V = TokenV;

    open spec fn deep_view(&self) -> TokenV {
        self.view()
    }
}

impl Clone for Token {
    /// Tokens are value types: a clone has the same mathematical value.
    fn clone(&self) -> (r: Self)
        ensures
            r@ == self@,
    {
        match self {
            Token::Word(s) => Token::Word(s.clone()),
            Token::WordIndex(i) => Token::WordIndex(*i),
            Token::Number(v) => Token::Number(*v),
        }
    }
}

} // verus!
