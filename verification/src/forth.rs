//! The interpreter session: word table, operand stack, token queue, and the
//! evaluation loop, proved against the semantics in [`crate::semantics`].

use std::collections::VecDeque;
use vstd::prelude::*;

use crate::semantics::apply_word;
use crate::semantics::body_wf;
use crate::semantics::compile_body;
use crate::semantics::compile_step;
use crate::semantics::count_words;
use crate::semantics::initial_words;
use crate::semantics::lemma_lookup_in_table;
use crate::semantics::lemma_lookup_push;
use crate::semantics::lemma_run_more_step;
use crate::semantics::lemma_step_decreases;
use crate::semantics::lookup;
use crate::semantics::lookup_from;
use crate::semantics::run;
use crate::semantics::state_wf;
use crate::semantics::state_weight;
use crate::semantics::step;
use crate::semantics::words_wf;
use crate::semantics::Outcome;
use crate::semantics::StateV;
use crate::semantics::StepRes;
use crate::semantics::WordV;
use crate::token::ArithOp;
use crate::token::Behavior;
use crate::token::Error;
use crate::token::ForthResult;
use crate::token::Token;
use crate::token::TokenV;
use crate::token::Value;
use crate::tokenizer::lemma_tokens_from_unresolved;
use crate::tokenizer::parse;
use crate::tokenizer::tokens_of;

verus! {

/// A named, executable word-table entry: built-ins have an empty body,
/// user-defined words store their compiled body.
struct Word {
    name: String,
    data: Vec<Token>,
    kind: Behavior,
}

impl View for Word {
    type V = WordV;

    closed spec fn view(&self) -> WordV {
        WordV { name: self.name@, body: self.data.deep_view(), kind: self.kind }
    }
}

impl DeepView for Word {
    type V = WordV;

    open spec fn deep_view(&self) -> WordV {
        self.view()
    }
}

impl Word {
    /// A built-in entry with an empty body.
    fn new(name: &str, kind: Behavior) -> (w: Word)
        ensures
            w@ == (WordV { name: name@, body: Seq::empty(), kind }),
    {
        let w = Word { name: name.to_owned(), data: Vec::new(), kind };
        proof {
            assert(w@.body =~= Seq::<TokenV>::empty());
            assert(w@ =~= (WordV { name: name@, body: Seq::empty(), kind }));
        }
        w
    }

    /// A user-defined entry holding its compiled body.
    fn new_compiled(name: &str, tokens: Vec<Token>) -> (w: Word)
        ensures
            w@ == (WordV { name: name@, body: tokens.deep_view(), kind: Behavior::Expand }),
    {
        Word { name: name.to_owned(), data: tokens, kind: Behavior::Expand }
    }
}

/// Character-by-character string comparison; equal exactly when the views
/// are.
fn str_eq(a: &str, b: &str) -> (r: bool)
    ensures
        r == (a@ == b@),
{
    let n = a.unicode_len();
    let m = b.unicode_len();
    if n != m {
        return false;
    }
    let mut i: usize = 0;
    while i < n
        invariant
            n == a@.len(),
            n == b@.len(),
            0 <= i <= n,
            forall|k: int| 0 <= k < i ==> a@[k] == b@[k],
        decreases n - i,
    {
        if a.get_char(i) != b.get_char(i) {
            return false;
        }
        i = i + 1;
    }
    proof {
        assert(a@ =~= b@);
    }
    true
}

/// The placeholder behavior of `:`; the evaluator intercepts the index, so
/// this runs only for a token compiled before `:` was shadowed.
fn do_nop(word: &Word, stack: &mut Vec<Value>, tokens: &mut VecDeque<Token>, Ghost(ws): Ghost<
    Seq<WordV>,
>) -> (r: ForthResult)
    requires
        word@.kind == Behavior::Nop,
    ensures
        (match r {
            Ok(()) => apply_word(
                word@,
                StateV { stack: old(stack)@, queue: old(tokens).deep_view(), words: ws },
            ) == StepRes::Next(
                StateV { stack: final(stack)@, queue: final(tokens).deep_view(), words: ws },
            ),
            Err(e) => apply_word(
                word@,
                StateV { stack: old(stack)@, queue: old(tokens).deep_view(), words: ws },
            ) == StepRes::Stop(
                StateV { stack: final(stack)@, queue: final(tokens).deep_view(), words: ws },
                e,
            ),
        }),
{
    Ok(())
}

/// Pop the right operand, then the left, apply the word's operator and push
/// the result; underflow and division by zero fail, the latter with both
/// operands already popped.
fn do_arithmetic(
    word: &Word,
    stack: &mut Vec<Value>,
    tokens: &mut VecDeque<Token>,
    Ghost(ws): Ghost<Seq<WordV>>,
) -> (r: ForthResult)
    requires
        word@.kind matches Behavior::Arithmetic(_),
    ensures
        (match r {
            Ok(()) => apply_word(
                word@,
                StateV { stack: old(stack)@, queue: old(tokens).deep_view(), words: ws },
            ) == StepRes::Next(
                StateV { stack: final(stack)@, queue: final(tokens).deep_view(), words: ws },
            ),
            Err(e) => apply_word(
                word@,
                StateV { stack: old(stack)@, queue: old(tokens).deep_view(), words: ws },
            ) == StepRes::Stop(
                StateV { stack: final(stack)@, queue: final(tokens).deep_view(), words: ws },
                e,
            ),
        }),
{
    if stack.len() < 2 {
        return Err(Error::StackUnderflow);
    }
    let v2 = match stack.pop() {
        Some(v) => v,
        None => vstd::pervasive::unreached(),
    };
    let v1 = match stack.pop() {
        Some(v) => v,
        None => vstd::pervasive::unreached(),
    };
    proof {
        assert(stack@ =~= old(stack)@.drop_last().drop_last());
    }
    let v = match word.kind {
        Behavior::Arithmetic(op) => match op {
            ArithOp::Add => v1.wrapping_add(v2),
            ArithOp::Sub => v1.wrapping_sub(v2),
            ArithOp::Mul => v1.wrapping_mul(v2),
            ArithOp::Div => {
                if v2 == 0 {
                    return Err(Error::DivisionByZero);
                }
                match v1.checked_div(v2) {
                    Some(q) => q,
                    None => i32::MIN,
                }
            },
        },
        _ => vstd::pervasive::unreached(),
    };
    stack.push(v);
    Ok(())
}

/// Push a copy of the top operand.
fn do_dup(word: &Word, stack: &mut Vec<Value>, tokens: &mut VecDeque<Token>, Ghost(ws): Ghost<
    Seq<WordV>,
>) -> (r: ForthResult)
    requires
        word@.kind == Behavior::Dup,
    ensures
        (match r {
            Ok(()) => apply_word(
                word@,
                StateV { stack: old(stack)@, queue: old(tokens).deep_view(), words: ws },
            ) == StepRes::Next(
                StateV { stack: final(stack)@, queue: final(tokens).deep_view(), words: ws },
            ),
            Err(e) => apply_word(
                word@,
                StateV { stack: old(stack)@, queue: old(tokens).deep_view(), words: ws },
            ) == StepRes::Stop(
                StateV { stack: final(stack)@, queue: final(tokens).deep_view(), words: ws },
                e,
            ),
        }),
{
    if stack.len() < 1 {
        return Err(Error::StackUnderflow);
    }
    let v = stack[stack.len() - 1];
    stack.push(v);
    Ok(())
}

/// Remove the top operand, discarding it.
fn do_drop(word: &Word, stack: &mut Vec<Value>, tokens: &mut VecDeque<Token>, Ghost(ws): Ghost<
    Seq<WordV>,
>) -> (r: ForthResult)
    requires
        word@.kind == Behavior::DropTop,
    ensures
        (match r {
            Ok(()) => apply_word(
                word@,
                StateV { stack: old(stack)@, queue: old(tokens).deep_view(), words: ws },
            ) == StepRes::Next(
                StateV { stack: final(stack)@, queue: final(tokens).deep_view(), words: ws },
            ),
            Err(e) => apply_word(
                word@,
                StateV { stack: old(stack)@, queue: old(tokens).deep_view(), words: ws },
            ) == StepRes::Stop(
                StateV { stack: final(stack)@, queue: final(tokens).deep_view(), words: ws },
                e,
            ),
        }),
{
    if stack.len() < 1 {
        return Err(Error::StackUnderflow);
    }
    stack.pop();
    proof {
        assert(stack@ =~= old(stack)@.drop_last());
    }
    Ok(())
}

/// Exchange the two top operands.
fn do_swap(word: &Word, stack: &mut Vec<Value>, tokens: &mut VecDeque<Token>, Ghost(ws): Ghost<
    Seq<WordV>,
>) -> (r: ForthResult)
    requires
        word@.kind == Behavior::Swap,
    ensures
        (match r {
            Ok(()) => apply_word(
                word@,
                StateV { stack: old(stack)@, queue: old(tokens).deep_view(), words: ws },
            ) == StepRes::Next(
                StateV { stack: final(stack)@, queue: final(tokens).deep_view(), words: ws },
            ),
            Err(e) => apply_word(
                word@,
                StateV { stack: old(stack)@, queue: old(tokens).deep_view(), words: ws },
            ) == StepRes::Stop(
                StateV { stack: final(stack)@, queue: final(tokens).deep_view(), words: ws },
                e,
            ),
        }),
{
    if stack.len() < 2 {
        return Err(Error::StackUnderflow);
    }
    let v1 = match stack.pop() {
        Some(v) => v,
        None => vstd::pervasive::unreached(),
    };
    let v2 = match stack.pop() {
        Some(v) => v,
        None => vstd::pervasive::unreached(),
    };
    stack.push(v1);
    stack.push(v2);
    proof {
        assert(stack@ =~= old(stack)@.drop_last().drop_last().push(old(stack)@.last()).push(
            old(stack)@[old(stack)@.len() - 2],
        ));
    }
    Ok(())
}

/// Push a copy of the operand below the top.
fn do_over(word: &Word, stack: &mut Vec<Value>, tokens: &mut VecDeque<Token>, Ghost(ws): Ghost<
    Seq<WordV>,
>) -> (r: ForthResult)
    requires
        word@.kind == Behavior::Over,
    ensures
        (match r {
            Ok(()) => apply_word(
                word@,
                StateV { stack: old(stack)@, queue: old(tokens).deep_view(), words: ws },
            ) == StepRes::Next(
                StateV { stack: final(stack)@, queue: final(tokens).deep_view(), words: ws },
            ),
            Err(e) => apply_word(
                word@,
                StateV { stack: old(stack)@, queue: old(tokens).deep_view(), words: ws },
            ) == StepRes::Stop(
                StateV { stack: final(stack)@, queue: final(tokens).deep_view(), words: ws },
                e,
            ),
        }),
{
    if stack.len() < 2 {
        return Err(Error::StackUnderflow);
    }
    let v = stack[stack.len() - 2];
    stack.push(v);
    Ok(())
}

/// Re-inject the word's stored body at the front of the queue, in original
/// order: textual macro expansion, not a call.
fn do_exec(word: &Word, stack: &mut Vec<Value>, tokens: &mut VecDeque<Token>, Ghost(ws): Ghost<
    Seq<WordV>,
>) -> (r: ForthResult)
    requires
        word@.kind == Behavior::Expand,
    ensures
        (match r {
            Ok(()) => apply_word(
                word@,
                StateV { stack: old(stack)@, queue: old(tokens).deep_view(), words: ws },
            ) == StepRes::Next(
                StateV { stack: final(stack)@, queue: final(tokens).deep_view(), words: ws },
            ),
            Err(e) => apply_word(
                word@,
                StateV { stack: old(stack)@, queue: old(tokens).deep_view(), words: ws },
            ) == StepRes::Stop(
                StateV { stack: final(stack)@, queue: final(tokens).deep_view(), words: ws },
                e,
            ),
        }),
{
    let ghost pre = old(tokens).deep_view();
    let mut j: usize = word.data.len();
    while j > 0
        invariant
            j <= word.data.len(),
            tokens.deep_view() =~= word.data.deep_view().subrange(
                j as int,
                word.data.len() as int,
            ) + pre,
        decreases j,
    {
        j = j - 1;
        let t = word.data[j].clone();
        let ghost prev = tokens.deep_view();
        tokens.push_front(t);
        proof {
            assert(t@ == word.data.deep_view()[j as int]);
            assert(tokens.deep_view() =~= seq![t@] + prev);
            assert(seq![t@] + prev =~= word.data.deep_view().subrange(
                j as int,
                word.data.len() as int,
            ) + pre);
        }
    }
    proof {
        assert(word.data.deep_view().subrange(0, word.data.len() as int) =~= word@.body);
        assert(tokens.deep_view() =~= word@.body + pre);
    }
    Ok(())
}

/// An interpreter session: one operand stack and one word table, which
/// persist across evaluation calls, and the token queue of the current call.
pub struct Forth {
    stack: Vec<Value>,
    tokens: VecDeque<Token>,
    words: Vec<Word>,
}

impl View for Forth {
    type V = StateV;

    closed spec fn view(&self) -> StateV {
        StateV {
            stack: self.stack@,
            queue: self.tokens.deep_view(),
            words: self.words.deep_view(),
        }
    }
}

impl Forth {
    /// The invariant every session satisfies: see [`state_wf`].
    pub open spec fn wf(&self) -> bool {
        state_wf(self@)
    }

    /// A fresh session: empty stack, empty queue, and the table seeded with
    /// the built-in words.  Two fresh sessions are indistinguishable, so
    /// every evaluation starts from the same fixed state.
    pub fn new() -> (f: Forth)
        ensures
            f.wf(),
            f@ == (StateV { stack: Seq::empty(), queue: Seq::empty(), words: initial_words() }),
    {
        let mut words: Vec<Word> = Vec::new();
        words.push(Word::new("+", Behavior::Arithmetic(ArithOp::Add)));
        words.push(Word::new("-", Behavior::Arithmetic(ArithOp::Sub)));
        words.push(Word::new("*", Behavior::Arithmetic(ArithOp::Mul)));
        words.push(Word::new("/", Behavior::Arithmetic(ArithOp::Div)));
        words.push(Word::new("DUP", Behavior::Dup));
        words.push(Word::new("DROP", Behavior::DropTop));
        words.push(Word::new("SWAP", Behavior::Swap));
        words.push(Word::new("OVER", Behavior::Over));
        words.push(Word::new(":", Behavior::Nop));
        let f = Forth { stack: Vec::new(), tokens: VecDeque::new(), words };
        proof {
            assert(f@.words =~= initial_words());
            assert(f@.queue =~= Seq::<TokenV>::empty());
            assert(f@ =~= (StateV {
                stack: Seq::empty(),
                queue: Seq::empty(),
                words: initial_words(),
            }));
            assert(f@.words[8].name == ":"@);
            assert(lookup(f@.words, ":"@) == Some(8int));
        }
        f
    }

    /// A snapshot copy of the operand stack, bottom to top.
    pub fn stack(&self) -> (r: Vec<Value>)
        ensures
            r@ == self@.stack,
    {
        let mut r: Vec<Value> = Vec::new();
        let mut i: usize = 0;
        while i < self.stack.len()
            invariant
                0 <= i <= self.stack.len(),
                r@ =~= self.stack@.subrange(0, i as int),
            decreases self.stack.len() - i,
        {
            let v = self.stack[i];
            r.push(v);
            i = i + 1;
        }
        proof {
            assert(self.stack@.subrange(0, self.stack@.len() as int) =~= self.stack@);
        }
        r
    }

    /// Reverse-order scan of the table: the most recent entry with this name
    /// wins, which realizes shadowing by redefinition.
    fn lookup_word(&self, name: &str) -> (r: Option<usize>)
        ensures
            lookup(self@.words, name@) == (match r {
                Some(i) => Some(i as int),
                None => None::<int>,
            }),
            (r matches Some(i) ==> i < self.words.len()),
    {
        let mut i: usize = self.words.len();
        while i > 0
            invariant
                i <= self.words.len(),
                lookup(self@.words, name@) == lookup_from(self@.words, name@, i as int),
            decreases i,
        {
            i = i - 1;
            if str_eq(self.words[i].name.as_str(), name) {
                proof {
                    assert(self@.words[i as int].name == name@);
                }
                return Some(i);
            }
        }
        None
    }

    /// Compile a `: NAME ... ;` definition: take the name, resolve body
    /// words early, copy numbers and resolved references unchanged, and
    /// append the entry when `;` arrives.  Runs after the `:` token itself
    /// was consumed, and implements [`compile_step`] exactly.
    fn compile(&mut self) -> (r: ForthResult)
        requires
            old(self).wf(),
        ensures
            final(self).wf(),
            (match r {
                Ok(()) => compile_step(old(self)@) == StepRes::Next(final(self)@),
                Err(e) => compile_step(old(self)@) == StepRes::Stop(final(self)@, e),
            }),
    {
        if self.tokens.len() == 0 {
            return Err(Error::InvalidWord);
        }
        let ghost q_full = self@.queue;
        let t0 = match self.tokens.pop_front() {
            Some(t) => t,
            None => vstd::pervasive::unreached(),
        };
        proof {
            assert(self@.queue =~= q_full.drop_first());
            assert(q_full[0] == t0@);
        }
        let word_name: String = match t0 {
            Token::Word(w) => w,
            _ => {
                return Err(Error::InvalidWord);
            },
        };
        let ghost ws0 = self@.words;
        let ghost name_v = word_name@;
        let ghost q0 = self@.queue;
        let mut word_tokens: Vec<Token> = Vec::new();
        proof {
            assert(word_tokens.deep_view() =~= Seq::<TokenV>::empty());
            assert(q_full[0] == TokenV::Word(name_v));
        }
        while self.tokens.len() > 0
            invariant
                self@.words == ws0,
                self@.stack == old(self)@.stack,
                words_wf(ws0),
                self.wf(),
                word_name@ == name_v,
                old(self)@.words == ws0,
                old(self)@.queue == q_full,
                q_full.len() > 0,
                q_full[0] == TokenV::Word(name_v),
                q0 == q_full.drop_first(),
                body_wf(word_tokens.deep_view(), ws0.len() as int),
                compile_body(ws0, name_v, word_tokens.deep_view(), self@.queue) == compile_body(
                    ws0,
                    name_v,
                    Seq::empty(),
                    q0,
                ),
            decreases self@.queue.len(),
        {
            let ghost q_pre = self@.queue;
            let t = match self.tokens.pop_front() {
                Some(t) => t,
                None => vstd::pervasive::unreached(),
            };
            proof {
                assert(self@.queue =~= q_pre.drop_first());
                assert(q_pre[0] == t@);
            }
            match t {
                Token::Word(w) => {
                    if str_eq(w.as_str(), ";") {
                        let ghost body = word_tokens.deep_view();
                        let name_str = word_name.as_str();
                        let new_word = Word::new_compiled(name_str, word_tokens);
                        let ghost nw = new_word@;
                        self.words.push(new_word);
                        proof {
                            assert(q_pre[0] == TokenV::Word(w@));
                            assert(compile_body(ws0, name_v, body, q_pre)
                                == crate::semantics::BodyRes::Done(
                                ws0.push(
                                    (WordV { name: name_v, body, kind: Behavior::Expand }),
                                ),
                                q_pre.drop_first(),
                            ));
                            assert(self@.words =~= ws0.push(nw));
                            assert(nw == (WordV {
                                name: name_v,
                                body,
                                kind: Behavior::Expand,
                            }));
                            lemma_lookup_push(ws0, nw, ":"@);
                            assert forall|i: int|
                                0 <= i < self@.words.len() implies body_wf(
                                #[trigger] self@.words[i].body,
                                i,
                            ) by {
                                if i < ws0.len() {
                                    assert(self@.words[i] == ws0[i]);
                                } else {
                                    assert(self@.words[i] == new_word@);
                                }
                            }
                            assert(words_wf(self@.words));
                            assert(crate::semantics::queue_wf(
                                self@.queue,
                                self@.words.len() as int,
                            ));
                            assert(compile_step(old(self)@) == StepRes::Next(self@));
                        }
                        return Ok(());
                    } else {
                        match self.lookup_word(w.as_str()) {
                            Some(index) => {
                                proof {
                                    lemma_lookup_in_table(ws0, w@, ws0.len() as int);
                                }
                                let ghost acc0 = word_tokens.deep_view();
                                word_tokens.push(Token::WordIndex(index));
                                proof {
                                    assert(word_tokens.deep_view() =~= acc0.push(
                                        TokenV::WordIndex(index as int),
                                    ));
                                }
                            },
                            None => {
                                proof {
                                    assert(compile_body(
                                        ws0,
                                        name_v,
                                        word_tokens.deep_view(),
                                        q_pre,
                                    ) == crate::semantics::BodyRes::Fail(q_pre.drop_first()));
                                    assert(compile_step(old(self)@) == StepRes::Stop(
                                        self@,
                                        Error::InvalidWord,
                                    ));
                                }
                                return Err(Error::InvalidWord);
                            },
                        }
                    }
                },
                _ => {
                    let ghost acc0 = word_tokens.deep_view();
                    let ghost tv = t@;
                    word_tokens.push(t);
                    proof {
                        assert(word_tokens.deep_view() =~= acc0.push(tv));
                    }
                },
            }
        }
        Err(Error::InvalidWord)
    }

    /// One step of the evaluation loop: pop the front token, resolve a word
    /// name, intercept the `:` index to compile, dispatch any other index,
    /// or push a number.  Implements [`step`] exactly.
    fn interp(&mut self) -> (r: ForthResult)
        requires
            old(self).wf(),
            old(self)@.queue.len() > 0,
        ensures
            final(self).wf(),
            (match r {
                Ok(()) => step(old(self)@) == StepRes::Next(final(self)@),
                Err(e) => step(old(self)@) == StepRes::Stop(final(self)@, e),
            }),
    {
        let compile_index = match self.lookup_word(":") {
            Some(i) => i,
            None => vstd::pervasive::unreached(),
        };
        let ghost ws = self@.words;
        let ghost q_full = self@.queue;
        let t = match self.tokens.pop_front() {
            Some(t) => t,
            None => vstd::pervasive::unreached(),
        };
        proof {
            assert(self@.queue =~= q_full.drop_first());
            assert(q_full[0] == t@);
        }
        match t {
            Token::Word(word) => {
                match self.lookup_word(word.as_str()) {
                    Some(word_index) => {
                        self.tokens.push_front(Token::WordIndex(word_index));
                        proof {
                            assert(self@.queue =~= seq![TokenV::WordIndex(word_index as int)]
                                + q_full.drop_first());
                            assert(step(old(self)@) == StepRes::Next(self@));
                        }
                        Ok(())
                    },
                    None => {
                        proof {
                            assert(step(old(self)@) == StepRes::Stop(self@, Error::UnknownWord));
                        }
                        Err(Error::UnknownWord)
                    },
                }
            },
            Token::WordIndex(index) => {
                if index == compile_index {
                    proof {
                        assert(lookup(ws, ":"@) == Some(index as int));
                    }
                    let r = self.compile();
                    proof {
                        assert(step(old(self)@) == (match r {
                            Ok(()) => StepRes::Next(self@),
                            Err(e) => StepRes::Stop(self@, e),
                        }));
                    }
                    r
                } else {
                    proof {
                        assert(0 <= index as int && (index as int) < ws.len());
                        assert(lookup(ws, ":"@) != Some(index as int));
                    }
                    let word = &self.words[index];
                    proof {
                        assert(word@ == ws[index as int]);
                    }
                    let ghost pre_rest = StateV {
                        stack: self@.stack,
                        queue: self@.queue,
                        words: ws,
                    };
                    let r = match word.kind {
                        Behavior::Arithmetic(_) => do_arithmetic(
                            word,
                            &mut self.stack,
                            &mut self.tokens,
                            Ghost(ws),
                        ),
                        Behavior::Dup => do_dup(word, &mut self.stack, &mut self.tokens, Ghost(ws)),
                        Behavior::DropTop => do_drop(
                            word,
                            &mut self.stack,
                            &mut self.tokens,
                            Ghost(ws),
                        ),
                        Behavior::Swap => do_swap(
                            word,
                            &mut self.stack,
                            &mut self.tokens,
                            Ghost(ws),
                        ),
                        Behavior::Over => do_over(
                            word,
                            &mut self.stack,
                            &mut self.tokens,
                            Ghost(ws),
                        ),
                        Behavior::Nop => do_nop(word, &mut self.stack, &mut self.tokens, Ghost(ws)),
                        Behavior::Expand => do_exec(
                            word,
                            &mut self.stack,
                            &mut self.tokens,
                            Ghost(ws),
                        ),
                    };
                    proof {
                        assert(step(old(self)@) == apply_word(ws[index as int], pre_rest));
                        match word@.kind {
                            Behavior::Expand => {
                                assert(body_wf(ws[index as int].body, index as int));
                                match r {
                                    Ok(()) => {
                                        assert(self@.queue =~= ws[index as int].body
                                            + pre_rest.queue);
                                        assert(crate::semantics::queue_wf(
                                            self@.queue,
                                            self@.words.len() as int,
                                        ));
                                    },
                                    Err(_) => {},
                                }
                            },
                            _ => {},
                        }
                    }
                    r
                }
            },
            Token::Number(v) => {
                self.stack.push(v);
                proof {
                    assert(self@.stack =~= old(self)@.stack.push(v));
                    assert(step(old(self)@) == StepRes::Next(self@));
                }
                Ok(())
            },
        }
    }

    /// Evaluate one line: tokenize it into a fresh queue, then step until
    /// the queue empties, stopping at the first error with all effects
    /// applied so far kept.  The result and the final state are exactly
    /// those of [`run`] on the tokenized input, for some large enough fuel;
    /// by [`crate::semantics::lemma_run_stable`] that pins them down for
    /// every larger fuel too.
    pub fn eval(&mut self, input: &str) -> (r: ForthResult)
        requires
            old(self).wf(),
        ensures
            final(self).wf(),
            r is Ok ==> final(self)@.queue.len() == 0,
            ({
                let init = StateV {
                    stack: old(self)@.stack,
                    queue: tokens_of(input@),
                    words: old(self)@.words,
                };
                match r {
                    Ok(()) => exists|n: nat| run(init, n) == Outcome::Done(final(self)@),
                    Err(e) => exists|n: nat| run(init, n) == Outcome::Fail(final(self)@, e),
                }
            }),
    {
        let new_tokens = parse(input);
        self.tokens = new_tokens;
        proof {
            lemma_tokens_from_unresolved(input@, 0);
            assert(crate::semantics::queue_wf(self@.queue, self@.words.len() as int));
        }
        let ghost init = self@;
        let ghost mut n: nat = 0;
        while self.tokens.len() > 0
            invariant
                self.wf(),
                init == (StateV {
                    stack: old(self)@.stack,
                    queue: tokens_of(input@),
                    words: old(self)@.words,
                }),
                self@.queue.len() > 0 ==> run(init, n) == Outcome::More(self@),
                self@.queue.len() == 0 ==> run(init, n) == Outcome::Done(self@),
            decreases count_words(self@.queue), state_weight(self@),
        {
            let ghost pre = self@;
            let ghost pre_n = n;
            let step_result = self.interp();
            proof {
                lemma_run_more_step(init, pre_n, pre);
                lemma_step_decreases(pre);
                n = pre_n + 1;
            }
            match step_result {
                Ok(()) => {},
                Err(e) => {
                    proof {
                        assert(run(init, n) == Outcome::Fail(self@, e));
                    }
                    return Err(e);
                },
            }
        }
        proof {
            assert(run(init, n) == Outcome::Done(self@));
        }
        Ok(())
    }
}

} // verus!
