//! The mathematical small-step semantics of the interpreter.
//!
//! A [`StateV`] is the value of a whole session: the operand stack, the
//! pending token queue and the word table.  [`step`] gives the meaning of
//! consuming one token, [`run`] iterates it under a fuel bound, and the
//! executable interpreter in [`crate::forth`] is proved to implement them.

use vstd::prelude::*;

use crate::token::ArithOp;
use crate::token::Behavior;
use crate::token::Error;
use crate::token::TokenV;

verus! {

/// A word-table entry: a name, a stored body (empty for built-ins) and a
/// behavior.
#[verifier::ext_equal]
pub ghost struct WordV {
    pub name: Seq<char>,
    pub body: Seq<TokenV>,
    pub kind: Behavior,
}

/// The value of a session: operand stack (top last), token queue (front
/// first) and append-only word table.
#[verifier::ext_equal]
pub ghost struct StateV {
    pub stack: Seq<i32>,
    pub queue: Seq<TokenV>,
    pub words: Seq<WordV>,
}

/// The result of one evaluation step: the next state, or the state at the
/// failure together with the error (effects already applied are kept).
#[verifier::ext_equal]
pub ghost enum StepRes {
    Next(StateV),
    Stop(StateV, Error),
}

/// The result of compiling a definition body: the extended word table with
/// the remaining queue, or the remaining queue at the failure.
#[verifier::ext_equal]
pub ghost enum BodyRes {
    Done(Seq<WordV>, Seq<TokenV>),
    Fail(Seq<TokenV>),
}

/// The result of running until the queue empties, bounded by fuel.
#[verifier::ext_equal]
pub ghost enum Outcome {
    /// The queue emptied; the evaluation succeeded in this state.
    Done(StateV),
    /// A step failed; evaluation reports the error in this state.
    Fail(StateV, Error),
    /// The fuel ran out with the queue still nonempty.
    More(StateV),
}

/// The scan behind [`lookup`]: the highest index below `i` whose entry has
/// this name.
pub open spec fn lookup_from(words: Seq<WordV>, name: Seq<char>, i: int) -> Option<int>
    decreases i,
{
    if i <= 0 {
        None
    } else if words[i - 1].name == name {
        Some(i - 1)
    } else {
        lookup_from(words, name, i - 1)
    }
}

/// Reverse-order lookup: the highest index whose entry has this name, so a
/// redefinition shadows older entries without removing them.
pub open spec fn lookup(words: Seq<WordV>, name: Seq<char>) -> Option<int> {
    lookup_from(words, name, words.len() as int)
}

/// The value an arithmetic word pushes: two's-complement wrapping addition,
/// subtraction and multiplication, and division truncating toward zero
/// (`i32::MIN / -1` wraps to `i32::MIN`; division by zero never reaches this
/// function and is given an arbitrary fixed value).
pub open spec fn apply_op(op: ArithOp, a: i32, b: i32) -> i32 {
    match op {
        ArithOp::Add => vstd::wrapping::i32_specs::wrapping_add(a, b),
        ArithOp::Sub => vstd::wrapping::i32_specs::wrapping_sub(a, b),
        ArithOp::Mul => vstd::wrapping::i32_specs::wrapping_mul(a, b),
        ArithOp::Div => match a.checked_div(b) {
            Some(q) => q,
            None => i32::MIN,
        },
    }
}

/// The effect of dispatching word `w` on state `st`, whose queue no longer
/// holds the token that named `w`.  Arithmetic pops the right operand then
/// the left one before the zero check, so a division by zero leaves both
/// operands popped.
pub open spec fn apply_word(w: WordV, st: StateV) -> StepRes {
    match w.kind {
        Behavior::Arithmetic(op) => {
            if st.stack.len() < 2 {
                StepRes::Stop(st, Error::StackUnderflow)
            } else {
                let b = st.stack.last();
                let a = st.stack[st.stack.len() - 2];
                let rest = st.stack.drop_last().drop_last();
                if op == ArithOp::Div && b == 0 {
                    StepRes::Stop(
                        StateV { stack: rest, queue: st.queue, words: st.words },
                        Error::DivisionByZero,
                    )
                } else {
                    StepRes::Next(
                        StateV {
                            stack: rest.push(apply_op(op, a, b)),
                            queue: st.queue,
                            words: st.words,
                        },
                    )
                }
            }
        },
        Behavior::Dup => {
            if st.stack.len() < 1 {
                StepRes::Stop(st, Error::StackUnderflow)
            } else {
                StepRes::Next(
                    StateV { stack: st.stack.push(st.stack.last()), queue: st.queue, words: st.words },
                )
            }
        },
        Behavior::DropTop => {
            if st.stack.len() < 1 {
                StepRes::Stop(st, Error::StackUnderflow)
            } else {
                StepRes::Next(
                    StateV { stack: st.stack.drop_last(), queue: st.queue, words: st.words },
                )
            }
        },
        Behavior::Swap => {
            if st.stack.len() < 2 {
                StepRes::Stop(st, Error::StackUnderflow)
            } else {
                let b = st.stack.last();
                let a = st.stack[st.stack.len() - 2];
                StepRes::Next(
                    StateV {
                        stack: st.stack.drop_last().drop_last().push(b).push(a),
                        queue: st.queue,
                        words: st.words,
                    },
                )
            }
        },
        Behavior::Over => {
            if st.stack.len() < 2 {
                StepRes::Stop(st, Error::StackUnderflow)
            } else {
                StepRes::Next(
                    StateV {
                        stack: st.stack.push(st.stack[st.stack.len() - 2]),
                        queue: st.queue,
                        words: st.words,
                    },
                )
            }
        },
        Behavior::Nop => StepRes::Next(st),
        Behavior::Expand => StepRes::Next(
            StateV { stack: st.stack, queue: w.body + st.queue, words: st.words },
        ),
    }
}

/// Compiling a definition body after the name was taken: resolve word
/// references early, copy other tokens unchanged, and append the finished
/// entry when the terminator `;` arrives.  Running out of tokens or meeting
/// an unresolvable word fails, with the tokens read so far consumed.
pub open spec fn compile_body(
    words: Seq<WordV>,
    name: Seq<char>,
    acc: Seq<TokenV>,
    queue: Seq<TokenV>,
) -> BodyRes
    decreases queue.len(),
{
    if queue.len() == 0 {
        BodyRes::Fail(queue)
    } else {
        match queue[0] {
            TokenV::Word(w) => {
                if w == ";"@ {
                    BodyRes::Done(
                        words.push(WordV { name, body: acc, kind: Behavior::Expand }),
                        queue.drop_first(),
                    )
                } else {
                    match lookup(words, w) {
                        Some(i) => compile_body(
                            words,
                            name,
                            acc.push(TokenV::WordIndex(i)),
                            queue.drop_first(),
                        ),
                        None => BodyRes::Fail(queue.drop_first()),
                    }
                }
            },
            t => compile_body(words, name, acc.push(t), queue.drop_first()),
        }
    }
}

/// The compilation triggered by the `:` word, on the state whose queue no
/// longer holds the `:` token itself.  The next token must be a word name;
/// anything else (or an empty queue) is an invalid definition.
pub open spec fn compile_step(st: StateV) -> StepRes {
    if st.queue.len() == 0 {
        StepRes::Stop(st, Error::InvalidWord)
    } else {
        match st.queue[0] {
            TokenV::Word(name) => {
                match compile_body(st.words, name, Seq::empty(), st.queue.drop_first()) {
                    BodyRes::Done(ws, q) => StepRes::Next(
                        StateV { stack: st.stack, queue: q, words: ws },
                    ),
                    BodyRes::Fail(q) => StepRes::Stop(
                        StateV { stack: st.stack, queue: q, words: st.words },
                        Error::InvalidWord,
                    ),
                }
            },
            _ => StepRes::Stop(
                StateV { stack: st.stack, queue: st.queue.drop_first(), words: st.words },
                Error::InvalidWord,
            ),
        }
    }
}

/// One step of the evaluation loop: pop the front token; re-push a resolved
/// name as a `WordIndex`; intercept the index that `:` currently resolves to
/// and compile; dispatch any other index; push a number.  A state whose
/// queue is empty, or an index outside the table (which no reachable state
/// holds), is left as given.
pub open spec fn step(st: StateV) -> StepRes {
    if st.queue.len() == 0 {
        StepRes::Next(st)
    } else {
        let t = st.queue[0];
        let rest = StateV { stack: st.stack, queue: st.queue.drop_first(), words: st.words };
        match t {
            TokenV::Word(w) => match lookup(st.words, w) {
                Some(i) => StepRes::Next(
                    StateV {
                        stack: rest.stack,
                        queue: seq![TokenV::WordIndex(i)] + rest.queue,
                        words: rest.words,
                    },
                ),
                None => StepRes::Stop(rest, Error::UnknownWord),
            },
            TokenV::WordIndex(i) => {
                if lookup(st.words, ":"@) == Some(i) {
                    compile_step(rest)
                } else if 0 <= i < st.words.len() {
                    apply_word(st.words[i], rest)
                } else {
                    StepRes::Next(rest)
                }
            },
            TokenV::Number(v) => StepRes::Next(
                StateV { stack: rest.stack.push(v), queue: rest.queue, words: rest.words },
            ),
        }
    }
}

/// Iterated stepping with a fuel bound.  The fuel only makes the function
/// total: every terminating evaluation is `Done` or `Fail` for every large
/// enough fuel (see [`lemma_run_stable`]), while a diverging one is `More`
/// for every fuel.
pub open spec fn run(st: StateV, fuel: nat) -> Outcome
    decreases fuel,
{
    if st.queue.len() == 0 {
        Outcome::Done(st)
    } else if fuel == 0 {
        Outcome::More(st)
    } else {
        match step(st) {
            StepRes::Next(s2) => run(s2, (fuel - 1) as nat),
            StepRes::Stop(s2, e) => Outcome::Fail(s2, e),
        }
    }
}

/// Every `WordIndex` token in `q` points inside a table of `n` entries.
pub open spec fn queue_wf(q: Seq<TokenV>, n: int) -> bool {
    forall|i: int|
        0 <= i < q.len() ==> (#[trigger] q[i] matches TokenV::WordIndex(k) ==> 0 <= k < n)
}

/// A stored body holds only resolved references and numbers, and every
/// reference points strictly below `bound`.  References are bound when a
/// definition is compiled, before its own entry is appended, so each entry's
/// body satisfies this with its own index as the bound: no body can reach
/// itself or a later entry, which is why evaluation always terminates.
pub open spec fn body_wf(ts: Seq<TokenV>, bound: int) -> bool {
    forall|i: int|
        0 <= i < ts.len() ==> (match #[trigger] ts[i] {
            TokenV::Word(_) => false,
            TokenV::WordIndex(k) => 0 <= k < bound,
            TokenV::Number(_) => true,
        })
}

/// The word table resolves `:` and every stored body points strictly below
/// its own entry.
pub open spec fn words_wf(ws: Seq<WordV>) -> bool {
    &&& lookup(ws, ":"@) is Some
    &&& forall|i: int| 0 <= i < ws.len() ==> body_wf(#[trigger] ws[i].body, i)
}

/// A state every reachable session satisfies.
pub open spec fn state_wf(st: StateV) -> bool {
    words_wf(st.words) && queue_wf(st.queue, st.words.len() as int)
}

/// The word table a fresh session is seeded with.
pub open spec fn initial_words() -> Seq<WordV> {
    seq![
        WordV { name: "+"@, body: Seq::empty(), kind: Behavior::Arithmetic(ArithOp::Add) },
        WordV { name: "-"@, body: Seq::empty(), kind: Behavior::Arithmetic(ArithOp::Sub) },
        WordV { name: "*"@, body: Seq::empty(), kind: Behavior::Arithmetic(ArithOp::Mul) },
        WordV { name: "/"@, body: Seq::empty(), kind: Behavior::Arithmetic(ArithOp::Div) },
        WordV { name: "DUP"@, body: Seq::empty(), kind: Behavior::Dup },
        WordV { name: "DROP"@, body: Seq::empty(), kind: Behavior::DropTop },
        WordV { name: "SWAP"@, body: Seq::empty(), kind: Behavior::Swap },
        WordV { name: "OVER"@, body: Seq::empty(), kind: Behavior::Over },
        WordV { name: ":"@, body: Seq::empty(), kind: Behavior::Nop },
    ]
}

/// A scan below `i` only reads entries below `i`, so tables that agree there
/// resolve alike.
pub proof fn lemma_lookup_from_agree(ws1: Seq<WordV>, ws2: Seq<WordV>, name: Seq<char>, i: int)
    requires
        forall|j: int| 0 <= j < i ==> ws1[j] == ws2[j],
    ensures
        lookup_from(ws1, name, i) == lookup_from(ws2, name, i),
    decreases i,
{
    if i > 0 && ws1[i - 1].name != name {
        lemma_lookup_from_agree(ws1, ws2, name, i - 1);
    }
}

/// Appending an entry shadows its name and leaves every other lookup as it
/// was.
pub proof fn lemma_lookup_push(ws: Seq<WordV>, w: WordV, name: Seq<char>)
    ensures
        lookup(ws.push(w), name) == (if w.name == name {
            Some(ws.len() as int)
        } else {
            lookup(ws, name)
        }),
{
    assert(ws.push(w)[ws.len() as int] == w);
    lemma_lookup_from_agree(ws.push(w), ws, name, ws.len() as int);
}

/// A resolved index lies in the table and bears the looked-up name.
pub proof fn lemma_lookup_in_table(ws: Seq<WordV>, name: Seq<char>, i: int)
    ensures
        lookup_from(ws, name, i) matches Some(k) ==> 0 <= k < i && ws[k].name == name,
    decreases i,
{
    if i > 0 && ws[i - 1].name != name {
        lemma_lookup_in_table(ws, name, i - 1);
    }
}

/// The expansion weight of table entry `i`: one for the entry itself plus
/// the weight of its stored body.  Well-defined because well-formed bodies
/// reference strictly smaller indices; an out-of-range index weighs nothing.
pub open spec fn entry_weight(ws: Seq<WordV>, i: int) -> nat
    decreases i, ws[i].body.len() + 1,
{
    if 0 <= i < ws.len() {
        1 + body_weight(ws, ws[i].body, i)
    } else {
        0
    }
}

/// The weight of a token sequence: a number or an unresolved word weighs
/// one, a resolved reference weighs two plus the weight of the entry it
/// names, counted only below the guard `b`.
pub open spec fn body_weight(ws: Seq<WordV>, ts: Seq<TokenV>, b: int) -> nat
    decreases b, ts.len(),
{
    if ts.len() == 0 {
        0
    } else {
        (match ts[0] {
            TokenV::WordIndex(k) => if 0 <= k && k < b {
                2 + entry_weight(ws, k)
            } else {
                1
            },
            _ => 1nat,
        }) + body_weight(ws, ts.drop_first(), b)
    }
}

/// How many unresolved word-name tokens a queue holds.
pub open spec fn count_words(q: Seq<TokenV>) -> nat
    decreases q.len(),
{
    if q.len() == 0 {
        0
    } else {
        (if q[0] matches TokenV::Word(_) {
            1nat
        } else {
            0
        }) + count_words(q.drop_first())
    }
}

/// The second component of the evaluation loop's termination measure.
pub open spec fn state_weight(st: StateV) -> nat {
    body_weight(st.words, st.queue, st.words.len() as int)
}

pub proof fn lemma_count_words_concat(a: Seq<TokenV>, c: Seq<TokenV>)
    ensures
        count_words(a + c) == count_words(a) + count_words(c),
    decreases a.len(),
{
    if a.len() == 0 {
        assert(a + c =~= c);
    } else {
        assert((a + c).drop_first() =~= a.drop_first() + c);
        lemma_count_words_concat(a.drop_first(), c);
    }
}

pub proof fn lemma_count_words_wf_body(ts: Seq<TokenV>, bound: int)
    requires
        body_wf(ts, bound),
    ensures
        count_words(ts) == 0,
    decreases ts.len(),
{
    if ts.len() > 0 {
        assert(body_wf(ts.drop_first(), bound));
        lemma_count_words_wf_body(ts.drop_first(), bound);
    }
}

pub proof fn lemma_body_weight_concat(ws: Seq<WordV>, a: Seq<TokenV>, c: Seq<TokenV>, b: int)
    ensures
        body_weight(ws, a + c, b) == body_weight(ws, a, b) + body_weight(ws, c, b),
    decreases a.len(),
{
    if a.len() == 0 {
        assert(a + c =~= c);
    } else {
        assert((a + c).drop_first() =~= a.drop_first() + c);
        lemma_body_weight_concat(ws, a.drop_first(), c, b);
    }
}

/// The guard does not matter once it covers every reference in the
/// sequence.
pub proof fn lemma_body_weight_bound(ws: Seq<WordV>, ts: Seq<TokenV>, b1: int, b2: int)
    requires
        forall|i: int|
            0 <= i < ts.len() ==> (#[trigger] ts[i] matches TokenV::WordIndex(k) ==> 0 <= k < b1
                && 0 <= k < b2),
    ensures
        body_weight(ws, ts, b1) == body_weight(ws, ts, b2),
    decreases ts.len(),
{
    if ts.len() > 0 {
        assert(ts[0] == ts[0]);
        lemma_body_weight_bound(ws, ts.drop_first(), b1, b2);
    }
}

/// A successful compilation consumes at least the terminator's word token.
pub proof fn lemma_compile_body_count(
    ws: Seq<WordV>,
    name: Seq<char>,
    acc: Seq<TokenV>,
    queue: Seq<TokenV>,
)
    ensures
        compile_body(ws, name, acc, queue) matches BodyRes::Done(ws2, q2) ==> count_words(q2)
            < count_words(queue),
    decreases queue.len(),
{
    if queue.len() > 0 {
        match queue[0] {
            TokenV::Word(w) => {
                if w == ";"@ {
                } else {
                    match lookup(ws, w) {
                        Some(i) => {
                            lemma_compile_body_count(
                                ws,
                                name,
                                acc.push(TokenV::WordIndex(i)),
                                queue.drop_first(),
                            );
                        },
                        None => {},
                    }
                }
            },
            t => {
                lemma_compile_body_count(ws, name, acc.push(t), queue.drop_first());
            },
        }
    }
}

/// Every successful step strictly decreases the lexicographic measure
/// (unresolved word-name count, then queue weight): evaluation terminates.
pub proof fn lemma_step_decreases(st: StateV)
    requires
        state_wf(st),
        st.queue.len() > 0,
    ensures
        step(st) matches StepRes::Next(s2) ==> (count_words(s2.queue) < count_words(st.queue) || (
        count_words(s2.queue) == count_words(st.queue) && state_weight(s2) < state_weight(st))),
{
    let q = st.queue;
    let ws = st.words;
    let ln = ws.len() as int;
    let rest = q.drop_first();
    match q[0] {
        TokenV::Word(w) => {
            if let Some(i) = lookup(ws, w) {
                let nq = seq![TokenV::WordIndex(i)] + rest;
                assert(nq.drop_first() =~= rest);
                assert(count_words(nq) == count_words(rest));
                assert(count_words(q) == 1 + count_words(rest));
            }
        },
        TokenV::WordIndex(i) => {
            if lookup(ws, ":"@) == Some(i) {
                if rest.len() > 0 {
                    if let TokenV::Word(name) = rest[0] {
                        lemma_compile_body_count(ws, name, Seq::empty(), rest.drop_first());
                        assert(count_words(rest) == 1 + count_words(rest.drop_first()));
                        assert(count_words(q) == count_words(rest));
                    }
                }
            } else {
                assert(0 <= i < ln);
                assert(body_weight(ws, q, ln) == 2 + entry_weight(ws, i) + body_weight(
                    ws,
                    rest,
                    ln,
                ));
                match ws[i].kind {
                    Behavior::Expand => {
                        let body = ws[i].body;
                        assert(body_wf(body, i));
                        lemma_count_words_wf_body(body, i);
                        lemma_count_words_concat(body, rest);
                        lemma_body_weight_concat(ws, body, rest, ln);
                        lemma_body_weight_bound(ws, body, i, ln);
                        assert(entry_weight(ws, i) == 1 + body_weight(ws, body, i));
                    },
                    _ => {},
                }
            }
        },
        TokenV::Number(v) => {
            assert(count_words(q) == count_words(rest));
            assert(body_weight(ws, q, ln) == 1 + body_weight(ws, rest, ln));
        },
    }
}

/// One more unit of fuel takes a still-running evaluation exactly one step
/// further.
pub proof fn lemma_run_more_step(st: StateV, k: nat, c: StateV)
    requires
        run(st, k) == Outcome::More(c),
    ensures
        run(st, k + 1) == (match step(c) {
            StepRes::Next(s2) => if s2.queue.len() == 0 {
                Outcome::Done(s2)
            } else {
                Outcome::More(s2)
            },
            StepRes::Stop(s2, e) => Outcome::Fail(s2, e),
        }),
    decreases k,
{
    reveal_with_fuel(run, 3);
    if st.queue.len() == 0 {
        assert(false);
    } else if k == 0 {
        assert(c == st);
    } else {
        match step(st) {
            StepRes::Next(s2) => {
                lemma_run_more_step(s2, (k - 1) as nat, c);
            },
            StepRes::Stop(s2, e) => {
                assert(false);
            },
        }
    }
}

/// Law: a failing step never changes the word table.  In particular a
/// malformed or unterminated definition adds no partial entry: the table
/// after the error is the table before the `:` was seen.
pub proof fn lemma_error_keeps_words(st: StateV)
    ensures
        step(st) matches StepRes::Stop(s2, e) ==> s2.words == st.words,
{
}

/// The name of each arithmetic built-in.
pub open spec fn op_name(op: ArithOp) -> Seq<char> {
    match op {
        ArithOp::Add => "+"@,
        ArithOp::Sub => "-"@,
        ArithOp::Mul => "*"@,
        ArithOp::Div => "/"@,
    }
}

/// The table slot of each arithmetic built-in in a fresh session.
pub open spec fn op_index(op: ArithOp) -> int {
    match op {
        ArithOp::Add => 0,
        ArithOp::Sub => 1,
        ArithOp::Mul => 2,
        ArithOp::Div => 3,
    }
}

/// What a fresh session's table resolves each built-in name to.
pub proof fn lemma_lookup_initial()
    ensures
        lookup(initial_words(), "+"@) == Some(0int),
        lookup(initial_words(), "-"@) == Some(1int),
        lookup(initial_words(), "*"@) == Some(2int),
        lookup(initial_words(), "/"@) == Some(3int),
        lookup(initial_words(), "DUP"@) == Some(4int),
        lookup(initial_words(), "DROP"@) == Some(5int),
        lookup(initial_words(), "SWAP"@) == Some(6int),
        lookup(initial_words(), "OVER"@) == Some(7int),
        lookup(initial_words(), ":"@) == Some(8int),
{
    reveal_strlit("+");
    reveal_strlit("-");
    reveal_strlit("*");
    reveal_strlit("/");
    reveal_strlit("DUP");
    reveal_strlit("DROP");
    reveal_strlit("SWAP");
    reveal_strlit("OVER");
    reveal_strlit(":");
    reveal_with_fuel(lookup_from, 11);
    assert("+"@.len() == 1 && "+"@[0] == '+');
    assert("-"@.len() == 1 && "-"@[0] == '-');
    assert("*"@.len() == 1 && "*"@[0] == '*');
    assert("/"@.len() == 1 && "/"@[0] == '/');
    assert(":"@.len() == 1 && ":"@[0] == ':');
    assert("DUP"@.len() == 3 && "DUP"@[0] == 'D' && "DUP"@[1] == 'U');
    assert("DROP"@.len() == 4 && "DROP"@[0] == 'D' && "DROP"@[1] == 'R');
    assert("SWAP"@.len() == 4 && "SWAP"@[0] == 'S');
    assert("OVER"@.len() == 4 && "OVER"@[0] == 'O');
}

/// Truncating division, the convention of the `/` word: the magnitude is
/// divided, the sign follows the operands.
pub open spec fn div_toward_zero(a: int, b: int) -> int {
    if (a >= 0) == (b >= 0) {
        vstd::math::abs(a) as int / vstd::math::abs(b) as int
    } else {
        -(vstd::math::abs(a) as int / vstd::math::abs(b) as int)
    }
}

/// Law: whenever the exact integer result fits the operand type, the
/// arithmetic words compute it exactly, and division truncates toward zero;
/// only out-of-range results wrap.
pub proof fn lemma_apply_op_exact(a: i32, b: i32, op: ArithOp)
    ensures
        op == ArithOp::Add && i32::MIN <= a + b <= i32::MAX ==> apply_op(op, a, b) == a + b,
        op == ArithOp::Sub && i32::MIN <= a - b <= i32::MAX ==> apply_op(op, a, b) == a - b,
        op == ArithOp::Mul && i32::MIN <= a * b <= i32::MAX ==> apply_op(op, a, b) == a * b,
        op == ArithOp::Div && b != 0 && !(a == i32::MIN && b == -1) ==> apply_op(op, a, b)
            == div_toward_zero(a as int, b as int),
{
    if op == ArithOp::Mul && i32::MIN <= a * b <= i32::MAX {
        let p = a as int * b as int;
        let r = 0x1_0000_0000int;
        if p >= 0 {
            vstd::arithmetic::div_mod::lemma_small_mod(p as nat, r as nat);
        } else {
            vstd::arithmetic::div_mod::lemma_mod_multiples_vanish(1, p, r);
            vstd::arithmetic::div_mod::lemma_small_mod((p + r) as nat, r as nat);
        }
    }
    if op == ArithOp::Div && b != 0 && !(a == i32::MIN && b == -1) {
        let x = a as int;
        let d = b as int;
        let q = vstd::math::abs(x) as int / vstd::math::abs(d) as int;
        assert(vstd::math::abs(x) as int / vstd::math::abs(d) as int == (if x >= 0 {
            x
        } else {
            -x
        }) / (if d >= 0 {
            d
        } else {
            -d
        }));
        assert(0 <= q <= vstd::math::abs(x)) by {
            vstd::arithmetic::div_mod::lemma_div_pos_is_pos(
                vstd::math::abs(x) as int,
                vstd::math::abs(d) as int,
            );
            vstd::arithmetic::div_mod::lemma_div_nonincreasing(
                vstd::math::abs(x) as int,
                vstd::math::abs(d) as int,
            );
        }
        if d == 1 || d == -1 {
            vstd::arithmetic::div_mod::lemma_div_basics(vstd::math::abs(x) as int);
        } else {
            assert(q <= vstd::math::abs(x) as int / 2) by {
                vstd::arithmetic::div_mod::lemma_div_is_ordered_by_denominator(
                    vstd::math::abs(x) as int,
                    2,
                    vstd::math::abs(d) as int,
                );
            }
            assert(vstd::math::abs(x) as int / 2 <= 0x4000_0000) by {
                vstd::arithmetic::div_mod::lemma_div_is_ordered(
                    vstd::math::abs(x) as int,
                    0x8000_0000,
                    2,
                );
            }
        }
    }
}

/// Law: for every starting stack and operands, the three-token program
/// `a b OP` run on a fresh session's word table ends with exactly `a OP b`
/// pushed onto that stack and nothing else changed (`b` nonzero for `/`).
pub proof fn lemma_arithmetic_sequence(s: Seq<i32>, a: i32, b: i32, op: ArithOp)
    requires
        op == ArithOp::Div ==> b != 0,
    ensures
        run(
            StateV {
                stack: s,
                queue: seq![TokenV::Number(a), TokenV::Number(b), TokenV::Word(op_name(op))],
                words: initial_words(),
            },
            4,
        ) == Outcome::Done(
            StateV { stack: s.push(apply_op(op, a, b)), queue: Seq::empty(), words: initial_words() },
        ),
{
    lemma_lookup_initial();
    reveal_with_fuel(run, 6);
    let ws = initial_words();
    let st0 = StateV {
        stack: s,
        queue: seq![TokenV::Number(a), TokenV::Number(b), TokenV::Word(op_name(op))],
        words: ws,
    };
    let st1 = StateV {
        stack: s.push(a),
        queue: seq![TokenV::Number(b), TokenV::Word(op_name(op))],
        words: ws,
    };
    let st2 = StateV {
        stack: s.push(a).push(b),
        queue: seq![TokenV::Word(op_name(op))],
        words: ws,
    };
    let st3 = StateV {
        stack: s.push(a).push(b),
        queue: seq![TokenV::WordIndex(op_index(op))],
        words: ws,
    };
    let st4 = StateV { stack: s.push(apply_op(op, a, b)), queue: Seq::empty(), words: ws };
    assert(st0.queue.drop_first() =~= st1.queue);
    assert(step(st0) == StepRes::Next(st1));
    assert(st1.queue.drop_first() =~= st2.queue);
    assert(step(st1) == StepRes::Next(st2));
    assert(lookup(ws, op_name(op)) == Some(op_index(op)));
    assert(seq![TokenV::WordIndex(op_index(op))] + st2.queue.drop_first() =~= st3.queue);
    assert(step(st2) == StepRes::Next(st3));
    assert(lookup(ws, ":"@) != Some(op_index(op)));
    assert(ws[op_index(op)].kind == Behavior::Arithmetic(op));
    assert(st2.stack.last() == b);
    assert(st2.stack[st2.stack.len() - 2] == a);
    assert(st2.stack.drop_last().drop_last() =~= s);
    assert(st3.queue.drop_first() =~= Seq::<TokenV>::empty());
    assert(step(st3) == StepRes::Next(st4));
    assert(run(st0, 4) == run(st1, 3));
    assert(run(st1, 3) == run(st2, 2));
    assert(run(st2, 2) == run(st3, 1));
    assert(run(st3, 1) == Outcome::Done(st4));
}

/// Law: the semantics is deterministic.  Once an evaluation is decided —
/// `Done` or `Fail` at some fuel — every larger fuel gives the same outcome,
/// so a single witness pins the result of the whole evaluation down.
pub proof fn lemma_run_stable(st: StateV, k: nat, m: nat)
    requires
        k <= m,
        !(run(st, k) is More),
    ensures
        run(st, m) == run(st, k),
    decreases k,
{
    if st.queue.len() == 0 {
    } else if k == 0 {
        assert(false);
    } else {
        match step(st) {
            StepRes::Next(s2) => {
                lemma_run_stable(s2, (k - 1) as nat, (m - 1) as nat);
            },
            StepRes::Stop(s2, e) => {
            },
        }
    }
}

} // verus!

