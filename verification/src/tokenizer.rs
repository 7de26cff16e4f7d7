//! The tokenizer: split a line on whitespace and ASCII control characters,
//! turn each fragment into a number if it is a base-10 signed integer
//! literal that fits [`crate::token::Value`], and into an upper-cased word
//! name otherwise.  It is a pure function of the input and never fails.

use std::collections::VecDeque;
use vstd::prelude::*;

use crate::token::Token;
use crate::token::TokenV;

verus! {

/// Unicode `White_Space`, as `char::is_whitespace` decides it.
pub uninterp spec fn is_unicode_space(c: char) -> bool;

/// Relies on `char::is_whitespace`: whether a character has the Unicode
/// `White_Space` property is a function of the character alone.
#[verifier::external_body]
fn is_space(c: char) -> (r: bool)
    ensures
        r == is_unicode_space(c),
{
    c.is_whitespace()
}

/// The upper-cased form of a character sequence, as `str::to_uppercase`
/// produces it.
pub uninterp spec fn upper_of(s: Seq<char>) -> Seq<char>;

/// Relies on `str::to_uppercase`: the Unicode upper-cased form is a function
/// of the characters alone.
#[verifier::external_body]
fn to_upper(s: &str) -> (r: String)
    ensures
        r@ == upper_of(s@),
{
    s.to_uppercase()
}

/// Fragment boundaries: any whitespace or ASCII control character.
pub open spec fn is_separator_char(c: char) -> bool {
    is_unicode_space(c) || c as u32 <= 0x1F || c as u32 == 0x7F
}

fn is_separator(c: char) -> (r: bool)
    ensures
        r == is_separator_char(c),
{
    let u = c as u32;
    is_space(c) || u <= 0x1F || u == 0x7F
}

/// An ASCII decimal digit.
pub open spec fn is_digit(c: char) -> bool {
    48 <= c as u32 && c as u32 <= 57
}

/// The numeric value of an ASCII decimal digit.
pub open spec fn digit_val(c: char) -> int {
    c as u32 - 48
}

pub open spec fn all_digits(s: Seq<char>) -> bool {
    forall|i: int| 0 <= i < s.len() ==> is_digit(#[trigger] s[i])
}

/// The value of a digit string, most significant digit first.
pub open spec fn digits_value(s: Seq<char>) -> int
    decreases s.len(),
{
    if s.len() == 0 {
        0
    } else {
        digits_value(s.drop_last()) * 10 + digit_val(s.last())
    }
}

/// The value of a base-10 signed integer literal: an optional leading `-` or
/// `+`, then one or more digits and nothing else; `None` for any other text.
pub open spec fn int_literal_value(s: Seq<char>) -> Option<int> {
    let ds = if s.len() > 0 && (s[0] == '-' || s[0] == '+') {
        s.drop_first()
    } else {
        s
    };
    if ds.len() > 0 && all_digits(ds) {
        if s[0] == '-' {
            Some(-digits_value(ds))
        } else {
            Some(digits_value(ds))
        }
    } else {
        None
    }
}

/// How a fragment becomes a token: an integer literal that fits the operand
/// type is a number; anything else is an upper-cased word name, deferred to
/// resolution.
pub open spec fn classify(f: Seq<char>) -> TokenV {
    match int_literal_value(f) {
        Some(v) => if i32::MIN <= v && v <= i32::MAX {
            TokenV::Number(v as i32)
        } else {
            TokenV::Word(upper_of(f))
        },
        None => TokenV::Word(upper_of(f)),
    }
}

/// The length of the run of non-separator characters starting at `i`.
pub open spec fn frag_len_from(s: Seq<char>, i: int) -> int
    decreases s.len() - i,
{
    if i < 0 || i >= s.len() || is_separator_char(s[i]) {
        0
    } else {
        1 + frag_len_from(s, i + 1)
    }
}

pub proof fn lemma_frag_len_from_bounds(s: Seq<char>, i: int)
    requires
        0 <= i <= s.len(),
    ensures
        0 <= frag_len_from(s, i),
        i + frag_len_from(s, i) <= s.len(),
    decreases s.len() - i,
{
    if i < s.len() && !is_separator_char(s[i]) {
        lemma_frag_len_from_bounds(s, i + 1);
    }
}

/// A maximal run of non-separators, observed left to right, has exactly the
/// length of the scan that found it.
pub proof fn lemma_frag_len_from_scan(s: Seq<char>, i: int, j: int)
    requires
        0 <= i <= j <= s.len(),
        forall|m: int| i <= m < j ==> !is_separator_char(#[trigger] s[m]),
        j == s.len() || is_separator_char(s[j]),
    ensures
        frag_len_from(s, i) == j - i,
    decreases j - i,
{
    if i < j {
        lemma_frag_len_from_scan(s, i + 1, j);
    }
}

/// The tokens of the input from position `i` on.
pub open spec fn tokens_from(s: Seq<char>, i: int) -> Seq<TokenV>
    decreases s.len() - i,
    via tokens_from_decreases
{
    if i < 0 || i >= s.len() {
        Seq::empty()
    } else if is_separator_char(s[i]) {
        tokens_from(s, i + 1)
    } else {
        seq![classify(s.subrange(i, i + frag_len_from(s, i)))] + tokens_from(
            s,
            i + frag_len_from(s, i),
        )
    }
}

#[via_fn]
proof fn tokens_from_decreases(s: Seq<char>, i: int) {
    if 0 <= i && i < s.len() && !is_separator_char(s[i]) {
        lemma_frag_len_from_bounds(s, i);
        lemma_frag_len_from_bounds(s, i + 1);
        assert(frag_len_from(s, i) == 1 + frag_len_from(s, i + 1));
    }
}

/// The token sequence of a whole input line.
pub open spec fn tokens_of(s: Seq<char>) -> Seq<TokenV> {
    tokens_from(s, 0)
}

/// A digit string is worth no less than any of its prefixes, and no digit
/// string is worth less than zero.
pub proof fn lemma_digits_value_monotone(ds: Seq<char>, k: int)
    requires
        0 <= k <= ds.len(),
        all_digits(ds),
    ensures
        0 <= digits_value(ds.subrange(0, k)) <= digits_value(ds),
    decreases ds.len(),
{
    if ds.len() == 0 {
        assert(ds.subrange(0, k) =~= ds);
    } else if k == ds.len() {
        assert(ds.subrange(0, k) =~= ds);
        lemma_digits_value_monotone(ds.drop_last(), ds.len() - 1);
        assert(ds.drop_last() =~= ds.subrange(0, ds.len() - 1));
    } else {
        assert(ds.drop_last().subrange(0, k) =~= ds.subrange(0, k));
        lemma_digits_value_monotone(ds.drop_last(), k);
    }
}

/// Parse a fragment as a base-10 signed 32-bit integer, exactly when
/// [`int_literal_value`] gives a value that fits.
fn parse_i32(f: &str) -> (r: Option<i32>)
    ensures
        r == (match int_literal_value(f@) {
            Some(v) => if i32::MIN <= v && v <= i32::MAX {
                Some(v as i32)
            } else {
                None::<i32>
            },
            None => None::<i32>,
        }),
{
    let n = f.unicode_len();
    if n == 0 {
        return None;
    }
    let c0 = f.get_char(0);
    let neg = c0 == '-';
    let has_sign = neg || c0 == '+';
    let start: usize = if has_sign {
        1
    } else {
        0
    };
    if start == n {
        // a bare sign has no digits
        return None;
    }
    let ghost ds: Seq<char> = if has_sign {
        f@.drop_first()
    } else {
        f@
    };
    assert(ds =~= f@.subrange(start as int, n as int));
    let mut acc: i32 = 0;
    let mut i: usize = start;
    while i < n
        invariant
            n == f@.len(),
            start <= i <= n,
            start < n,
            ds == f@.subrange(start as int, n as int),
            (has_sign ==> ds == f@.drop_first()),
            (!has_sign ==> ds == f@),
            (has_sign ==> start == 1 && (f@[0] == '-' || f@[0] == '+')),
            (!has_sign ==> start == 0 && !(f@[0] == '-' || f@[0] == '+')),
            neg <==> (f@[0] == '-' && has_sign),
            forall|m: int| 0 <= m < i - start ==> is_digit(#[trigger] ds[m]),
            neg ==> i32::MIN <= acc <= 0 && acc as int == -digits_value(
                ds.subrange(0, i - start),
            ),
            !neg ==> 0 <= acc && acc as int == digits_value(ds.subrange(0, i - start)),
        decreases n - i,
    {
        let c = f.get_char(i);
        let u = c as u32;
        if u < 48 || u > 57 {
            // not a digit: the fragment is not an integer literal
            assert(!is_digit(ds[i - start]));
            assert(!all_digits(ds));
            assert(int_literal_value(f@) is None);
            return None;
        }
        let d = (u - 48) as i32;
        let ghost pre: Seq<char> = ds.subrange(0, i - start);
        let ghost post: Seq<char> = ds.subrange(0, i + 1 - start);
        assert(post.drop_last() =~= pre && post.last() == ds[i - start]);
        assert(digits_value(post) == digits_value(pre) * 10 + digit_val(ds[i - start]));
        if neg {
            let step1 = match acc.checked_mul(10) {
                Some(x) => x,
                None => {
                    proof {
                        lemma_overflow_negative(f@, ds, i - start + 1);
                    }
                    return None;
                },
            };
            acc = match step1.checked_sub(d) {
                Some(x) => x,
                None => {
                    proof {
                        lemma_overflow_negative(f@, ds, i - start + 1);
                    }
                    return None;
                },
            };
        } else {
            let step1 = match acc.checked_mul(10) {
                Some(x) => x,
                None => {
                    proof {
                        lemma_overflow_positive(f@, ds, i - start + 1);
                    }
                    return None;
                },
            };
            acc = match step1.checked_add(d) {
                Some(x) => x,
                None => {
                    proof {
                        lemma_overflow_positive(f@, ds, i - start + 1);
                    }
                    return None;
                },
            };
        }
        i = i + 1;
    }
    proof {
        assert(ds.subrange(0, (n - start) as int) =~= ds);
        assert(all_digits(ds));
    }
    Some(acc)
}

/// If some prefix of the digit part is already worth more than `i32::MAX`
/// admits for a positive literal, the whole literal is rejected.
proof fn lemma_overflow_positive(f: Seq<char>, ds: Seq<char>, k: int)
    requires
        0 <= k <= ds.len(),
        ds == (if f.len() > 0 && (f[0] == '-' || f[0] == '+') {
            f.drop_first()
        } else {
            f
        }),
        f.len() > 0,
        !(f[0] == '-'),
        digits_value(ds.subrange(0, k)) > i32::MAX,
    ensures
        (match int_literal_value(f) {
            Some(v) => !(i32::MIN <= v && v <= i32::MAX),
            None => true,
        }),
{
    if ds.len() > 0 && all_digits(ds) {
        lemma_digits_value_monotone(ds, k);
    }
}

/// The same for a negative literal and `i32::MIN`.
proof fn lemma_overflow_negative(f: Seq<char>, ds: Seq<char>, k: int)
    requires
        0 <= k <= ds.len(),
        ds == (if f.len() > 0 && (f[0] == '-' || f[0] == '+') {
            f.drop_first()
        } else {
            f
        }),
        f.len() > 0,
        f[0] == '-',
        -digits_value(ds.subrange(0, k)) < i32::MIN,
    ensures
        (match int_literal_value(f) {
            Some(v) => !(i32::MIN <= v && v <= i32::MAX),
            None => true,
        }),
{
    if ds.len() > 0 && all_digits(ds) {
        lemma_digits_value_monotone(ds, k);
    }
}

/// Turn one fragment into a token.
fn classify_fragment(f: &str) -> (t: Token)
    ensures
        t@ == classify(f@),
{
    match parse_i32(f) {
        Some(v) => Token::Number(v),
        None => Token::Word(to_upper(f)),
    }
}

/// The tokenizer never produces resolved references: every token is a word
/// name or a number.
pub proof fn lemma_tokens_from_unresolved(s: Seq<char>, i: int)
    ensures
        forall|j: int|
            0 <= j < tokens_from(s, i).len() ==> !(#[trigger] tokens_from(s, i)[j] matches
            TokenV::WordIndex(_)),
    decreases s.len() - i,
{
    if i < 0 || i >= s.len() {
    } else if is_separator_char(s[i]) {
        lemma_tokens_from_unresolved(s, i + 1);
    } else {
        lemma_frag_len_from_bounds(s, i);
        lemma_frag_len_from_bounds(s, i + 1);
        lemma_tokens_from_unresolved(s, i + frag_len_from(s, i));
    }
}

/// Tokenize a line: split on whitespace and ASCII control characters,
/// discard empty fragments, classify the rest.  Pure, total, never fails.
pub fn parse(s: &str) -> (r: VecDeque<Token>)
    ensures
        r.deep_view() == tokens_of(s@),
{
    let n = s.unicode_len();
    let mut r: VecDeque<Token> = VecDeque::new();
    let mut i: usize = 0;
    while i < n
        invariant
            n == s@.len(),
            0 <= i <= n,
            tokens_of(s@) == r.deep_view() + tokens_from(s@, i as int),
        decreases n - i,
    {
        let c = s.get_char(i);
        if is_separator(c) {
            proof {
                assert(tokens_from(s@, i as int) == tokens_from(s@, i + 1));
            }
            i = i + 1;
        } else {
            let start = i;
            i = i + 1;
            while i < n && !is_separator(s.get_char(i))
                invariant
                    n == s@.len(),
                    start < i <= n,
                    forall|m: int| start <= m < i ==> !is_separator_char(#[trigger] s@[m]),
                decreases n - i,
            {
                i = i + 1;
            }
            let frag = s.substring_char(start, i);
            proof {
                lemma_frag_len_from_scan(s@, start as int, i as int);
            }
            let tok = classify_fragment(frag);
            r.push_back(tok);
            proof {
                assert(r.deep_view() =~= r.deep_view().drop_last().push(tok@));
                assert(tokens_of(s@) =~= (r.deep_view() + tokens_from(s@, i as int)));
            }
        }
    }
    proof {
        assert(tokens_of(s@) =~= r.deep_view());
    }
    r
}

} // verus!
