use forth::Error;
use forth::Forth;

fn run_fresh(code: &str) -> Result<Vec<i32>, Error> {
    let mut f = Forth::new();
    f.eval(code)?;
    Ok(f.stack())
}

#[test]
fn addition() {
    assert_eq!(run_fresh("1 2 +"), Ok(vec![3]));
}

#[test]
fn subtraction() {
    assert_eq!(run_fresh("5 3 -"), Ok(vec![2]));
}

#[test]
fn multiplication() {
    assert_eq!(run_fresh("2 3 *"), Ok(vec![6]));
}

#[test]
fn division_exact() {
    assert_eq!(run_fresh("6 2 /"), Ok(vec![3]));
}

#[test]
fn division_truncates() {
    assert_eq!(run_fresh("7 2 /"), Ok(vec![3]));
}

#[test]
fn division_truncates_toward_zero_for_negatives() {
    assert_eq!(run_fresh("-7 2 /"), Ok(vec![-3]));
}

#[test]
fn division_by_zero() {
    assert_eq!(run_fresh("5 0 /"), Err(Error::DivisionByZero));
}

#[test]
fn division_by_zero_leaves_operands_popped() {
    let mut f = Forth::new();
    assert_eq!(f.eval("5 0 /"), Err(Error::DivisionByZero));
    assert_eq!(f.stack(), Vec::<i32>::new());
}

#[test]
fn stack_underflow_one_operand() {
    assert_eq!(run_fresh("1 +"), Err(Error::StackUnderflow));
}

#[test]
fn stack_underflow_dup_empty() {
    assert_eq!(run_fresh("DUP"), Err(Error::StackUnderflow));
}

#[test]
fn unknown_word() {
    assert_eq!(run_fresh("FOO"), Err(Error::UnknownWord));
}

#[test]
fn word_shadowing() {
    assert_eq!(
        run_fresh(": DOUBLE DUP + ; : DOUBLE DUP DUP + + ; 3 DOUBLE"),
        Ok(vec![9])
    );
}

#[test]
fn compiled_word_expansion() {
    assert_eq!(run_fresh(": SQ DUP * ; 4 SQ"), Ok(vec![16]));
}

#[test]
fn nested_compiled_words() {
    assert_eq!(run_fresh(": SQ DUP * ; : QUAD SQ SQ ; 2 QUAD"), Ok(vec![16]));
}

#[test]
fn unterminated_definition() {
    assert_eq!(run_fresh(": X DUP"), Err(Error::InvalidWord));
}

#[test]
fn unterminated_definition_adds_no_entry() {
    let mut f = Forth::new();
    assert_eq!(f.eval(": X DUP"), Err(Error::InvalidWord));
    assert_eq!(f.eval("1 X"), Err(Error::UnknownWord));
}

#[test]
fn unterminated_definition_keeps_earlier_effects() {
    let mut f = Forth::new();
    assert_eq!(f.eval("1 2 + : X"), Err(Error::InvalidWord));
    assert_eq!(f.stack(), vec![3]);
}

#[test]
fn definition_name_must_be_a_word() {
    assert_eq!(run_fresh(": 5 DUP ;"), Err(Error::InvalidWord));
}

#[test]
fn forward_reference_rejected() {
    assert_eq!(run_fresh(": A B ;"), Err(Error::InvalidWord));
}

#[test]
fn over_ordering() {
    assert_eq!(run_fresh("1 2 OVER"), Ok(vec![1, 2, 1]));
}

#[test]
fn swap_ordering() {
    assert_eq!(run_fresh("1 2 SWAP"), Ok(vec![2, 1]));
}

#[test]
fn drop_removes_top() {
    assert_eq!(run_fresh("1 2 DROP"), Ok(vec![1]));
}

#[test]
fn case_insensitive_words() {
    assert_eq!(run_fresh("3 dup"), Ok(vec![3, 3]));
    assert_eq!(run_fresh("3 DUP"), Ok(vec![3, 3]));
}

#[test]
fn case_insensitive_definitions() {
    assert_eq!(run_fresh(": sq dup * ; 4 SQ"), Ok(vec![16]));
}

#[test]
fn definitions_do_not_leak_between_sessions() {
    let mut f1 = Forth::new();
    assert_eq!(f1.eval(": D DUP ;"), Ok(()));
    let mut f2 = Forth::new();
    assert_eq!(f2.eval("3 D"), Err(Error::UnknownWord));
}

#[test]
fn definitions_persist_within_a_session() {
    let mut f = Forth::new();
    assert_eq!(f.eval(": D DUP + ;"), Ok(()));
    assert_eq!(f.eval("3 D"), Ok(()));
    assert_eq!(f.stack(), vec![6]);
}

#[test]
fn empty_input_is_ok() {
    assert_eq!(run_fresh(""), Ok(vec![]));
    assert_eq!(run_fresh("  \t \n "), Ok(vec![]));
}

#[test]
fn stack_is_bottom_to_top() {
    assert_eq!(run_fresh("1 2 3"), Ok(vec![1, 2, 3]));
}

#[test]
fn negative_and_signed_literals() {
    assert_eq!(run_fresh("-3 4 +"), Ok(vec![1]));
    assert_eq!(run_fresh("+5"), Ok(vec![5]));
}

#[test]
fn extreme_literals() {
    assert_eq!(run_fresh("-2147483648"), Ok(vec![i32::MIN]));
    assert_eq!(run_fresh("2147483647"), Ok(vec![i32::MAX]));
}

#[test]
fn out_of_range_literal_is_a_word() {
    assert_eq!(run_fresh("2147483648"), Err(Error::UnknownWord));
}

#[test]
fn malformed_literal_is_a_word() {
    assert_eq!(run_fresh("1.5"), Err(Error::UnknownWord));
    assert_eq!(run_fresh("-"), Err(Error::StackUnderflow));
}

#[test]
fn addition_wraps() {
    assert_eq!(run_fresh("2147483647 1 +"), Ok(vec![i32::MIN]));
}

#[test]
fn division_overflow_wraps() {
    assert_eq!(run_fresh("-2147483648 -1 /"), Ok(vec![i32::MIN]));
}

#[test]
fn whitespace_and_controls_separate_tokens() {
    assert_eq!(run_fresh("1\t2\n+\u{0001}3 *"), Ok(vec![9]));
}

#[test]
fn early_binding_of_shadowed_references() {
    // QUAD captured SQ before SQ was redefined, so it still squares twice.
    assert_eq!(
        run_fresh(": SQ DUP * ; : QUAD SQ SQ ; : SQ DUP ; 2 QUAD"),
        Ok(vec![16])
    );
}

#[test]
fn definition_body_may_hold_numbers() {
    assert_eq!(run_fresh(": TEN 10 ; TEN TEN +"), Ok(vec![20]));
}
