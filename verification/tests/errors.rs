use lisp::codemap::Source;
use lisp::interner::Interner;
use lisp::lexer::Error_;
use lisp::repl::Repl;

#[test]
fn expected_function() {
    let mut repl = Repl::new();
    assert_eq!(repl.step("(def a 6)").unwrap(), "6\n");
    assert_eq!(
        repl.step("(a 1)").unwrap(),
        "eval error: ExpectedFunction\n(a 1)\n ^\n"
    );
}

#[test]
fn expected_symbol_at_list_head() {
    let mut repl = Repl::new();
    assert_eq!(
        repl.step("(1 2 3)").unwrap(),
        "eval error: ExpectedSymbol\n(1 2 3)\n ^\n"
    );
}

#[test]
fn expected_symbol_in_def_and_let() {
    let mut repl = Repl::new();
    assert_eq!(
        repl.step("(def 1 2)").unwrap(),
        "eval error: ExpectedSymbol\n(def 1 2)\n     ^\n"
    );
    assert_eq!(
        repl.step("(let [1 2] 3)").unwrap(),
        "eval error: ExpectedSymbol\n(let [1 2] 3)\n      ^\n"
    );
}

#[test]
fn unsupported_operation_wrong_arity() {
    let mut repl = Repl::new();
    assert_eq!(
        repl.step("(+ 1)").unwrap(),
        "eval error: UnsupportedOperation\n(+ 1)\n^^^^^\n"
    );
    assert_eq!(
        repl.step("(def a)").unwrap(),
        "eval error: UnsupportedOperation\n(def a)\n^^^^^^^\n"
    );
    assert_eq!(
        repl.step("(if true 1)").unwrap(),
        "eval error: UnsupportedOperation\n(if true 1)\n^^^^^^^^^^^\n"
    );
    assert_eq!(
        repl.step("(let [a 1 b] a)").unwrap(),
        "eval error: UnsupportedOperation\n(let [a 1 b] a)\n^^^^^^^^^^^^^^^\n"
    );
}

#[test]
fn unsupported_operation_division_by_zero_and_overflow() {
    let mut repl = Repl::new();
    assert_eq!(
        repl.step("(/ 1 0)").unwrap(),
        "eval error: UnsupportedOperation\n(/ 1 0)\n^^^^^^^\n"
    );
    assert_eq!(
        repl.step("(* 9223372036854775807 2)").unwrap(),
        "eval error: UnsupportedOperation\n(* 9223372036854775807 2)\n^^^^^^^^^^^^^^^^^^^^^^^^^\n"
    );
    assert_eq!(
        repl.step("(- 0 -9223372036854775808)").unwrap(),
        "eval error: UnsupportedOperation\n(- 0 -9223372036854775808)\n^^^^^^^^^^^^^^^^^^^^^^^^^^\n"
    );
    assert_eq!(
        repl.step("(/ -9223372036854775808 -1)").unwrap(),
        "eval error: UnsupportedOperation\n(/ -9223372036854775808 -1)\n^^^^^^^^^^^^^^^^^^^^^^^^^^^\n"
    );
    assert_eq!(
        repl.step("(+ 1 true)").unwrap(),
        "eval error: UnsupportedOperation\n(+ 1 true)\n^^^^^^^^^^\n"
    );
}

#[test]
fn equality_over_compound_values() {
    let mut repl = Repl::new();
    assert_eq!(repl.step("(= [1 \"a\"] [1 \"a\"])").unwrap(), "true\n");
    assert_eq!(repl.step("(= [1 2] [1 3])").unwrap(), "false\n");
    assert_eq!(repl.step("(= nil false)").unwrap(), "false\n");
    // equality on functions is not specified: it is refused
    assert_eq!(
        repl.step("(= + +)").unwrap(),
        "eval error: UnsupportedOperation\n(= + +)\n^^^^^^^\n"
    );
}

#[test]
fn unbalanced_delimiter_points_at_opener() {
    let mut repl = Repl::new();
    assert_eq!(
        repl.step("(+ 1 2").unwrap(),
        "syntax error: UnbalancedDelimiter\n(+ 1 2\n^\n"
    );
    assert_eq!(
        repl.step("[1 2)").unwrap(),
        "syntax error: UnbalancedDelimiter\n[1 2)\n^\n"
    );
}

#[test]
fn unexpected_token() {
    let mut repl = Repl::new();
    assert_eq!(
        repl.step(")").unwrap(),
        "syntax error: UnexpectedToken\n)\n^\n"
    );
    // a reserved word outside a list head is caught before evaluation
    assert_eq!(
        repl.step("def").unwrap(),
        "syntax error: UnexpectedToken\ndef\n^^^\n"
    );
    assert_eq!(
        repl.step("(+ def 1)").unwrap(),
        "syntax error: UnexpectedToken\n(+ def 1)\n   ^^^\n"
    );
    // trailing tokens after one expression
    assert_eq!(
        repl.step("1 2").unwrap(),
        "syntax error: UnexpectedToken\n1 2\n  ^\n"
    );
}

#[test]
fn invalid_integer() {
    let mut repl = Repl::new();
    assert_eq!(
        repl.step("9223372036854775808").unwrap(),
        "syntax error: InvalidInteger\n9223372036854775808\n^^^^^^^^^^^^^^^^^^^\n"
    );
}

#[test]
fn unterminated_string() {
    let mut repl = Repl::new();
    assert_eq!(
        repl.step("\"abc").unwrap(),
        "syntax error: UnterminatedString\n\"abc\n^^^^\n"
    );
}

#[test]
fn unexpected_end_of_input_from_empty_source() {
    let mut interner = Interner::new();
    let source = Source::new(String::new());
    let r = lisp::parse::expr(&source, &mut interner);
    match r {
        Err(err) => assert_eq!(err.node, Error_::UnexpectedEndOfInput),
        Ok(_) => panic!("an empty source holds no expression"),
    }
}
