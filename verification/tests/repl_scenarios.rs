use lisp::repl::Repl;

#[test]
fn addition() {
    let mut repl = Repl::new();
    assert_eq!(repl.step("(+ 1 2)").unwrap(), "3\n");
}

#[test]
fn def_then_use() {
    let mut repl = Repl::new();
    assert_eq!(repl.step("(def a 6)").unwrap(), "6\n");
    assert_eq!(repl.step("(* a 7)").unwrap(), "42\n");
}

#[test]
fn if_with_equality() {
    let mut repl = Repl::new();
    assert_eq!(repl.step("(if (= 0 0) :yes :no)").unwrap(), ":yes\n");
}

#[test]
fn let_bindings_see_earlier_ones() {
    let mut repl = Repl::new();
    assert_eq!(repl.step("(let [a 1 b (+ a 2)] (+ a b))").unwrap(), "4\n");
}

#[test]
fn undefined_symbol_diagnostic() {
    let mut repl = Repl::new();
    assert_eq!(
        repl.step("(foo 1 2)").unwrap(),
        "eval error: UndefinedSymbol\n(foo 1 2)\n ^^^\n"
    );
}

#[test]
fn empty_list_diagnostic() {
    let mut repl = Repl::new();
    assert_eq!(repl.step("()").unwrap(), "eval error: EmptyList\n()\n^^\n");
}

#[test]
fn vector_display() {
    let mut repl = Repl::new();
    assert_eq!(repl.step("[1 \"two\" [3]]").unwrap(), "[1 two [3]]\n");
}

#[test]
fn blank_line_is_skipped() {
    let mut repl = Repl::new();
    assert_eq!(repl.step("   , \t "), None);
    assert_eq!(repl.step(""), None);
}

#[test]
fn repl_persistence_across_iterations() {
    let mut repl = Repl::new();
    assert_eq!(repl.step("(def x 10)").unwrap(), "10\n");
    assert_eq!(repl.step("x").unwrap(), "10\n");
    assert_eq!(repl.step("(def x 11)").unwrap(), "11\n");
    assert_eq!(repl.step("x").unwrap(), "11\n");
}

#[test]
fn subtraction_multiplication_division() {
    let mut repl = Repl::new();
    assert_eq!(repl.step("(- 1 10)").unwrap(), "-9\n");
    assert_eq!(repl.step("(* -3 4)").unwrap(), "-12\n");
    assert_eq!(repl.step("(/ 7 2)").unwrap(), "3\n");
    assert_eq!(repl.step("(/ -7 2)").unwrap(), "-3\n");
}

#[test]
fn scalar_displays() {
    let mut repl = Repl::new();
    assert_eq!(repl.step("true").unwrap(), "true\n");
    assert_eq!(repl.step("false").unwrap(), "false\n");
    assert_eq!(repl.step("nil").unwrap(), "nil\n");
    assert_eq!(repl.step(":foo").unwrap(), ":foo\n");
    assert_eq!(repl.step("0").unwrap(), "0\n");
    assert_eq!(repl.step("-9223372036854775808").unwrap(), "-9223372036854775808\n");
    assert_eq!(repl.step("9223372036854775807").unwrap(), "9223372036854775807\n");
    assert_eq!(repl.step("+").unwrap(), "<function>\n");
}

#[test]
fn string_contents_are_verbatim() {
    let mut repl = Repl::new();
    assert_eq!(repl.step("\"hi\"").unwrap(), "hi\n");
    // escapes are kept byte for byte; the backslash survives
    assert_eq!(repl.step("\"a\\nb\"").unwrap(), "a\\nb\n");
    assert_eq!(repl.step("\"\"").unwrap(), "\n");
}
