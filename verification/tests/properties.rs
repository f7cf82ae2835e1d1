use lisp::ast::Expr_;
use lisp::codemap::Source;
use lisp::interner::Interner;
use lisp::repl::Repl;

#[test]
fn interner_is_idempotent() {
    let mut interner = Interner::new();
    let a = interner.intern("alpha");
    let b = interner.intern("beta");
    assert_ne!(a, b);
    assert_eq!(interner.intern("alpha"), a);
    assert_eq!(interner.intern("beta"), b);
    assert_eq!(interner.get(a), "alpha");
    assert_eq!(interner.get(b), "beta");
}

#[test]
fn parser_spans_contain_children() {
    let mut interner = Interner::new();
    let source = Source::new("(+ 1 [2 34])".to_string());
    let e = lisp::parse::expr(&source, &mut interner).unwrap();
    assert_eq!(e.span.lo, 0);
    assert_eq!(e.span.hi, 12);
    match &e.node {
        Expr_::List(es) => {
            assert_eq!(es.len(), 3);
            for child in es {
                assert!(e.span.lo <= child.span.lo && child.span.hi <= e.span.hi);
            }
            match &es[2].node {
                Expr_::Vector(inner) => {
                    assert_eq!(es[2].span.lo, 5);
                    assert_eq!(es[2].span.hi, 11);
                    for child in inner {
                        assert!(es[2].span.lo <= child.span.lo);
                        assert!(child.span.hi <= es[2].span.hi);
                    }
                },
                _ => panic!("the third element is a vector"),
            }
        },
        _ => panic!("the input is a list"),
    }
}

#[test]
fn parse_print_round_trip_is_canonical() {
    let mut interner = Interner::new();
    let source = Source::new("( +   1,,[ 2  \"a b\" ] )".to_string());
    let e = lisp::parse::expr(&source, &mut interner).unwrap();
    let canonical = lisp::pp::expr(&e, &source);
    assert_eq!(canonical, "(+ 1 [2 \"a b\"])");
    // parsing the canonical form prints it back unchanged
    let source2 = Source::new(canonical.clone());
    let e2 = lisp::parse::expr(&source2, &mut interner).unwrap();
    assert_eq!(lisp::pp::expr(&e2, &source2), canonical);
}

#[test]
fn env_not_mutated_when_def_body_errors() {
    let mut repl = Repl::new();
    let out = repl.step("(def x (foo))").unwrap();
    assert!(out.starts_with("eval error: UndefinedSymbol"));
    // x was never bound
    let out2 = repl.step("x").unwrap();
    assert!(out2.starts_with("eval error: UndefinedSymbol"));
}

#[test]
fn let_bindings_do_not_escape() {
    let mut repl = Repl::new();
    assert_eq!(repl.step("(let [a 1] a)").unwrap(), "1\n");
    let out = repl.step("a").unwrap();
    assert!(out.starts_with("eval error: UndefinedSymbol"));
}

#[test]
fn let_restores_shadowed_bindings() {
    let mut repl = Repl::new();
    assert_eq!(repl.step("(def a 6)").unwrap(), "6\n");
    assert_eq!(repl.step("(let [a 1] a)").unwrap(), "1\n");
    assert_eq!(repl.step("a").unwrap(), "6\n");
}

#[test]
fn falsey_contract() {
    let mut repl = Repl::new();
    assert_eq!(repl.step("(if false 1 2)").unwrap(), "2\n");
    assert_eq!(repl.step("(if nil 1 2)").unwrap(), "2\n");
    assert_eq!(repl.step("(if true 1 2)").unwrap(), "1\n");
    // zero, the empty string and the empty vector are all truthy
    assert_eq!(repl.step("(if 0 1 2)").unwrap(), "1\n");
    assert_eq!(repl.step("(if \"\" 1 2)").unwrap(), "1\n");
    assert_eq!(repl.step("(if [] 1 2)").unwrap(), "1\n");
    assert_eq!(repl.step("(if :k 1 2)").unwrap(), "1\n");
}

#[test]
fn left_to_right_first_failure_reported() {
    let mut repl = Repl::new();
    // the first failing element decides: the caret sits under foo, not bar
    assert_eq!(
        repl.step("[1 (foo) (bar)]").unwrap(),
        "eval error: UndefinedSymbol\n[1 (foo) (bar)]\n    ^^^\n"
    );
    // arguments too are evaluated in source order
    assert_eq!(
        repl.step("(+ (foo) (bar))").unwrap(),
        "eval error: UndefinedSymbol\n(+ (foo) (bar))\n    ^^^\n"
    );
}

#[test]
fn left_to_right_side_effects_in_order() {
    let mut repl = Repl::new();
    // a def inside a vector is evaluated before the elements to its right
    assert_eq!(repl.step("[(def a 1) (+ a 1)]").unwrap(), "[1 2]\n");
}

#[test]
fn nested_let_and_if() {
    let mut repl = Repl::new();
    assert_eq!(
        repl.step("(let [a 1] (let [b (+ a 1)] (if (= b 2) :two :other)))")
            .unwrap(),
        ":two\n"
    );
}
