use pale::ast::make_ast;
use pale::ast::Interp;
use pale::ast::Scope;
use pale::callable::IntrinsicOp;
use pale::error::LispErrors;
use pale::run_lisp;
use pale::run_lisp_logged;
use pale::tokens::tokenize;
use pale::tokens::Location;
use pale::types::LispValue;

fn loc(filename: &str, line: usize, col: usize) -> Location {
    Location { filename: filename.to_string(), line, col }
}

#[test]
fn test_addition() {
    assert_eq!(run_lisp("(+ 34 (+ 34 1))", "<provided>").unwrap(), "69");
}

#[test]
fn arithmetic_results() {
    assert_eq!(run_lisp("(+ 34 35)", "-").unwrap(), "69");
    assert_eq!(run_lisp("(* 2 3 4)", "-").unwrap(), "24");
    assert_eq!(run_lisp("(- 10 3 2)", "-").unwrap(), "5");
}

#[test]
fn addition_wraps_around() {
    assert_eq!(
        run_lisp("(+ 9223372036854775807 1)", "-").unwrap(),
        "-9223372036854775808"
    );
}

#[test]
fn single_wrapped_statement_flattens() {
    assert_eq!(run_lisp("((+ 1 2))", "-").unwrap(), "3");
}

#[test]
fn outermost_wrapper_is_optional() {
    assert_eq!(run_lisp("+ 1 2", "-").unwrap(), "3");
    assert_eq!(
        run_lisp("+ 1 2)", "-").unwrap_err().render(),
        "-:0:5 - Unmatched closing parentheses!\n\tNOTE: Delete it."
    );
}

#[test]
fn print_logs_its_argument_and_returns_zero() {
    let (lines, res) = run_lisp_logged("(print (+ 34 35))", "-");
    assert_eq!(res.unwrap(), "0");
    assert_eq!(lines, vec!["69".to_string()]);
}

#[test]
fn wrap_sugar_runs() {
    let (lines, res) = run_lisp_logged("$print 5", "-");
    assert_eq!(res.unwrap(), "0");
    assert_eq!(lines, vec!["5".to_string()]);
}

#[test]
fn display_forms() {
    let (lines, _) = run_lisp_logged("(print \"hi\")", "-");
    assert_eq!(lines, vec!["hi".to_string()]);
    let (lines, _) = run_lisp_logged("(print nil)", "-");
    assert_eq!(lines, vec!["nil".to_string()]);
    let (lines, _) = run_lisp_logged("(print 1.50)", "-");
    assert_eq!(lines, vec!["1.50".to_string()]);
    let (lines, _) = run_lisp_logged("(print print)", "-");
    assert_eq!(lines, vec!["<Function>".to_string()]);
    let (lines, _) = run_lisp_logged("(print -7)", "-");
    assert_eq!(lines, vec!["-7".to_string()]);
}

#[test]
fn let_binds_names_for_the_body() {
    assert_eq!(run_lisp("(let ((x 34)) (+ x 35))", "-").unwrap(), "69");
    let (lines, res) = run_lisp_logged("(let ((x 1)) (print x))", "-");
    assert_eq!(res.unwrap(), "0");
    assert_eq!(lines, vec!["1".to_string()]);
}

#[test]
fn let_body_must_be_a_statement() {
    // A bare identifier after the binding list is not a call and not a
    // nested statement, so the expression is rejected as a raw list.
    let expect = "-:0:0 - Raw lists are not available (Yet...)!\n\tNOTE: This is not a function.\n\tNOTE: Use the `list` intrinsic to convert this to a list.";
    assert_eq!(run_lisp("(let ((x 1)) x)", "-").unwrap_err().render(), expect);
}

#[test]
fn empty_binding_lists_are_allowed() {
    let (lines, res) = run_lisp_logged("(let () (print 1))", "-");
    assert_eq!(res.unwrap(), "0");
    assert_eq!(lines, vec!["1".to_string()]);
}

#[test]
fn resolving_twice_caches_handle_and_effect() {
    let toks = tokenize("(print 5)", "-".to_string()).unwrap();
    let mut it = Interp::new();
    let mut scope = Scope::new_default(&mut it);
    let start = loc("-", 0, 0);
    let n = toks.len();
    let mut ast = make_ast(&toks, 0, n, &mut it, &mut scope, &start).unwrap();
    let v1 = ast.resolve(&mut it).unwrap();
    let v2 = ast.resolve(&mut it).unwrap();
    assert_eq!(v1, v2);
    assert_eq!(it.output().len(), 1);
    assert_eq!(it.output()[0], "5");
}

#[test]
fn new_ref_aliases_and_maybe_clone_copies() {
    let mut it = Interp::new();
    let a = it.new_var(LispValue::Integer(1));
    let b = a.new_ref();
    it.set(&a, LispValue::Integer(7));
    match it.get(&b) {
        LispValue::Integer(i) => assert_eq!(*i, 7),
        _ => panic!("expected an integer through the alias"),
    }
    let c = it.maybe_clone(&b);
    assert_ne!(b.new_ref(), c.new_ref());
    it.set(&b, LispValue::Integer(9));
    match it.get(&c) {
        LispValue::Integer(i) => assert_eq!(*i, 7),
        _ => panic!("expected the copy to keep its value"),
    }
    match it.get(&a) {
        LispValue::Integer(i) => assert_eq!(*i, 9),
        _ => panic!("expected the write to reach every alias"),
    }
}

#[test]
fn lists_display_space_joined() {
    let mut it = Interp::new();
    let a = it.new_var(LispValue::Integer(1));
    let b = it.new_var(LispValue::Str("x".to_string()));
    let l = it.new_var(LispValue::List(vec![a, b]));
    assert_eq!(it.display(&l), "(1 x)");
    let e = it.new_var(LispValue::List(vec![]));
    assert_eq!(it.display(&e), "()");
}

#[test]
fn cloning_allocates_a_fresh_cell() {
    let mut it = Interp::new();
    let a = it.new_var(LispValue::Integer(5));
    assert_eq!(it.cell_count(), 1);
    let _b = a.new_ref();
    assert_eq!(it.cell_count(), 1);
    let _c = it.maybe_clone(&a);
    assert_eq!(it.cell_count(), 2);
}

#[test]
fn lists_clone_deeply() {
    let mut it = Interp::new();
    let a = it.new_var(LispValue::Integer(1));
    let inner = it.new_var(LispValue::List(vec![a.new_ref()]));
    let b = it.new_var(LispValue::Str("x".to_string()));
    let outer = it.new_var(LispValue::List(vec![inner, b]));
    let copy = it.maybe_clone(&outer);
    assert_ne!(outer.new_ref(), copy.new_ref());
    // A write through the original's nested element handle is not seen
    // through the copy.
    it.set(&a, LispValue::Integer(9));
    assert_eq!(it.display(&outer), "((9) x)");
    assert_eq!(it.display(&copy), "((1) x)");
}

#[test]
fn maybe_clone_shares_callables() {
    let mut it = Interp::new();
    let f = it.new_var(LispValue::Func(IntrinsicOp::Add));
    let g = it.maybe_clone(&f);
    assert_eq!(f.new_ref(), g.new_ref());
}

#[test]
fn type_error_names_operator_and_value() {
    let err = run_lisp("(+ 1 \"a\")", "-").unwrap_err();
    assert_eq!(
        err.render(),
        "-:0:1 - Incompatible types for addition: Integer and a"
    );
}

#[test]
fn subtraction_and_multiplication_type_errors() {
    assert_eq!(
        run_lisp("(- \"a\" 1)", "-").unwrap_err().render(),
        "-:0:1 - Cannot subtract from a non-integer!"
    );
    assert_eq!(
        run_lisp("(- 1 \"a\")", "-").unwrap_err().render(),
        "-:0:1 - Cannot subtract a non-integer type from an integer!"
    );
    assert_eq!(
        run_lisp("(* 1 \"a\")", "-").unwrap_err().render(),
        "-:0:1 - Cannot multiply with non-integer type!"
    );
}

#[test]
fn arithmetic_needs_two_arguments() {
    assert_eq!(
        run_lisp("(+ 1)", "-").unwrap_err().render(),
        "-:0:1 - Addition requires at least two arguments!"
    );
    assert_eq!(
        run_lisp("(- 1)", "-").unwrap_err().render(),
        "-:0:1 - Subtraction requires at least two arguments!"
    );
    assert_eq!(
        run_lisp("(* 1)", "-").unwrap_err().render(),
        "-:0:1 - Multiplication requires at least two arguments!"
    );
}

#[test]
fn print_takes_exactly_one_argument() {
    assert_eq!(
        run_lisp("(print 1 2)", "-").unwrap_err().render(),
        "-:0:1 - Print intrinsic requires only one argument!\n\tNOTE: Try wrapping this in a statement with `$`."
    );
}

#[test]
fn unknown_identifier_reports_its_location() {
    assert_eq!(
        run_lisp("(foo 1)", "-").unwrap_err().render(),
        "-:0:1 - Unknown identifier `foo`!"
    );
}

#[test]
fn shadowing_is_rejected() {
    assert_eq!(
        run_lisp("(let ((x 1) (x 2)) x)", "-").unwrap_err().render(),
        "-:0:15 - Shadowing is not currently allowed!\n\tNOTE: Change its name."
    );
}

#[test]
fn lone_parentheses_are_unmatched() {
    assert_eq!(
        run_lisp("(", "-").unwrap_err().render(),
        "-:0:0 - Unmatched opening parentheses!\n\tNOTE: Deleting it might fix this error."
    );
    assert_eq!(
        run_lisp(")", "-").unwrap_err().render(),
        "-:0:0 - Unmatched closing parentheses!\n\tNOTE: Delete it."
    );
    assert_eq!(
        run_lisp("(+ 1 2", "-").unwrap_err().render(),
        "-:0:0 - Unmatched opening parentheses!\n\tNOTE: Deleting it might fix this error."
    );
}

#[test]
fn empty_statements_are_rejected() {
    assert_eq!(
        run_lisp("()", "-").unwrap_err().render(),
        "-:0:0 - Empty statements are not allowed!"
    );
}

#[test]
fn raw_lists_are_rejected() {
    let expect = "-:0:0 - Raw lists are not available (Yet...)!\n\tNOTE: This is not a function.\n\tNOTE: Use the `list` intrinsic to convert this to a list.";
    assert_eq!(run_lisp("(1 2)", "-").unwrap_err().render(), expect);
    assert_eq!(run_lisp("5", "-").unwrap_err().render(), expect);
}

#[test]
fn lambda_is_not_implemented() {
    assert_eq!(
        run_lisp("(lambda x)", "-").unwrap_err().render(),
        "-:0:1 - The `lambda` keyword is not implemented!"
    );
}

#[test]
fn let_bindings_must_carry_values() {
    assert_eq!(
        run_lisp("(let ((x)) x)", "-").unwrap_err().render(),
        "-:0:6 - Variable defined in parentheses must have an initial value.\n\tNOTE: -:0:6 - Remove the parentheses around it."
    );
}

#[test]
fn sibling_bindings_cannot_depend_on_each_other() {
    assert_eq!(
        run_lisp("(let ((x 1) (y x)) (print y))", "-").unwrap_err().render(),
        "-:0:15 - Making a variable depend upon another in the statement is not currently implemented!"
    );
}

#[test]
fn stray_literal_in_binding_list() {
    assert_eq!(
        run_lisp("(let (5) x)", "-").unwrap_err().render(),
        "-:0:6 - Unknown literal in `let` statement.\n\tNOTE: Bind it to a variable name.\n\tNOTE: -:0:6 - Delete it."
    );
}

#[test]
fn diagnostics_builder_renders_entries_and_notes() {
    let here = loc("f", 2, 7);
    let errs = LispErrors::new().error(&here, "first thing").note(None, "plain note").note(
        Some(&here),
        "placed note",
    );
    assert_eq!(
        errs.render(),
        "f:2:7 - first thing\n\tNOTE: plain note\n\tNOTE: f:2:7 - placed note"
    );
    let mut both = LispErrors::new().error(&here, "one");
    both.extend(LispErrors::new().error(&here, "two"));
    assert_eq!(both.render(), "f:2:7 - onef:2:7 - two");
}
