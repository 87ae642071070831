//! The runtime value model: the tagged union of everything the language can
//! produce, and the built-in callables. A float value carries the literal
//! text of its token; list values hold handles to their element cells.
use crate::ast::vars_eq;
use crate::callable::IntrinsicOp;
use crate::ast::Statement;
use crate::ast::StmtV;
use crate::ast::Var;
use vstd::prelude::*;

verus! {

/// A runtime value.
#[derive(Debug)]
pub enum LispValue {
    Integer(i64),
    Str(String),
    /// A float, carried as the literal text of its token.
    Floating(String),
    Nil,
    /// A list of element handles; representable, not yet constructible from
    /// surface syntax.
    List(Vec<Var>),
    /// A callable value.
    Func(IntrinsicOp),
    /// An unevaluated nested expression.
    Statement(Statement),
}

/// Mathematical image of a runtime value.
#[verifier::ext_equal]
pub ghost enum ValueV {
    Integer(int),
    Str(Seq<char>),
    Floating(Seq<char>),
    Nil,
    List(Seq<int>),
    Func(IntrinsicOp),
    Statement(StmtV),
}

impl View for LispValue {
    type V = ValueV;

    open spec fn view(&self) -> ValueV {
        match self {
            LispValue::Integer(i) => ValueV::Integer(*i as int),
            LispValue::Str(s) => ValueV::Str(s@),
            LispValue::Floating(s) => ValueV::Floating(s@),
            LispValue::Nil => ValueV::Nil,
            LispValue::List(l) => ValueV::List(l@.map_values(|v: Var| v@)),
            LispValue::Func(op) => ValueV::Func(*op),
            LispValue::Statement(s) => ValueV::Statement(s@),
        }
    }
}

/// Whether a value is callable.
pub open spec fn is_func_v(v: ValueV) -> bool {
    v is Func
}

/// Whether a value is an unevaluated statement.
pub open spec fn is_stmt_v(v: ValueV) -> bool {
    v is Statement
}

impl LispValue {
    /// A copy of a plain value: numbers, texts, `nil` and intrinsic
    /// callables copy; a value that holds handles or an expression copies
    /// as `nil`, though no token ever carries one.
    pub fn clone_data(&self) -> (r: LispValue)
        ensures
            crate::ast::scalar_v(self@) ==> r@ == self@,
            !crate::ast::scalar_v(self@) ==> r@ == ValueV::Nil,
            crate::ast::scalar_v(r@),
            !(r@ is Statement),
    {
        match self {
            LispValue::Integer(i) => LispValue::Integer(*i),
            LispValue::Str(s) => LispValue::Str(s.clone()),
            LispValue::Floating(s) => LispValue::Floating(s.clone()),
            LispValue::Nil => LispValue::Nil,
            LispValue::Func(o) => LispValue::Func(*o),
            _ => LispValue::Nil,
        }
    }

    /// Whether this value is callable.
    pub fn is_func(&self) -> (r: bool)
        ensures
            r == is_func_v(self@),
    {
        match self {
            LispValue::Func(_) => true,
            _ => false,
        }
    }

    /// Whether this value is an unevaluated statement.
    pub fn is_stmt(&self) -> (r: bool)
        ensures
            r == is_stmt_v(self@),
    {
        match self {
            LispValue::Statement(_) => true,
            _ => false,
        }
    }
}

/// What equality means for runtime values: numbers by value, strings and
/// float literals by text, statements by structure, `nil` only to itself;
/// no two callables compare equal, not even a callable with itself. Two
/// lists compare by their element handles, not by the cells' contents: a
/// value alone does not reach the cell store, so two lists are equal here
/// exactly when their elements alias the same cells. Content comparison of
/// what the handles alias goes through the `Interp`, as `display` does.
pub open spec fn value_eq_spec(a: ValueV, b: ValueV) -> bool {
    match (a, b) {
        (ValueV::Integer(x), ValueV::Integer(y)) => x == y,
        (ValueV::Str(x), ValueV::Str(y)) => x == y,
        (ValueV::Floating(x), ValueV::Floating(y)) => x == y,
        (ValueV::Nil, ValueV::Nil) => true,
        (ValueV::List(x), ValueV::List(y)) => x == y,
        (ValueV::Func(_), ValueV::Func(_)) => false,
        (ValueV::Statement(x), ValueV::Statement(y)) => x == y,
        _ => false,
    }
}

impl PartialEq for LispValue {
    fn eq(&self, other: &LispValue) -> (r: bool) {
        match (self, other) {
            (LispValue::Integer(x), LispValue::Integer(y)) => *x == *y,
            (LispValue::Str(x), LispValue::Str(y)) => *x == *y,
            (LispValue::Floating(x), LispValue::Floating(y)) => *x == *y,
            (LispValue::Nil, LispValue::Nil) => true,
            (LispValue::List(x), LispValue::List(y)) => vars_eq(x, y),
            (LispValue::Statement(x), LispValue::Statement(y)) => *x == *y,
            _ => false,
        }
    }
}

impl vstd::std_specs::cmp::PartialEqSpecImpl for LispValue {
    open spec fn obeys_eq_spec() -> bool {
        true
    }

    open spec fn eq_spec(&self, other: &LispValue) -> bool {
        value_eq_spec(self@, other@)
    }
}

} // verus!
