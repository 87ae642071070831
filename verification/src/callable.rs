//! The built-in callables and the evaluator. Resolving a handle forces the
//! statement it aliases into a concrete value, memoizing the result in the
//! statement's result slot on first success; a second resolution of the
//! same statement hands back the cached handle without recomputing and
//! without repeating any side effect. Evaluation only ever appends cells,
//! appends printed lines, and fills empty result slots, which is what
//! `heap_evolves` and `out_extends` say.
use crate::ast::cell_evolves;
use crate::ast::copy_vars;
use crate::ast::frame_above;
use crate::ast::heap_evolves;
use crate::ast::lemma_evolves_trans;
use crate::ast::lemma_out_trans;
use crate::ast::out_extends;
use crate::ast::scalar_v;
use crate::ast::value_fits;
use crate::ast::wf_heap;
use crate::ast::wf_stmt;
use crate::ast::Interp;
use crate::ast::InterpV;
use crate::ast::Statement;
use crate::ast::StmtV;
use crate::ast::Var;
use crate::error::entry_msg;
use crate::error::note_msg;
use crate::error::EntryV;
use crate::error::LispErrors;
use crate::numbers::int_repr;
use crate::numbers::push_int;
use crate::text::chars_of;
use crate::text::string_from_chars;
use crate::tokens::Location;
use crate::types::LispValue;
use crate::types::ValueV;
use vstd::prelude::*;

verus! {

/// The built-in callables seeded into every default scope.
#[derive(Debug, Clone, Copy, PartialEq, Eq, Structural)]
pub enum IntrinsicOp {
    Add,
    Subtract,
    Print,
    Multiply,
}

/// Rendering of a value that holds no handles: numbers as their decimal
/// form, strings and float literals as their text, `nil` as `nil`, and a
/// callable as an opaque placeholder.
pub open spec fn disp_scalar(v: ValueV) -> Seq<char> {
    match v {
        ValueV::Integer(i) => int_repr(i),
        ValueV::Str(s) => s,
        ValueV::Floating(s) => s,
        ValueV::Nil => "nil"@,
        ValueV::Func(_) => "<Function>"@,
        _ => Seq::empty(),
    }
}

/// Rendering of a list of scalar cells: the elements' display forms,
/// space-joined.
pub open spec fn scalar_list_disp(h: Seq<ValueV>, es: Seq<int>) -> Seq<char>
    decreases es.len(),
{
    if es.len() == 0 {
        Seq::empty()
    } else if es.len() == 1 {
        disp_scalar(h[es[0]])
    } else {
        scalar_list_disp(h, es.drop_last()) + seq![' '] + disp_scalar(h[es.last()])
    }
}

/// The shared frame of every evaluation step: the heap stays well formed,
/// only evolves, leaves the cells at `bound` and above untouched, and the
/// output log only grows.
pub open spec fn eval_frame(pre: InterpV, post: InterpV, bound: int) -> bool {
    wf_heap(post.cells) && heap_evolves(pre.cells, post.cells) && frame_above(
        pre.cells,
        post.cells,
        bound,
    ) && out_extends(pre.out, post.out)
}

/// The cell indexes a vector of handles points at.
pub open spec fn ids_of(args: Seq<Var>) -> Seq<int> {
    args.map_values(|v: Var| v@)
}

/// Whether every listed cell holds an integer.
pub open spec fn all_ints(h: Seq<ValueV>, ids: Seq<int>) -> bool {
    forall|k: int| 0 <= k < ids.len() ==> h[#[trigger] ids[k]] is Integer
}

/// Whether no listed cell holds an unevaluated statement, so that resolving
/// each hands the cell itself back.
pub open spec fn all_plain(h: Seq<ValueV>, ids: Seq<int>) -> bool {
    forall|k: int| 0 <= k < ids.len() ==> !(h[#[trigger] ids[k]] is Statement)
}

/// Whether every listed cell holds a scalar.
pub open spec fn all_scalar(h: Seq<ValueV>, ids: Seq<int>) -> bool {
    forall|k: int| 0 <= k < ids.len() ==> scalar_v(h[#[trigger] ids[k]])
}

/// Operand `j` is the first whose cell holds no integer.
pub open spec fn first_bad_operand(h: Seq<ValueV>, ids: Seq<int>, j: int) -> bool {
    0 <= j < ids.len() && !(h[ids[j]] is Integer) && (forall|k: int|
        0 <= k < j ==> h[#[trigger] ids[k]] is Integer)
}

/// The diagnostic an arithmetic intrinsic raises at its first non-integer
/// operand, `j` operands in: addition names the offending value's display
/// form, subtraction distinguishes the first operand from the rest.
pub open spec fn arith_type_msg(op: IntrinsicOp, j: int, shown: Seq<char>) -> Seq<char> {
    match op {
        IntrinsicOp::Add => "Incompatible types for addition: Integer and "@ + shown,
        IntrinsicOp::Subtract => if j == 0 {
            "Cannot subtract from a non-integer!"@
        } else {
            "Cannot subtract a non-integer type from an integer!"@
        },
        IntrinsicOp::Multiply => "Cannot multiply with non-integer type!"@,
        IntrinsicOp::Print => Seq::empty(),
    }
}

/// The integers the listed cells hold.
pub open spec fn ints_of(h: Seq<ValueV>, ids: Seq<int>) -> Seq<int> {
    ids.map_values(|i: int| h[i]->Integer_0)
}

/// One wrap-around step of an arithmetic intrinsic.
pub open spec fn arith_step(op: IntrinsicOp, a: int, b: int) -> int {
    match op {
        IntrinsicOp::Add => vstd::wrapping::i64_specs::wrapping_add(a as i64, b as i64) as int,
        IntrinsicOp::Subtract => vstd::wrapping::i64_specs::wrapping_sub(a as i64, b as i64) as int,
        IntrinsicOp::Multiply => vstd::wrapping::i64_specs::wrapping_mul(a as i64, b as i64) as int,
        IntrinsicOp::Print => 0,
    }
}

/// The left-to-right wrap-around fold an arithmetic intrinsic performs on
/// its operand values.
pub open spec fn arith_fold(op: IntrinsicOp, vals: Seq<int>) -> int
    decreases vals.len(),
{
    if vals.len() == 0 {
        0
    } else if vals.len() == 1 {
        vals[0]
    } else {
        arith_step(op, arith_fold(op, vals.drop_last()), vals.last())
    }
}

/// The arity diagnostic of each arithmetic intrinsic.
pub open spec fn arith_arity_msg(op: IntrinsicOp) -> Seq<char> {
    match op {
        IntrinsicOp::Add => "Addition requires at least two arguments!"@,
        IntrinsicOp::Subtract => "Subtraction requires at least two arguments!"@,
        IntrinsicOp::Multiply => "Multiplication requires at least two arguments!"@,
        IntrinsicOp::Print => Seq::empty(),
    }
}

/// A frame at `b` followed by a frame at a bound below it is a frame at
/// `b`.
proof fn lemma_frame_chain(h0: Seq<ValueV>, h1: Seq<ValueV>, h2: Seq<ValueV>, b: int, b2: int)
    requires
        frame_above(h0, h1, b),
        frame_above(h1, h2, b2),
        b2 <= b,
        h0.len() <= h1.len(),
    ensures
        frame_above(h0, h2, b),
{
    assert forall|j: int| b <= j < h0.len() implies h2[j] == h0[j] by {
        assert(h1[j] == h0[j]);
        assert(h2[j] == h1[j]);
    }
}

/// The rendered form of a scalar cell.
fn display_scalar_cell(it: &Interp, id: usize) -> (r: String)
    requires
        0 <= id < it@.cells.len(),
        scalar_v(it@.cells[id as int]),
    ensures
        r@ == disp_scalar(it@.cells[id as int]),
{
    match it.get(&Var { id }) {
        LispValue::Integer(i) => {
            let mut v: Vec<char> = Vec::new();
            push_int(*i, &mut v);
            string_from_chars(&v)
        },
        LispValue::Str(s) => s.clone(),
        LispValue::Floating(s) => s.clone(),
        LispValue::Nil => String::from_str("nil"),
        LispValue::Func(_) => String::from_str("<Function>"),
        _ => {
            proof {
                assert(false);
            }
            String::new()
        },
    }
}

/// Resolves the cell `id`: a statement is evaluated, or its cached result
/// handed back; every other value resolves to itself.
pub(crate) fn resolve_id(it: &mut Interp, id: usize) -> (r: Result<usize, LispErrors>)
    requires
        wf_heap(old(it)@.cells),
        0 <= id < old(it)@.cells.len(),
    ensures
        eval_frame(old(it)@, final(it)@, id + 1),
        (r matches Ok(rid) ==> 0 <= rid < final(it)@.cells.len() && !(final(it)@.cells[rid as int] is Statement)),
        !(old(it)@.cells[id as int] is Statement) ==> final(it)@ == old(it)@ && (r matches Ok(rid)
            && rid == id),
        old(it)@.cells[id as int] matches ValueV::Statement(s) ==> (s.res matches Some(rr) ==> (
        final(it)@ == old(it)@ && (r matches Ok(rid) && rid == rr))),
        old(it)@.cells[id as int] matches ValueV::Statement(s) ==> (s.res is None ==> (match r {
            Ok(rid) => scalar_v(final(it)@.cells[rid as int]) && final(it)@.cells[id as int]
                == ValueV::Statement(StmtV { res: Some(rid as int), ..s }),
            Err(_) => final(it)@.cells[id as int] == old(it)@.cells[id as int],
        })),
    decreases id, 2int,
{
    let tag: Option<Option<usize>> = match it.get(&Var { id }) {
        LispValue::Statement(s) => Some(
            match &s.res {
                Some(v) => Some(v.id),
                None => None,
            },
        ),
        _ => None,
    };
    match tag {
        None => Ok(id),
        Some(Some(rr)) => {
            proof {
                assert(value_fits(it@.cells[id as int], id as int, it@.cells));
            }
            Ok(rr)
        },
        Some(None) => {
            let (args, op, _res, loc) = it.read_stmt(id);
            let ghost s0 = it@.cells[id as int]->Statement_0;
            proof {
                assert(value_fits(it@.cells[id as int], id as int, it@.cells));
                assert(op@ == s0.op);
                assert forall|k: int| 0 <= k < args@.len() implies 0 <= #[trigger] args@[k]@
                    < id by {
                    assert(args@.map_values(|v: Var| v@)[k] == args@[k]@);
                    assert(args@.map_values(|v: Var| v@)[k] == s0.args[k]);
                    assert(0 <= s0.args[k] < id);
                }
            }
            let rr = eval_call(it, op.id, &args, &loc, Ghost(id as int));
            match rr {
                Ok(rid) => {
                    let ghost mid = it@;
                    proof {
                        assert(mid.cells[id as int] == old(it)@.cells[id as int]);
                        assert(rid != id);
                    }
                    it.cache_result(id, rid);
                    proof {
                        lemma_evolves_trans(old(it)@.cells, mid.cells, it@.cells);
                        lemma_out_trans(old(it)@.out, mid.out, it@.out);
                        assert forall|j: int|
                            id + 1 <= j < old(it)@.cells.len() implies it@.cells[j] == old(
                            it,
                        )@.cells[j] by {
                            assert(mid.cells[j] == old(it)@.cells[j]);
                            assert(it@.cells[j] == mid.cells[j]);
                        }
                        assert(it@.cells[rid as int] == mid.cells[rid as int]);
                        assert(it@.cells[id as int] == ValueV::Statement(
                            StmtV { res: Some(rid as int), ..s0 },
                        ));
                    }
                    Ok(rid)
                },
                Err(e) => {
                    proof {
                        assert(it@.cells[id as int] == old(it)@.cells[id as int]);
                    }
                    Err(e)
                },
            }
        },
    }
}

/// Applies an arithmetic intrinsic: every argument must resolve to an
/// integer, the values are folded left to right with wrap-around, and the
/// result lands in a fresh cell. Fewer than two arguments is a diagnostic.
fn eval_arith(
    it: &mut Interp,
    op: IntrinsicOp,
    args: &Vec<Var>,
    loc: &Location,
    Ghost(bound): Ghost<int>,
) -> (r: Result<usize, LispErrors>)
    requires
        wf_heap(old(it)@.cells),
        op != IntrinsicOp::Print,
        0 <= bound <= old(it)@.cells.len(),
        forall|k: int| 0 <= k < args@.len() ==> 0 <= #[trigger] args@[k]@ < bound,
    ensures
        eval_frame(old(it)@, final(it)@, bound),
        (r matches Ok(rid) ==> 0 <= rid < final(it)@.cells.len() && final(it)@.cells[rid as int] is Integer),
        args@.len() < 2 ==> final(it)@ == old(it)@ && (r matches Err(e) && e@ == seq![
            EntryV { msg: entry_msg(loc@, arith_arity_msg(op)), notes: Seq::empty() },
        ]),
        (args@.len() >= 2 && all_ints(old(it)@.cells, ids_of(args@))) ==> (r matches Ok(rid)
            && rid == old(it)@.cells.len() && final(it)@.cells == old(it)@.cells.push(
            ValueV::Integer(arith_fold(op, ints_of(old(it)@.cells, ids_of(args@)))),
        ) && final(it)@.out == old(it)@.out),
        (args@.len() >= 2 && all_plain(old(it)@.cells, ids_of(args@)) && !all_ints(
            old(it)@.cells,
            ids_of(args@),
        )) ==> r is Err,
        (args@.len() >= 2 && all_scalar(old(it)@.cells, ids_of(args@)) && !all_ints(
            old(it)@.cells,
            ids_of(args@),
        )) ==> (exists|j: int|
            #[trigger] first_bad_operand(old(it)@.cells, ids_of(args@), j) && (r matches Err(e)
                && e@ == seq![
                EntryV {
                    msg: entry_msg(
                        loc@,
                        arith_type_msg(op, j, disp_scalar(old(it)@.cells[ids_of(args@)[j]])),
                    ),
                    notes: Seq::empty(),
                },
            ])),
    decreases bound, 0int,
{
    let n = args.len();
    if n < 2 {
        let msg = match op {
            IntrinsicOp::Add => "Addition requires at least two arguments!",
            IntrinsicOp::Subtract => "Subtraction requires at least two arguments!",
            _ => "Multiplication requires at least two arguments!",
        };
        let e = LispErrors::new().error(loc, msg);
        proof {
            assert(e@ =~~= seq![
                EntryV { msg: entry_msg(loc@, arith_arity_msg(op)), notes: Seq::empty() },
            ]);
        }
        return Err(e);
    }
    let ghost pre = it@;
    let ghost hyp = all_ints(pre.cells, ids_of(args@));
    let ghost plainh = all_plain(pre.cells, ids_of(args@));
    let ghost scalarh = all_scalar(pre.cells, ids_of(args@));
    let ghost vals = ints_of(pre.cells, ids_of(args@));
    let mut acc: i64 = 0;
    let mut i: usize = 0;
    while i < n
        invariant
            wf_heap(it@.cells),
            pre == old(it)@,
            heap_evolves(pre.cells, it@.cells),
            frame_above(pre.cells, it@.cells, bound),
            out_extends(pre.out, it@.out),
            n == args@.len(),
            0 <= i <= n,
            2 <= n,
            0 <= bound <= pre.cells.len(),
            pre.cells.len() <= it@.cells.len(),
            forall|k: int| 0 <= k < args@.len() ==> 0 <= #[trigger] args@[k]@ < bound,
            op != IntrinsicOp::Print,
            hyp == all_ints(pre.cells, ids_of(args@)),
            plainh == all_plain(pre.cells, ids_of(args@)),
            scalarh == all_scalar(pre.cells, ids_of(args@)),
            vals == ints_of(pre.cells, ids_of(args@)),
            plainh ==> forall|k: int|
                0 <= k < i ==> pre.cells[#[trigger] ids_of(args@)[k]] is Integer,
            hyp ==> it@ == pre,
            (hyp && i > 0) ==> acc as int == arith_fold(op, vals.take(i as int)),
            hyp ==> (i == 0 ==> acc == 0),
        decreases n - i,
    {
        let ghost mid = it@;
        let aid = args[i].id;
        proof {
            assert(aid as int == args@[i as int]@);
            if hyp {
                assert(pre.cells[ids_of(args@)[i as int]] is Integer);
                assert(mid.cells[aid as int] is Integer);
            }
        }
        match resolve_id(it, aid) {
            Err(e) => {
                proof {
                    lemma_evolves_trans(pre.cells, mid.cells, it@.cells);
                    lemma_out_trans(pre.out, mid.out, it@.out);
                    lemma_frame_chain(pre.cells, mid.cells, it@.cells, bound, aid + 1);
                    assert(!hyp);
                    if plainh {
                        assert(!(pre.cells[ids_of(args@)[i as int]] is Statement));
                        assert(cell_evolves(pre.cells[aid as int], mid.cells[aid as int]));
                        assert(!(mid.cells[aid as int] is Statement));
                        assert(false);
                    }
                }
                return Err(e);
            },
            Ok(rid) => {
                proof {
                    lemma_evolves_trans(pre.cells, mid.cells, it@.cells);
                    lemma_out_trans(pre.out, mid.out, it@.out);
                    lemma_frame_chain(pre.cells, mid.cells, it@.cells, bound, aid + 1);
                    if hyp {
                        assert(it@ == pre && rid == aid);
                    }
                }
                let got: Option<i64> = match it.get(&Var { id: rid }) {
                    LispValue::Integer(v) => Some(*v),
                    _ => None,
                };
                match got {
                    Some(v) => {
                        proof {
                            if hyp {
                                assert(v as int == vals[i as int]);
                            }
                            if plainh {
                                assert(!(pre.cells[ids_of(args@)[i as int]] is Statement));
                                assert(cell_evolves(pre.cells[aid as int], mid.cells[aid as int]));
                                assert(mid.cells[aid as int] == pre.cells[aid as int]);
                                assert(rid == aid);
                                assert(it@.cells[rid as int] == mid.cells[aid as int]);
                                assert(pre.cells[ids_of(args@)[i as int]] is Integer);
                            }
                        }
                        if i == 0 {
                            acc = v;
                            proof {
                                if hyp {
                                    assert(vals.take(1) =~= seq![vals[0]]);
                                    assert(acc as int == arith_fold(op, vals.take(1)));
                                }
                            }
                        } else {
                            acc = match op {
                                IntrinsicOp::Add => acc.wrapping_add(v),
                                IntrinsicOp::Subtract => acc.wrapping_sub(v),
                                _ => acc.wrapping_mul(v),
                            };
                            proof {
                                if hyp {
                                    assert(vals.take(i + 1).drop_last() =~= vals.take(i as int));
                                    assert(vals.take(i + 1).last() == vals[i as int]);
                                    assert(acc as int == arith_step(
                                        op,
                                        arith_fold(op, vals.take(i as int)),
                                        vals[i as int],
                                    ));
                                }
                            }
                        }
                    },
                    None => {
                        proof {
                            assert(!hyp);
                            if plainh {
                                assert(!(pre.cells[ids_of(args@)[i as int]] is Statement));
                                assert(cell_evolves(pre.cells[aid as int], mid.cells[aid as int]));
                                assert(mid.cells[aid as int] == pre.cells[aid as int]);
                                assert(rid == aid && it@ == mid);
                                assert(!(pre.cells[ids_of(args@)[i as int]] is Integer));
                            }
                            if scalarh {
                                assert(scalar_v(pre.cells[ids_of(args@)[i as int]]));
                                assert(scalar_v(it@.cells[aid as int]));
                            }
                            if plainh {
                                assert(first_bad_operand(pre.cells, ids_of(args@), i as int));
                            }
                        }
                        match op {
                            IntrinsicOp::Add => {
                                let ghost mid2 = it@;
                                let shown = display_id(it, aid);
                                proof {
                                    lemma_evolves_trans(pre.cells, mid2.cells, it@.cells);
                                    lemma_out_trans(pre.out, mid2.out, it@.out);
                                    lemma_frame_chain(
                                        pre.cells,
                                        mid2.cells,
                                        it@.cells,
                                        bound,
                                        aid + 1,
                                    );
                                    if scalarh {
                                        assert(shown@ == disp_scalar(pre.cells[aid as int]));
                                    }
                                }
                                let mut msg: Vec<char> = chars_of(
                                    "Incompatible types for addition: Integer and ",
                                );
                                let mut sh = chars_of(shown.as_str());
                                msg.append(&mut sh);
                                let text = string_from_chars(&msg);
                                let e = LispErrors::new().error(loc, text.as_str());
                                proof {
                                    if scalarh {
                                        assert(text@ =~= arith_type_msg(
                                            op,
                                            i as int,
                                            disp_scalar(pre.cells[ids_of(args@)[i as int]]),
                                        ));
                                        assert(e@ =~~= seq![
                                            EntryV {
                                                msg: entry_msg(
                                                    loc@,
                                                    arith_type_msg(
                                                        op,
                                                        i as int,
                                                        disp_scalar(
                                                            pre.cells[ids_of(args@)[i as int]],
                                                        ),
                                                    ),
                                                ),
                                                notes: Seq::empty(),
                                            },
                                        ]);
                                    }
                                }
                                return Err(e);
                            },
                            IntrinsicOp::Subtract => {
                                let msg = if i == 0 {
                                    "Cannot subtract from a non-integer!"
                                } else {
                                    "Cannot subtract a non-integer type from an integer!"
                                };
                                let e = LispErrors::new().error(loc, msg);
                                proof {
                                    if scalarh {
                                        assert(e@ =~~= seq![
                                            EntryV {
                                                msg: entry_msg(
                                                    loc@,
                                                    arith_type_msg(
                                                        op,
                                                        i as int,
                                                        disp_scalar(
                                                            pre.cells[ids_of(args@)[i as int]],
                                                        ),
                                                    ),
                                                ),
                                                notes: Seq::empty(),
                                            },
                                        ]);
                                    }
                                }
                                return Err(e);
                            },
                            _ => {
                                let e = LispErrors::new().error(
                                    loc,
                                    "Cannot multiply with non-integer type!",
                                );
                                proof {
                                    if scalarh {
                                        assert(e@ =~~= seq![
                                            EntryV {
                                                msg: entry_msg(
                                                    loc@,
                                                    arith_type_msg(
                                                        op,
                                                        i as int,
                                                        disp_scalar(
                                                            pre.cells[ids_of(args@)[i as int]],
                                                        ),
                                                    ),
                                                ),
                                                notes: Seq::empty(),
                                            },
                                        ]);
                                    }
                                }
                                return Err(e);
                            },
                        }
                    },
                }
            },
        }
        i += 1;
    }
    let ghost mid3 = it@;
    let res = it.new_var(LispValue::Integer(acc));
    proof {
        assert(heap_evolves(mid3.cells, it@.cells));
        lemma_evolves_trans(pre.cells, mid3.cells, it@.cells);
        assert forall|j: int| bound <= j < pre.cells.len() implies it@.cells[j]
            == pre.cells[j] by {
            assert(mid3.cells[j] == pre.cells[j]);
            assert(it@.cells[j] == mid3.cells[j]);
        }
        if hyp {
            assert(vals.take(n as int) =~= vals);
            assert(acc as int == arith_fold(op, vals));
        }
        if plainh {
            assert(all_ints(pre.cells, ids_of(args@)));
        }
    }
    Ok(res.id)
}

/// Applies the print intrinsic: exactly one argument, whose display form
/// becomes the next printed line; the call's value is the integer zero.
fn eval_print(it: &mut Interp, args: &Vec<Var>, loc: &Location, Ghost(bound): Ghost<int>) -> (r:
    Result<usize, LispErrors>)
    requires
        wf_heap(old(it)@.cells),
        0 <= bound <= old(it)@.cells.len(),
        forall|k: int| 0 <= k < args@.len() ==> 0 <= #[trigger] args@[k]@ < bound,
    ensures
        eval_frame(old(it)@, final(it)@, bound),
        (r matches Ok(rid) ==> 0 <= rid < final(it)@.cells.len() && final(it)@.cells[rid as int] is Integer),
        args@.len() != 1 ==> final(it)@ == old(it)@ && (r matches Err(e) && e@ == seq![
            EntryV {
                msg: entry_msg(loc@, "Print intrinsic requires only one argument!"@),
                notes: seq![note_msg(None, "Try wrapping this in a statement with `$`."@)],
            },
        ]),
        args@.len() == 1 ==> (r matches Ok(rid) && rid + 1 == final(it)@.cells.len() && final(it)@.cells[rid as int] == ValueV::Integer(0) && final(it)@.out.len() > old(it)@.out.len()),
        args@.len() == 1 ==> (scalar_v(old(it)@.cells[args@[0]@]) ==> final(it)@.cells == old(it)@.cells.push(ValueV::Integer(0)) && final(it)@.out == old(it)@.out.push(
            disp_scalar(old(it)@.cells[args@[0]@]),
        )),
        args@.len() == 1 ==> (old(it)@.cells[args@[0]@] matches ValueV::Statement(s) ==> (
        s.res matches Some(rr) ==> final(it)@.cells == old(it)@.cells.push(ValueV::Integer(0))
            && final(it)@.out == old(it)@.out.push(disp_scalar(old(it)@.cells[rr as int])))),
        args@.len() == 1 ==> (final(it)@.cells[args@[0]@] matches ValueV::Statement(s1) ==> (
        s1.res matches Some(rr) ==> final(it)@.out.last() == disp_scalar(
            final(it)@.cells[rr as int],
        ))),
    decreases bound, 0int,
{
    if args.len() != 1 {
        let e = LispErrors::new().error(loc, "Print intrinsic requires only one argument!").note(
            None,
            "Try wrapping this in a statement with `$`.",
        );
        proof {
            assert(e@ =~~= seq![
                EntryV {
                    msg: entry_msg(loc@, "Print intrinsic requires only one argument!"@),
                    notes: seq![note_msg(None, "Try wrapping this in a statement with `$`."@)],
                },
            ]);
        }
        return Err(e);
    }
    let ghost pre = it@;
    let aid = args[0].id;
    proof {
        assert(aid as int == args@[0]@);
    }
    let shown = display_id(it, aid);
    let ghost mid = it@;
    it.push_out(shown);
    let ghost mid2 = it@;
    let res = it.new_var(LispValue::Integer(0));
    proof {
        assert(heap_evolves(mid.cells, it@.cells));
        lemma_evolves_trans(pre.cells, mid.cells, it@.cells);
        lemma_frame_chain(pre.cells, mid.cells, it@.cells, bound, 0);
        assert(out_extends(mid.out, it@.out));
        lemma_out_trans(pre.out, mid.out, it@.out);
        if scalar_v(pre.cells[aid as int]) {
            assert(mid == pre);
            assert(it@.cells =~= pre.cells.push(ValueV::Integer(0)));
            assert(it@.out =~= pre.out.push(disp_scalar(pre.cells[aid as int])));
        }
        match pre.cells[aid as int] {
            ValueV::Statement(s) => {
                match s.res {
                    Some(rr) => {
                        assert(mid == pre);
                        assert(it@.cells =~= pre.cells.push(ValueV::Integer(0)));
                        assert(it@.out =~= pre.out.push(disp_scalar(pre.cells[rr as int])));
                    },
                    None => {
                        match it@.cells[aid as int] {
                            ValueV::Statement(s1) => {
                                match s1.res {
                                    Some(rr2) => {
                                        assert(it@.cells[aid as int] == mid.cells[aid as int]);
                                        assert(it@.cells[rr2 as int] == mid.cells[rr2 as int]);
                                        assert(it@.out.last() == shown@);
                                    },
                                    None => {},
                                }
                            },
                            _ => {},
                        }
                    },
                }
            },
            _ => {},
        }
    }
    Ok(res.id)
}

/// Invokes the callable in cell `op` with the given arguments; a cell that
/// holds no callable is a diagnostic, though statements built by the parser
/// never carry one.
pub(crate) fn eval_call(
    it: &mut Interp,
    op: usize,
    args: &Vec<Var>,
    loc: &Location,
    Ghost(bound): Ghost<int>,
) -> (r: Result<usize, LispErrors>)
    requires
        wf_heap(old(it)@.cells),
        0 <= op < bound,
        bound <= old(it)@.cells.len(),
        forall|k: int| 0 <= k < args@.len() ==> 0 <= #[trigger] args@[k]@ < bound,
    ensures
        eval_frame(old(it)@, final(it)@, bound),
        (r matches Ok(rid) ==> 0 <= rid < final(it)@.cells.len() && scalar_v(
            final(it)@.cells[rid as int],
        )),
        !(old(it)@.cells[op as int] is Func) ==> r is Err && final(it)@ == old(it)@,
        old(it)@.cells[op as int] matches ValueV::Func(o) ==> ((o != IntrinsicOp::Print
            && args@.len() >= 2 && all_ints(old(it)@.cells, ids_of(args@))) ==> (r matches Ok(rid)
            && rid == old(it)@.cells.len() && final(it)@.cells == old(it)@.cells.push(
            ValueV::Integer(arith_fold(o, ints_of(old(it)@.cells, ids_of(args@)))),
        ) && final(it)@.out == old(it)@.out)),
        old(it)@.cells[op as int] matches ValueV::Func(o) ==> ((o != IntrinsicOp::Print
            && args@.len() >= 2 && all_plain(old(it)@.cells, ids_of(args@)) && !all_ints(
            old(it)@.cells,
            ids_of(args@),
        )) ==> r is Err),
        old(it)@.cells[op as int] matches ValueV::Func(o) ==> ((o != IntrinsicOp::Print
            && args@.len() < 2) ==> final(it)@ == old(it)@ && (r matches Err(e) && e@ == seq![
            EntryV { msg: entry_msg(loc@, arith_arity_msg(o)), notes: Seq::empty() },
        ])),
        old(it)@.cells[op as int] matches ValueV::Func(o) ==> ((o == IntrinsicOp::Print
            && args@.len() == 1) ==> (r matches Ok(rid) && final(it)@.cells[rid as int]
            == ValueV::Integer(0))),
        old(it)@.cells[op as int] matches ValueV::Func(o) ==> ((o == IntrinsicOp::Print
            && args@.len() != 1) ==> final(it)@ == old(it)@ && (r matches Err(e) && e@ == seq![
            EntryV {
                msg: entry_msg(loc@, "Print intrinsic requires only one argument!"@),
                notes: seq![note_msg(None, "Try wrapping this in a statement with `$`."@)],
            },
        ])),
        old(it)@.cells[op as int] matches ValueV::Func(o) ==> ((o != IntrinsicOp::Print
            && args@.len() >= 2 && all_scalar(old(it)@.cells, ids_of(args@)) && !all_ints(
            old(it)@.cells,
            ids_of(args@),
        )) ==> (exists|j: int|
            #[trigger] first_bad_operand(old(it)@.cells, ids_of(args@), j) && (r matches Err(e)
                && e@ == seq![
                EntryV {
                    msg: entry_msg(
                        loc@,
                        arith_type_msg(o, j, disp_scalar(old(it)@.cells[ids_of(args@)[j]])),
                    ),
                    notes: Seq::empty(),
                },
            ]))),
        old(it)@.cells[op as int] matches ValueV::Func(o) ==> ((o == IntrinsicOp::Print
            && args@.len() == 1 && scalar_v(old(it)@.cells[args@[0]@])) ==> final(it)@.cells
            == old(it)@.cells.push(ValueV::Integer(0)) && final(it)@.out == old(it)@.out.push(
            disp_scalar(old(it)@.cells[args@[0]@]),
        )),
        old(it)@.cells[op as int] matches ValueV::Func(o) ==> ((o == IntrinsicOp::Print
            && args@.len() == 1) ==> (old(it)@.cells[args@[0]@] matches ValueV::Statement(s) ==> (
        s.res matches Some(rr) ==> final(it)@.cells == old(it)@.cells.push(ValueV::Integer(0))
            && final(it)@.out == old(it)@.out.push(disp_scalar(old(it)@.cells[rr as int]))))),
        !(old(it)@.cells[op as int] is Func) ==> (r matches Err(e) && e@ == seq![
            EntryV {
                msg: entry_msg(loc@, "Operator is not callable!"@),
                notes: Seq::empty(),
            },
        ]),
    decreases bound, 1int,
{
    let opv: Option<IntrinsicOp> = match it.get(&Var { id: op }) {
        LispValue::Func(o) => Some(*o),
        _ => None,
    };
    match opv {
        None => {
            let e = LispErrors::new().error(loc, "Operator is not callable!");
            proof {
                assert(e@ =~~= seq![
                    EntryV {
                        msg: entry_msg(loc@, "Operator is not callable!"@),
                        notes: Seq::empty(),
                    },
                ]);
            }
            Err(e)
        },
        Some(o) => match o {
            IntrinsicOp::Print => eval_print(it, args, loc, Ghost(bound)),
            _ => eval_arith(it, o, args, loc, Ghost(bound)),
        },
    }
}

/// The display form of the cell `id`: a statement resolves first, and then
/// shows its result, or the text of its diagnostics if it fails; a list
/// shows its elements space-separated in parentheses.
pub(crate) fn display_id(it: &mut Interp, id: usize) -> (r: String)
    requires
        wf_heap(old(it)@.cells),
        0 <= id < old(it)@.cells.len(),
    ensures
        eval_frame(old(it)@, final(it)@, id + 1),
        scalar_v(old(it)@.cells[id as int]) ==> final(it)@ == old(it)@ && r@ == disp_scalar(
            old(it)@.cells[id as int],
        ),
        old(it)@.cells[id as int] matches ValueV::Statement(s) ==> (s.res matches Some(rr) ==> (
        final(it)@ == old(it)@ && r@ == disp_scalar(old(it)@.cells[rr as int]))),
        old(it)@.cells[id as int] matches ValueV::Statement(s0) ==> (s0.res is None ==> (final(it)@.cells[id as int] matches ValueV::Statement(s1) ==> (s1.res matches Some(rr) ==> r@
            == disp_scalar(final(it)@.cells[rr as int])))),
        old(it)@.cells[id as int] matches ValueV::List(es) ==> ((forall|k: int|
            0 <= k < es.len() ==> scalar_v(old(it)@.cells[#[trigger] es[k]])) ==> final(it)@
            == old(it)@ && r@ == seq!['('] + scalar_list_disp(old(it)@.cells, es) + seq![')']),
    decreases id, 3int,
{
    let tag: usize = match it.get(&Var { id }) {
        LispValue::Statement(_) => 0,
        LispValue::List(_) => 1,
        _ => 2,
    };
    if tag == 2 {
        return display_scalar_cell(it, id);
    }
    if tag == 0 {
        proof {
            assert(value_fits(it@.cells[id as int], id as int, it@.cells));
        }
        match resolve_id(it, id) {
            Ok(rid) => {
                return display_scalar_cell(it, rid);
            },
            Err(e) => {
                return e.render();
            },
        }
    }
    // A list: its elements, each resolved and shown, space-separated.
    let elems: Vec<Var> = match it.get(&Var { id }) {
        LispValue::List(l) => copy_vars(l),
        _ => {
            proof {
                assert(false);
            }
            Vec::new()
        },
    };
    let ghost es = it@.cells[id as int]->List_0;
    let ghost slh = forall|k: int| 0 <= k < es.len() ==> scalar_v(it@.cells[#[trigger] es[k]]);
    proof {
        assert(value_fits(it@.cells[id as int], id as int, it@.cells));
        assert forall|k: int| 0 <= k < elems@.len() implies 0 <= #[trigger] elems@[k]@ < id
            && elems@[k]@ == es[k] by {
            assert(elems@[k]@ == es[k]);
            assert(0 <= es[k] < id);
        }
    }
    let ghost pre = it@;
    let mut text: Vec<char> = Vec::new();
    text.push('(');
    let n = elems.len();
    let mut i: usize = 0;
    while i < n
        invariant
            wf_heap(it@.cells),
            pre == old(it)@,
            heap_evolves(pre.cells, it@.cells),
            frame_above(pre.cells, it@.cells, id + 1),
            out_extends(pre.out, it@.out),
            0 <= i <= n,
            n == elems@.len(),
            n == es.len(),
            0 <= id < pre.cells.len(),
            pre.cells.len() <= it@.cells.len(),
            forall|k: int| 0 <= k < n ==> 0 <= #[trigger] elems@[k]@ < id,
            forall|k: int| 0 <= k < n ==> #[trigger] elems@[k]@ == es[k],
            slh == (forall|k: int| 0 <= k < es.len() ==> scalar_v(pre.cells[#[trigger] es[k]])),
            slh ==> it@ == pre,
            slh ==> text@ == seq!['('] + scalar_list_disp(pre.cells, es.take(i as int)),
        decreases n - i,
    {
        if i > 0 {
            text.push(' ');
        }
        let ghost mid = it@;
        let eid = elems[i].id;
        proof {
            assert(eid as int == elems@[i as int]@);
            if slh {
                assert(scalar_v(mid.cells[eid as int]));
            }
        }
        let s = display_id(it, eid);
        proof {
            lemma_evolves_trans(pre.cells, mid.cells, it@.cells);
            lemma_out_trans(pre.out, mid.out, it@.out);
            lemma_frame_chain(pre.cells, mid.cells, it@.cells, id + 1, eid + 1);
        }
        let mut sc = chars_of(s.as_str());
        text.append(&mut sc);
        proof {
            if slh {
                assert(es.take(i + 1).drop_last() =~= es.take(i as int));
                assert(es.take(i + 1).last() == es[i as int]);
                assert(s@ == disp_scalar(pre.cells[es[i as int]]));
                assert(text@ =~= seq!['('] + scalar_list_disp(pre.cells, es.take(i + 1)));
            }
        }
        i += 1;
    }
    text.push(')');
    proof {
        if (forall|k: int| 0 <= k < es.len() ==> scalar_v(old(it)@.cells[#[trigger] es[k]])) {
            assert forall|k: int| 0 <= k < es.len() implies scalar_v(
                pre.cells[#[trigger] es[k]],
            ) by {
                assert(scalar_v(old(it)@.cells[es[k]]));
            }
            assert(slh);
        }
        if slh {
            assert(es.take(n as int) =~= es);
            assert(text@ =~= seq!['('] + scalar_list_disp(pre.cells, es) + seq![')']);
        }
    }
    string_from_chars(&text)
}

impl Interp {
    /// Resolves what a handle aliases: a statement is forced to a concrete
    /// value, memoized on first success; any other value resolves to
    /// itself. A handle already carrying a cached result is handed back
    /// without recomputation and without repeating any side effect.
    pub fn resolve(&mut self, v: &Var) -> (r: Result<Var, LispErrors>)
        requires
            wf_heap(old(self)@.cells),
            0 <= v@ < old(self)@.cells.len(),
        ensures
            eval_frame(old(self)@, final(self)@, v@ + 1),
            (r matches Ok(rv) ==> 0 <= rv@ < final(self)@.cells.len() && !(final(self)@.cells[rv@] is Statement)),
            !(old(self)@.cells[v@] is Statement) ==> final(self)@ == old(self)@ && (r matches Ok(
                rv,
            ) && rv@ == v@),
            old(self)@.cells[v@] matches ValueV::Statement(s) ==> (s.res matches Some(rr) ==> (
            final(self)@ == old(self)@ && (r matches Ok(rv) && rv@ == rr))),
    {
        match resolve_id(self, v.id) {
            Ok(rid) => Ok(Var { id: rid }),
            Err(e) => Err(e),
        }
    }

    /// The display form of what a handle aliases.
    pub fn display(&mut self, v: &Var) -> (r: String)
        requires
            wf_heap(old(self)@.cells),
            0 <= v@ < old(self)@.cells.len(),
        ensures
            eval_frame(old(self)@, final(self)@, v@ + 1),
            scalar_v(old(self)@.cells[v@]) ==> final(self)@ == old(self)@ && r@ == disp_scalar(
                old(self)@.cells[v@],
            ),
            old(self)@.cells[v@] matches ValueV::Statement(s) ==> (s.res matches Some(rr) ==> (
            final(self)@ == old(self)@ && r@ == disp_scalar(old(self)@.cells[rr as int]))),
            old(self)@.cells[v@] matches ValueV::List(es) ==> ((forall|k: int|
                0 <= k < es.len() ==> scalar_v(old(self)@.cells[#[trigger] es[k]])) ==> final(self)@
                == old(self)@ && r@ == seq!['('] + scalar_list_disp(old(self)@.cells, es) + seq![
                ')',
            ]),
    {
        display_id(self, v.id)
    }
}

impl Statement {
    /// Resolves this statement: on first success the result handle is
    /// cached in the result slot, and every later resolution of the same
    /// statement hands back that same handle, with no new cells, no new
    /// output, and no recomputation.
    pub fn resolve(&mut self, it: &mut Interp) -> (r: Result<Var, LispErrors>)
        requires
            wf_heap(old(it)@.cells),
            wf_stmt(old(self)@, old(it)@.cells),
        ensures
            wf_heap(final(it)@.cells),
            heap_evolves(old(it)@.cells, final(it)@.cells),
            out_extends(old(it)@.out, final(it)@.out),
            wf_stmt(final(self)@, final(it)@.cells),
            old(self)@.res matches Some(rr) ==> (final(it)@ == old(it)@ && final(self)@ == old(
                self,
            )@ && (r matches Ok(v) && v@ == rr)),
            (r matches Ok(v) ==> 0 <= v@ < final(it)@.cells.len() && scalar_v(
                final(it)@.cells[v@],
            ) && final(self)@.res == Some(v@) && final(self)@.args == old(self)@.args && final(self)@.op == old(self)@.op && final(self)@.loc == old(self)@.loc),
            r is Err ==> final(self)@ == old(self)@,
            old(it)@.cells[old(self)@.op] matches ValueV::Func(o) ==> ((o != IntrinsicOp::Print
                && old(self)@.args.len() >= 2 && all_ints(old(it)@.cells, old(self)@.args) && old(
                self,
            )@.res is None) ==> (r matches Ok(v) && v@ == old(it)@.cells.len() && final(it)@.cells
                == old(it)@.cells.push(
                ValueV::Integer(arith_fold(o, ints_of(old(it)@.cells, old(self)@.args))),
            ) && final(it)@.out == old(it)@.out)),
            old(it)@.cells[old(self)@.op] matches ValueV::Func(o) ==> ((o != IntrinsicOp::Print
                && old(self)@.args.len() >= 2 && all_plain(old(it)@.cells, old(self)@.args)
                && !all_ints(old(it)@.cells, old(self)@.args) && old(self)@.res is None) ==> r is Err),
            old(it)@.cells[old(self)@.op] matches ValueV::Func(o) ==> ((o != IntrinsicOp::Print
                && old(self)@.args.len() >= 2 && all_scalar(old(it)@.cells, old(self)@.args)
                && !all_ints(old(it)@.cells, old(self)@.args) && old(self)@.res is None) ==> (
            exists|j: int|
                #[trigger] first_bad_operand(old(it)@.cells, old(self)@.args, j) && (
                r matches Err(e) && e@ == seq![
                    EntryV {
                        msg: entry_msg(
                            old(self)@.loc,
                            arith_type_msg(
                                o,
                                j,
                                disp_scalar(old(it)@.cells[old(self)@.args[j]]),
                            ),
                        ),
                        notes: Seq::empty(),
                    },
                ]))),
            old(it)@.cells[old(self)@.op] matches ValueV::Func(o) ==> ((o != IntrinsicOp::Print
                && old(self)@.args.len() < 2 && old(self)@.res is None) ==> final(it)@ == old(it)@
                && (r matches Err(e) && e@ == seq![
                EntryV {
                    msg: entry_msg(old(self)@.loc, arith_arity_msg(o)),
                    notes: Seq::empty(),
                },
            ])),
            old(it)@.cells[old(self)@.op] matches ValueV::Func(o) ==> ((o == IntrinsicOp::Print
                && old(self)@.args.len() == 1 && old(self)@.res is None) ==> (r matches Ok(v)
                && final(it)@.cells[v@] == ValueV::Integer(0))),
            old(it)@.cells[old(self)@.op] matches ValueV::Func(o) ==> ((o == IntrinsicOp::Print
                && old(self)@.args.len() == 1 && old(self)@.res is None && scalar_v(
                old(it)@.cells[old(self)@.args[0]],
            )) ==> final(it)@.cells == old(it)@.cells.push(ValueV::Integer(0)) && final(it)@.out
                == old(it)@.out.push(disp_scalar(old(it)@.cells[old(self)@.args[0]]))),
            old(it)@.cells[old(self)@.op] matches ValueV::Func(o) ==> ((o == IntrinsicOp::Print
                && old(self)@.args.len() == 1 && old(self)@.res is None) ==> (old(
                it,
            )@.cells[old(self)@.args[0]] matches ValueV::Statement(s) ==> (s.res matches Some(rr)
                ==> final(it)@.cells == old(it)@.cells.push(ValueV::Integer(0)) && final(it)@.out
                == old(it)@.out.push(disp_scalar(old(it)@.cells[rr as int]))))),
            old(it)@.cells[old(self)@.op] matches ValueV::Func(o) ==> ((o == IntrinsicOp::Print
                && old(self)@.args.len() != 1 && old(self)@.res is None) ==> final(it)@ == old(it)@
                && (r matches Err(e) && e@ == seq![
                EntryV {
                    msg: entry_msg(old(self)@.loc, "Print intrinsic requires only one argument!"@),
                    notes: seq![note_msg(None, "Try wrapping this in a statement with `$`."@)],
                },
            ])),
            (!(old(it)@.cells[old(self)@.op] is Func) && old(self)@.res is None) ==> (r matches Err(
                e,
            ) && e@ == seq![
                EntryV {
                    msg: entry_msg(old(self)@.loc, "Operator is not callable!"@),
                    notes: Seq::empty(),
                },
            ]),
    {
        match &self.res {
            Some(v) => {
                return Ok(Var { id: v.id });
            },
            None => {},
        }
        let ghost blen = it@.cells.len() as int;
        proof {
            assert(self.op@ == self@.op);
            assert forall|k: int| 0 <= k < self.args@.len() implies 0 <= #[trigger] self.args@[k]@
                < blen by {
                assert(self.args@.map_values(|x: Var| x@)[k] == self.args@[k]@);
                assert(0 <= self@.args[k] < blen);
            }
        }
        proof {
            assert(ids_of(self.args@) =~= self@.args);
        }
        let rr = eval_call(it, self.op.id, &self.args, &self.loc, Ghost(blen));
        match rr {
            Ok(rid) => {
                self.res = Some(Var { id: rid });
                Ok(Var { id: rid })
            },
            Err(e) => Err(e),
        }
    }
}

} // verus!
