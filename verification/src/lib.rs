//! A small interpreter for a parenthesized expression language: a lexer
//! with string and comment modes, a scope-resolving parser that builds an
//! executable statement tree over shared value cells, and an evaluator that
//! dispatches the built-in callables while memoizing each statement's
//! result.
use vstd::prelude::*;

pub mod ast;
pub mod callable;
pub mod error;
mod identifiers;
pub mod numbers;
mod text;
pub mod tokens;
pub mod types;

use crate::ast::make_ast;
use crate::ast::Interp;
use crate::ast::Scope;
use crate::types::ValueV;
use crate::error::LispErrors;
use crate::tokens::spec_tokenize;
use crate::tokens::tokenize;
use crate::tokens::LocV;
use crate::tokens::Location;

verus! {

/// Runs one source text: scans it, parses it against a fresh default
/// scope, resolves the resulting statement, and hands back the display
/// form of its value, or the rendered diagnostics. Lines printed while it
/// ran go to the interpreter's log, which `run_lisp_logged` exposes.
///
/// The contract pins the whole pipeline for the canonical program shapes:
/// lexical diagnostics exactly; single flat calls of an arithmetic
/// intrinsic on integer literals down to the result string; the same calls
/// with a non-integer literal down to the type diagnostic naming the
/// offending value; a single `print` of a literal; empty programs,
/// unbound identifiers, the lone-parenthesis errors, and the diagnostics
/// of a leading `let`'s binding list — shadowing included — each with its
/// exact message. Programs with nested calls run through the same
/// verified parser and evaluator, whose own contracts carry the
/// guarantees stated on `make_ast` and `Statement::resolve`.
pub fn run_lisp(source: &str, file: &str) -> (r: Result<String, LispErrors>)
    ensures
        spec_tokenize(source@, file@) matches Err(es) ==> (r matches Err(e) && e@ == es),
        spec_tokenize(source@, file@) matches Ok(ts) ==> (crate::ast::flat_arith_source(ts) ==> (
        r matches Ok(s) && s@ == crate::numbers::int_repr(
            crate::callable::arith_fold(
                crate::ast::flat_arith_op(ts),
                crate::ast::flat_arith_ints(ts),
            ),
        ))),
        spec_tokenize(source@, file@) matches Ok(ts) ==> (forall|q: int|
            (ts.len() > 0 && #[trigger] crate::ast::let_head(
                ts,
                crate::ast::span_lo(ts, 0, ts.len() as int),
                crate::ast::span_hi(ts, 0, ts.len() as int),
                q,
            )) ==> {
                let a = crate::ast::span_lo(ts, 0, ts.len() as int);
                let m0 = crate::ast::default_bindings(0);
                &&& (crate::identifiers::scan_run(
                    crate::identifiers::scan_init(),
                    ts.subrange(a + 2, q),
                    m0,
                ) matches Err(es) ==> (r matches Err(e) && e@ == es))
                &&& (crate::identifiers::scan_run(
                    crate::identifiers::scan_init(),
                    ts.subrange(a + 2, q),
                    m0,
                ) matches Ok(sst) ==> (crate::ast::apply_ids(m0, sst.vals, 4) matches Err(es2)
                    ==> (r matches Err(e2) && e2@ == es2)))
            }),
        spec_tokenize(source@, file@) matches Ok(ts) ==> (crate::ast::flat_print_source(ts) ==> (
        r matches Ok(s) && s@ == crate::numbers::int_repr(0))),
        spec_tokenize(source@, file@) matches Ok(ts) ==> (crate::ast::flat_mixed_source(ts)
            ==> (exists|j: int|
            #[trigger] crate::ast::first_bad_literal(ts, j) && (r matches Err(e) && e@ == seq![
                crate::error::EntryV {
                    msg: crate::error::entry_msg(
                        ts[crate::ast::span_lo(ts, 0, ts.len() as int)].loc,
                        crate::callable::arith_type_msg(
                            crate::ast::arith_op_of(
                                ts[crate::ast::span_lo(ts, 0, ts.len() as int)].dat->Ident_0,
                            ),
                            j,
                            crate::callable::disp_scalar(
                                crate::ast::data_of(
                                    ts[crate::ast::span_lo(ts, 0, ts.len() as int) + 1
                                        + j].dat->Lit_0,
                                ),
                            ),
                        ),
                    ),
                    notes: Seq::empty(),
                },
            ]))),
        spec_tokenize(source@, file@) matches Ok(ts) ==> (crate::ast::flat_unbound_source(ts)
            ==> (exists|p: int|
            crate::ast::span_lo(ts, 0, ts.len() as int) <= p < crate::ast::span_hi(
                ts,
                0,
                ts.len() as int,
            ) && #[trigger] crate::ast::unbound_at(ts, p, crate::ast::default_bindings(0)) && (
            forall|k: int|
                crate::ast::span_lo(ts, 0, ts.len() as int) <= k < p ==> !crate::ast::unbound_at(
                    ts,
                    k,
                    crate::ast::default_bindings(0),
                )) && (r matches Err(e) && (ts[p].dat matches crate::tokens::TokV::Ident(nm) && e@
                == seq![
                crate::error::EntryV {
                    msg: crate::error::entry_msg(
                        ts[p].loc,
                        crate::ast::unknown_name_text(nm),
                    ),
                    notes: Seq::empty(),
                },
            ])))),
        spec_tokenize(source@, file@) matches Ok(ts) ==> (crate::ast::close_first_source(ts)
            ==> (r matches Err(e) && e@ == seq![
            crate::error::EntryV {
                msg: crate::error::entry_msg(
                    ts[crate::ast::span_lo(ts, 0, ts.len() as int)].loc,
                    "Unmatched closing parentheses!"@,
                ),
                notes: seq![crate::error::note_msg(None, "Delete it."@)],
            },
        ])),
        spec_tokenize(source@, file@) matches Ok(ts) ==> (crate::ast::open_unclosed_source(ts)
            ==> (exists|p: int|
            crate::ast::span_lo(ts, 0, ts.len() as int) <= p < crate::ast::span_hi(
                ts,
                0,
                ts.len() as int,
            ) && (#[trigger] ts[p].dat) is Start && (forall|k: int|
                p < k < crate::ast::span_hi(ts, 0, ts.len() as int) ==> !((#[trigger] ts[k].dat) is Start))
                && (r matches Err(e) && e@ == seq![
                crate::error::EntryV {
                    msg: crate::error::entry_msg(
                        ts[p].loc,
                        "Unmatched opening parentheses!"@,
                    ),
                    notes: seq![
                        crate::error::note_msg(None, "Deleting it might fix this error."@),
                    ],
                },
            ]))),
        spec_tokenize(source@, file@) matches Ok(ts) ==> ((ts.len() > 0 && crate::ast::span_lo(
            ts,
            0,
            ts.len() as int,
        ) >= crate::ast::span_hi(ts, 0, ts.len() as int)) ==> (r matches Err(e) && e@ == seq![
            crate::error::EntryV {
                msg: crate::error::entry_msg(
                    LocV { filename: file@, line: 0, col: 0 },
                    "Empty statements are not allowed!"@,
                ),
                notes: Seq::empty(),
            },
        ])),
{
    let (_out, res) = run_lisp_logged(source, file);
    res
}

/// Runs one source text as `run_lisp` does, and also hands back the lines
/// the program printed, oldest first, with the same contract plus the
/// log's content where it is determined.
pub fn run_lisp_logged(source: &str, file: &str) -> (r: (Vec<String>, Result<String, LispErrors>))
    ensures
        spec_tokenize(source@, file@) matches Err(es) ==> (r.1 matches Err(e) && e@ == es
            && r.0@.len() == 0),
        spec_tokenize(source@, file@) matches Ok(ts) ==> (ts.len() == 0 ==> (r.1 matches Err(e)
            && e@ == seq![
            crate::error::EntryV {
                msg: crate::error::entry_msg(
                    LocV { filename: file@, line: 0, col: 0 },
                    "Empty statements are not allowed!"@,
                ),
                notes: Seq::empty(),
            },
        ] && r.0@.len() == 0)),
        spec_tokenize(source@, file@) matches Ok(ts) ==> (crate::ast::flat_arith_source(ts) ==> (
        r.1 matches Ok(s) && s@ == crate::numbers::int_repr(
            crate::callable::arith_fold(
                crate::ast::flat_arith_op(ts),
                crate::ast::flat_arith_ints(ts),
            ),
        ) && r.0@.len() == 0)),
        spec_tokenize(source@, file@) matches Ok(ts) ==> (forall|q: int|
            (ts.len() > 0 && #[trigger] crate::ast::let_head(
                ts,
                crate::ast::span_lo(ts, 0, ts.len() as int),
                crate::ast::span_hi(ts, 0, ts.len() as int),
                q,
            )) ==> {
                let a = crate::ast::span_lo(ts, 0, ts.len() as int);
                let m0 = crate::ast::default_bindings(0);
                &&& (crate::identifiers::scan_run(
                    crate::identifiers::scan_init(),
                    ts.subrange(a + 2, q),
                    m0,
                ) matches Err(es) ==> (r.1 matches Err(e) && e@ == es))
                &&& (crate::identifiers::scan_run(
                    crate::identifiers::scan_init(),
                    ts.subrange(a + 2, q),
                    m0,
                ) matches Ok(sst) ==> (crate::ast::apply_ids(m0, sst.vals, 4) matches Err(es2)
                    ==> (r.1 matches Err(e2) && e2@ == es2)))
            }),
        spec_tokenize(source@, file@) matches Ok(ts) ==> (crate::ast::flat_print_source(ts) ==> (
        r.1 matches Ok(s) && s@ == crate::numbers::int_repr(0) && r.0@.map_values(|x: String| x@)
            == seq![
            crate::callable::disp_scalar(
                crate::ast::data_of(
                    ts[crate::ast::span_lo(ts, 0, ts.len() as int) + 1].dat->Lit_0,
                ),
            ),
        ])),
        spec_tokenize(source@, file@) matches Ok(ts) ==> (crate::ast::flat_mixed_source(ts)
            ==> (exists|j: int|
            #[trigger] crate::ast::first_bad_literal(ts, j) && (r.1 matches Err(e) && e@ == seq![
                crate::error::EntryV {
                    msg: crate::error::entry_msg(
                        ts[crate::ast::span_lo(ts, 0, ts.len() as int)].loc,
                        crate::callable::arith_type_msg(
                            crate::ast::arith_op_of(
                                ts[crate::ast::span_lo(ts, 0, ts.len() as int)].dat->Ident_0,
                            ),
                            j,
                            crate::callable::disp_scalar(
                                crate::ast::data_of(
                                    ts[crate::ast::span_lo(ts, 0, ts.len() as int) + 1
                                        + j].dat->Lit_0,
                                ),
                            ),
                        ),
                    ),
                    notes: Seq::empty(),
                },
            ]))),
        spec_tokenize(source@, file@) matches Ok(ts) ==> (crate::ast::flat_unbound_source(ts)
            ==> (exists|p: int|
            crate::ast::span_lo(ts, 0, ts.len() as int) <= p < crate::ast::span_hi(
                ts,
                0,
                ts.len() as int,
            ) && #[trigger] crate::ast::unbound_at(ts, p, crate::ast::default_bindings(0)) && (
            forall|k: int|
                crate::ast::span_lo(ts, 0, ts.len() as int) <= k < p ==> !crate::ast::unbound_at(
                    ts,
                    k,
                    crate::ast::default_bindings(0),
                )) && (r.1 matches Err(e) && (ts[p].dat matches crate::tokens::TokV::Ident(nm) && e@
                == seq![
                crate::error::EntryV {
                    msg: crate::error::entry_msg(
                        ts[p].loc,
                        crate::ast::unknown_name_text(nm),
                    ),
                    notes: Seq::empty(),
                },
            ])))),
        spec_tokenize(source@, file@) matches Ok(ts) ==> (crate::ast::close_first_source(ts)
            ==> (r.1 matches Err(e) && e@ == seq![
            crate::error::EntryV {
                msg: crate::error::entry_msg(
                    ts[crate::ast::span_lo(ts, 0, ts.len() as int)].loc,
                    "Unmatched closing parentheses!"@,
                ),
                notes: seq![crate::error::note_msg(None, "Delete it."@)],
            },
        ])),
        spec_tokenize(source@, file@) matches Ok(ts) ==> (crate::ast::open_unclosed_source(ts)
            ==> (exists|p: int|
            crate::ast::span_lo(ts, 0, ts.len() as int) <= p < crate::ast::span_hi(
                ts,
                0,
                ts.len() as int,
            ) && (#[trigger] ts[p].dat) is Start && (forall|k: int|
                p < k < crate::ast::span_hi(ts, 0, ts.len() as int) ==> !((#[trigger] ts[k].dat) is Start))
                && (r.1 matches Err(e) && e@ == seq![
                crate::error::EntryV {
                    msg: crate::error::entry_msg(
                        ts[p].loc,
                        "Unmatched opening parentheses!"@,
                    ),
                    notes: seq![
                        crate::error::note_msg(None, "Deleting it might fix this error."@),
                    ],
                },
            ]))),
        spec_tokenize(source@, file@) matches Ok(ts) ==> ((ts.len() > 0 && crate::ast::span_lo(
            ts,
            0,
            ts.len() as int,
        ) >= crate::ast::span_hi(ts, 0, ts.len() as int)) ==> (r.1 matches Err(e) && e@ == seq![
            crate::error::EntryV {
                msg: crate::error::entry_msg(
                    LocV { filename: file@, line: 0, col: 0 },
                    "Empty statements are not allowed!"@,
                ),
                notes: Seq::empty(),
            },
        ] && r.0@.len() == 0)),
{
    let ghost tokres = spec_tokenize(source@, file@);
    let ghost gts = if tokres is Ok {
        tokres->Ok_0
    } else {
        Seq::empty()
    };
    let ghost goodsrc = tokres is Ok && crate::ast::flat_arith_source(gts);
    let ghost mixed = tokres is Ok && crate::ast::flat_mixed_source(gts);
    let ghost emptysrc = tokres is Ok && gts.len() > 0 && crate::ast::span_lo(
        gts,
        0,
        gts.len() as int,
    ) >= crate::ast::span_hi(gts, 0, gts.len() as int);
    let ghost unbsrc = tokres is Ok && crate::ast::flat_unbound_source(gts);
    let ghost closef = tokres is Ok && crate::ast::close_first_source(gts);
    let ghost openu = tokres is Ok && crate::ast::open_unclosed_source(gts);
    let ghost printsrc = tokres is Ok && crate::ast::flat_print_source(gts);
    let ghost lethsrc = tokres is Ok && (exists|q: int|
        crate::ast::let_head(
            gts,
            crate::ast::span_lo(gts, 0, gts.len() as int),
            crate::ast::span_hi(gts, 0, gts.len() as int),
            q,
        ));
    let fname = String::from_str(file);
    let toks = match tokenize(source, fname) {
        Ok(t) => t,
        Err(e) => {
            return (Vec::new(), Err(e));
        },
    };
    proof {
        if goodsrc || mixed || emptysrc || unbsrc || closef || openu || printsrc || lethsrc {
            assert(crate::tokens::token_views(toks@) =~= gts);
        }
    }
    let mut it = Interp::new();
    let mut scope = Scope::new_default(&mut it);
    proof {
        assert(crate::ast::wf_heap(it@.cells));
        assert forall|n: Seq<char>|
            scope.as_map().contains_key(n) implies 0 <= #[trigger] scope.as_map()[n]
            < it@.cells.len() && !(it@.cells[scope.as_map()[n]] is Statement) by {
            assert(scope.as_map() == crate::ast::default_bindings(0));
        }
        assert(it@.cells =~= crate::ast::default_cells());
        reveal_strlit("print");
        reveal_strlit("+");
        reveal_strlit("-");
        reveal_strlit("*");
        assert("print"@.len() == 5 && "+"@.len() == 1 && "-"@.len() == 1 && "*"@.len() == 1);
        assert("+"@[0] == '+' && "-"@[0] == '-' && "*"@[0] == '*');
        assert("print"@ != "+"@ && "print"@ != "-"@ && "print"@ != "*"@);
        assert("+"@ != "-"@ && "+"@ != "*"@ && "-"@ != "*"@);
        assert(crate::ast::default_bindings(0)["print"@] == 0);
        assert(crate::ast::default_bindings(0).contains_key("print"@));
        assert(crate::ast::default_bindings(0)["+"@] == 1);
        assert(crate::ast::default_bindings(0)["-"@] == 2);
        assert(crate::ast::default_bindings(0)["*"@] == 3);
        assert(crate::ast::default_bindings(0).contains_key("+"@));
        assert(crate::ast::default_bindings(0).contains_key("-"@));
        assert(crate::ast::default_bindings(0).contains_key("*"@));
    }
    let start = Location { filename: String::from_str(file), line: 0, col: 0 };
    proof {
        assert(start@ == (LocV { filename: file@, line: 0, col: 0 }));
        assert(toks@.map_values(|t: crate::tokens::Token| t@).len() == toks@.len());
    }
    let n = toks.len();
    let ghost h0 = it@.cells;
    let ghost m = scope.as_map();
    proof {
        assert(h0.len() == 4);
    }
    let res0 = make_ast(&toks, 0, n, &mut it, &mut scope, &start);
    proof {
        if goodsrc || mixed || printsrc {
            let vsq = crate::tokens::token_views(toks@);
            let a = crate::ast::span_lo(vsq, 0, vsq.len() as int);
            let nm = vsq[a].dat->Ident_0;
            assert(crate::ast::flat_ready(vsq, 0, n as int, m));
            if printsrc {
                assert(nm == "print"@);
                assert(m[nm] == 0);
            } else {
                assert(crate::ast::arith_name(nm));
                assert(m[nm] == 1 || m[nm] == 2 || m[nm] == 3);
            }
            assert(crate::ast::flat_val(vsq, a, m, h0) == h0[m[nm]]);
            assert(crate::types::is_func_v(h0[m[nm]]));
        }
    }
    let mut ast = match res0 {
        Ok(s) => {
            proof {
                if emptysrc {
                    assert(false);
                }
                if unbsrc {
                    assert(false);
                }
                if closef {
                    assert(false);
                }
                if openu {
                    assert(false);
                }
            }
            s
        },
        Err(e) => {
            let lines = it.into_output();
            proof {
                assert(lines@.map_values(|x: String| x@).len() == lines@.len());
            }
            return (lines, Err(e));
        },
    };
    let ghost h1 = it@.cells;
    proof {
        if goodsrc || mixed || printsrc {
            let vsq = crate::tokens::token_views(toks@);
            let a = crate::ast::span_lo(vsq, 0, vsq.len() as int);
            let b = crate::ast::span_hi(vsq, 0, vsq.len() as int);
            let nm = vsq[a].dat->Ident_0;
            assert(ast@ == crate::ast::flat_stmt(vsq, 0, n as int, m, h0.len() as int, start@));
            assert(h1 == h0 + crate::ast::flat_cells(vsq, a, b));
            assert(h1[ast@.op] == h0[m[nm]]);
            assert(h1[ast@.op] == crate::ast::default_cells()[m[nm]]);
            if printsrc {
                assert(h1[ast@.op] == ValueV::Func(crate::callable::IntrinsicOp::Print));
                assert(ast@.args.len() == 1);
            }
            if goodsrc || mixed {
                let o = crate::ast::arith_op_of(nm);
                assert(h1[ast@.op] == ValueV::Func(o));
                assert(o != crate::callable::IntrinsicOp::Print);
                assert(ast@.args.len() == b - a - 1 >= 2);
            }
            assert forall|j: int| 0 <= j < ast@.args.len() implies h1[#[trigger] ast@.args[j]]
                == crate::ast::data_of(vsq[a + 1 + j].dat->Lit_0) && crate::ast::scalar_v(
                h1[ast@.args[j]],
            ) by {
                assert(vsq[a + 1 + j].dat is Lit);
                assert(ast@.args[j] == crate::ast::flat_handle(vsq, a, a + 1 + j, m, h0.len() as int));
                crate::ast::lemma_flat_cells_index(vsq, a, b, a + 1 + j);
                assert(h1[h0.len() + crate::ast::lit_count(vsq, a, a + 1 + j)]
                    == crate::ast::flat_cells(vsq, a, b)[crate::ast::lit_count(vsq, a, a + 1 + j)]);
            }
            assert(crate::callable::all_plain(h1, ast@.args));
            assert(ast@.res is None);
            if goodsrc {
                assert forall|j: int| 0 <= j < ast@.args.len() implies h1[#[trigger] ast@.args[j]] is Integer by {
                    assert(vsq[a + 1 + j].dat matches crate::tokens::TokV::Lit(v) && v is Integer);
                    assert(h1[ast@.args[j]] == crate::ast::data_of(vsq[a + 1 + j].dat->Lit_0));
                }
                assert(crate::callable::all_ints(h1, ast@.args));
                assert(crate::callable::ints_of(h1, ast@.args) =~= crate::ast::flat_arith_ints(gts));
            }
            if mixed {
                let k0 = choose|k: int|
                    a < k < b && !((#[trigger] vsq[k].dat)->Lit_0 is Integer);
                let j0 = k0 - a - 1;
                assert(h1[ast@.args[j0]] == crate::ast::data_of(vsq[k0].dat->Lit_0));
                assert(!(h1[ast@.args[j0]] is Integer));
                assert(!crate::callable::all_ints(h1, ast@.args));
            }
        }
    }
    match ast.resolve(&mut it) {
        Ok(v) => {
            proof {
                if mixed {
                    assert(false);
                }
                if goodsrc {
                    let o = crate::ast::flat_arith_op(gts);
                    assert(it@.cells[v@] == ValueV::Integer(
                        crate::callable::arith_fold(o, crate::ast::flat_arith_ints(gts)),
                    ));
                    assert(crate::ast::scalar_v(it@.cells[v@]));
                }
                if printsrc {
                    assert(it@.cells[v@] == ValueV::Integer(0));
                    assert(crate::ast::scalar_v(it@.cells[v@]));
                }
            }
            let shown = it.display(&v);
            proof {
                if goodsrc {
                    let o = crate::ast::flat_arith_op(gts);
                    assert(shown@ == crate::numbers::int_repr(
                        crate::callable::arith_fold(o, crate::ast::flat_arith_ints(gts)),
                    ));
                    assert(it@.out.len() == 0);
                }
                if printsrc {
                    let vsq = crate::tokens::token_views(toks@);
                    let a = crate::ast::span_lo(vsq, 0, vsq.len() as int);
                    assert(shown@ == crate::numbers::int_repr(0));
                    assert(h1[ast@.args[0]] == crate::ast::data_of(vsq[a + 1].dat->Lit_0));
                    assert(it@.out =~= seq![
                        crate::callable::disp_scalar(
                            crate::ast::data_of(vsq[a + 1].dat->Lit_0),
                        ),
                    ]);
                }
            }
            let lines = it.into_output();
            proof {
                assert(lines@.map_values(|x: String| x@).len() == lines@.len());
                if printsrc {
                    let vsq = crate::tokens::token_views(toks@);
                    let a = crate::ast::span_lo(vsq, 0, vsq.len() as int);
                    assert(lines@.map_values(|x: String| x@) == seq![
                        crate::callable::disp_scalar(
                            crate::ast::data_of(vsq[a + 1].dat->Lit_0),
                        ),
                    ]);
                }
            }
            (lines, Ok(shown))
        },
        Err(e) => {
            proof {
                if goodsrc {
                    assert(false);
                }
                if printsrc {
                    assert(false);
                }
                if mixed {
                    let vsq = crate::tokens::token_views(toks@);
                    let a = crate::ast::span_lo(vsq, 0, vsq.len() as int);
                    let b = crate::ast::span_hi(vsq, 0, vsq.len() as int);
                    let o = crate::ast::arith_op_of(vsq[a].dat->Ident_0);
                    assert forall|k: int| a < k < b implies !((#[trigger] vsq[k].dat) is Ident) by {
                        assert(vsq[k].dat is Lit);
                    }
                    crate::ast::lemma_last_ident_head(vsq, a, b);
                    assert(ast@.loc == vsq[a].loc);
                    assert(crate::callable::all_scalar(h1, ast@.args));
                    let j = choose|j: int|
                        #[trigger] crate::callable::first_bad_operand(h1, ast@.args, j) && e@
                            == seq![
                            crate::error::EntryV {
                                msg: crate::error::entry_msg(
                                    ast@.loc,
                                    crate::callable::arith_type_msg(
                                        o,
                                        j,
                                        crate::callable::disp_scalar(h1[ast@.args[j]]),
                                    ),
                                ),
                                notes: Seq::empty(),
                            },
                        ];
                    assert(h1[ast@.args[j]] == crate::ast::data_of(vsq[a + 1 + j].dat->Lit_0));
                    assert forall|k: int|
                        0 <= k < j implies crate::ast::data_of(
                        (#[trigger] vsq[a + 1 + k]).dat->Lit_0,
                    ) is Integer by {
                        assert(h1[ast@.args[k]] == crate::ast::data_of(vsq[a + 1 + k].dat->Lit_0));
                        assert(h1[ast@.args[k]] is Integer);
                    }
                    assert(crate::ast::first_bad_literal(gts, j));
                }
            }
            (it.into_output(), Err(e))
        },
    }
}

} // verus!
