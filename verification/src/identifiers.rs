//! The two-phase scan of a `let` binding list: the whole list is read into
//! `(name, value)` pairs without touching the scope, so a binding may use
//! names bound before the `let` but never a sibling of the same list; only
//! afterwards does the parser introduce the collected names.
use crate::ast::frame_above;
use crate::ast::wf_heap;
use crate::ast::Interp;
use crate::ast::Scope;
use crate::ast::Var;
use crate::error::LispErrors;
use crate::text::chars_of;
use crate::text::string_from_chars;
use crate::tokens::Location;
use crate::tokens::Token;
use crate::tokens::TokenType;
use crate::types::LispValue;
use crate::types::ValueV;
use vstd::prelude::*;

verus! {

/// One of two things: for a binding list, either the name of a sibling the
/// initializer depends on, or the resolved value handle.
pub(crate) enum Either<L, R> {
    Left(L),
    Right(R),
}

/// A name a `let` list introduces: the identifier, what it is bound to,
/// and where it was introduced.
pub(crate) struct Identifier {
    pub ident: String,
    pub data: Either<String, Var>,
    pub loc_introduced: Location,
}

/// The state of the binding-list scan: between bindings, or inside one
/// parenthesized `(name value)` slot.
enum IdentParserStatus {
    Normal,
    Specific { introducing_loc: Location, ident: Option<String>, has_value: bool },
}

/// Whether an already-collected binding introduces `name`.
fn collected_has(vals: &Vec<Identifier>, name: &String) -> (r: bool)
    ensures
        r == exists|k: int| 0 <= k < vals@.len() && vals@[k].ident@ == name@,
{
    let n = vals.len();
    let mut i: usize = 0;
    while i < n
        invariant
            0 <= i <= n,
            n == vals@.len(),
            forall|k: int| 0 <= k < i ==> vals@[k].ident@ != name@,
        decreases n - i,
    {
        if vals[i].ident == *name {
            return true;
        }
        i += 1;
    }
    false
}

/// The message of the binding-list unknown-identifier diagnostic, naming
/// the identifier in quotes.
pub open spec fn unknown_quoted_text(n: Seq<char>) -> Seq<char> {
    "Unknown identifier \""@ + n + seq!['"', '!']
}

pub(crate) fn unknown_ident_msg(name: &String) -> (r: String)
    ensures
        r@ == unknown_quoted_text(name@),
{
    let mut text: Vec<char> = chars_of("Unknown identifier \"");
    let mut nm = chars_of(name.as_str());
    text.append(&mut nm);
    text.push('"');
    text.push('!');
    let s = string_from_chars(&text);
    proof {
        assert(s@ =~= unknown_quoted_text(name@));
    }
    s
}

/// What one collected binding is bound to, mathematically: a dependency on
/// a sibling of the same list, the scope's own handle, or a fresh cell
/// holding a value.
pub ghost enum BindV {
    Dep(Seq<char>),
    FromScope(int),
    Fresh(ValueV),
}

/// Mathematical image of one collected binding.
#[verifier::ext_equal]
pub ghost struct IdentV {
    pub ident: Seq<char>,
    pub bind: BindV,
    pub loc: crate::tokens::LocV,
}

/// The scan's position: between bindings, or inside one parenthesized
/// `(name value)` slot.
pub ghost enum SlotV {
    Between,
    Open { at: crate::tokens::LocV, name: Option<Seq<char>>, has_value: bool },
}

/// The scan's whole state.
#[verifier::ext_equal]
pub ghost struct ScanSt {
    pub vals: Seq<IdentV>,
    pub slot: SlotV,
}

/// Whether an already-collected binding introduces `n`.
pub open spec fn collected(vals: Seq<IdentV>, n: Seq<char>) -> bool {
    exists|k: int| 0 <= k < vals.len() && vals[k].ident == n
}

/// One step of the binding-list scan; an error carries the exact
/// diagnostic entries the scan raises there.
pub open spec fn scan_step(
    st: ScanSt,
    t: crate::tokens::TokenV,
    m: Map<Seq<char>, int>,
) -> Result<ScanSt, Seq<crate::error::EntryV>> {
    match (t.dat, st.slot) {
        (crate::tokens::TokV::Ident(id), SlotV::Between) => Ok(
            ScanSt {
                vals: st.vals.push(
                    IdentV { ident: id, bind: BindV::Fresh(ValueV::Nil), loc: t.loc },
                ),
                slot: SlotV::Between,
            },
        ),
        (crate::tokens::TokV::Start, SlotV::Between) => Ok(
            ScanSt { vals: st.vals, slot: SlotV::Open { at: t.loc, name: None, has_value: false } },
        ),
        (crate::tokens::TokV::Start, SlotV::Open { name: None, .. }) => Err(
            seq![
                crate::error::EntryV {
                    msg: crate::error::entry_msg(t.loc, "Variable names must be literals!"@),
                    notes: Seq::empty(),
                },
            ],
        ),
        (
            crate::tokens::TokV::Ident(id),
            SlotV::Open { at, name: None, has_value: _ },
        ) => Ok(
            ScanSt { vals: st.vals, slot: SlotV::Open { at, name: Some(id), has_value: false } },
        ),
        (
            crate::tokens::TokV::Ident(id),
            SlotV::Open { at, name: Some(nm), has_value: false },
        ) => if m.contains_key(id) {
            Ok(
                ScanSt {
                    vals: st.vals.push(
                        IdentV { ident: nm, bind: BindV::FromScope(m[id]), loc: t.loc },
                    ),
                    slot: SlotV::Open { at, name: Some(nm), has_value: true },
                },
            )
        } else if collected(st.vals, id) {
            Ok(
                ScanSt {
                    vals: st.vals.push(IdentV { ident: nm, bind: BindV::Dep(id), loc: t.loc }),
                    slot: SlotV::Open { at, name: Some(nm), has_value: true },
                },
            )
        } else {
            Err(
                seq![
                    crate::error::EntryV {
                        msg: crate::error::entry_msg(t.loc, unknown_quoted_text(id)),
                        notes: Seq::empty(),
                    },
                ],
            )
        },
        (crate::tokens::TokV::Ident(_), SlotV::Open { at, name: Some(_), has_value: true }) => Err(
            seq![
                crate::error::EntryV {
                    msg: crate::error::entry_msg(at, "Identifier not allowed here!"@),
                    notes: seq![crate::error::note_msg(Some(at), "Remove it"@)],
                },
            ],
        ),
        (
            crate::tokens::TokV::Lit(v),
            SlotV::Open { at, name: Some(nm), has_value: _ },
        ) => Ok(
            ScanSt {
                vals: st.vals.push(
                    IdentV { ident: nm, bind: BindV::Fresh(crate::ast::data_of(v)), loc: t.loc },
                ),
                slot: SlotV::Open { at, name: Some(nm), has_value: true },
            },
        ),
        (crate::tokens::TokV::End, SlotV::Open { at, name: Some(_), has_value: false }) => Err(
            seq![
                crate::error::EntryV {
                    msg: crate::error::entry_msg(
                        at,
                        "Variable defined in parentheses must have an initial value."@,
                    ),
                    notes: seq![
                        crate::error::note_msg(Some(at), "Remove the parentheses around it."@),
                    ],
                },
            ],
        ),
        (crate::tokens::TokV::End, SlotV::Open { name: Some(_), has_value: true, .. }) => Ok(
            ScanSt { vals: st.vals, slot: SlotV::Between },
        ),
        (crate::tokens::TokV::Key(_), _) => Err(
            seq![
                crate::error::EntryV {
                    msg: crate::error::entry_msg(
                        t.loc,
                        "Keywords are not allowed in variable assignments!"@,
                    ),
                    notes: Seq::empty(),
                },
            ],
        ),
        (crate::tokens::TokV::Start, SlotV::Open { name: Some(_), has_value: false, .. }) => Err(
            seq![
                crate::error::EntryV {
                    msg: crate::error::entry_msg(
                        t.loc,
                        "Variables must be literals or other values (not expressions)!"@,
                    ),
                    notes: Seq::empty(),
                },
            ],
        ),
        (crate::tokens::TokV::Start, SlotV::Open { name: Some(_), has_value: true, .. }) => Err(
            seq![
                crate::error::EntryV {
                    msg: crate::error::entry_msg(t.loc, "Unknown opening parenthesis."@),
                    notes: seq![crate::error::note_msg(Some(t.loc), "Delete it."@)],
                },
            ],
        ),
        (crate::tokens::TokV::End, _) => Err(
            seq![
                crate::error::EntryV {
                    msg: crate::error::entry_msg(t.loc, "Unmatched closing parentheses!"@),
                    notes: seq![crate::error::note_msg(None, "Delete it."@)],
                },
            ],
        ),
        (crate::tokens::TokV::Lit(_), SlotV::Between) => Err(
            seq![
                crate::error::EntryV {
                    msg: crate::error::entry_msg(t.loc, "Unknown literal in `let` statement."@),
                    notes: seq![
                        crate::error::note_msg(None, "Bind it to a variable name."@),
                        crate::error::note_msg(Some(t.loc), "Delete it."@),
                    ],
                },
            ],
        ),
        (crate::tokens::TokV::Lit(_), SlotV::Open { name: None, .. }) => Err(
            seq![
                crate::error::EntryV {
                    msg: crate::error::entry_msg(t.loc, "Cannot assign to literal value!"@),
                    notes: Seq::empty(),
                },
            ],
        ),
    }
}

/// The scan before any token is read.
pub open spec fn scan_init() -> ScanSt {
    ScanSt { vals: Seq::empty(), slot: SlotV::Between }
}

/// The scan folded over a token sequence.
pub open spec fn scan_run(st: ScanSt, ts: Seq<crate::tokens::TokenV>, m: Map<Seq<char>, int>) -> Result<
    ScanSt,
    Seq<crate::error::EntryV>,
>
    decreases ts.len(),
{
    if ts.len() == 0 {
        Ok(st)
    } else {
        match scan_step(st, ts[0], m) {
            Ok(st2) => scan_run(st2, ts.skip(1), m),
            Err(es) => Err(es),
        }
    }
}

proof fn lemma_scan_split(
    st: ScanSt,
    ts: Seq<crate::tokens::TokenV>,
    j: int,
    m: Map<Seq<char>, int>,
)
    requires
        0 <= j <= ts.len(),
    ensures
        scan_run(st, ts, m) == (match scan_run(st, ts.take(j), m) {
            Ok(st2) => scan_run(st2, ts.skip(j), m),
            Err(es) => Err(es),
        }),
    decreases j,
{
    reveal_with_fuel(scan_run, 3);
    if j == 0 {
        assert(ts.take(0) =~= Seq::<crate::tokens::TokenV>::empty());
        assert(ts.skip(0) =~= ts);
    } else {
        assert(ts.take(j)[0] == ts[0]);
        match scan_step(st, ts[0], m) {
            Ok(st2) => {
                lemma_scan_split(st2, ts.skip(1), j - 1, m);
                assert(ts.take(j).skip(1) =~= ts.skip(1).take(j - 1));
                assert(ts.skip(j) =~= ts.skip(1).skip(j - 1));
            },
            Err(_) => {},
        }
    }
}

proof fn lemma_step_err_full(
    span: Seq<crate::tokens::TokenV>,
    i: int,
    m: Map<Seq<char>, int>,
)
    requires
        0 <= i < span.len(),
        scan_run(scan_init(), span.take(i), m) matches Ok(sst) && scan_step(
            sst,
            span[i],
            m,
        ) is Err,
    ensures
        scan_run(scan_init(), span, m) == scan_step(
            scan_run(scan_init(), span.take(i), m)->Ok_0,
            span[i],
            m,
        ),
{
    lemma_scan_split(scan_init(), span, i, m);
    reveal_with_fuel(scan_run, 2);
    assert(span.skip(i)[0] == span[i]);
    assert(span.skip(i).len() == span.len() - i);
}

/// The values the collected fresh cells hold, in collection order.
pub open spec fn fresh_vals(vals: Seq<IdentV>) -> Seq<ValueV>
    decreases vals.len(),
{
    if vals.len() == 0 {
        Seq::empty()
    } else {
        fresh_vals(vals.drop_last()) + (match vals.last().bind {
            BindV::Fresh(v) => seq![v],
            _ => Seq::empty(),
        })
    }
}

/// Whether one collected binding is what the scan says: same name, same
/// location, and the handle the binding kind calls for; a fresh binding's
/// handle is the cell `fresh_at`.
pub(crate) open spec fn bind_matches(x: Identifier, i: IdentV, fresh_at: int) -> bool {
    x.ident@ == i.ident && x.loc_introduced@ == i.loc && (match i.bind {
        BindV::Dep(nm) => x.data matches Either::Left(s2) && s2@ == nm,
        BindV::FromScope(c) => x.data matches Either::Right(v) && v@ == c,
        BindV::Fresh(_) => x.data matches Either::Right(v) && v@ == fresh_at,
    })
}

/// Whether the collected bindings are exactly what the scan says, with the
/// fresh cells numbered upward from `base`.
pub(crate) open spec fn binds_match(xs: Seq<Identifier>, ids: Seq<IdentV>, base: int) -> bool {
    xs.len() == ids.len() && forall|k: int|
        0 <= k < ids.len() ==> #[trigger] bind_matches(
            xs[k],
            ids[k],
            base + fresh_vals(ids.take(k)).len(),
        )
}

proof fn lemma_binds_extend(
    xs0: Seq<Identifier>,
    x: Identifier,
    ids: Seq<IdentV>,
    ni: IdentV,
    base: int,
)
    requires
        binds_match(xs0, ids, base),
        bind_matches(x, ni, base + fresh_vals(ids).len()),
    ensures
        binds_match(xs0.push(x), ids.push(ni), base),
        fresh_vals(ids.push(ni)) == fresh_vals(ids) + (match ni.bind {
            BindV::Fresh(v) => seq![v],
            _ => Seq::empty(),
        }),
{
    assert(ids.push(ni).drop_last() =~= ids);
    assert(ids.push(ni).last() == ni);
    assert(fresh_vals(ids.push(ni)) =~= fresh_vals(ids) + (match ni.bind {
        BindV::Fresh(v) => seq![v],
        _ => Seq::empty(),
    }));
    assert forall|k: int| 0 <= k < ids.push(ni).len() implies #[trigger] bind_matches(
        xs0.push(x)[k],
        ids.push(ni)[k],
        base + fresh_vals(ids.push(ni).take(k)).len(),
    ) by {
        if k < ids.len() {
            assert(ids.push(ni).take(k) =~= ids.take(k));
            assert(xs0.push(x)[k] == xs0[k]);
            assert(bind_matches(xs0[k], ids[k], base + fresh_vals(ids.take(k)).len()));
        } else {
            assert(ids.push(ni).take(k) =~= ids);
            assert(xs0.push(x)[k] == x);
        }
    }
}

/// The scan state an exec scanner position stands for.
spec fn slot_view(st: IdentParserStatus) -> SlotV {
    match st {
        IdentParserStatus::Normal => SlotV::Between,
        IdentParserStatus::Specific { introducing_loc, ident, has_value } => SlotV::Open {
            at: introducing_loc@,
            name: match ident {
                Some(s) => Some(s@),
                None => None,
            },
            has_value,
        },
    }
}

/// Scans the tokens of one binding list, `toks[from..to]`, into the names
/// it introduces, without touching the scope. A binding's value may be a
/// literal or a name already in scope; a sibling name of the same list is
/// collected as a dependency for the caller to reject.
pub(crate) fn process_identifiers(
    toks: &Vec<Token>,
    from: usize,
    to: usize,
    it: &mut Interp,
    scope: &Scope,
) -> (r: Result<Vec<Identifier>, LispErrors>)
    requires
        wf_heap(old(it)@.cells),
        from <= to <= toks@.len(),
        scope.wf(),
        scope.below(old(it)@.cells.len() as int),
        forall|n: Seq<char>|
            scope.as_map().contains_key(n) ==> !(old(it)@.cells[#[trigger] scope.as_map()[n]] is Statement),
    ensures
        wf_heap(final(it)@.cells),
        frame_above(old(it)@.cells, final(it)@.cells, 0),
        final(it)@.cells.len() >= old(it)@.cells.len(),
        final(it)@.out == old(it)@.out,
        (r matches Ok(vals) ==> forall|k: int|
            0 <= k < vals@.len() ==> (#[trigger] vals@[k].data matches Either::Right(v) ==> 0 <= v@
                < final(it)@.cells.len() && !(final(it)@.cells[v@] is Statement))),
        scan_run(
            scan_init(),
            crate::tokens::token_views(toks@).subrange(from as int, to as int),
            scope.as_map(),
        ) matches Ok(sst) ==> (r matches Ok(vals) && binds_match(
            vals@,
            sst.vals,
            old(it)@.cells.len() as int,
        ) && final(it)@.cells == old(it)@.cells + fresh_vals(sst.vals)),
        scan_run(
            scan_init(),
            crate::tokens::token_views(toks@).subrange(from as int, to as int),
            scope.as_map(),
        ) matches Err(es) ==> (r matches Err(e) && e@ == es),
{
    let ghost pre = it@;
    let ghost vsq = crate::tokens::token_views(toks@);
    let ghost span = vsq.subrange(from as int, to as int);
    let ghost m = scope.as_map();
    let mut vals: Vec<Identifier> = Vec::new();
    let mut status = IdentParserStatus::Normal;
    proof {
        assert(span.take(0) =~= Seq::<crate::tokens::TokenV>::empty());
        assert(pre.cells + fresh_vals(scan_init().vals) =~= pre.cells);
        assert(binds_match(vals@, scan_init().vals, pre.cells.len() as int));
    }
    let mut i = from;
    while i < to
        invariant
            wf_heap(it@.cells),
            pre == old(it)@,
            frame_above(pre.cells, it@.cells, 0),
            pre.cells.len() <= it@.cells.len(),
            it@.out == pre.out,
            from <= i <= to <= toks@.len(),
            scope.wf(),
            scope.below(pre.cells.len() as int),
            forall|n: Seq<char>|
                scope.as_map().contains_key(n) ==> !(pre.cells[#[trigger] scope.as_map()[n]] is Statement),
            forall|k: int|
                0 <= k < vals@.len() ==> (#[trigger] vals@[k].data matches Either::Right(v) ==> 0
                    <= v@ < it@.cells.len() && !(it@.cells[v@] is Statement)),
            vsq == crate::tokens::token_views(toks@),
            span == vsq.subrange(from as int, to as int),
            m == scope.as_map(),
            (scan_run(scan_init(), span.take(i - from), m) matches Ok(sst) && sst.slot
                == slot_view(status) && binds_match(vals@, sst.vals, pre.cells.len() as int)
                && it@.cells == pre.cells + fresh_vals(sst.vals)),
        decreases to - i,
    {
        let ghost sst = scan_run(scan_init(), span.take(i - from), m)->Ok_0;
        let ghost tv = vsq[i as int];
        proof {
            assert(tv == toks@[i as int]@);
            assert(span[i - from] == tv);
            lemma_scan_split(scan_init(), span.take(i + 1 - from), i - from, m);
            assert(span.take(i + 1 - from).take(i - from) =~= span.take(i - from));
            assert(span.take(i + 1 - from).skip(i - from) =~= seq![tv]);
            reveal_with_fuel(scan_run, 3);
            assert(scan_run(scan_init(), span.take(i + 1 - from), m) == (match scan_step(
                sst,
                tv,
                m,
            ) {
                Ok(st2) => Ok(st2),
                Err(es) => Err(es),
            }));
        }
        let next_status: IdentParserStatus = match (&toks[i].dat, &status) {
            (TokenType::Ident(id), IdentParserStatus::Normal) => {
                let ghost v0 = vals@;
                let v = it.new_var(LispValue::Nil);
                vals.push(
                    Identifier {
                        ident: id.clone(),
                        data: Either::Right(v),
                        loc_introduced: toks[i].loc.clone(),
                    },
                );
                proof {
                    let ni = IdentV { ident: id@, bind: BindV::Fresh(ValueV::Nil), loc: tv.loc };
                    assert(tv.dat == crate::tokens::TokV::Ident(id@));
                    assert(scan_step(sst, tv, m) == Ok::<ScanSt, Seq<crate::error::EntryV>>(
                        ScanSt { vals: sst.vals.push(ni), slot: SlotV::Between },
                    ));
                    assert(bind_matches(
                        vals@.last(),
                        ni,
                        pre.cells.len() + fresh_vals(sst.vals).len() as int,
                    ));
                    lemma_binds_extend(v0, vals@.last(), sst.vals, ni, pre.cells.len() as int);
                    assert(v0.push(vals@.last()) =~= vals@);
                    assert(it@.cells =~= pre.cells + fresh_vals(sst.vals.push(ni)));
                }
                IdentParserStatus::Normal
            },
            (TokenType::StartStmt, IdentParserStatus::Normal) => {
                IdentParserStatus::Specific {
                    introducing_loc: toks[i].loc.clone(),
                    ident: None,
                    has_value: false,
                }
            },
            (
                TokenType::StartStmt,
                IdentParserStatus::Specific { introducing_loc: _, ident: None, has_value: _ },
            ) => {
                let e = LispErrors::new().error(&toks[i].loc, "Variable names must be literals!");
                proof {
                    lemma_step_err_full(span, i - from, m);
                    assert(e@ =~~= scan_step(sst, tv, m)->Err_0);
                }
                return Err(e);
            },
            (
                TokenType::Ident(id),
                IdentParserStatus::Specific { introducing_loc: l, ident: None, has_value: _ },
            ) => {
                IdentParserStatus::Specific {
                    introducing_loc: l.clone(),
                    ident: Some(id.clone()),
                    has_value: false,
                }
            },
            (
                TokenType::Ident(id),
                IdentParserStatus::Specific {
                    introducing_loc: l,
                    ident: Some(new_id),
                    has_value: false,
                },
            ) => {
                match scope.get(id) {
                    None => {
                        if collected_has(&vals, id) {
                            // A sibling of the same list: collected as a
                            // dependency, which the caller rejects.
                            let ghost v0 = vals@;
                            vals.push(
                                Identifier {
                                    ident: new_id.clone(),
                                    data: Either::Left(id.clone()),
                                    loc_introduced: toks[i].loc.clone(),
                                },
                            );
                            proof {
                                let k0 = choose|k: int|
                                    0 <= k < v0.len() && v0[k].ident@ == id@;
                                assert(bind_matches(
                                    v0[k0],
                                    sst.vals[k0],
                                    pre.cells.len() + fresh_vals(sst.vals.take(k0)).len() as int,
                                ));
                                assert(sst.vals[k0].ident == id@);
                                assert(collected(sst.vals, id@));
                                let ni = IdentV { ident: new_id@, bind: BindV::Dep(id@), loc: tv.loc };
                                assert(tv.dat == crate::tokens::TokV::Ident(id@));
                                assert(!m.contains_key(id@));
                                assert(scan_step(sst, tv, m) matches Ok(st2) && st2.vals
                                    == sst.vals.push(ni));
                                assert(bind_matches(
                                    vals@.last(),
                                    ni,
                                    pre.cells.len() + fresh_vals(sst.vals).len() as int,
                                ));
                                lemma_binds_extend(
                                    v0,
                                    vals@.last(),
                                    sst.vals,
                                    ni,
                                    pre.cells.len() as int,
                                );
                                assert(v0.push(vals@.last()) =~= vals@);
                                assert(it@.cells =~= pre.cells + fresh_vals(sst.vals.push(ni)));
                            }
                            IdentParserStatus::Specific {
                                introducing_loc: l.clone(),
                                ident: Some(new_id.clone()),
                                has_value: true,
                            }
                        } else {
                            let msg = unknown_ident_msg(id);
                            let e = LispErrors::new().error(&toks[i].loc, msg.as_str());
                            proof {
                                if collected(sst.vals, id@) {
                                    let k0 = choose|k: int|
                                        0 <= k < sst.vals.len() && sst.vals[k].ident == id@;
                                    assert(bind_matches(
                                        vals@[k0],
                                        sst.vals[k0],
                                        pre.cells.len() + fresh_vals(sst.vals.take(k0)).len() as int,
                                    ));
                                    assert(vals@[k0].ident@ == id@);
                                    assert(false);
                                }
                                assert(tv.dat == crate::tokens::TokV::Ident(id@));
                                lemma_step_err_full(span, i - from, m);
                                assert(e@ =~~= scan_step(sst, tv, m)->Err_0);
                            }
                            return Err(e);
                        }
                    },
                    Some(s) => {
                        let ghost v0 = vals@;
                        vals.push(
                            Identifier {
                                ident: new_id.clone(),
                                data: Either::Right(s),
                                loc_introduced: toks[i].loc.clone(),
                            },
                        );
                        proof {
                            let ni = IdentV {
                                ident: new_id@,
                                bind: BindV::FromScope(m[id@]),
                                loc: tv.loc,
                            };
                            assert(tv.dat == crate::tokens::TokV::Ident(id@));
                            assert(m.contains_key(id@));
                            assert(scan_step(sst, tv, m) matches Ok(st2) && st2.vals
                                == sst.vals.push(ni));
                            assert(bind_matches(
                                vals@.last(),
                                ni,
                                pre.cells.len() + fresh_vals(sst.vals).len() as int,
                            ));
                            lemma_binds_extend(v0, vals@.last(), sst.vals, ni, pre.cells.len() as int);
                            assert(v0.push(vals@.last()) =~= vals@);
                            assert(it@.cells =~= pre.cells + fresh_vals(sst.vals.push(ni)));
                        }
                        IdentParserStatus::Specific {
                            introducing_loc: l.clone(),
                            ident: Some(new_id.clone()),
                            has_value: true,
                        }
                    },
                }
            },
            (
                TokenType::Ident(_),
                IdentParserStatus::Specific { introducing_loc: l, ident: Some(_), has_value: true },
            ) => {
                let e = LispErrors::new().error(l, "Identifier not allowed here!").note(
                        Some(l),
                        "Remove it",
                    );
                proof {
                    lemma_step_err_full(span, i - from, m);
                    assert(e@ =~~= scan_step(sst, tv, m)->Err_0);
                }
                return Err(e);
            },
            (
                TokenType::Recognizable(value),
                IdentParserStatus::Specific { introducing_loc: l, ident: Some(id), has_value: _ },
            ) => {
                let ghost v0 = vals@;
                let v = it.new_var(value.clone_data());
                vals.push(
                    Identifier {
                        ident: id.clone(),
                        data: Either::Right(v),
                        loc_introduced: toks[i].loc.clone(),
                    },
                );
                proof {
                    let ni = IdentV {
                        ident: id@,
                        bind: BindV::Fresh(crate::ast::data_of(value@)),
                        loc: tv.loc,
                    };
                    assert(tv.dat == crate::tokens::TokV::Lit(value@));
                    assert(scan_step(sst, tv, m) matches Ok(st2) && st2.vals == sst.vals.push(
                        ni,
                    ));
                    assert(bind_matches(
                        vals@.last(),
                        ni,
                        pre.cells.len() + fresh_vals(sst.vals).len() as int,
                    ));
                    lemma_binds_extend(v0, vals@.last(), sst.vals, ni, pre.cells.len() as int);
                    assert(v0.push(vals@.last()) =~= vals@);
                    assert(it@.cells =~= pre.cells + fresh_vals(sst.vals.push(ni)));
                }
                IdentParserStatus::Specific {
                    introducing_loc: l.clone(),
                    ident: Some(id.clone()),
                    has_value: true,
                }
            },
            (
                TokenType::EndStmt,
                IdentParserStatus::Specific { introducing_loc: l, ident: Some(_), has_value: false },
            ) => {
                let e = LispErrors::new().error(
                        l,
                        "Variable defined in parentheses must have an initial value.",
                    ).note(Some(l), "Remove the parentheses around it.");
                proof {
                    lemma_step_err_full(span, i - from, m);
                    assert(e@ =~~= scan_step(sst, tv, m)->Err_0);
                }
                return Err(e);
            },
            (
                TokenType::EndStmt,
                IdentParserStatus::Specific { introducing_loc: _, ident: Some(_), has_value: true },
            ) => IdentParserStatus::Normal,
            (TokenType::KeyWord(_), _) => {
                let e = LispErrors::new().error(
                        &toks[i].loc,
                        "Keywords are not allowed in variable assignments!",
                    );
                proof {
                    lemma_step_err_full(span, i - from, m);
                    assert(e@ =~~= scan_step(sst, tv, m)->Err_0);
                }
                return Err(e);
            },
            (
                TokenType::StartStmt,
                IdentParserStatus::Specific { introducing_loc: _, ident: Some(_), has_value: false },
            ) => {
                let e = LispErrors::new().error(
                        &toks[i].loc,
                        "Variables must be literals or other values (not expressions)!",
                    );
                proof {
                    lemma_step_err_full(span, i - from, m);
                    assert(e@ =~~= scan_step(sst, tv, m)->Err_0);
                }
                return Err(e);
            },
            (
                TokenType::StartStmt,
                IdentParserStatus::Specific { introducing_loc: _, ident: Some(_), has_value: true },
            ) => {
                let e = LispErrors::new().error(&toks[i].loc, "Unknown opening parenthesis.").note(
                        Some(&toks[i].loc),
                        "Delete it.",
                    );
                proof {
                    lemma_step_err_full(span, i - from, m);
                    assert(e@ =~~= scan_step(sst, tv, m)->Err_0);
                }
                return Err(e);
            },
            (TokenType::EndStmt, _) => {
                // A close marker with no binding open never reaches the
                // list scan: the parser hands over balanced spans only.
                let e = LispErrors::new().error(&toks[i].loc, "Unmatched closing parentheses!").note(
                        None,
                        "Delete it.",
                    );
                proof {
                    lemma_step_err_full(span, i - from, m);
                    assert(e@ =~~= scan_step(sst, tv, m)->Err_0);
                }
                return Err(e);
            },
            (TokenType::Recognizable(_), IdentParserStatus::Normal) => {
                let e = LispErrors::new().error(&toks[i].loc, "Unknown literal in `let` statement.")
                        .note(None, "Bind it to a variable name.").note(
                        Some(&toks[i].loc),
                        "Delete it.",
                    );
                proof {
                    lemma_step_err_full(span, i - from, m);
                    assert(e@ =~~= scan_step(sst, tv, m)->Err_0);
                }
                return Err(e);
            },
            (
                TokenType::Recognizable(_),
                IdentParserStatus::Specific { introducing_loc: _, ident: None, has_value: _ },
            ) => {
                let e = LispErrors::new().error(&toks[i].loc, "Cannot assign to literal value!");
                proof {
                    lemma_step_err_full(span, i - from, m);
                    assert(e@ =~~= scan_step(sst, tv, m)->Err_0);
                }
                return Err(e);
            },
        };
        status = next_status;
        i += 1;
    }
    proof {
        assert(span.take(to - from) =~= span);
    }
    Ok(vals)
}

} // verus!
