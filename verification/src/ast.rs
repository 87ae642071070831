//! Shared value cells, statements, scopes, and the parser. A `Var` is a
//! handle to one cell of the interpreter's cell store; duplicating a handle
//! with `new_ref` aliases the cell, so a write through one handle is seen
//! through every other handle to the same cell.
use crate::error::LispErrors;
use crate::tokens::KeyWord;
use crate::tokens::LocV;
use crate::tokens::Location;
use crate::tokens::Token;
use crate::tokens::TokenType;
use crate::callable::IntrinsicOp;
use crate::types::is_func_v;
use crate::types::LispValue;
use crate::types::ValueV;
use vstd::prelude::*;

verus! {

/// A handle to one value cell: the index of the cell it aliases.
#[derive(Debug)]
pub struct Var {
    pub(crate) id: usize,
}

impl View for Var {
    type V = int;

    open(crate) spec fn view(&self) -> int {
        self.id as int
    }
}

impl Var {
    /// A second handle to the same cell, not a copy of its contents.
    pub fn new_ref(&self) -> (r: Var)
        ensures
            r@ == self@,
    {
        Var { id: self.id }
    }
}

impl PartialEq for Var {
    fn eq(&self, other: &Var) -> (r: bool) {
        self.id == other.id
    }
}

impl vstd::std_specs::cmp::PartialEqSpecImpl for Var {
    open spec fn obeys_eq_spec() -> bool {
        true
    }

    open spec fn eq_spec(&self, other: &Var) -> bool {
        self@ == other@
    }
}

/// Mathematical image of a `Statement`.
#[verifier::ext_equal]
pub ghost struct StmtV {
    pub args: Seq<int>,
    pub op: int,
    pub res: Option<int>,
    pub loc: LocV,
}

/// One parsed expression: the operator handle, the ordered argument handles,
/// the slot for the memoized result, and the source location for
/// diagnostics. The parser only builds statements whose operator cell holds
/// a callable value.
#[derive(Debug)]
pub struct Statement {
    pub(crate) args: Vec<Var>,
    pub(crate) op: Var,
    pub(crate) res: Option<Var>,
    pub(crate) loc: Location,
}

impl View for Statement {
    type V = StmtV;

    open(crate) spec fn view(&self) -> StmtV {
        StmtV {
            args: self.args@.map_values(|v: Var| v@),
            op: self.op@,
            res: match self.res {
                Some(v) => Some(v@),
                None => None,
            },
            loc: self.loc@,
        }
    }
}

pub(crate) fn vars_eq(a: &Vec<Var>, b: &Vec<Var>) -> (r: bool)
    ensures
        r == (a@.map_values(|v: Var| v@) == b@.map_values(|v: Var| v@)),
{
    let ghost av = a@.map_values(|v: Var| v@);
    let ghost bv = b@.map_values(|v: Var| v@);
    if a.len() != b.len() {
        assert(av.len() != bv.len());
        return false;
    }
    let n = a.len();
    let mut i: usize = 0;
    while i < n
        invariant
            0 <= i <= n,
            n == a.len() == b.len(),
            av == a@.map_values(|v: Var| v@),
            bv == b@.map_values(|v: Var| v@),
            forall|k: int| 0 <= k < i ==> av[k] == bv[k],
        decreases n - i,
    {
        if a[i].id != b[i].id {
            assert(av[i as int] != bv[i as int]);
            return false;
        }
        i += 1;
    }
    assert(av =~= bv);
    true
}

impl PartialEq for Statement {
    fn eq(&self, other: &Statement) -> (r: bool) {
        vars_eq(&self.args, &other.args) && self.op.id == other.op.id && (match (
            &self.res,
            &other.res,
        ) {
            (Some(a), Some(b)) => a.id == b.id,
            (None, None) => true,
            _ => false,
        }) && self.loc == other.loc
    }
}

impl vstd::std_specs::cmp::PartialEqSpecImpl for Statement {
    open spec fn obeys_eq_spec() -> bool {
        true
    }

    open spec fn eq_spec(&self, other: &Statement) -> bool {
        self@ == other@
    }
}

/// A value that is neither a statement nor a list: it aliases no other cell
/// and needs no evaluation.
pub open spec fn scalar_v(v: ValueV) -> bool {
    match v {
        ValueV::Integer(_) => true,
        ValueV::Str(_) => true,
        ValueV::Floating(_) => true,
        ValueV::Nil => true,
        ValueV::Func(_) => true,
        ValueV::List(_) => false,
        ValueV::Statement(_) => false,
    }
}

/// Whether `v` may stand in cell `at` of heap `h`: a statement's operator
/// and arguments point strictly below its own cell, as do a list's
/// elements, and a memoized result points at a scalar cell.
pub open spec fn value_fits(v: ValueV, at: int, h: Seq<ValueV>) -> bool {
    match v {
        ValueV::Statement(s) => 0 <= s.op < at && (forall|k: int|
            0 <= k < s.args.len() ==> 0 <= #[trigger] s.args[k] < at) && (match s.res {
            Some(r) => 0 <= r < h.len() && scalar_v(h[r]),
            None => true,
        }),
        ValueV::List(es) => forall|k: int| 0 <= k < es.len() ==> 0 <= #[trigger] es[k] < at,
        _ => true,
    }
}

/// Every cell of the heap holds a value that fits where it stands. Cells
/// are created below the cells that point at them, so the reachable values
/// form no cycle.
pub open spec fn wf_heap(h: Seq<ValueV>) -> bool {
    forall|i: int| 0 <= i < h.len() ==> value_fits(#[trigger] h[i], i, h)
}

/// A statement held outside the heap: its handles all point into the heap,
/// and its memoized result, if any, is scalar.
pub open spec fn wf_stmt(s: StmtV, h: Seq<ValueV>) -> bool {
    0 <= s.op < h.len() && (forall|k: int|
        0 <= k < s.args.len() ==> 0 <= #[trigger] s.args[k] < h.len()) && (match s.res {
        Some(r) => 0 <= r < h.len() && scalar_v(h[r]),
        None => true,
    })
}

/// A statement in cell `j` caches its result in cell `t`.
pub open spec fn res_points_at(h: Seq<ValueV>, j: int, t: int) -> bool {
    h[j] matches ValueV::Statement(s) && s.res == Some(t)
}

/// How one cell may change while statements evaluate: not at all, or by
/// having an empty result slot filled.
pub open spec fn cell_evolves(a: ValueV, b: ValueV) -> bool {
    b == a || (match (a, b) {
        (ValueV::Statement(s0), ValueV::Statement(s1)) => s1.args == s0.args && s1.op == s0.op
            && s1.loc == s0.loc && s0.res is None && s1.res is Some,
        _ => false,
    })
}

/// How the heap may change while statements evaluate: existing cells only
/// memoize, new cells only appear at the end.
pub open spec fn heap_evolves(h0: Seq<ValueV>, h1: Seq<ValueV>) -> bool {
    h1.len() >= h0.len() && forall|i: int| 0 <= i < h0.len() ==> cell_evolves(
        #[trigger] h0[i],
        #[trigger] h1[i],
    )
}

/// The cells at `b` and above are unchanged.
pub open spec fn frame_above(h0: Seq<ValueV>, h1: Seq<ValueV>, b: int) -> bool {
    forall|i: int| b <= i < h0.len() ==> h1[i] == #[trigger] h0[i]
}

/// The output log only grows: the old lines stand unchanged at the front.
pub open spec fn out_extends(o0: Seq<Seq<char>>, o1: Seq<Seq<char>>) -> bool {
    o1.len() >= o0.len() && forall|i: int| 0 <= i < o0.len() ==> o1[i] == #[trigger] o0[i]
}

/// Output extension is transitive.
pub proof fn lemma_out_trans(o0: Seq<Seq<char>>, o1: Seq<Seq<char>>, o2: Seq<Seq<char>>)
    requires
        out_extends(o0, o1),
        out_extends(o1, o2),
    ensures
        out_extends(o0, o2),
{
    assert forall|i: int| 0 <= i < o0.len() implies o2[i] == o0[i] by {
        assert(o1[i] == o0[i]);
        assert(o2[i] == o1[i]);
    }
}

/// Heap evolution is transitive.
pub proof fn lemma_evolves_trans(h0: Seq<ValueV>, h1: Seq<ValueV>, h2: Seq<ValueV>)
    requires
        heap_evolves(h0, h1),
        heap_evolves(h1, h2),
    ensures
        heap_evolves(h0, h2),
{
    assert forall|i: int| 0 <= i < h0.len() implies cell_evolves(h0[i], h2[i]) by {
        assert(cell_evolves(h0[i], h1[i]));
        assert(cell_evolves(h1[i], h2[i]));
    }
}

/// Mathematical image of the interpreter: its cells and its printed lines.
#[verifier::ext_equal]
pub ghost struct InterpV {
    pub cells: Seq<ValueV>,
    pub out: Seq<Seq<char>>,
}

/// The interpreter: the store of value cells that every handle points
/// into, and the lines printed so far.
pub struct Interp {
    cells: Vec<LispValue>,
    out: Vec<String>,
}

impl View for Interp {
    type V = InterpV;

    closed spec fn view(&self) -> InterpV {
        InterpV {
            cells: self.cells@.map_values(|v: LispValue| v@),
            out: self.out@.map_values(|s: String| s@),
        }
    }
}

impl Interp {
    /// A fresh interpreter with no cells and no output.
    pub fn new() -> (r: Interp)
        ensures
            r@.cells == Seq::<ValueV>::empty(),
            r@.out == Seq::<Seq<char>>::empty(),
    {
        let r = Interp { cells: Vec::new(), out: Vec::new() };
        proof {
            assert(r@.cells =~= Seq::<ValueV>::empty());
            assert(r@.out =~= Seq::<Seq<char>>::empty());
        }
        r
    }

    /// Allocates a fresh cell holding `v` and hands back the one handle to
    /// it.
    pub fn new_var(&mut self, v: LispValue) -> (r: Var)
        requires
            value_fits(v@, old(self)@.cells.len() as int, old(self)@.cells),
        ensures
            final(self)@.cells == old(self)@.cells.push(v@),
            final(self)@.out == old(self)@.out,
            r@ == old(self)@.cells.len(),
            wf_heap(old(self)@.cells) ==> wf_heap(final(self)@.cells),
    {
        let id = self.cells.len();
        self.cells.push(v);
        proof {
            assert(self@.cells =~= old(self)@.cells.push(v@));
            let h0 = old(self)@.cells;
            let h1 = self@.cells;
            if wf_heap(h0) {
                assert forall|i: int| 0 <= i < h1.len() implies value_fits(h1[i], i, h1) by {
                    if i < h0.len() {
                        assert(value_fits(h0[i], i, h0));
                        assert(h1[i] == h0[i]);
                        lemma_fits_longer(h0[i], i, h0, h1);
                    } else {
                        lemma_fits_longer(v@, i, h0, h1);
                    }
                }
            }
        }
        Var { id }
    }

    /// Reads the value a handle aliases.
    pub fn get(&self, v: &Var) -> (r: &LispValue)
        requires
            0 <= v@ < self@.cells.len(),
        ensures
            r@ == self@.cells[v@],
    {
        &self.cells[v.id]
    }

    /// Writes a value through a handle: every alias of the same cell sees
    /// the new value, and no other cell changes. The value must fit where
    /// it lands, and only a scalar may overwrite a cell that some
    /// statement's cached result points at.
    pub fn set(&mut self, v: &Var, val: LispValue)
        requires
            0 <= v@ < old(self)@.cells.len(),
            !(val@ is Statement),
            value_fits(val@, v@, old(self)@.cells),
            scalar_v(val@) || (forall|j: int|
                0 <= j < old(self)@.cells.len() ==> !res_points_at(old(self)@.cells, j, v@)),
        ensures
            final(self)@.cells == old(self)@.cells.update(v@, val@),
            final(self)@.out == old(self)@.out,
            wf_heap(old(self)@.cells) ==> wf_heap(final(self)@.cells),
    {
        self.cells.set(v.id, val);
        proof {
            assert(self@.cells =~= old(self)@.cells.update(v@, val@));
            let h0 = old(self)@.cells;
            let h1 = self@.cells;
            if wf_heap(h0) {
                assert forall|i: int| 0 <= i < h1.len() implies value_fits(h1[i], i, h1) by {
                    assert(value_fits(h0[i], i, h0));
                    if i != v@ {
                        assert(h1[i] == h0[i]);
                        match h1[i] {
                            ValueV::Statement(st) => {
                                match st.res {
                                    Some(rr) => {
                                        if rr == v@ {
                                            assert(res_points_at(h0, i, v@));
                                            assert(scalar_v(val@));
                                        } else {
                                            assert(h1[rr] == h0[rr]);
                                        }
                                    },
                                    None => {},
                                }
                            },
                            _ => {},
                        }
                    }
                }
            }
        }
    }

    /// A fresh, independent copy for plain data, lists element by element;
    /// a callable does not support copying and is shared instead, as
    /// `new_ref` would.
    pub fn maybe_clone(&mut self, v: &Var) -> (r: Var)
        requires
            wf_heap(old(self)@.cells),
            0 <= v@ < old(self)@.cells.len(),
            stmt_free(old(self)@.cells, v@),
        ensures
            wf_heap(final(self)@.cells),
            frame_above(old(self)@.cells, final(self)@.cells, 0),
            old(self)@.cells.len() <= final(self)@.cells.len(),
            final(self)@.out == old(self)@.out,
            0 <= r@ < final(self)@.cells.len(),
            copy_of(old(self)@.cells, v@, final(self)@.cells, r@),
            old(self)@.cells[v@] is Func ==> final(self)@ == old(self)@ && r@ == v@,
            (scalar_v(old(self)@.cells[v@]) && !(old(self)@.cells[v@] is Func)) ==> final(self)@.cells == old(self)@.cells.push(old(self)@.cells[v@]) && r@ == old(self)@.cells.len(),
    {
        let id = self.deep_clone(v.id);
        Var { id }
    }

    /// The recursive copy behind `maybe_clone`.
    fn deep_clone(&mut self, id: usize) -> (r: usize)
        requires
            wf_heap(old(self)@.cells),
            0 <= id < old(self)@.cells.len(),
            stmt_free(old(self)@.cells, id as int),
        ensures
            wf_heap(final(self)@.cells),
            frame_above(old(self)@.cells, final(self)@.cells, 0),
            old(self)@.cells.len() <= final(self)@.cells.len(),
            final(self)@.out == old(self)@.out,
            0 <= r < final(self)@.cells.len(),
            copy_of(old(self)@.cells, id as int, final(self)@.cells, r as int),
            old(self)@.cells[id as int] is Func ==> final(self)@ == old(self)@ && r == id,
            (scalar_v(old(self)@.cells[id as int]) && !(old(self)@.cells[id as int] is Func))
                ==> final(self)@.cells == old(self)@.cells.push(old(self)@.cells[id as int]) && r
                == old(self)@.cells.len(),
        decreases id,
    {
        let ghost h0 = self@.cells;
        let kind: u8 = match &self.cells[id] {
            LispValue::Func(_) => 0,
            LispValue::List(_) => 1,
            LispValue::Statement(_) => 2,
            _ => 3,
        };
        if kind == 0 {
            return id;
        }
        if kind == 2 {
            proof {
                assert(false);
            }
            return id;
        }
        if kind == 3 {
            let copied: LispValue = match &self.cells[id] {
                LispValue::Integer(x) => LispValue::Integer(*x),
                LispValue::Str(x) => LispValue::Str(x.clone()),
                LispValue::Floating(x) => LispValue::Floating(x.clone()),
                LispValue::Nil => LispValue::Nil,
                _ => {
                    proof {
                        assert(false);
                    }
                    LispValue::Nil
                },
            };
            let nid = self.cells.len();
            self.cells.push(copied);
            proof {
                assert(self@.cells =~= h0.push(h0[id as int]));
                assert forall|i: int|
                    0 <= i < self@.cells.len() implies value_fits(
                    self@.cells[i],
                    i,
                    self@.cells,
                ) by {
                    if i < h0.len() {
                        assert(value_fits(h0[i], i, h0));
                        lemma_fits_longer(h0[i], i, h0, self@.cells);
                    }
                }
            }
            return nid;
        }
        // A list: copy the elements, then wrap the copies in a fresh cell.
        let elems: Vec<Var> = match &self.cells[id] {
            LispValue::List(l) => copy_vars(l),
            _ => {
                proof {
                    assert(false);
                }
                Vec::new()
            },
        };
        let ghost es = self@.cells[id as int]->List_0;
        proof {
            assert(value_fits(self@.cells[id as int], id as int, self@.cells));
            assert forall|k: int|
                0 <= k < elems@.len() implies #[trigger] elems@[k]@ == es[k] && 0 <= es[k] < id
                && stmt_free(h0, es[k]) by {
                assert(elems@[k]@ == es[k]);
                assert(0 <= es[k] < id);
                assert(stmt_free(h0, es[k]));
            }
        }
        let n = elems.len();
        let mut copies: Vec<Var> = Vec::new();
        let mut i: usize = 0;
        while i < n
            invariant
                wf_heap(self@.cells),
                h0 == old(self)@.cells,
                wf_heap(h0),
                frame_above(h0, self@.cells, 0),
                h0.len() <= self@.cells.len(),
                self@.out == old(self)@.out,
                0 <= i <= n,
                n == elems@.len(),
                n == es.len(),
                0 <= id < h0.len(),
                forall|k: int| 0 <= k < n ==> 0 <= #[trigger] es[k] < id,
                forall|k: int| 0 <= k < n ==> #[trigger] elems@[k]@ == es[k],
                forall|k: int| 0 <= k < n ==> stmt_free(h0, #[trigger] es[k]),
                copies@.len() == i,
                forall|k: int| 0 <= k < i ==> 0 <= #[trigger] copies@[k]@ < self@.cells.len(),
                forall|k: int|
                    0 <= k < i ==> copy_of(h0, es[k], self@.cells, #[trigger] copies@[k]@),
            decreases n - i,
        {
            let ghost mid = self@.cells;
            proof {
                assert(elems@[i as int]@ == es[i as int]);
                assert(0 <= es[i as int] < id < h0.len());
                assert(stmt_free(h0, es[i as int]));
                lemma_stmt_free_extend(h0, mid, es[i as int]);
            }
            let c = self.deep_clone(elems[i].id);
            proof {
                let post = self@.cells;
                assert forall|j: int| 0 <= j < h0.len() implies post[j] == #[trigger] h0[j] by {
                    assert(mid[j] == h0[j]);
                    assert(post[j] == mid[j]);
                }
                lemma_copy_of_shrink(h0, mid, es[i as int], post, c as int);
                assert forall|k: int|
                    0 <= k < i implies copy_of(h0, es[k], post, #[trigger] copies@[k]@) by {
                    assert(elems@[k]@ == es[k] && 0 <= es[k] < id);
                    assert(copy_of(h0, es[k], mid, copies@[k]@));
                    lemma_copy_of_extend(h0, es[k], mid, post, copies@[k]@);
                }
            }
            copies.push(Var { id: c });
            i += 1;
        }
        let ghost hfin = self@.cells;
        let ghost cv = copies@.map_values(|x: Var| x@);
        let nid = self.cells.len();
        self.cells.push(LispValue::List(copies));
        proof {
            assert(self@.cells =~= hfin.push(ValueV::List(cv)));
            let post = self@.cells;
            assert forall|i2: int| 0 <= i2 < post.len() implies value_fits(post[i2], i2, post) by {
                if i2 < hfin.len() {
                    assert(value_fits(hfin[i2], i2, hfin));
                    lemma_fits_longer(hfin[i2], i2, hfin, post);
                } else {
                    assert forall|k: int| 0 <= k < cv.len() implies 0 <= #[trigger] cv[k]
                        < i2 by {
                        assert(cv[k] == copies@[k]@);
                    }
                }
            }
            assert(post[nid as int] == ValueV::List(cv));
            assert(cv.len() == es.len());
            assert forall|k: int| 0 <= k < es.len() implies copy_of(
                h0,
                es[k],
                post,
                #[trigger] cv[k],
            ) by {
                assert(cv[k] == copies@[k]@);
                assert(elems@[k]@ == es[k] && 0 <= es[k] < id);
                assert(copy_of(h0, es[k], hfin, copies@[k]@));
                lemma_copy_of_extend(h0, es[k], hfin, post, cv[k]);
            }
            assert(copy_of(h0, id as int, post, nid as int));
        }
        nid
    }

    /// How many cells the interpreter holds.
    pub fn cell_count(&self) -> (r: usize)
        ensures
            r == self@.cells.len(),
    {
        self.cells.len()
    }
}

/// A value that fits at `at` against `h0` still fits against a heap that
/// only extends `h0`.
proof fn lemma_fits_longer(v: ValueV, at: int, h0: Seq<ValueV>, h1: Seq<ValueV>)
    requires
        value_fits(v, at, h0),
        h1.len() >= h0.len(),
        forall|i: int| 0 <= i < h0.len() ==> h1[i] == h0[i],
    ensures
        value_fits(v, at, h1),
{
}

/// Writing through one handle is seen through every alias of the same
/// cell: reading any handle with the written cell's index finds exactly the
/// written value, whatever it held before.
pub proof fn lemma_alias_mutation(h: Seq<ValueV>, a: int, b: int, v: ValueV)
    requires
        0 <= a < h.len(),
        b == a,
    ensures
        h.update(a, v)[b] == v,
{
}

impl Interp {
    /// Hands back owned copies of the parts of the statement in cell `id`.
    pub(crate) fn read_stmt(&self, id: usize) -> (r: (Vec<Var>, Var, Option<Var>, Location))
        requires
            0 <= id < self@.cells.len(),
            self@.cells[id as int] is Statement,
        ensures
            (self@.cells[id as int] matches ValueV::Statement(s) && r.0@.map_values(|v: Var| v@)
                == s.args && r.1@ == s.op && (match r.2 {
                Some(v) => Some(v@),
                None => None,
            }) == s.res && r.3@ == s.loc),
    {
        match &self.cells[id] {
            LispValue::Statement(s) => {
                let args = copy_vars(&s.args);
                let op = Var { id: s.op.id };
                let res = match &s.res {
                    Some(v) => Some(Var { id: v.id }),
                    None => None,
                };
                let loc = s.loc.clone();
                (args, op, res, loc)
            },
            _ => {
                // Unreachable: the cell holds a statement.
                let loc = Location { filename: String::new(), line: 0, col: 0 };
                proof {
                    assert(false);
                }
                (Vec::new(), Var { id: 0 }, None, loc)
            },
        }
    }

    /// Fills the empty result slot of the statement in cell `id` with the
    /// handle `rid`.
    pub(crate) fn cache_result(&mut self, id: usize, rid: usize)
        requires
            wf_heap(old(self)@.cells),
            0 <= id < old(self)@.cells.len(),
            (old(self)@.cells[id as int] matches ValueV::Statement(s) && s.res is None),
            0 <= rid < old(self)@.cells.len(),
            scalar_v(old(self)@.cells[rid as int]),
        ensures
            final(self)@.out == old(self)@.out,
            (old(self)@.cells[id as int] matches ValueV::Statement(s) && final(self)@.cells
                == old(self)@.cells.update(
                id as int,
                ValueV::Statement(StmtV { res: Some(rid as int), ..s }),
            )),
            wf_heap(final(self)@.cells),
            heap_evolves(old(self)@.cells, final(self)@.cells),
    {
        let ghost h0 = self@.cells;
        let (args, op, _res, loc) = self.read_stmt(id);
        let stmt = Statement { args, op, res: Some(Var { id: rid }), loc };
        self.cells.set(id, LispValue::Statement(stmt));
        proof {
            let s0 = h0[id as int]->Statement_0;
            assert(self@.cells =~~= h0.update(
                id as int,
                ValueV::Statement(StmtV { res: Some(rid as int), ..s0 }),
            ));
            let h1 = self@.cells;
            assert forall|i: int| 0 <= i < h1.len() implies value_fits(h1[i], i, h1) by {
                assert(value_fits(h0[i], i, h0));
                if i != id {
                    assert(h1[i] == h0[i]);
                }
                match h1[i] {
                    ValueV::Statement(s) => {
                        match s.res {
                            Some(rr) => {
                                assert(h1[rr] == h0[rr]);
                            },
                            None => {},
                        }
                    },
                    _ => {},
                }
            }
            assert(heap_evolves(h0, h1));
        }
    }

    /// Appends one printed line to the output log.
    pub(crate) fn push_out(&mut self, line: String)
        ensures
            final(self)@.cells == old(self)@.cells,
            final(self)@.out == old(self)@.out.push(line@),
    {
        self.out.push(line);
        proof {
            assert(self@.out =~= old(self)@.out.push(line@));
        }
    }

    /// The printed lines, oldest first, in one vector.
    pub fn output(&self) -> (r: &Vec<String>)
        ensures
            r@.map_values(|s: String| s@) == self@.out,
    {
        &self.out
    }

    /// Consumes the interpreter and hands back its printed lines.
    pub fn into_output(self) -> (r: Vec<String>)
        ensures
            r@.map_values(|s: String| s@) == self@.out,
    {
        self.out
    }
}

/// Fresh handles to the same cells, in the same order.
pub(crate) fn copy_vars(v: &Vec<Var>) -> (r: Vec<Var>)
    ensures
        r@.len() == v@.len(),
        forall|k: int| 0 <= k < v@.len() ==> #[trigger] r@[k]@ == v@[k]@,
{
    let mut r: Vec<Var> = Vec::new();
    let n = v.len();
    let mut i: usize = 0;
    while i < n
        invariant
            0 <= i <= n,
            n == v.len(),
            r@.len() == i,
            forall|k: int| 0 <= k < i ==> #[trigger] r@[k]@ == v@[k]@,
        decreases n - i,
    {
        r.push(Var { id: v[i].id });
        i += 1;
    }
    r
}

/// The active mapping from identifier name to value handle.
pub struct Scope {
    names: Vec<String>,
    vars: Vec<Var>,
}

impl Scope {
    /// The scope is sound: one handle per name, each name bound once.
    pub closed spec fn wf(&self) -> bool {
        self.names@.len() == self.vars@.len() && forall|i: int, j: int|
            0 <= i < j < self.names@.len() ==> self.names@[i]@ != self.names@[j]@
    }

    /// The mapping the scope stands for.
    pub closed spec fn as_map(&self) -> Map<Seq<char>, int> {
        Map::new(
            |n: Seq<char>| exists|k: int| 0 <= k < self.names@.len() && self.names@[k]@ == n,
            |n: Seq<char>|
                {
                    let k = choose|k: int|
                        0 <= k < self.names@.len() && self.names@[k]@ == n;
                    self.vars@[k]@
                },
        )
    }

    /// Every handle the scope holds points below `bound`.
    pub open spec fn below(&self, bound: int) -> bool {
        forall|n: Seq<char>|
            self.as_map().contains_key(n) ==> 0 <= #[trigger] self.as_map()[n] < bound
    }

    /// An empty scope.
    pub fn new_empty() -> (r: Scope)
        ensures
            r.wf(),
            r.as_map() == Map::<Seq<char>, int>::empty(),
    {
        let r = Scope { names: Vec::new(), vars: Vec::new() };
        proof {
            assert(r.as_map() =~= Map::<Seq<char>, int>::empty());
        }
        r
    }

    /// The handle a name is bound to, if it is bound.
    pub fn get(&self, name: &String) -> (r: Option<Var>)
        requires
            self.wf(),
        ensures
            match r {
                Some(v) => self.as_map().contains_key(name@) && v@ == self.as_map()[name@],
                None => !self.as_map().contains_key(name@),
            },
    {
        let n = self.names.len();
        let mut i: usize = 0;
        while i < n
            invariant
                0 <= i <= n,
                self.wf(),
                n == self.names@.len(),
                forall|k: int| 0 <= k < i ==> self.names@[k]@ != name@,
            decreases n - i,
        {
            if self.names[i] == *name {
                proof {
                    let k = choose|k: int|
                        0 <= k < self.names@.len() && self.names@[k]@ == name@;
                    assert(k == i);
                }
                return Some(Var { id: self.vars[i].id });
            }
            i += 1;
        }
        None
    }

    /// Whether a name is bound.
    pub fn contains(&self, name: &String) -> (r: bool)
        requires
            self.wf(),
        ensures
            r == self.as_map().contains_key(name@),
    {
        match self.get(name) {
            Some(_) => true,
            None => false,
        }
    }

    /// Binds a fresh name to a handle.
    pub fn insert(&mut self, name: String, v: Var)
        requires
            old(self).wf(),
            !old(self).as_map().contains_key(name@),
        ensures
            final(self).wf(),
            final(self).as_map() == old(self).as_map().insert(name@, v@),
    {
        let ghost m0 = self.as_map();
        self.names.push(name);
        self.vars.push(v);
        proof {
            let n = self.names@.len() - 1;
            assert forall|i: int, j: int|
                0 <= i < j < self.names@.len() implies self.names@[i]@ != self.names@[j]@ by {
                if j < n {
                    assert(old(self).names@[i]@ != old(self).names@[j]@);
                } else {
                    assert(self.names@[j]@ == name@);
                    if self.names@[i]@ == name@ {
                        assert(m0.contains_key(name@));
                    }
                }
            }
            assert forall|q: Seq<char>| true implies #[trigger] self.as_map().contains_key(q)
                == m0.insert(name@, v@).contains_key(q) && (self.as_map().contains_key(q)
                ==> self.as_map()[q] == m0.insert(name@, v@)[q]) by {
                if q == name@ {
                    assert(self.names@[n]@ == q);
                    assert(self.as_map().contains_key(q));
                    let k = choose|k: int|
                        0 <= k < self.names@.len() && self.names@[k]@ == q;
                    assert(k == n);
                    assert(self.as_map()[q] == v@);
                } else {
                    if self.as_map().contains_key(q) {
                        let k = choose|k: int|
                            0 <= k < self.names@.len() && self.names@[k]@ == q;
                        assert(k < n);
                        assert(old(self).names@[k]@ == q);
                        assert(m0.contains_key(q));
                        let k0 = choose|k0: int|
                            0 <= k0 < old(self).names@.len() && old(self).names@[k0]@ == q;
                        assert(k0 == k);
                        assert(self.as_map()[q] == m0[q]);
                    }
                    if m0.contains_key(q) {
                        let k0 = choose|k0: int|
                            0 <= k0 < old(self).names@.len() && old(self).names@[k0]@ == q;
                        assert(self.names@[k0]@ == q);
                        assert(self.as_map().contains_key(q));
                    }
                }
            }
            assert(self.as_map() =~= m0.insert(name@, v@));
        }
    }
}


/// No unevaluated statement is reachable from the cell: such a value is
/// the plain data that copying is defined for.
pub open spec fn stmt_free(h: Seq<ValueV>, id: int) -> bool
    decreases id,
        when wf_heap(h) && 0 <= id < h.len()
{
    match h[id] {
        ValueV::Statement(_) => false,
        ValueV::List(es) => forall|k: int| 0 <= k < es.len() ==> stmt_free(h, #[trigger] es[k]),
        _ => true,
    }
}

/// Cell `b` of `h1` is an independent copy of cell `a` of `h0`: a callable
/// is shared, anything else sits in a cell allocated at or above `h0`'s
/// end, a list element by element.
pub open spec fn copy_of(h0: Seq<ValueV>, a: int, h1: Seq<ValueV>, b: int) -> bool
    decreases a,
        when wf_heap(h0) && 0 <= a < h0.len()
{
    match h0[a] {
        ValueV::Func(_) => b == a,
        ValueV::Statement(_) => false,
        ValueV::List(es) => h0.len() <= b < h1.len() && (h1[b] matches ValueV::List(es2)
            && es2.len() == es.len() && (forall|k: int|
            0 <= k < es.len() ==> copy_of(h0, es[k], h1, #[trigger] es2[k]))),
        v => h0.len() <= b < h1.len() && h1[b] == v,
    }
}

/// Freedom from statements carries over to a heap that extends this one.
proof fn lemma_stmt_free_extend(h0: Seq<ValueV>, h1: Seq<ValueV>, a: int)
    requires
        wf_heap(h0),
        wf_heap(h1),
        0 <= a < h0.len(),
        stmt_free(h0, a),
        h0.len() <= h1.len(),
        forall|i: int| 0 <= i < h0.len() ==> h1[i] == #[trigger] h0[i],
    ensures
        stmt_free(h1, a),
    decreases a,
{
    assert(h1[a] == h0[a]);
    match h0[a] {
        ValueV::List(es) => {
            assert(value_fits(h0[a], a, h0));
            assert forall|k: int| 0 <= k < es.len() implies stmt_free(h1, #[trigger] es[k]) by {
                assert(0 <= es[k] < a);
                assert(stmt_free(h0, es[k]));
                lemma_stmt_free_extend(h0, h1, es[k]);
            }
        },
        _ => {},
    }
}

/// A copy stays a copy when the destination heap only grows.
proof fn lemma_copy_of_extend(h0: Seq<ValueV>, a: int, h1: Seq<ValueV>, h2: Seq<ValueV>, b: int)
    requires
        wf_heap(h0),
        0 <= a < h0.len(),
        copy_of(h0, a, h1, b),
        h1.len() <= h2.len(),
        forall|i: int| 0 <= i < h1.len() ==> h2[i] == #[trigger] h1[i],
        h0.len() <= h1.len(),
    ensures
        copy_of(h0, a, h2, b),
    decreases a,
{
    match h0[a] {
        ValueV::List(es) => {
            assert(value_fits(h0[a], a, h0));
            let es2 = h1[b]->List_0;
            assert(h2[b] == h1[b]);
            assert forall|k: int| 0 <= k < es.len() implies copy_of(
                h0,
                es[k],
                h2,
                #[trigger] es2[k],
            ) by {
                assert(0 <= es[k] < a);
                assert(copy_of(h0, es[k], h1, es2[k]));
                lemma_copy_of_extend(h0, es[k], h1, h2, es2[k]);
            }
        },
        _ => {},
    }
}

/// A copy made against a grown source heap is also a copy against the
/// original, when the source cell and everything below it are unchanged.
proof fn lemma_copy_of_shrink(h0: Seq<ValueV>, hm: Seq<ValueV>, a: int, h1: Seq<ValueV>, b: int)
    requires
        wf_heap(h0),
        wf_heap(hm),
        0 <= a < h0.len(),
        h0.len() <= hm.len(),
        forall|i: int| 0 <= i < h0.len() ==> hm[i] == #[trigger] h0[i],
        copy_of(hm, a, h1, b),
    ensures
        copy_of(h0, a, h1, b),
    decreases a,
{
    assert(hm[a] == h0[a]);
    match h0[a] {
        ValueV::List(es) => {
            assert(value_fits(h0[a], a, h0));
            let es2 = h1[b]->List_0;
            assert forall|k: int| 0 <= k < es.len() implies copy_of(
                h0,
                es[k],
                h1,
                #[trigger] es2[k],
            ) by {
                assert(0 <= es[k] < a);
                assert(copy_of(hm, es[k], h1, es2[k]));
                lemma_copy_of_shrink(h0, hm, es[k], h1, es2[k]);
            }
        },
        _ => {},
    }
}

/// The map the default scope stands for, with the intrinsic cells starting
/// at `base`.
pub open spec fn default_bindings(base: int) -> Map<Seq<char>, int> {
    Map::<Seq<char>, int>::empty().insert("print"@, base).insert("+"@, base + 1).insert(
        "-"@,
        base + 2,
    ).insert("*"@, base + 3)
}

/// The cells the default scope seeds, in order.
pub open spec fn default_cells() -> Seq<ValueV> {
    seq![
        ValueV::Func(IntrinsicOp::Print),
        ValueV::Func(IntrinsicOp::Add),
        ValueV::Func(IntrinsicOp::Subtract),
        ValueV::Func(IntrinsicOp::Multiply),
    ]
}

impl Scope {
    /// The default scope: `print`, `+`, `-` and `*`, each bound to a fresh
    /// cell holding its intrinsic.
    pub fn new_default(it: &mut Interp) -> (r: Scope)
        ensures
            r.wf(),
            r.as_map() == default_bindings(old(it)@.cells.len() as int),
            final(it)@.cells == old(it)@.cells + default_cells(),
            final(it)@.out == old(it)@.out,
            wf_heap(old(it)@.cells) ==> wf_heap(final(it)@.cells),
    {
        let ghost base = it@.cells.len() as int;
        let p = it.new_var(LispValue::Func(IntrinsicOp::Print));
        let a = it.new_var(LispValue::Func(IntrinsicOp::Add));
        let s = it.new_var(LispValue::Func(IntrinsicOp::Subtract));
        let m = it.new_var(LispValue::Func(IntrinsicOp::Multiply));
        let mut sc = Scope::new_empty();
        proof {
            reveal_strlit("print");
            reveal_strlit("+");
            reveal_strlit("-");
            reveal_strlit("*");
            assert("print"@.len() == 5 && "+"@.len() == 1 && "-"@.len() == 1 && "*"@.len() == 1);
            assert("+"@[0] == '+' && "-"@[0] == '-' && "*"@[0] == '*');
            assert("print"@ != "+"@ && "print"@ != "-"@ && "print"@ != "*"@);
            assert("+"@ != "-"@ && "+"@ != "*"@ && "-"@ != "*"@);
        }
        sc.insert(String::from_str("print"), p);
        sc.insert(String::from_str("+"), a);
        sc.insert(String::from_str("-"), s);
        sc.insert(String::from_str("*"), m);
        proof {
            assert(sc.as_map() =~= default_bindings(base));
            assert(it@.cells =~= old(it)@.cells + default_cells());
        }
        sc
    }
}

/// A copy made of plain data is independent: the copy lives in a cell of
/// its own, above every existing cell, so a later write through any
/// existing handle leaves it untouched, and a write through the copy's
/// handle leaves every existing cell untouched.
pub proof fn lemma_clone_independent(h: Seq<ValueV>, a: int, v: ValueV, w: ValueV)
    requires
        0 <= a < h.len(),
    ensures
        h.push(v).update(a, w)[h.len() as int] == v,
        h.push(v).update(h.len() as int, w)[a] == h[a],
{
}

/// No scope entry aliases a cell that holds an unevaluated statement.
pub open spec fn scope_plain(sc: Scope, h: Seq<ValueV>) -> bool {
    forall|n: Seq<char>|
        sc.as_map().contains_key(n) ==> !(h[#[trigger] sc.as_map()[n]] is Statement)
}


/// The value a literal token contributes to a fresh cell: the literal
/// itself for plain data, `nil` otherwise.
pub open spec fn data_of(v: ValueV) -> ValueV {
    if scalar_v(v) {
        v
    } else {
        ValueV::Nil
    }
}

/// Where the working span starts: one past the opening marker when the
/// span wraps itself in a start/end pair.
pub open spec fn span_lo(vs: Seq<crate::tokens::TokenV>, lo: int, hi: int) -> int {
    if lo < hi && vs[lo].dat is Start && vs[hi - 1].dat is End {
        lo + 1
    } else {
        lo
    }
}

/// Where the working span ends.
pub open spec fn span_hi(vs: Seq<crate::tokens::TokenV>, lo: int, hi: int) -> int {
    if lo < hi && vs[lo].dat is Start && vs[hi - 1].dat is End {
        hi - 1
    } else {
        hi
    }
}

/// A flat working span: every token is an identifier or a literal, so the
/// parser collects one value per token, with no nesting and no keyword.
pub open spec fn flat_span(vs: Seq<crate::tokens::TokenV>, a: int, b: int) -> bool {
    forall|k: int| a <= k < b ==> ((#[trigger] vs[k].dat) is Ident || vs[k].dat is Lit)
}

/// The token at `k` is an identifier the scope does not bind.
pub open spec fn unbound_at(vs: Seq<crate::tokens::TokenV>, k: int, m: Map<Seq<char>, int>) -> bool {
    vs[k].dat matches crate::tokens::TokV::Ident(n) && !m.contains_key(n)
}

/// Every identifier of the span is bound in the scope.
pub open spec fn all_bound(
    vs: Seq<crate::tokens::TokenV>,
    a: int,
    b: int,
    m: Map<Seq<char>, int>,
) -> bool {
    forall|k: int| a <= k < b ==> !(#[trigger] unbound_at(vs, k, m))
}

/// A span the flat clauses of `make_ast` speak about: non-empty, flat, and
/// with every identifier bound.
pub open spec fn flat_ready(
    vs: Seq<crate::tokens::TokenV>,
    lo: int,
    hi: int,
    m: Map<Seq<char>, int>,
) -> bool {
    lo < hi && span_lo(vs, lo, hi) < span_hi(vs, lo, hi) && flat_span(
        vs,
        span_lo(vs, lo, hi),
        span_hi(vs, lo, hi),
    ) && all_bound(vs, span_lo(vs, lo, hi), span_hi(vs, lo, hi), m)
}

/// How many literals stand before position `k` of the span.
pub open spec fn lit_count(vs: Seq<crate::tokens::TokenV>, a: int, k: int) -> int
    decreases k - a,
{
    if k <= a {
        0
    } else {
        lit_count(vs, a, k - 1) + if vs[k - 1].dat is Lit {
            1int
        } else {
            0int
        }
    }
}

/// The cells a flat span allocates: the value of each literal, in order.
pub open spec fn flat_cells(vs: Seq<crate::tokens::TokenV>, a: int, b: int) -> Seq<ValueV>
    decreases b - a,
{
    if b <= a {
        Seq::empty()
    } else {
        flat_cells(vs, a, b - 1) + (match vs[b - 1].dat {
            crate::tokens::TokV::Lit(v) => seq![data_of(v)],
            _ => Seq::empty(),
        })
    }
}

/// The handle the parser collects for position `k` of a flat span: the
/// scope's handle for an identifier, the next fresh cell for a literal.
pub open spec fn flat_handle(
    vs: Seq<crate::tokens::TokenV>,
    a: int,
    k: int,
    m: Map<Seq<char>, int>,
    base: int,
) -> int {
    match vs[k].dat {
        crate::tokens::TokV::Ident(n) => m[n],
        crate::tokens::TokV::Lit(_) => base + lit_count(vs, a, k),
        _ => 0,
    }
}

/// The value the collected handle for position `k` aliases, against the
/// heap the parse started from.
pub open spec fn flat_val(
    vs: Seq<crate::tokens::TokenV>,
    k: int,
    m: Map<Seq<char>, int>,
    h0: Seq<ValueV>,
) -> ValueV {
    match vs[k].dat {
        crate::tokens::TokV::Ident(n) => h0[m[n]],
        crate::tokens::TokV::Lit(v) => data_of(v),
        _ => ValueV::Nil,
    }
}

/// The location of the last identifier of the span, which becomes the
/// statement's call-site location.
pub open spec fn last_ident_loc(vs: Seq<crate::tokens::TokenV>, a: int, b: int) -> Option<LocV>
    decreases b - a,
{
    if b <= a {
        None
    } else if vs[b - 1].dat is Ident {
        Some(vs[b - 1].loc)
    } else {
        last_ident_loc(vs, a, b - 1)
    }
}

/// The statement a flat span parses to.
pub open spec fn flat_stmt(
    vs: Seq<crate::tokens::TokenV>,
    lo: int,
    hi: int,
    m: Map<Seq<char>, int>,
    base: int,
    start: LocV,
) -> StmtV {
    StmtV {
        op: flat_handle(vs, span_lo(vs, lo, hi), span_lo(vs, lo, hi), m, base),
        args: Seq::new(
            (span_hi(vs, lo, hi) - span_lo(vs, lo, hi) - 1) as nat,
            |j: int| flat_handle(vs, span_lo(vs, lo, hi), span_lo(vs, lo, hi) + 1 + j, m, base),
        ),
        res: None,
        loc: match last_ident_loc(vs, span_lo(vs, lo, hi), span_hi(vs, lo, hi)) {
            Some(l) => l,
            None => start,
        },
    }
}


/// The names of the arithmetic intrinsics.
pub open spec fn arith_name(n: Seq<char>) -> bool {
    n == "+"@ || n == "-"@ || n == "*"@
}

/// The intrinsic an arithmetic name denotes.
pub open spec fn arith_op_of(n: Seq<char>) -> IntrinsicOp {
    if n == "+"@ {
        IntrinsicOp::Add
    } else if n == "-"@ {
        IntrinsicOp::Subtract
    } else {
        IntrinsicOp::Multiply
    }
}

/// A canonical arithmetic program, as a whole token sequence: one flat
/// span whose head names an arithmetic intrinsic of the default scope and
/// whose remaining tokens are two or more integer literals.
pub open spec fn flat_arith_source(vs: Seq<crate::tokens::TokenV>) -> bool {
    let a = span_lo(vs, 0, vs.len() as int);
    let b = span_hi(vs, 0, vs.len() as int);
    flat_ready(vs, 0, vs.len() as int, default_bindings(0)) && (
    vs[a].dat matches crate::tokens::TokV::Ident(n) && arith_name(n)) && b - a >= 3 && (forall|
        k: int,
    |
        a < k < b ==> ((#[trigger] vs[k].dat) matches crate::tokens::TokV::Lit(v)
            && v is Integer))
}

/// The intrinsic a canonical arithmetic program calls.
pub open spec fn flat_arith_op(vs: Seq<crate::tokens::TokenV>) -> IntrinsicOp {
    arith_op_of(vs[span_lo(vs, 0, vs.len() as int)].dat->Ident_0)
}

/// A canonical arithmetic call whose operands are literals with at least
/// one of them not an integer.
pub open spec fn flat_mixed_source(vs: Seq<crate::tokens::TokenV>) -> bool {
    let a = span_lo(vs, 0, vs.len() as int);
    let b = span_hi(vs, 0, vs.len() as int);
    flat_ready(vs, 0, vs.len() as int, default_bindings(0)) && (
    vs[a].dat matches crate::tokens::TokV::Ident(n) && arith_name(n)) && b - a >= 3 && (forall|
        k: int,
    |
        a < k < b ==> (#[trigger] vs[k].dat) is Lit) && (exists|k: int|
        a < k < b && !((#[trigger] vs[k].dat)->Lit_0 is Integer))
}

/// A flat program naming an identifier the default scope does not bind.
pub open spec fn flat_unbound_source(vs: Seq<crate::tokens::TokenV>) -> bool {
    let a = span_lo(vs, 0, vs.len() as int);
    let b = span_hi(vs, 0, vs.len() as int);
    vs.len() > 0 && a < b && flat_span(vs, a, b) && !all_bound(vs, a, b, default_bindings(0))
}

/// A program whose working span opens with a close marker: a lone `)`.
pub open spec fn close_first_source(vs: Seq<crate::tokens::TokenV>) -> bool {
    let a = span_lo(vs, 0, vs.len() as int);
    let b = span_hi(vs, 0, vs.len() as int);
    vs.len() > 0 && a < b && vs[a].dat is End
}

/// A program whose working span opens a statement it never closes — a lone
/// `(` — with no keyword and every identifier bound, so that the scan runs
/// to the end of the span.
pub open spec fn open_unclosed_source(vs: Seq<crate::tokens::TokenV>) -> bool {
    let a = span_lo(vs, 0, vs.len() as int);
    let b = span_hi(vs, 0, vs.len() as int);
    vs.len() > 0 && a < b && vs[a].dat is Start && (forall|k: int|
        a <= k < b ==> !((#[trigger] vs[k].dat) is End) && !(vs[k].dat is Key)) && all_bound(
        vs,
        a,
        b,
        default_bindings(0),
    )
}

/// A canonical print program, as a whole token sequence: one flat span
/// calling the default scope's `print` on a single literal.
pub open spec fn flat_print_source(vs: Seq<crate::tokens::TokenV>) -> bool {
    let a = span_lo(vs, 0, vs.len() as int);
    let b = span_hi(vs, 0, vs.len() as int);
    flat_ready(vs, 0, vs.len() as int, default_bindings(0)) && vs[a].dat
        == crate::tokens::TokV::Ident("print"@) && b - a == 2 && vs[a + 1].dat is Lit
}

/// A span that is one wrapped flat call: a start/end pair around a flat
/// interior whose head is callable. The parser builds the inner statement
/// and hands it back unwrapped.
pub open spec fn wrapped_flat(
    vs: Seq<crate::tokens::TokenV>,
    a: int,
    b: int,
    m: Map<Seq<char>, int>,
    h: Seq<ValueV>,
) -> bool {
    vs[a].dat is Start && vs[b - 1].dat is End && a + 1 < b - 1 && flat_span(vs, a + 1, b - 1)
        && all_bound(vs, a + 1, b - 1, m) && is_func_v(flat_val(vs, a + 1, m, h))
}

/// Operand `j` of a canonical arithmetic program is the first whose
/// literal is not an integer.
pub open spec fn first_bad_literal(vs: Seq<crate::tokens::TokenV>, j: int) -> bool {
    let a = span_lo(vs, 0, vs.len() as int);
    let b = span_hi(vs, 0, vs.len() as int);
    0 <= j < b - a - 1 && !(data_of(vs[a + 1 + j].dat->Lit_0) is Integer) && (forall|k: int|
        0 <= k < j ==> data_of((#[trigger] vs[a + 1 + k]).dat->Lit_0) is Integer)
}

/// When the head is the span's only identifier, it is also its last.
pub proof fn lemma_last_ident_head(vs: Seq<crate::tokens::TokenV>, a: int, b: int)
    requires
        a < b,
        vs[a].dat is Ident,
        forall|k: int| a < k < b ==> !((#[trigger] vs[k].dat) is Ident),
    ensures
        last_ident_loc(vs, a, b) == Some(vs[a].loc),
    decreases b - a,
{
    if b - 1 > a {
        lemma_last_ident_head(vs, a, b - 1);
    }
}

/// The operand values of a canonical arithmetic program, in source order.
pub open spec fn flat_arith_ints(vs: Seq<crate::tokens::TokenV>) -> Seq<int> {
    Seq::new(
        (span_hi(vs, 0, vs.len() as int) - span_lo(vs, 0, vs.len() as int) - 1) as nat,
        |j: int| vs[span_lo(vs, 0, vs.len() as int) + 1 + j].dat->Lit_0->Integer_0,
    )
}

/// A flat span allocates exactly one cell per literal.
pub proof fn lemma_flat_cells_len(vs: Seq<crate::tokens::TokenV>, a: int, k: int)
    ensures
        flat_cells(vs, a, k).len() == lit_count(vs, a, k),
    decreases k - a,
{
    if k > a {
        lemma_flat_cells_len(vs, a, k - 1);
        match vs[k - 1].dat {
            crate::tokens::TokV::Lit(v) => {
                assert(flat_cells(vs, a, k) == flat_cells(vs, a, k - 1) + seq![data_of(v)]);
            },
            _ => {
                assert(flat_cells(vs, a, k) =~= flat_cells(vs, a, k - 1));
            },
        }
    }
}

/// The fresh cell of the literal at position `k` holds that literal's
/// value.
pub proof fn lemma_flat_cells_index(vs: Seq<crate::tokens::TokenV>, a: int, b: int, k: int)
    requires
        a <= k < b,
        vs[k].dat is Lit,
    ensures
        0 <= lit_count(vs, a, k) < flat_cells(vs, a, b).len(),
        flat_cells(vs, a, b)[lit_count(vs, a, k)] == data_of(vs[k].dat->Lit_0),
    decreases b - a,
{
    lemma_flat_cells_len(vs, a, k);
    lemma_flat_cells_len(vs, a, b);
    if k == b - 1 {
        lemma_flat_cells_len(vs, a, b - 1);
    } else {
        lemma_flat_cells_index(vs, a, b - 1, k);
    }
}

/// The parse-level unknown-identifier message, naming the identifier in
/// backticks.
pub open spec fn unknown_name_text(n: Seq<char>) -> Seq<char> {
    "Unknown identifier `"@ + n + seq!['`', '!']
}

fn unknown_name_msg(name: &String) -> (r: String)
    ensures
        r@ == unknown_name_text(name@),
{
    let mut text: Vec<char> = crate::text::chars_of("Unknown identifier `");
    let mut nm = crate::text::chars_of(name.as_str());
    text.append(&mut nm);
    text.push('`');
    text.push('!');
    let s = crate::text::string_from_chars(&text);
    proof {
        assert(s@ =~= unknown_name_text(name@));
    }
    s
}

/// The diagnostics of an expression that is not a call and not a single
/// nested statement.
fn raw_list_err(loc: &Location) -> (r: LispErrors)
    ensures
        r@ == seq![
            crate::error::EntryV {
                msg: crate::error::entry_msg(loc@, "Raw lists are not available (Yet...)!"@),
                notes: seq![
                    crate::error::note_msg(None, "This is not a function."@),
                    crate::error::note_msg(
                        None,
                        "Use the `list` intrinsic to convert this to a list."@,
                    ),
                ],
            },
        ],
{
    let e = LispErrors::new().error(loc, "Raw lists are not available (Yet...)!").note(
        None,
        "This is not a function.",
    ).note(None, "Use the `list` intrinsic to convert this to a list.");
    proof {
        assert(e@ =~~= seq![
            crate::error::EntryV {
                msg: crate::error::entry_msg(loc@, "Raw lists are not available (Yet...)!"@),
                notes: seq![
                    crate::error::note_msg(None, "This is not a function."@),
                    crate::error::note_msg(
                        None,
                        "Use the `list` intrinsic to convert this to a list."@,
                    ),
                ],
            },
        ]);
    }
    e
}

/// Binds one freshly introduced name; reusing any already-bound name,
/// intrinsics included, is a shadowing error and leaves the scope alone.
fn introduce_identifier(scope: &mut Scope, ident: String, value: Var, loc: &Location) -> (r: Result<
    (),
    LispErrors,
>)
    requires
        old(scope).wf(),
    ensures
        final(scope).wf(),
        r is Ok <==> !old(scope).as_map().contains_key(ident@),
        r matches Ok(u) ==> final(scope).as_map() == old(scope).as_map().insert(ident@, value@),
        r matches Err(e) ==> *final(scope) == *old(scope) && e@ == seq![
            crate::error::EntryV {
                msg: crate::error::entry_msg(loc@, "Shadowing is not currently allowed!"@),
                notes: seq![crate::error::note_msg(None, "Change its name."@)],
            },
        ],
{
    if scope.contains(&ident) {
        let e = LispErrors::new().error(loc, "Shadowing is not currently allowed!").note(
            None,
            "Change its name.",
        );
        proof {
            assert(e@ =~~= seq![
                crate::error::EntryV {
                    msg: crate::error::entry_msg(loc@, "Shadowing is not currently allowed!"@),
                    notes: seq![crate::error::note_msg(None, "Change its name."@)],
                },
            ]);
        }
        return Err(e);
    }
    scope.insert(ident, value);
    Ok(())
}

/// The binding application folded over the collected list: a sibling
/// dependency is rejected where it stands; a name the scope already binds
/// is a shadowing error; a fresh name is inserted and the fold goes on.
pub(crate) open spec fn apply_run(
    m: Map<Seq<char>, int>,
    xs: Seq<crate::identifiers::Identifier>,
) -> Result<Map<Seq<char>, int>, Seq<crate::error::EntryV>>
    decreases xs.len(),
{
    if xs.len() == 0 {
        Ok(m)
    } else {
        match xs[0].data {
            crate::identifiers::Either::Left(_) => Err(
                seq![
                    crate::error::EntryV {
                        msg: crate::error::entry_msg(
                            xs[0].loc_introduced@,
                            "Making a variable depend upon another in the statement is not currently implemented!"@,
                        ),
                        notes: Seq::empty(),
                    },
                ],
            ),
            crate::identifiers::Either::Right(v) => if m.contains_key(xs[0].ident@) {
                Err(
                    seq![
                        crate::error::EntryV {
                            msg: crate::error::entry_msg(
                                xs[0].loc_introduced@,
                                "Shadowing is not currently allowed!"@,
                            ),
                            notes: seq![crate::error::note_msg(None, "Change its name."@)],
                        },
                    ],
                )
            } else {
                apply_run(m.insert(xs[0].ident@, v@), xs.skip(1))
            },
        }
    }
}

/// The binding list's nesting depth after reading `vs[from..i)`: start
/// markers open, end markers close.
pub open spec fn list_depth(vs: Seq<crate::tokens::TokenV>, from: int, i: int) -> int
    decreases i - from,
{
    if i <= from {
        0
    } else {
        list_depth(vs, from, i - 1) + (if vs[i - 1].dat is Start {
            1int
        } else if vs[i - 1].dat is End {
            -1int
        } else {
            0int
        })
    }
}

/// A `let` form at the head of the working span `[a, b)`: the keyword,
/// its binding list opened at once, no keyword inside the list, and `q`
/// the position of the end marker where the list's nesting first returns
/// to zero.
pub open spec fn let_head(vs: Seq<crate::tokens::TokenV>, a: int, b: int, q: int) -> bool {
    a < b && vs[a].dat == crate::tokens::TokV::Key(crate::tokens::KeyWord::Let) && a + 1 < q < b
        && vs[a + 1].dat is Start && vs[q].dat is End && (forall|j: int|
        a + 1 <= j < q ==> !((#[trigger] vs[j].dat) is Key)) && (forall|j: int|
        a + 1 <= j < q ==> #[trigger] list_depth(vs, a + 1, j + 1) >= 1) && list_depth(
        vs,
        a + 1,
        q + 1,
    ) == 0
}

/// The binding application computed from the scan's own collection, with
/// the fresh cells numbered upward from `base`: what `apply_run` does to
/// the handles the scan assigns.
pub open spec fn apply_ids(
    m: Map<Seq<char>, int>,
    ids: Seq<crate::identifiers::IdentV>,
    base: int,
) -> Result<Map<Seq<char>, int>, Seq<crate::error::EntryV>>
    decreases ids.len(),
{
    if ids.len() == 0 {
        Ok(m)
    } else {
        match ids[0].bind {
            crate::identifiers::BindV::Dep(_) => Err(
                seq![
                    crate::error::EntryV {
                        msg: crate::error::entry_msg(
                            ids[0].loc,
                            "Making a variable depend upon another in the statement is not currently implemented!"@,
                        ),
                        notes: Seq::empty(),
                    },
                ],
            ),
            _ => if m.contains_key(ids[0].ident) {
                Err(
                    seq![
                        crate::error::EntryV {
                            msg: crate::error::entry_msg(
                                ids[0].loc,
                                "Shadowing is not currently allowed!"@,
                            ),
                            notes: seq![crate::error::note_msg(None, "Change its name."@)],
                        },
                    ],
                )
            } else {
                apply_ids(
                    m.insert(
                        ids[0].ident,
                        match ids[0].bind {
                            crate::identifiers::BindV::FromScope(c) => c,
                            _ => base,
                        },
                    ),
                    ids.skip(1),
                    base + (match ids[0].bind {
                        crate::identifiers::BindV::Fresh(_) => 1int,
                        _ => 0int,
                    }),
                )
            },
        }
    }
}

/// The list-closing position of a `let` head is unique.
proof fn lemma_let_head_unique(vs: Seq<crate::tokens::TokenV>, a: int, b: int, q1: int, q2: int)
    requires
        let_head(vs, a, b, q1),
        let_head(vs, a, b, q2),
    ensures
        q1 == q2,
{
    if q1 < q2 {
        assert(list_depth(vs, a + 1, q1 + 1) >= 1);
        assert(false);
    }
    if q2 < q1 {
        assert(list_depth(vs, a + 1, q2 + 1) >= 1);
        assert(false);
    }
}

/// Fresh-cell values add up over concatenation.
proof fn lemma_fresh_add(s1: Seq<crate::identifiers::IdentV>, s2: Seq<crate::identifiers::IdentV>)
    ensures
        crate::identifiers::fresh_vals(s1 + s2) == crate::identifiers::fresh_vals(s1)
            + crate::identifiers::fresh_vals(s2),
    decreases s2.len(),
{
    if s2.len() == 0 {
        assert(s1 + s2 =~= s1);
        assert(crate::identifiers::fresh_vals(s2) =~= Seq::<ValueV>::empty());
        assert(crate::identifiers::fresh_vals(s1) + crate::identifiers::fresh_vals(s2)
            =~= crate::identifiers::fresh_vals(s1));
    } else {
        lemma_fresh_add(s1, s2.drop_last());
        assert((s1 + s2).drop_last() =~= s1 + s2.drop_last());
        assert((s1 + s2).last() == s2.last());
        assert(crate::identifiers::fresh_vals(s1 + s2) =~= crate::identifiers::fresh_vals(s1)
            + crate::identifiers::fresh_vals(s2));
    }
}

/// The exec binding application agrees with the scan-level one wherever
/// the collected bindings match the scan's collection.
proof fn lemma_apply_matches(
    m: Map<Seq<char>, int>,
    xs: Seq<crate::identifiers::Identifier>,
    ids: Seq<crate::identifiers::IdentV>,
    base: int,
)
    requires
        crate::identifiers::binds_match(xs, ids, base),
    ensures
        apply_run(m, xs) == apply_ids(m, ids, base),
    decreases ids.len(),
{
    if ids.len() > 0 {
        assert(ids.take(0) =~= Seq::<crate::identifiers::IdentV>::empty());
        assert(crate::identifiers::fresh_vals(ids.take(0)) =~= Seq::<ValueV>::empty());
        assert(crate::identifiers::bind_matches(
            xs[0],
            ids[0],
            base + crate::identifiers::fresh_vals(ids.take(0)).len() as int,
        ));
        assert(crate::identifiers::bind_matches(xs[0], ids[0], base));
        match ids[0].bind {
            crate::identifiers::BindV::Dep(_) => {
                assert(xs[0].loc_introduced@ == ids[0].loc);
            },
            _ => {
                assert(xs[0].ident@ == ids[0].ident);
                if !m.contains_key(ids[0].ident) {
                    let hnd = match ids[0].bind {
                        crate::identifiers::BindV::FromScope(c) => c,
                        _ => base,
                    };
                    assert(xs[0].data matches crate::identifiers::Either::Right(v) && v@ == hnd);
                    let base2 = base + (match ids[0].bind {
                        crate::identifiers::BindV::Fresh(_) => 1int,
                        _ => 0int,
                    });
                    assert forall|k: int|
                        0 <= k < ids.skip(1).len() implies #[trigger] crate::identifiers::bind_matches(
                        xs.skip(1)[k],
                        ids.skip(1)[k],
                        base2 + crate::identifiers::fresh_vals(ids.skip(1).take(k)).len(),
                    ) by {
                        assert(crate::identifiers::bind_matches(
                            xs[k + 1],
                            ids[k + 1],
                            base + crate::identifiers::fresh_vals(ids.take(k + 1)).len() as int,
                        ));
                        assert(ids.take(k + 1) =~= ids.take(1) + ids.skip(1).take(k));
                        lemma_fresh_add(ids.take(1), ids.skip(1).take(k));
                        assert(ids.take(1).drop_last() =~= Seq::<crate::identifiers::IdentV>::empty());
                        assert(ids.take(1).last() == ids[0]);
                        assert(crate::identifiers::fresh_vals(ids.take(1)).len() as int == (
                        match ids[0].bind {
                            crate::identifiers::BindV::Fresh(_) => 1int,
                            _ => 0int,
                        }));
                        assert(xs.skip(1)[k] == xs[k + 1]);
                        assert(ids.skip(1)[k] == ids[k + 1]);
                    }
                    assert(crate::identifiers::binds_match(xs.skip(1), ids.skip(1), base2));
                    lemma_apply_matches(m.insert(ids[0].ident, hnd), xs.skip(1), ids.skip(1), base2);
                }
            },
        }
    }
}

/// Introduces every name a binding list collected, in order; a binding
/// that depends on a sibling of the same list is rejected.
fn apply_bindings(
    vals: Vec<crate::identifiers::Identifier>,
    scope: &mut Scope,
    Ghost(h): Ghost<Seq<ValueV>>,
) -> (r: Result<(), LispErrors>)
    requires
        old(scope).wf(),
        old(scope).below(h.len() as int),
        scope_plain(*old(scope), h),
        forall|k: int|
            0 <= k < vals@.len() ==> (#[trigger] vals@[k].data matches crate::identifiers::Either::Right(v) ==> 0 <= v@ < h.len() && !(h[v@] is Statement)),
    ensures
        final(scope).wf(),
        final(scope).below(h.len() as int),
        scope_plain(*final(scope), h),
        forall|n: Seq<char>|
            #[trigger] old(scope).as_map().contains_key(n) ==> final(scope).as_map().contains_key(
                n,
            ) && final(scope).as_map()[n] == old(scope).as_map()[n],
        apply_run(old(scope).as_map(), vals@) matches Ok(m2) ==> r is Ok && final(scope).as_map()
            == m2,
        apply_run(old(scope).as_map(), vals@) matches Err(es) ==> (r matches Err(e) && e@ == es),
{
    let ghost base_m = scope.as_map();
    let n = vals.len();
    proof {
        assert(vals@.skip(0) =~= vals@);
    }
    let mut i: usize = 0;
    while i < n
        invariant
            0 <= i <= n,
            n == vals@.len(),
            scope.wf(),
            scope.below(h.len() as int),
            scope_plain(*scope, h),
            forall|q: Seq<char>|
                #[trigger] old(scope).as_map().contains_key(q) ==> scope.as_map().contains_key(q)
                    && scope.as_map()[q] == old(scope).as_map()[q],
            forall|k: int|
                0 <= k < vals@.len() ==> (#[trigger] vals@[k].data matches crate::identifiers::Either::Right(v) ==> 0 <= v@ < h.len() && !(h[v@] is Statement)),
            base_m == old(scope).as_map(),
            apply_run(base_m, vals@) == apply_run(scope.as_map(), vals@.skip(i as int)),
        decreases n - i,
    {
        proof {
            assert(vals@.skip(i as int)[0] == vals@[i as int]);
            assert(vals@.skip(i as int).skip(1) =~= vals@.skip(i + 1));
        }
        match &vals[i].data {
            crate::identifiers::Either::Left(_) => {
                let e = LispErrors::new().error(
                    &vals[i].loc_introduced,
                    "Making a variable depend upon another in the statement is not currently implemented!",
                );
                proof {
                    assert(e@ =~~= apply_run(scope.as_map(), vals@.skip(i as int))->Err_0);
                }
                return Err(e);
            },
            crate::identifiers::Either::Right(v) => {
                let ghost m0 = scope.as_map();
                let nv = v.new_ref();
                let r = introduce_identifier(
                    scope,
                    vals[i].ident.clone(),
                    nv,
                    &vals[i].loc_introduced,
                );
                match r {
                    Ok(_) => {
                        proof {
                            let name = vals@[i as int].ident@;
                            let vid = vals@[i as int].data->Right_0@;
                            assert(scope.as_map() == m0.insert(name, vid));
                            assert(nv@ == vid);
                            assert forall|q: Seq<char>|
                                scope.as_map().contains_key(q) implies 0 <= scope.as_map()[q]
                                < h.len() && !(h[#[trigger] scope.as_map()[q]] is Statement) by {
                                if q != name {
                                    assert(m0.contains_key(q));
                                    assert(scope.as_map()[q] == m0[q]);
                                } else {
                                    assert(scope.as_map()[q] == vid);
                                }
                            }
                        }
                    },
                    Err(e) => {
                        proof {
                            assert(e@ =~~= apply_run(m0, vals@.skip(i as int))->Err_0);
                        }
                        return Err(e);
                    },
                }
            },
        }
        i += 1;
    }
    proof {
        assert(vals@.skip(n as int) =~= Seq::<crate::identifiers::Identifier>::empty());
    }
    Ok(())
}

/// Builds the statement of one token span, `ts[lo..hi]`, resolving
/// identifiers against the scope as it goes and recursing into nested
/// parenthesized spans; `let` binding lists extend the scope in place. The
/// span may wrap itself in one start/end pair; an unmatched marker, an
/// empty span, and an expression that is neither a call nor a single
/// nested statement are diagnostics.
///
/// For flat spans — every token an identifier or a literal — the contract
/// is exact: the built statement, the cells allocated, the first-unbound
/// diagnostic and the raw-list rejection are all pinned; so is the
/// unwrapped inner statement of a singly-wrapped flat call. A span headed
/// by `let` is pinned to its binding list's scan: every list diagnostic,
/// the sibling-dependency rejection and the shadowing error come out
/// exactly as `scan_run` and `apply_ids` say. Spans that open with a stray
/// marker, never close one, or lead with `lambda` are pinned to their
/// diagnostics as well. Other nested spans carry the structural
/// guarantees (a well-formed statement, callable operator, empty result
/// slot, untouched older cells and bindings).
#[verifier::rlimit(100)]
pub fn make_ast(
    ts: &Vec<Token>,
    lo: usize,
    hi: usize,
    it: &mut Interp,
    scope: &mut Scope,
    start: &Location,
) -> (r: Result<Statement, LispErrors>)
    requires
        wf_heap(old(it)@.cells),
        lo <= hi <= ts@.len(),
        old(scope).wf(),
        old(scope).below(old(it)@.cells.len() as int),
        scope_plain(*old(scope), old(it)@.cells),
    ensures
        wf_heap(final(it)@.cells),
        frame_above(old(it)@.cells, final(it)@.cells, 0),
        old(it)@.cells.len() <= final(it)@.cells.len(),
        final(it)@.out == old(it)@.out,
        final(scope).wf(),
        final(scope).below(final(it)@.cells.len() as int),
        scope_plain(*final(scope), final(it)@.cells),
        forall|n: Seq<char>|
            #[trigger] old(scope).as_map().contains_key(n) ==> final(scope).as_map().contains_key(
                n,
            ) && final(scope).as_map()[n] == old(scope).as_map()[n],
        r matches Ok(s) ==> wf_stmt(s@, final(it)@.cells) && s@.res is None && final(it)@.cells[s@.op] is Func,
        lo == hi ==> final(it)@ == old(it)@ && *final(scope) == *old(scope) && (r matches Err(e)
            && e@ == seq![
            crate::error::EntryV {
                msg: crate::error::entry_msg(start@, "Empty statements are not allowed!"@),
                notes: Seq::empty(),
            },
        ]),
        (lo < hi && span_lo(crate::tokens::token_views(ts@), lo as int, hi as int) >= span_hi(
            crate::tokens::token_views(ts@),
            lo as int,
            hi as int,
        )) ==> final(it)@ == old(it)@ && *final(scope) == *old(scope) && (r matches Err(e) && e@
            == seq![
            crate::error::EntryV {
                msg: crate::error::entry_msg(start@, "Empty statements are not allowed!"@),
                notes: Seq::empty(),
            },
        ]),
        (lo < hi && span_lo(crate::tokens::token_views(ts@), lo as int, hi as int) < span_hi(
            crate::tokens::token_views(ts@),
            lo as int,
            hi as int,
        ) && wrapped_flat(
            crate::tokens::token_views(ts@),
            span_lo(crate::tokens::token_views(ts@), lo as int, hi as int),
            span_hi(crate::tokens::token_views(ts@), lo as int, hi as int),
            old(scope).as_map(),
            old(it)@.cells,
        )) ==> (r matches Ok(s2) && s2@ == flat_stmt(
            crate::tokens::token_views(ts@),
            span_lo(crate::tokens::token_views(ts@), lo as int, hi as int),
            span_hi(crate::tokens::token_views(ts@), lo as int, hi as int),
            old(scope).as_map(),
            old(it)@.cells.len() as int,
            crate::tokens::token_views(ts@)[span_lo(
                crate::tokens::token_views(ts@),
                lo as int,
                hi as int,
            ) + 1].loc,
        )),
        forall|q: int|
            (lo < hi && #[trigger] let_head(
                crate::tokens::token_views(ts@),
                span_lo(crate::tokens::token_views(ts@), lo as int, hi as int),
                span_hi(crate::tokens::token_views(ts@), lo as int, hi as int),
                q,
            )) ==> {
                let vs = crate::tokens::token_views(ts@);
                let a = span_lo(vs, lo as int, hi as int);
                let m0 = old(scope).as_map();
                &&& (crate::identifiers::scan_run(
                    crate::identifiers::scan_init(),
                    vs.subrange(a + 2, q),
                    m0,
                ) matches Err(es) ==> (r matches Err(e) && e@ == es))
                &&& (crate::identifiers::scan_run(
                    crate::identifiers::scan_init(),
                    vs.subrange(a + 2, q),
                    m0,
                ) matches Ok(sst) ==> (apply_ids(
                    m0,
                    sst.vals,
                    old(it)@.cells.len() as int,
                ) matches Err(es2) ==> (r matches Err(e2) && e2@ == es2)))
            },
        flat_ready(
            crate::tokens::token_views(ts@),
            lo as int,
            hi as int,
            old(scope).as_map(),
        ) ==> {
            let vs = crate::tokens::token_views(ts@);
            let m0 = old(scope).as_map();
            let h0 = old(it)@.cells;
            final(it)@.cells == h0 + flat_cells(
                vs,
                span_lo(vs, lo as int, hi as int),
                span_hi(vs, lo as int, hi as int),
            ) && final(it)@.out == old(it)@.out && *final(scope) == *old(scope) && (is_func_v(
                flat_val(vs, span_lo(vs, lo as int, hi as int), m0, h0),
            ) ==> (r matches Ok(s) && s@ == flat_stmt(
                vs,
                lo as int,
                hi as int,
                m0,
                h0.len() as int,
                start@,
            ))) && (!is_func_v(flat_val(vs, span_lo(vs, lo as int, hi as int), m0, h0)) ==> (
            r matches Err(e) && e@ == seq![
                crate::error::EntryV {
                    msg: crate::error::entry_msg(
                        start@,
                        "Raw lists are not available (Yet...)!"@,
                    ),
                    notes: seq![
                        crate::error::note_msg(None, "This is not a function."@),
                        crate::error::note_msg(
                            None,
                            "Use the `list` intrinsic to convert this to a list."@,
                        ),
                    ],
                },
            ]))
        },
        (lo < hi && span_lo(crate::tokens::token_views(ts@), lo as int, hi as int) < span_hi(
            crate::tokens::token_views(ts@),
            lo as int,
            hi as int,
        ) && flat_span(
            crate::tokens::token_views(ts@),
            span_lo(crate::tokens::token_views(ts@), lo as int, hi as int),
            span_hi(crate::tokens::token_views(ts@), lo as int, hi as int),
        ) && !all_bound(
            crate::tokens::token_views(ts@),
            span_lo(crate::tokens::token_views(ts@), lo as int, hi as int),
            span_hi(crate::tokens::token_views(ts@), lo as int, hi as int),
            old(scope).as_map(),
        )) ==> (exists|p: int|
            span_lo(crate::tokens::token_views(ts@), lo as int, hi as int) <= p < span_hi(
                crate::tokens::token_views(ts@),
                lo as int,
                hi as int,
            ) && #[trigger] unbound_at(crate::tokens::token_views(ts@), p, old(scope).as_map()) && (
            forall|k: int|
                span_lo(crate::tokens::token_views(ts@), lo as int, hi as int) <= k < p
                    ==> !unbound_at(crate::tokens::token_views(ts@), k, old(scope).as_map())) && (
            r matches Err(e) && (crate::tokens::token_views(ts@)[p].dat matches crate::tokens::TokV::Ident(nm)
                && e@ == seq![
                crate::error::EntryV {
                    msg: crate::error::entry_msg(
                        crate::tokens::token_views(ts@)[p].loc,
                        unknown_name_text(nm),
                    ),
                    notes: Seq::empty(),
                },
            ]))),
        (lo < hi && span_lo(crate::tokens::token_views(ts@), lo as int, hi as int) < span_hi(
            crate::tokens::token_views(ts@),
            lo as int,
            hi as int,
        ) && crate::tokens::token_views(ts@)[span_lo(
            crate::tokens::token_views(ts@),
            lo as int,
            hi as int,
        )].dat is End) ==> final(it)@ == old(it)@ && *final(scope) == *old(scope) && (
        r matches Err(e) && e@ == seq![
            crate::error::EntryV {
                msg: crate::error::entry_msg(
                    crate::tokens::token_views(ts@)[span_lo(
                        crate::tokens::token_views(ts@),
                        lo as int,
                        hi as int,
                    )].loc,
                    "Unmatched closing parentheses!"@,
                ),
                notes: seq![crate::error::note_msg(None, "Delete it."@)],
            },
        ]),
        (lo < hi && span_lo(crate::tokens::token_views(ts@), lo as int, hi as int) < span_hi(
            crate::tokens::token_views(ts@),
            lo as int,
            hi as int,
        ) && crate::tokens::token_views(ts@)[span_lo(
            crate::tokens::token_views(ts@),
            lo as int,
            hi as int,
        )].dat == crate::tokens::TokV::Key(KeyWord::Lambda)) ==> final(it)@ == old(it)@ && *final(scope) == *old(scope) && (r matches Err(e) && e@ == seq![
            crate::error::EntryV {
                msg: crate::error::entry_msg(
                    crate::tokens::token_views(ts@)[span_lo(
                        crate::tokens::token_views(ts@),
                        lo as int,
                        hi as int,
                    )].loc,
                    "The `lambda` keyword is not implemented!"@,
                ),
                notes: Seq::empty(),
            },
        ]),
        (lo < hi && span_lo(crate::tokens::token_views(ts@), lo as int, hi as int) < span_hi(
            crate::tokens::token_views(ts@),
            lo as int,
            hi as int,
        ) && crate::tokens::token_views(ts@)[span_lo(
            crate::tokens::token_views(ts@),
            lo as int,
            hi as int,
        )].dat is Start && (forall|k: int|
            span_lo(crate::tokens::token_views(ts@), lo as int, hi as int) <= k < span_hi(
                crate::tokens::token_views(ts@),
                lo as int,
                hi as int,
            ) ==> !((#[trigger] crate::tokens::token_views(ts@)[k].dat) is End) && !(
            crate::tokens::token_views(ts@)[k].dat is Key)) && all_bound(
            crate::tokens::token_views(ts@),
            span_lo(crate::tokens::token_views(ts@), lo as int, hi as int),
            span_hi(crate::tokens::token_views(ts@), lo as int, hi as int),
            old(scope).as_map(),
        )) ==> final(it)@ == old(it)@ && *final(scope) == *old(scope) && (exists|p: int|
            span_lo(crate::tokens::token_views(ts@), lo as int, hi as int) <= p < span_hi(
                crate::tokens::token_views(ts@),
                lo as int,
                hi as int,
            ) && (#[trigger] crate::tokens::token_views(ts@)[p].dat) is Start && (forall|k: int|
                p < k < span_hi(crate::tokens::token_views(ts@), lo as int, hi as int)
                    ==> !((#[trigger] crate::tokens::token_views(ts@)[k].dat) is Start)) && (
            r matches Err(e) && e@ == seq![
                crate::error::EntryV {
                    msg: crate::error::entry_msg(
                        crate::tokens::token_views(ts@)[p].loc,
                        "Unmatched opening parentheses!"@,
                    ),
                    notes: seq![
                        crate::error::note_msg(None, "Deleting it might fix this error."@),
                    ],
                },
            ])),
    decreases hi - lo,
{
    let ghost pre = it@;
    if hi - lo == 0 {
        let e = LispErrors::new().error(start, "Empty statements are not allowed!");
        proof {
            assert(e@ =~~= seq![
                crate::error::EntryV {
                    msg: crate::error::entry_msg(start@, "Empty statements are not allowed!"@),
                    notes: Seq::empty(),
                },
            ]);
        }
        return Err(e);
    }
    let has_start = matches!(ts[lo].dat, TokenType::StartStmt);
    let has_end = matches!(ts[hi - 1].dat, TokenType::EndStmt);
    let (wlo, whi): (usize, usize) = if has_start && has_end {
        (lo + 1, hi - 1)
    } else {
        (lo, hi)
    };
    let ghost vs = crate::tokens::token_views(ts@);
    let ghost m0 = old(scope).as_map();
    let ghost flath = flat_ready(vs, lo as int, hi as int, m0);
    let ghost flatu = lo < hi && span_lo(vs, lo as int, hi as int) < span_hi(
        vs,
        lo as int,
        hi as int,
    ) && flat_span(
        vs,
        span_lo(vs, lo as int, hi as int),
        span_hi(vs, lo as int, hi as int),
    ) && !all_bound(
        vs,
        span_lo(vs, lo as int, hi as int),
        span_hi(vs, lo as int, hi as int),
        m0,
    );
    let ghost fa = span_lo(vs, lo as int, hi as int);
    let ghost fb = span_hi(vs, lo as int, hi as int);
    let ghost endfirst = lo < hi && fa < fb && vs[fa].dat is End;
    let ghost lamfirst = lo < hi && fa < fb && vs[fa].dat == crate::tokens::TokV::Key(
        KeyWord::Lambda,
    );
    let ghost wraph = lo < hi && fa < fb && wrapped_flat(vs, fa, fb, m0, pre.cells);
    let ghost leth = exists|q: int| let_head(vs, fa, fb, q);
    let ghost qq: int = if leth {
        choose|q: int| let_head(vs, fa, fb, q)
    } else {
        0
    };
    let ghost openh = lo < hi && fa < fb && vs[fa].dat is Start && (forall|k: int|
        fa <= k < fb ==> !((#[trigger] vs[k].dat) is End) && !(vs[k].dat is Key)) && all_bound(
        vs,
        fa,
        fb,
        m0,
    );
    proof {
        assert(vs[lo as int] == ts@[lo as int]@);
        assert(vs[hi - 1] == ts@[hi - 1]@);
        assert(has_start == vs[lo as int].dat is Start);
        assert(has_end == vs[hi - 1].dat is End);
        assert(fa == wlo as int && fb == whi as int);
    }
    if wlo >= whi {
        let e = LispErrors::new().error(start, "Empty statements are not allowed!");
        proof {
            assert(e@ =~~= seq![
                crate::error::EntryV {
                    msg: crate::error::entry_msg(start@, "Empty statements are not allowed!"@),
                    notes: Seq::empty(),
                },
            ]);
        }
        return Err(e);
    }
    let ghost scope0 = *scope;
    let mut open_stack: Vec<usize> = Vec::new();
    let mut args: Vec<Var> = Vec::new();
    let mut stmt_loc: Option<Location> = None;
    let mut let_at: usize = 0;
    let mut in_let = false;
    let mut let_depth: usize = 0;
    let mut i = wlo;
    while i < whi
        invariant
            wf_heap(it@.cells),
            pre == old(it)@,
            frame_above(pre.cells, it@.cells, 0),
            pre.cells.len() <= it@.cells.len(),
            it@.out == pre.out,
            scope.wf(),
            scope.below(it@.cells.len() as int),
            scope_plain(*scope, it@.cells),
            scope0 == *old(scope),
            forall|n: Seq<char>|
                #[trigger] scope0.as_map().contains_key(n) ==> scope.as_map().contains_key(n)
                    && scope.as_map()[n] == scope0.as_map()[n],
            lo <= wlo <= i <= whi <= hi <= ts@.len(),
            wlo < whi,
            has_start == ts@[lo as int]@.dat is Start,
            has_end == ts@[(hi - 1) as int]@.dat is End,
            (has_start && has_end && wlo == lo + 1 && whi == hi - 1) || (!(has_start && has_end)
                && wlo == lo && whi == hi),
            forall|k: int|
                0 <= k < open_stack@.len() ==> wlo <= #[trigger] open_stack@[k] < i
                    && ts@[open_stack@[k] as int]@.dat is Start,
            forall|k: int| 0 <= k < args@.len() ==> 0 <= #[trigger] args@[k]@ < it@.cells.len(),
            forall|k: int|
                0 <= k < args@.len() ==> (it@.cells[#[trigger] args@[k]@] matches ValueV::Statement(
                    st,
                ) ==> 0 <= st.op < it@.cells.len() && it@.cells[st.op] is Func && st.res is None),
            in_let ==> wlo <= let_at < i,
            let_depth <= i,
            vs == crate::tokens::token_views(ts@),
            m0 == old(scope).as_map(),
            flath == flat_ready(vs, lo as int, hi as int, m0),
            flath ==> fa == wlo as int && fb == whi as int,
            fa == span_lo(vs, lo as int, hi as int),
            fb == span_hi(vs, lo as int, hi as int),
            fa == wlo as int && fb == whi as int,
            flath ==> !in_let && open_stack@.len() == 0,
            flath ==> *scope == *old(scope),
            scope0.below(pre.cells.len() as int),
            scope0.as_map() == m0,
            flatu == (lo < hi && fa < fb && flat_span(vs, fa, fb) && !all_bound(vs, fa, fb, m0)),
            flatu ==> !in_let && open_stack@.len() == 0 && *scope == *old(scope),
            flatu ==> (exists|k: int| i <= k < whi && #[trigger] unbound_at(vs, k, m0)),
            flatu ==> (forall|k: int| wlo <= k < i ==> !(#[trigger] unbound_at(vs, k, m0))),
            endfirst == (lo < hi && fa < fb && vs[fa].dat is End),
            endfirst ==> i == wlo && open_stack@.len() == 0 && !in_let && it@ == pre && *scope
                == *old(scope),
            lamfirst == (lo < hi && fa < fb && vs[fa].dat == crate::tokens::TokV::Key(
                KeyWord::Lambda,
            )),
            lamfirst ==> i == wlo && open_stack@.len() == 0 && !in_let && it@ == pre && *scope
                == *old(scope),
            wraph == (lo < hi && fa < fb && wrapped_flat(vs, fa, fb, m0, pre.cells)),
            wraph ==> (i <= whi - 1 ==> (it@ == pre && *scope == *old(scope) && args@.len() == 0
                && stmt_loc is None && !in_let)),
            wraph ==> (i == wlo ==> open_stack@.len() == 0),
            wraph ==> (wlo < i < whi ==> open_stack@ =~= seq![wlo]),
            wraph ==> (i == whi ==> (args@.len() == 1 && 0 <= args@[0]@ < it@.cells.len()
                && it@.cells[args@[0]@] == ValueV::Statement(
                flat_stmt(vs, fa, fb, m0, pre.cells.len() as int, vs[fa + 1].loc),
            ) && open_stack@.len() == 0 && *scope == *old(scope) && !in_let)),
            leth == (exists|q: int| let_head(vs, fa, fb, q)),
            leth ==> let_head(vs, fa, fb, qq),
            leth ==> (i <= qq ==> it@ == pre && *scope == *old(scope) && args@.len() == 0
                && stmt_loc is None && open_stack@.len() == 0),
            leth ==> (i <= qq ==> (in_let <==> wlo < i)),
            leth ==> (i <= qq && in_let ==> (let_at == wlo && let_depth as int == list_depth(
                vs,
                fa + 1,
                i as int,
            ))),
            leth ==> (i > qq ==> (crate::identifiers::scan_run(
                crate::identifiers::scan_init(),
                vs.subrange(fa + 2, qq),
                m0,
            ) matches Ok(sst) && apply_ids(m0, sst.vals, pre.cells.len() as int) is Ok)),
            openh == (lo < hi && fa < fb && vs[fa].dat is Start && (forall|k: int|
                fa <= k < fb ==> !((#[trigger] vs[k].dat) is End) && !(vs[k].dat is Key))
                && all_bound(vs, fa, fb, m0)),
            openh ==> !in_let && it@ == pre && *scope == *old(scope),
            openh ==> (i > wlo ==> (open_stack@.len() >= 1 && wlo <= open_stack@.last() < i
                && vs[open_stack@.last() as int].dat is Start && (forall|k: int|
                open_stack@.last() < k < i ==> !((#[trigger] vs[k].dat) is Start)))),
            flath ==> args@.len() == i - wlo,
            flath ==> it@.cells == pre.cells + flat_cells(vs, fa, i as int),
            flath ==> (forall|j: int|
                0 <= j < i - wlo ==> #[trigger] args@[j]@ == flat_handle(
                    vs,
                    fa,
                    fa + j,
                    m0,
                    pre.cells.len() as int,
                )),
            flath ==> (forall|j: int|
                0 <= j < i - wlo ==> it@.cells[#[trigger] args@[j]@] == flat_val(
                    vs,
                    fa + j,
                    m0,
                    pre.cells,
                )),
            flath ==> (match last_ident_loc(vs, fa, i as int) {
                Some(l) => stmt_loc matches Some(x) && x@ == l,
                None => stmt_loc is None,
            }),
        decreases whi - i,
    {
        proof {
            assert(vs[i as int] == ts@[i as int]@);
            if flath || flatu {
                assert(vs[i as int].dat is Ident || vs[i as int].dat is Lit);
            }
        }
        if !in_let {
            match &ts[i].dat {
                TokenType::StartStmt => {
                    proof {
                        if flath || flatu {
                            assert(false);
                        }
                    }
                    open_stack.push(i);
                    proof {
                        if openh {
                            assert(open_stack@.last() == i as int);
                        }
                    }
                },
                TokenType::EndStmt => {
                    proof {
                        if flath || flatu {
                            assert(false);
                        }
                        if openh {
                            assert(vs[i as int].dat is End);
                            assert(false);
                        }
                    }
                    let popped = open_stack.pop();
                    match popped {
                        Some(o) => {
                            if open_stack.len() == 0 {
                                proof {
                                    assert(ts@[o as int]@.dat is Start);
                                    assert(ts@[i as int]@.dat is End);
                                    if !(has_start && has_end) {
                                        if o == lo && i + 1 == hi {
                                            assert(has_start && has_end);
                                        }
                                    }
                                    assert((i + 1) - o < hi - lo);
                                }
                                let child_start = ts[o + 1].loc.clone();
                                let ghost mid = it@;
                                let ghost mscope = *scope;
                                let res0 = make_ast(ts, o, i + 1, it, scope, &child_start);
                                proof {
                                    assert forall|j: int|
                                        0 <= j < pre.cells.len() implies it@.cells[j]
                                        == pre.cells[j] by {
                                        assert(mid.cells[j] == pre.cells[j]);
                                        assert(it@.cells[j] == mid.cells[j]);
                                    }
                                    assert forall|k: int|
                                        0 <= k < args@.len() implies it@.cells[#[trigger] args@[k]@]
                                        == mid.cells[args@[k]@] by {
                                        assert(it@.cells[args@[k]@] == mid.cells[args@[k]@]);
                                    }
                                    assert forall|n: Seq<char>|
                                        #[trigger] scope0.as_map().contains_key(
                                            n,
                                        ) implies scope.as_map().contains_key(n)
                                        && scope.as_map()[n] == scope0.as_map()[n] by {
                                        assert(mscope.as_map().contains_key(n)
                                            && mscope.as_map()[n] == scope0.as_map()[n]);
                                        assert(scope.as_map().contains_key(n) && scope.as_map()[n]
                                            == mscope.as_map()[n]);
                                    }
                                }
                                let sub = match res0 {
                                    Ok(s) => s,
                                    Err(e) => {
                                        proof {
                                            if wraph {
                                                assert(i as int == fb - 1 && o == wlo);
                                                assert(flat_ready(vs, o as int, i + 1, m0));
                                                assert(span_lo(vs, o as int, i + 1) == fa + 1);
                                                assert(false);
                                            }
                                        }
                                        return Err(e);
                                    },
                                };
                                proof {
                                    if wraph {
                                        assert(i as int == fb - 1 && o == wlo);
                                        assert(flat_ready(vs, o as int, i + 1, m0));
                                        assert(span_lo(vs, o as int, i + 1) == fa + 1);
                                        assert(sub@ == flat_stmt(
                                            vs,
                                            fa,
                                            fb,
                                            m0,
                                            pre.cells.len() as int,
                                            vs[fa + 1].loc,
                                        ));
                                    }
                                }
                                let v = it.new_var(LispValue::Statement(sub));
                                args.push(v);
                            }
                        },
                        None => {
                            let e = LispErrors::new().error(
                                &ts[i].loc,
                                "Unmatched closing parentheses!",
                            ).note(None, "Delete it.");
                            proof {
                                assert(e@ =~~= seq![
                                    crate::error::EntryV {
                                        msg: crate::error::entry_msg(
                                            vs[i as int].loc,
                                            "Unmatched closing parentheses!"@,
                                        ),
                                        notes: seq![crate::error::note_msg(None, "Delete it."@)],
                                    },
                                ]);
                            }
                            return Err(e);
                        },
                    }
                },
                TokenType::KeyWord(k) => {
                    proof {
                        if flath || flatu {
                            assert(false);
                        }
                        if openh {
                            assert(vs[i as int].dat is Key);
                            assert(false);
                        }
                    }
                    match k {
                        KeyWord::Let => {
                            proof {
                                if lamfirst {
                                    assert(vs[i as int].dat == crate::tokens::TokV::Key(
                                        KeyWord::Let,
                                    ));
                                    assert(false);
                                }
                            }
                            let_at = i;
                            let_depth = 0;
                            in_let = true;
                        },
                        KeyWord::Lambda => {
                            let e = LispErrors::new().error(
                                &ts[i].loc,
                                "The `lambda` keyword is not implemented!",
                            );
                            proof {
                                assert(e@ =~~= seq![
                                    crate::error::EntryV {
                                        msg: crate::error::entry_msg(
                                            vs[i as int].loc,
                                            "The `lambda` keyword is not implemented!"@,
                                        ),
                                        notes: Seq::empty(),
                                    },
                                ]);
                            }
                            return Err(e);
                        },
                    }
                },
                TokenType::Recognizable(v) => {
                    if open_stack.len() == 0 {
                        let nv = it.new_var(v.clone_data());
                        args.push(nv);
                        proof {
                            if flath {
                                lemma_flat_cells_len(vs, fa, i as int);
                                assert(vs[i as int].dat == crate::tokens::TokV::Lit(v@));
                                assert(flat_cells(vs, fa, i + 1) =~= flat_cells(vs, fa, i as int)
                                    + seq![data_of(v@)]);
                                assert(it@.cells =~= pre.cells + flat_cells(vs, fa, i + 1));
                                assert(nv@ == pre.cells.len() + lit_count(vs, fa, i as int));
                                assert(nv@ == flat_handle(
                                    vs,
                                    fa,
                                    i as int,
                                    m0,
                                    pre.cells.len() as int,
                                ));
                                assert(it@.cells[nv@] == data_of(v@));
                                assert(last_ident_loc(vs, fa, i + 1) == last_ident_loc(
                                    vs,
                                    fa,
                                    i as int,
                                ));
                                assert forall|j: int| 0 <= j < i + 1 - wlo implies it@.cells[#[trigger] args@[j]@] == flat_val(vs, fa + j, m0, pre.cells) by {
                                    if j < i - wlo {
                                        assert(args@[j]@ == flat_handle(
                                            vs,
                                            fa,
                                            fa + j,
                                            m0,
                                            pre.cells.len() as int,
                                        ));
                                    }
                                }
                            }
                            if flatu {
                                assert(vs[i as int].dat == crate::tokens::TokV::Lit(v@));
                                assert(!unbound_at(vs, i as int, m0));
                                let k = choose|k: int|
                                    i <= k < whi && #[trigger] unbound_at(vs, k, m0);
                                assert(k != i);
                                assert(i + 1 <= k < whi && unbound_at(vs, k, m0));
                            }
                        }
                    }
                },
                TokenType::Ident(name) => {
                    match scope.get(name) {
                        None => {
                            proof {
                                if flath || openh {
                                    assert(vs[i as int].dat == crate::tokens::TokV::Ident(name@));
                                    assert(!unbound_at(vs, i as int, m0));
                                    assert(m0.contains_key(name@));
                                    assert(false);
                                }
                                if wraph {
                                    assert(vs[i as int].dat == crate::tokens::TokV::Ident(name@));
                                    assert(fa < i < fb - 1);
                                    assert(!unbound_at(vs, i as int, m0));
                                    assert(m0.contains_key(name@));
                                    assert(false);
                                }
                            }
                            let msg = unknown_name_msg(name);
                            let e = LispErrors::new().error(&ts[i].loc, msg.as_str());
                            proof {
                                if flatu {
                                    assert(vs[i as int].dat == crate::tokens::TokV::Ident(name@));
                                    assert(!m0.contains_key(name@));
                                    assert(unbound_at(vs, i as int, m0));
                                    assert(e@ =~~= seq![
                                        crate::error::EntryV {
                                            msg: crate::error::entry_msg(
                                                vs[i as int].loc,
                                                unknown_name_text(name@),
                                            ),
                                            notes: Seq::empty(),
                                        },
                                    ]);
                                }
                            }
                            return Err(e);
                        },
                        Some(s) => {
                            if open_stack.len() == 0 {
                                proof {
                                    if flath {
                                        assert(vs[i as int].dat == crate::tokens::TokV::Ident(
                                            name@,
                                        ));
                                        assert(s@ == m0[name@]);
                                        assert(scope0.as_map().contains_key(name@));
                                        assert(0 <= m0[name@] < pre.cells.len());
                                        assert(flat_cells(vs, fa, i + 1) =~= flat_cells(
                                            vs,
                                            fa,
                                            i as int,
                                        ));
                                        assert(it@.cells[s@] == pre.cells[m0[name@]]);
                                        assert(last_ident_loc(vs, fa, i + 1) == Some(
                                            vs[i as int].loc,
                                        ));
                                    }
                                }
                                args.push(s);
                                stmt_loc = Some(ts[i].loc.clone());
                                proof {
                                    if flath {
                                        assert forall|j: int| 0 <= j < i + 1 - wlo implies it@.cells[#[trigger] args@[j]@] == flat_val(vs, fa + j, m0, pre.cells) by {
                                            if j < i - wlo {
                                                assert(args@[j]@ == flat_handle(
                                                    vs,
                                                    fa,
                                                    fa + j,
                                                    m0,
                                                    pre.cells.len() as int,
                                                ));
                                            }
                                        }
                                    }
                                    if flatu {
                                        assert(vs[i as int].dat == crate::tokens::TokV::Ident(
                                            name@,
                                        ));
                                        assert(m0.contains_key(name@));
                                        assert(!unbound_at(vs, i as int, m0));
                                        let k = choose|k: int|
                                            i <= k < whi && #[trigger] unbound_at(vs, k, m0);
                                        assert(k != i);
                                        assert(i + 1 <= k < whi && unbound_at(vs, k, m0));
                                    }
                                }
                            }
                        },
                    }
                },
            }
        } else {
            match &ts[i].dat {
                TokenType::StartStmt => {
                    let_depth = let_depth + 1;
                },
                TokenType::EndStmt => {
                    if let_depth > 0 {
                        let_depth = let_depth - 1;
                    }
                    if let_depth == 0 {
                        proof {
                            if leth && i <= qq {
                                assert(vs[i as int].dat is End);
                                assert(list_depth(vs, fa + 1, i + 1) == list_depth(
                                    vs,
                                    fa + 1,
                                    i as int,
                                ) - 1);
                                if (i as int) < qq {
                                    assert(list_depth(vs, fa + 1, i + 1) >= 1);
                                    assert(false);
                                }
                                assert(i as int == qq);
                                assert(let_at + 2 == fa + 2);
                                assert forall|q2: int| let_head(vs, fa, fb, q2) implies q2
                                    == qq by {
                                    lemma_let_head_unique(vs, fa, fb, q2, qq);
                                }
                            }
                        }
                        let from = let_at + 2;
                        if from <= i {
                            let ghost mid = it@;
                            let res1 = crate::identifiers::process_identifiers(
                                ts,
                                from,
                                i,
                                it,
                                scope,
                            );
                            proof {
                                assert forall|j: int|
                                    0 <= j < pre.cells.len() implies it@.cells[j]
                                    == pre.cells[j] by {
                                    assert(mid.cells[j] == pre.cells[j]);
                                    assert(it@.cells[j] == mid.cells[j]);
                                }
                                assert forall|k: int|
                                    0 <= k < args@.len() implies it@.cells[#[trigger] args@[k]@]
                                    == mid.cells[args@[k]@] by {
                                    assert(it@.cells[args@[k]@] == mid.cells[args@[k]@]);
                                }
                                assert forall|n: Seq<char>|
                                    scope.as_map().contains_key(
                                        n,
                                    ) implies !(it@.cells[#[trigger] scope.as_map()[n]] is Statement) by {
                                    assert(!(mid.cells[scope.as_map()[n]] is Statement));
                                    assert(it@.cells[scope.as_map()[n]] == mid.cells[scope.as_map()[n]]);
                                }
                            }
                            let vals = match res1 {
                                Ok(v) => v,
                                Err(e) => {
                                    return Err(e);
                                },
                            };
                            proof {
                                if leth && i <= qq {
                                    let scn = crate::identifiers::scan_run(
                                        crate::identifiers::scan_init(),
                                        vs.subrange(fa + 2, qq),
                                        m0,
                                    );
                                    assert(scn is Ok);
                                    assert(crate::identifiers::binds_match(
                                        vals@,
                                        scn->Ok_0.vals,
                                        pre.cells.len() as int,
                                    ));
                                    lemma_apply_matches(
                                        m0,
                                        vals@,
                                        scn->Ok_0.vals,
                                        pre.cells.len() as int,
                                    );
                                }
                            }
                            let ghost mscope = *scope;
                            let res2 = apply_bindings(vals, scope, Ghost(it@.cells));
                            proof {
                                assert forall|n: Seq<char>|
                                    #[trigger] scope0.as_map().contains_key(
                                        n,
                                    ) implies scope.as_map().contains_key(n) && scope.as_map()[n]
                                    == scope0.as_map()[n] by {
                                    assert(mscope.as_map().contains_key(n) && mscope.as_map()[n]
                                        == scope0.as_map()[n]);
                                    assert(scope.as_map().contains_key(n) && scope.as_map()[n]
                                        == mscope.as_map()[n]);
                                }
                            }
                            match res2 {
                                Ok(u) => {},
                                Err(e) => {
                                    return Err(e);
                                },
                            }
                        }
                        in_let = false;
                    }
                },
                _ => {},
            }
        }
        i += 1;
    }
    if open_stack.len() > 0 {
        proof {
            if flath {
                assert(false);
            }
        }
        let o = open_stack[open_stack.len() - 1];
        let e = LispErrors::new().error(&ts[o].loc, "Unmatched opening parentheses!").note(
            None,
            "Deleting it might fix this error.",
        );
        proof {
            assert(e@ =~~= seq![
                crate::error::EntryV {
                    msg: crate::error::entry_msg(
                        vs[o as int].loc,
                        "Unmatched opening parentheses!"@,
                    ),
                    notes: seq![
                        crate::error::note_msg(None, "Deleting it might fix this error."@),
                    ],
                },
            ]);
            if openh {
                assert(o as int == open_stack@.last() as int);
                assert(i == whi);
            }
        }
        return Err(e);
    }
    if args.len() == 0 {
        proof {
            if flath {
                assert(false);
            }
        }
        return Err(raw_list_err(start));
    }
    let s = args.remove(0);
    proof {
        if flatu {
            assert(false);
        }
        if flath {
            assert(s@ == flat_handle(vs, fa, fa, m0, pre.cells.len() as int));
            assert(it@.cells[s@] == flat_val(vs, fa, m0, pre.cells));
            assert(flat_cells(vs, fa, whi as int) == flat_cells(vs, fa, fb));
            assert forall|j: int| 0 <= j < args@.len() implies #[trigger] args@[j]@ == flat_handle(
                vs,
                fa,
                fa + 1 + j,
                m0,
                pre.cells.len() as int,
            ) by {
                assert(args@[j]@ == flat_handle(vs, fa, fa + (j + 1), m0, pre.cells.len() as int));
            }
            match vs[fa].dat {
                crate::tokens::TokV::Ident(n) => {
                    assert(!unbound_at(vs, fa, m0));
                    assert(m0.contains_key(n));
                    assert(old(scope).as_map().contains_key(n));
                    assert(scope_plain(*old(scope), pre.cells));
                    assert(!(pre.cells[old(scope).as_map()[n]] is Statement));
                    assert(!(pre.cells[m0[n]] is Statement));
                },
                _ => {},
            }
            assert(!(it@.cells[s@] is Statement));
        }
    }
    let is_f = it.get(&s).is_func();
    if is_f {
        let l = match stmt_loc {
            Some(l) => l,
            None => start.clone(),
        };
        let built = Statement { args, op: s, res: None, loc: l };
        proof {
            if flath {
                assert(built@.args =~= flat_stmt(
                    vs,
                    lo as int,
                    hi as int,
                    m0,
                    pre.cells.len() as int,
                    start@,
                ).args);
                assert(built@ =~~= flat_stmt(
                    vs,
                    lo as int,
                    hi as int,
                    m0,
                    pre.cells.len() as int,
                    start@,
                ));
            }
        }
        return Ok(built);
    }
    if args.len() == 0 {
        let is_s = it.get(&s).is_stmt();
        if is_s {
            proof {
                if flath {
                    assert(false);
                }
                assert(value_fits(it@.cells[s@], s@, it@.cells));
            }
            let (sargs, sop, sres, sloc) = it.read_stmt(s.id);
            let built2 = Statement { args: sargs, op: sop, res: sres, loc: sloc };
            proof {
                if wraph {
                    assert(built2@ =~~= flat_stmt(
                        vs,
                        fa,
                        fb,
                        m0,
                        pre.cells.len() as int,
                        vs[fa + 1].loc,
                    ));
                }
            }
            return Ok(built2);
        }
        return Err(raw_list_err(start));
    }
    Err(raw_list_err(start))
}

} // verus!
