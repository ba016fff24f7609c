//! The symbol context that allocates propositional variables for
//! bit-vector symbols, and the solver front-end that accumulates
//! asserted constraints and prepares them for an external SAT engine.
use crate::cnf::ConjNormalFormula;
use crate::cnf::cnf_eval;
use crate::cnf::nnf_to_cnf;
use crate::expr::Bool;
use crate::expr::bool_sem;
use crate::expr::bool_vars_in;
use crate::expr::bool_wf;
use crate::expr::encode_bool;
use crate::expr::bool_vars_ok;
use crate::expr::lemma_bool_vars_max;
use crate::logic::Formula;
use crate::logic::lemma_gate_eval;
use crate::logic::lemma_gate_vars;
use crate::logic::SpecFormula;
use crate::logic::eval;
use crate::logic::vars_in;
use crate::logic::wf;
use vstd::prelude::*;

verus! {

/// A contract violation, reported instead of proceeding with an
/// ill-formed term or context.
#[derive(Debug, PartialEq, Eq, Structural, Clone, Copy)]
pub enum SmtError {
    /// A term or declaration of width zero or less.
    ZeroWidth,
    /// A symbolic term carrying a nonpositive variable identifier.
    BadSymbol,
    /// Binary operands of different widths.
    WidthMismatch,
    /// A slice outside its operand's width, or empty.
    SliceOutOfRange,
    /// A remainder whose divisor is the literal zero constant.
    DivisionByZero,
    /// A second declaration under an existing name.
    DuplicateSymbol,
    /// A declaration that would exhaust the variable identifiers.
    TooManyVars,
    /// An asserted predicate naming a variable the solver has no
    /// backing literal for.
    UnboundVariable,
}

/// The model of one declared symbol: its name, the first propositional
/// variable of its range, and its width. The range is the contiguous
/// block `low .. low + width`, index 0 the least-significant bit.
pub struct SymView {
    pub name: Seq<char>,
    pub low: int,
    pub width: int,
}

struct SymEntry {
    name: String,
    low: isize,
    width: isize,
}

/// Registry of declared bit-vector symbols. Each declaration allocates
/// a fresh contiguous block of propositional variable identifiers,
/// starting at 1; the counter only grows. Constructing a solver
/// consumes the context, so no symbol can be declared after the
/// solver's variable pool is sized.
pub struct Context {
    syms: Vec<SymEntry>,
    var_cnt: isize,
}

impl View for Context {
    type V = Seq<SymView>;

    closed spec fn view(&self) -> Seq<SymView> {
        self.syms@.map_values(
            |s: SymEntry| SymView { name: s.name@, low: s.low as int, width: s.width as int },
        )
    }
}

/// Some declared symbol already carries this name.
pub open spec fn has_name(v: Seq<SymView>, n: Seq<char>) -> bool {
    exists|i: int| 0 <= i < v.len() && #[trigger] v[i].name == n
}

impl Context {
    /// The next free propositional variable identifier; all identifiers
    /// handed out so far lie in `1 .. var_count()`.
    pub closed spec fn var_count(&self) -> int {
        self.var_cnt as int
    }

    /// Well-formed registry: positive widths, contiguous ranges
    /// starting at 1 that never overlap, distinct names, and a counter
    /// just past the last range.
    pub open spec fn wf(&self) -> bool {
        &&& 1 <= self.var_count() <= isize::MAX
        &&& (forall|i: int| 0 <= i < self@.len() ==> (#[trigger] self@[i]).width >= 1)
        &&& (self@.len() == 0 ==> self.var_count() == 1)
        &&& (self@.len() > 0 ==> self@[0].low == 1 && self@[self@.len() - 1].low + self@[self@.len()
            - 1].width == self.var_count())
        &&& (forall|i: int|
            0 < i < self@.len() ==> (#[trigger] self@[i]).low == self@[i - 1].low + self@[i
                - 1].width)
        &&& (forall|i: int, j: int| 0 <= i < j < self@.len() ==> self@[i].name != self@[j].name)
    }

    /// An empty registry; the first declaration gets variable 1.
    pub fn new() -> (c: Context)
        ensures
            c.wf(),
            c@ == Seq::<SymView>::empty(),
            c.var_count() == 1,
    {
        let c = Context { syms: Vec::new(), var_cnt: 1 };
        proof {
            assert(c@ =~= Seq::<SymView>::empty());
        }
        c
    }

    /// Declare a symbol: allocate `width` consecutive fresh variable
    /// identifiers and return them in little-endian bit order. Fails,
    /// changing nothing, on a duplicate name, a width below one, or a
    /// counter about to overflow.
    #[verifier::loop_isolation(false)]
    pub fn fresh_bvsym(&mut self, name: &str, width: isize) -> (r: Result<Vec<isize>, SmtError>)
        requires
            old(self).wf(),
        ensures
            final(self).wf(),
            r is Err <==> (width < 1 || has_name(old(self)@, name@) || old(self).var_count()
                + width > isize::MAX),
            match r {
                Ok(ids) => {
                    &&& width >= 1
                    &&& !has_name(old(self)@, name@)
                    &&& old(self).var_count() + width <= isize::MAX
                    &&& ids@.len() == width
                    &&& (forall|k: int|
                        0 <= k < width ==> #[trigger] ids@[k] == old(self).var_count() + k)
                    &&& final(self)@ == old(self)@.push(
                        SymView { name: name@, low: old(self).var_count(), width: width as int },
                    )
                    &&& final(self).var_count() == old(self).var_count() + width
                },
                Err(e) => {
                    &&& final(self)@ == old(self)@
                    &&& final(self).var_count() == old(self).var_count()
                    &&& (e == SmtError::ZeroWidth <==> width < 1)
                    &&& (e == SmtError::DuplicateSymbol <==> (width >= 1 && has_name(
                        old(self)@,
                        name@,
                    )))
                    &&& (e == SmtError::TooManyVars <==> (width >= 1 && !has_name(
                        old(self)@,
                        name@,
                    ) && old(self).var_count() + width > isize::MAX))
                },
            },
    {
        if width < 1 {
            return Err(SmtError::ZeroWidth);
        }
        let owned = name.to_owned();
        let mut i: usize = 0;
        while i < self.syms.len()
            invariant
                i <= self.syms@.len(),
                owned@ == name@,
                forall|j: int| 0 <= j < i ==> self@[j].name != name@,
                self@.len() == self.syms@.len(),
            decreases self.syms@.len() - i,
        {
            if self.syms[i].name == owned {
                proof {
                    assert(self@[i as int].name == name@);
                }
                return Err(SmtError::DuplicateSymbol);
            }
            proof {
                assert(self@[i as int].name == self.syms@[i as int].name@);
            }
            i += 1;
        }
        proof {
            if has_name(self@, name@) {
                let t = choose|t: int| 0 <= t < self@.len() && #[trigger] self@[t].name == name@;
            }
        }
        if width > isize::MAX - self.var_cnt {
            return Err(SmtError::TooManyVars);
        }
        let low = self.var_cnt;
        let ghost pre = self@;
        let mut ids: Vec<isize> = Vec::new();
        let mut k: isize = 0;
        while k < width
            invariant
                0 <= k <= width,
                low + width <= isize::MAX,
                1 <= low,
                ids@.len() == k,
                forall|t: int| 0 <= t < k ==> #[trigger] ids@[t] == low + t,
            decreases width - k,
        {
            ids.push(low + k);
            k += 1;
        }
        self.syms.push(SymEntry { name: owned, low, width });
        self.var_cnt = low + width;
        proof {
            assert(self@ =~= pre.push(
                SymView { name: name@, low: low as int, width: width as int },
            ));
        }
        Ok(ids)
    }

    /// Turn the registry into a solver. The context is consumed: its
    /// variable pool is frozen at the current counter, and no further
    /// declaration can outrun the solver's literals.
    pub fn solver(self) -> (s: Solver)
        requires
            self.wf(),
        ensures
            s.wf(),
            s.ctx_view() == self@,
            s.var_count() == self.var_count(),
            s.constraints_view() == SpecFormula::True,
    {
        Solver { ctx: self, constraints: Formula::True }
    }
}

/// Accumulates asserted constraints as one running conjunction over the
/// frozen symbol registry, and prepares clause lists for an external
/// boolean satisfiability engine.
pub struct Solver {
    ctx: Context,
    constraints: Formula,
}

/// A satisfying valuation, one little-endian bit vector per declared
/// symbol.
#[derive(Debug)]
pub struct Model {
    entries: Vec<(String, Vec<bool>)>,
}

impl View for Model {
    type V = Seq<(Seq<char>, Seq<bool>)>;

    closed spec fn view(&self) -> Seq<(Seq<char>, Seq<bool>)> {
        self.entries@.map_values(|e: (String, Vec<bool>)| (e.0@, e.1@))
    }
}

impl Model {
    /// The bits recorded for a symbol name, if it was declared.
    #[verifier::loop_isolation(false)]
    pub fn value(&self, name: &str) -> (r: Option<&Vec<bool>>)
        ensures
            match r {
                Some(bits) => exists|i: int|
                    0 <= i < self@.len() && #[trigger] self@[i] == (name@, bits@),
                None => forall|i: int| 0 <= i < self@.len() ==> (#[trigger] self@[i]).0 != name@,
            },
    {
        let owned = name.to_owned();
        let mut i: usize = 0;
        while i < self.entries.len()
            invariant
                i <= self.entries@.len(),
                owned@ == name@,
                forall|j: int| 0 <= j < i ==> (#[trigger] self@[j]).0 != name@,
                self@.len() == self.entries@.len(),
            decreases self.entries@.len() - i,
        {
            if self.entries[i].0 == owned {
                proof {
                    assert(self@[i as int] == (name@, self.entries@[i as int].1@));
                }
                return Some(&self.entries[i].1);
            }
            proof {
                assert(self@[i as int].0 == self.entries@[i as int].0@);
            }
            i += 1;
        }
        None
    }
}

/// The verdict of a satisfiability check.
#[derive(Debug)]
pub enum CheckResult {
    /// Satisfiable, with the valuation the engine reported.
    Sat(Model),
    /// Unsatisfiable.
    Unsat,
}

impl Solver {
    /// The frozen symbol registry this solver was built from.
    pub closed spec fn ctx_view(&self) -> Seq<SymView> {
        self.ctx@
    }

    /// One past the largest propositional variable with a backing
    /// literal in the engine.
    pub closed spec fn var_count(&self) -> int {
        self.ctx.var_count()
    }

    /// The running conjunction of everything asserted so far.
    pub closed spec fn constraints_view(&self) -> SpecFormula {
        self.constraints@
    }

    /// The registry is well formed and the running conjunction only
    /// names variables with backing literals.
    pub closed spec fn wf(&self) -> bool {
        &&& self.ctx.wf()
        &&& wf(self.constraints_view())
        &&& vars_in(self.constraints_view(), self.var_count())
    }

    /// The number of propositional variables the engine must
    /// allocate: one literal per identifier in `1 .. num_vars() + 1`.
    pub fn num_vars(&self) -> (n: isize)
        requires
            self.wf(),
        ensures
            n + 1 == self.var_count(),
    {
        proof {
            assert(1 <= self.ctx.var_count());
        }
        self.ctx.var_cnt - 1
    }

    /// Normalize the accumulated conjunction, store the normal form
    /// back, and return its conjunctive normal form: the clauses to
    /// load into the SAT engine. The clause list is exactly the
    /// conversion of the normalized conjunction, and is equivalent,
    /// under every assignment, to everything asserted so far.
    pub fn check_cnf(&mut self) -> (r: ConjNormalFormula)
        requires
            old(self).wf(),
        ensures
            final(self).wf(),
            final(self).ctx_view() == old(self).ctx_view(),
            final(self).var_count() == old(self).var_count(),
            r.wf(),
            crate::cnf::sets_of(r@) == crate::cnf::cnf_of(
                crate::logic::spec_simpl(old(self).constraints_view()),
            ),
            final(self).constraints_view() == crate::logic::spec_simpl(
                old(self).constraints_view(),
            ),
            forall|a: spec_fn(int) -> bool| cnf_eval(r@, a) == eval(
                old(self).constraints_view(),
                a,
            ),
            forall|a: spec_fn(int) -> bool| eval(final(self).constraints_view(), a) == eval(
                old(self).constraints_view(),
                a,
            ),
    {
        let simplified = Formula::simpl_demorgan(&self.constraints);
        proof {
            crate::logic::lemma_simpl_vars(self.constraints@, self.var_count());
        }
        let r = nnf_to_cnf(&simplified);
        self.constraints = simplified;
        r
    }

    /// Interpret the engine's outcome. `None` (unsatisfiable) becomes
    /// `Unsat`. A satisfying per-variable valuation becomes `Sat` with
    /// a model that lists, for every declared symbol, the bits of its
    /// allocated variable range, little-endian.
    #[verifier::loop_isolation(false)]
    #[verifier::rlimit(100)]
    pub fn conclude(&self, assignment: Option<&Vec<bool>>) -> (r: CheckResult)
        requires
            self.wf(),
            match assignment {
                Some(m) => m@.len() + 1 == self.var_count(),
                None => true,
            },
        ensures
            match assignment {
                Some(m) => r matches CheckResult::Sat(model) && model@.len()
                    == self.ctx_view().len() && forall|i: int|
                    0 <= i < self.ctx_view().len() ==> #[trigger] model@[i] == (
                        self.ctx_view()[i].name,
                        m@.subrange(
                            self.ctx_view()[i].low - 1,
                            self.ctx_view()[i].low - 1 + self.ctx_view()[i].width,
                        ),
                    ),
                None => r is Unsat,
            },
    {
        match assignment {
            None => CheckResult::Unsat,
            Some(m) => {
                let mut entries: Vec<(String, Vec<bool>)> = Vec::new();
                let mut i: usize = 0;
                proof {
                    lemma_ranges_in_bounds(self.ctx@, self.ctx.var_count());
                }
                while i < self.ctx.syms.len()
                    invariant
                        i <= self.ctx.syms@.len(),
                        self.wf(),
                        self.ctx@.len() == self.ctx.syms@.len(),
                        m@.len() + 1 == self.var_count(),
                        forall|t: int|
                            0 <= t < self.ctx@.len() ==> 1 <= (#[trigger] self.ctx@[t]).low
                                && self.ctx@[t].low + self.ctx@[t].width <= self.var_count(),
                        entries@.len() == i,
                        forall|t: int|
                            0 <= t < i ==> #[trigger] entries@[t].0@ == self.ctx@[t].name
                                && entries@[t].1@ == m@.subrange(
                                self.ctx@[t].low - 1,
                                self.ctx@[t].low - 1 + self.ctx@[t].width,
                            ),
                    decreases self.ctx.syms@.len() - i,
                {
                    let e = &self.ctx.syms[i];
                    proof {
                        assert(self.ctx@[i as int] == SymView {
                            name: e.name@,
                            low: e.low as int,
                            width: e.width as int,
                        });
                    }
                    let mut bits: Vec<bool> = Vec::new();
                    let mut k: usize = 0;
                    while k < e.width as usize
                        invariant
                            k <= e.width as usize,
                            e.width >= 1,
                            1 <= e.low,
                            e.low + e.width <= m@.len() + 1,
                            bits@.len() == k,
                            forall|t: int| 0 <= t < k ==> #[trigger] bits@[t] == m@[e.low - 1 + t],
                        decreases e.width as usize - k,
                    {
                        bits.push(m[(e.low as usize) - 1 + k]);
                        k += 1;
                    }
                    proof {
                        assert(bits@ =~= m@.subrange(e.low - 1, e.low - 1 + e.width));
                    }
                    let nm = e.name.clone();
                    proof {
                        assert(nm@ == e.name@);
                    }
                    entries.push((nm, bits));
                    proof {
                        assert(entries@[i as int].0@ == self.ctx@[i as int].name);
                        assert(entries@[i as int].1@ == m@.subrange(
                            self.ctx@[i as int].low - 1,
                            self.ctx@[i as int].low - 1 + self.ctx@[i as int].width,
                        ));
                    }
                    i += 1;
                }
                let model = Model { entries };
                proof {
                    assert(model@.len() == self.ctx@.len());
                    assert forall|t: int|
                        0 <= t < self.ctx_view().len() implies #[trigger] model@[t] == (
                        self.ctx_view()[t].name,
                        m@.subrange(
                            self.ctx_view()[t].low - 1,
                            self.ctx_view()[t].low - 1 + self.ctx_view()[t].width,
                        ),
                    ) by {
                        assert(model@[t] == (entries@[t].0@, entries@[t].1@));
                    }
                }
                CheckResult::Sat(model)
            },
        }
    }
}

proof fn lemma_ranges_in_bounds(v: Seq<SymView>, cnt: int)
    requires
        forall|i: int| 0 <= i < v.len() ==> (#[trigger] v[i]).width >= 1,
        v.len() == 0 ==> cnt == 1,
        v.len() > 0 ==> v[0].low == 1 && v[v.len() - 1].low + v[v.len() - 1].width == cnt,
        forall|i: int| 0 < i < v.len() ==> (#[trigger] v[i]).low == v[i - 1].low + v[i - 1].width,
    ensures
        forall|i: int| 0 <= i < v.len() ==> 1 <= (#[trigger] v[i]).low && v[i].low + v[i].width
            <= cnt,
    decreases v.len(),
{
    if v.len() > 0 {
        assert forall|i: int|
            0 <= i < v.len() implies 1 <= (#[trigger] v[i]).low && v[i].low + v[i].width <= cnt
            by {
            lemma_range_step(v, i, v.len() - 1);
        }
    }
}

proof fn lemma_range_step(v: Seq<SymView>, i: int, j: int)
    requires
        forall|t: int| 0 <= t < v.len() ==> (#[trigger] v[t]).width >= 1,
        forall|t: int| 0 < t < v.len() ==> (#[trigger] v[t]).low == v[t - 1].low + v[t - 1].width,
        v.len() > 0,
        v[0].low == 1,
        0 <= i <= j < v.len(),
    ensures
        1 <= v[i].low,
        v[i].low + v[i].width <= v[j].low + v[j].width,
    decreases j - i, i,
{
    if i > 0 && i == j {
        lemma_range_step(v, i - 1, j - 1);
    } else if i < j {
        lemma_range_step(v, i, j - 1);
        assert(v[j].low == v[j - 1].low + v[j - 1].width);
    }
}

impl Solver {
    /// Assert a predicate: encode it and conjoin it onto the running
    /// conjunction. Succeeds exactly when the predicate is well formed
    /// and names only variables with backing literals; on failure the
    /// accumulated constraints are unchanged.
    pub fn assert_constraint(&mut self, c: &Bool) -> (r: Result<(), SmtError>)
        requires
            old(self).wf(),
        ensures
            final(self).wf(),
            final(self).ctx_view() == old(self).ctx_view(),
            final(self).var_count() == old(self).var_count(),
            r is Ok <==> (bool_wf(*c) && bool_vars_in(*c, old(self).var_count())),
            r is Ok ==> forall|a: spec_fn(int) -> bool| #[trigger] eval(
                final(self).constraints_view(),
                a,
            ) == (bool_sem(*c, a) && eval(old(self).constraints_view(), a)),
            r is Err ==> final(self).constraints_view() == old(self).constraints_view(),
            r matches Err(er) ==> er == (if !bool_vars_in(*c, old(self).var_count()) {
                SmtError::UnboundVariable
            } else {
                crate::expr::bool_err(*c)
            }),
    {
        if !bool_vars_ok(c, self.ctx.var_cnt) {
            return Err(SmtError::UnboundVariable);
        }
        match encode_bool(c) {
            Err(e) => Err(e),
            Ok(f) => {
                proof {
                    assert(vars_in(f@, self.var_count()));
                    lemma_bool_vars_max(*c);
                    assert(vars_in(f@, isize::MAX as int + 1));
                }
                let newc = Formula::and(&f, &self.constraints);
                proof {
                    lemma_gate_vars(f@, self.constraints@, self.var_count());
                    lemma_gate_vars(f@, self.constraints@, isize::MAX as int + 1);
                    assert forall|a: spec_fn(int) -> bool| #[trigger] eval(newc@, a) == (bool_sem(
                        *c,
                        a,
                    ) && eval(self.constraints@, a)) by {
                        lemma_gate_eval(f@, self.constraints@, a);
                    }
                }
                self.constraints = newc;
                Ok(())
            },
        }
    }
}

} // verus!
