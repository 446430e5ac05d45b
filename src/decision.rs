use vstd::prelude::*;
use varisat::ExtendFormula;
use crate::board::{Configuration, grid_view, num_rows, num_cols, in_bounds};
use crate::propagation::{ProbeResult, check_configuration, final_inference, verdict_of};
use crate::encoding::{
    MAX_VARS, var_of, size_ok, board_consistent, clue_consistent, is_board_clause, encode_clues,
    cell_clauses, clue_vars, clause_over, lit_var, lemma_cell_clauses_bounded, add_unique,
    clue_clauses, forbid_clauses, clause_for, popcount, bit, shifted, two_pow,
};

verus! {

/// Why the satisfiability path gave no answer.
#[derive(Clone, Copy, Debug, PartialEq, Eq, Structural)]
pub enum SolveError {
    /// The board has more cells than the solver has variables.
    TooLarge,
    /// The clue at this row and column asks for fewer mines than are placed
    /// around it, or more than placed and covered together.
    Inconsistent(usize, usize),
    /// The solver failed.
    Oracle,
    /// No completion of the board meets all clues.
    NoCompletion,
}

/// Literal `l` is true under the set `a` of mine variables.
pub open spec fn lit_holds(a: Set<int>, l: i32) -> bool {
    if l > 0 {
        a.contains(l as int)
    } else {
        !a.contains(-(l as int))
    }
}

pub open spec fn clause_holds(a: Set<int>, cl: Seq<i32>) -> bool {
    exists|i: int| 0 <= i < cl.len() && lit_holds(a, #[trigger] cl[i])
}

pub open spec fn satisfies(a: Set<int>, f: Seq<Seq<i32>>) -> bool {
    forall|i: int| 0 <= i < f.len() ==> clause_holds(a, #[trigger] f[i])
}

/// Some assignment makes every clause true.
pub open spec fn satisfiable(f: Seq<Seq<i32>>) -> bool {
    exists|a: Set<int>| satisfies(a, f)
}

/// A clause the solver accepts: not empty, each literal naming a variable
/// within its range.
pub open spec fn clause_ok(cl: Seq<i32>) -> bool {
    &&& cl.len() > 0
    &&& forall|k: int| 0 <= k < cl.len() ==> #[trigger] cl[k] != 0 && -MAX_VARS <= cl[k] <= MAX_VARS
}

pub open spec fn lits_ok(f: Seq<Seq<i32>>) -> bool {
    forall|i: int| 0 <= i < f.len() ==> clause_ok(#[trigger] f[i])
}

/// A clause of the formula for the probe literal `lit`: its unit clause or a
/// clause of the board.
pub open spec fn formula_clause(b: Seq<Seq<crate::board::Square>>, lit: i32, x: Seq<i32>) -> bool {
    x == seq![lit] || is_board_clause(b, x)
}

/// Some placement of mines meets every clue of the board and gives the
/// probe's variable the polarity of `lit`.
pub open spec fn completion_exists(b: Seq<Seq<crate::board::Square>>, lit: i32) -> bool {
    exists|a: Set<int>|
        lit_holds(a, lit) && forall|cl: Seq<i32>| #[trigger]
            is_board_clause(b, cl) ==> clause_holds(a, cl)
}

/// Every clause of the board is one the solver accepts.
proof fn lemma_formula_literals(b: Seq<Seq<crate::board::Square>>, x: Seq<i32>)
    requires
        crate::board::board_wf(b),
        size_ok(b),
        board_consistent(b),
        is_board_clause(b, x),
    ensures
        clause_ok(x),
{
    let (r, c) = choose|r: int, c: int| in_bounds(b, r, c) && (#[trigger] cell_clauses(b, r, c)).contains(x);
    assert(clue_consistent(b, r, c));
    lemma_cell_clauses_bounded(b, r, c);
    let t = choose|t: int| 0 <= t < cell_clauses(b, r, c).len() && cell_clauses(b, r, c)[t] == x;
    assert(clause_over(cell_clauses(b, r, c)[t], clue_vars(b, r, c)));
    let vs = clue_vars(b, r, c);
    assert forall|k: int| 0 <= k < x.len() implies #[trigger] x[k] != 0 && -MAX_VARS <= x[k]
        <= MAX_VARS by {
        assert(cell_clauses(b, r, c)[t][k] == x[k]);
        assert(crate::encoding::names_var(vs, lit_var(x[k])));
        let u = choose|u: int| 0 <= u < vs.len() && vs[u] as int == lit_var(x[k]);
        assert(1 <= vs[u] <= MAX_VARS);
    }
}

/// A formula holding the probe literal's unit clause and the board's clauses
/// is satisfiable exactly when a completion of the board gives the probe that
/// literal.
proof fn lemma_formula_sat(b: Seq<Seq<crate::board::Square>>, fv: Seq<Seq<i32>>, lit: i32)
    requires
        forall|x: Seq<i32>| #[trigger] fv.contains(x) <==> formula_clause(b, lit, x),
    ensures
        satisfiable(fv) == completion_exists(b, lit),
{
    if satisfiable(fv) {
        let a = choose|a: Set<int>| satisfies(a, fv);
        assert(fv.contains(seq![lit]));
        let j = choose|j: int| 0 <= j < fv.len() && fv[j] == seq![lit];
        assert(clause_holds(a, fv[j]));
        assert(lit_holds(a, lit));
        assert forall|cl: Seq<i32>| #[trigger] is_board_clause(b, cl) implies clause_holds(a, cl) by {
            assert(fv.contains(cl));
            let j = choose|j: int| 0 <= j < fv.len() && fv[j] == cl;
            assert(clause_holds(a, fv[j]));
        }
    }
    if completion_exists(b, lit) {
        let a = choose|a: Set<int>|
            lit_holds(a, lit) && forall|cl: Seq<i32>| #[trigger]
                is_board_clause(b, cl) ==> clause_holds(a, cl);
        assert forall|i: int| 0 <= i < fv.len() implies clause_holds(a, #[trigger] fv[i]) by {
            assert(fv.contains(fv[i]));
            if fv[i] == seq![lit] {
                assert(fv[i][0] == lit);
            } else {
                assert(is_board_clause(b, fv[i]));
            }
        }
        assert(satisfies(a, fv));
    }
}

/// Relies on varisat: `Lit::from_dimacs` maps each nonzero integer to the
/// literal of that variable and sign, `CnfFormula::add_clause` and
/// `Solver::add_formula` load the clauses, and `Solver::solve` returns
/// `Ok(true)` exactly when some assignment satisfies them all; with no proof
/// writer attached it returns no error.
#[verifier::external_body]
fn solve_cnf(clauses: &Vec<Vec<i32>>) -> (r: Option<bool>)
    requires
        lits_ok(grid_view(clauses@)),
    ensures
        r == Some(satisfiable(grid_view(clauses@))),
{
    let mut formula = varisat::CnfFormula::new();
    for clause in clauses.iter() {
        let lits: Vec<varisat::Lit> = clause.iter().map(
            |v| varisat::Lit::from_dimacs(*v as isize),
        ).collect();
        formula.add_clause(&lits);
    }
    let mut solver = varisat::Solver::new();
    solver.add_formula(&formula);
    solver.solve().ok()
}

/// Whether the board has no more cells than the solver has variables.
fn board_fits(conf: &Configuration) -> (r: bool)
    requires
        conf.wf(),
    ensures
        r == size_ok(conf.view()),
{
    let nr = conf.rows();
    let nc = conf.cols();
    assert((nr as int) * (nc as int) < 0x1_0000_0000_0000_0000_0000_0000_0000_0000) by (
    nonlinear_arith)
        requires
            nr <= 0xffff_ffff_ffff_ffff,
            nc <= 0xffff_ffff_ffff_ffff,
    ;
    (nr as u128) * (nc as u128) <= MAX_VARS as u128
}

/// The clauses handed to the solver: the probe literal's unit clause and the
/// board's clauses, each once, shortest first.
pub fn probe_formula(conf: &Configuration, probe_is_mine: bool) -> (res: Result<
    Vec<Vec<i32>>,
    SolveError,
>)
    requires
        conf.wf(),
    ensures
        (res == Err::<Vec<Vec<i32>>, SolveError>(SolveError::TooLarge)) <==> !size_ok(conf.view()),
        res matches Err(SolveError::Inconsistent(row, col)) ==> size_ok(conf.view())
            && !clue_consistent(conf.view(), row as int, col as int),
        res is Ok <==> (size_ok(conf.view()) && board_consistent(conf.view())),
        res matches Err(e) ==> (e == SolveError::TooLarge || e is Inconsistent),
        res matches Ok(f) ==> {
            &&& grid_view(f@).no_duplicates()
            &&& lits_ok(grid_view(f@))
            &&& forall|x: Seq<i32>|
                grid_view(f@).contains(x) <==> formula_clause(
                    conf.view(),
                    probe_lit(conf, probe_is_mine),
                    x,
                )
            &&& forall|i: int, j: int|
                0 <= i <= j < grid_view(f@).len() ==> (#[trigger] grid_view(f@)[i]).len() <= (#[trigger] grid_view(f@)[j]).len()
        },
{
    let ghost b = conf.view();
    if !board_fits(conf) {
        return Err(SolveError::TooLarge);
    }
    let mut pool = match encode_clues(conf) {
        Ok(f) => f,
        Err((row, col)) => {
            return Err(SolveError::Inconsistent(row, col));
        },
    };
    let nc = conf.cols();
    let pr = conf.probe_row;
    let pc = conf.probe_col;
    proof {
        crate::encoding::lemma_var_range(pr as int, pc as int, num_rows(b), num_cols(b));
    }
    let v = (pr * nc + pc + 1) as i32;
    let lit = if probe_is_mine { v } else { -v };
    assert(lit == probe_lit(conf, probe_is_mine));
    let unit = vec![lit];
    assert(unit@ =~= seq![lit]);
    let ghost encoded = grid_view(pool@);
    add_unique(&mut pool, unit);
    let ghost pv = grid_view(pool@);
    assert forall|x: Seq<i32>| #[trigger] pv.contains(x) <==> formula_clause(b, lit, x) by {
        if is_board_clause(b, x) {
            assert(encoded.contains(x));
        }
    }
    proof {
        assert forall|i: int| 0 <= i < pv.len() implies clause_ok(#[trigger] pv[i]) by {
            assert(pv.contains(pv[i]));
            if pv[i] != seq![lit] {
                lemma_formula_literals(b, pv[i]);
            }
        }
    }
    let mut widest: usize = 0;
    let mut t: usize = 0;
    while t < pool.len()
        invariant
            pv == grid_view(pool@),
            0 <= t <= pool.len(),
            forall|j: int| 0 <= j < t ==> (#[trigger] pv[j]).len() <= widest,
        decreases pool.len() - t,
    {
        if pool[t].len() > widest {
            widest = pool[t].len();
        }
        t = t + 1;
    }
    let mut out: Vec<Vec<i32>> = Vec::new();
    let mut w: usize = 0;
    loop
        invariant
            conf.wf(),
            b == conf.view(),
            size_ok(b),
            board_consistent(b),
            lit == probe_lit(conf, probe_is_mine),
            lits_ok(pv),
            forall|x: Seq<i32>| #[trigger] pv.contains(x) <==> formula_clause(b, lit, x),
            pv == grid_view(pool@),
            pv.no_duplicates(),
            forall|j: int| 0 <= j < pv.len() ==> (#[trigger] pv[j]).len() <= widest,
            w <= widest,
            grid_view(out@).no_duplicates(),
            forall|x: Seq<i32>|
                #[trigger] grid_view(out@).contains(x) <==> (pv.contains(x) && x.len() < w),
            forall|i: int| 0 <= i < out@.len() ==> (#[trigger] grid_view(out@)[i]).len() < w,
            forall|i: int, j: int|
                0 <= i <= j < out@.len() ==> (#[trigger] grid_view(out@)[i]).len() <= (#[trigger] grid_view(out@)[j]).len(),
        decreases widest - w,
    {
        let mut t: usize = 0;
        while t < pool.len()
            invariant
                pv == grid_view(pool@),
                w <= widest,
                0 <= t <= pool.len(),
                grid_view(out@).no_duplicates(),
                forall|x: Seq<i32>|
                    #[trigger] grid_view(out@).contains(x) <==> (pv.contains(x) && x.len() < w) || (
                    pv.take(t as int).contains(x) && x.len() == w),
                forall|i: int| 0 <= i < out@.len() ==> (#[trigger] grid_view(out@)[i]).len() <= w,
                forall|i: int, j: int|
                    0 <= i <= j < out@.len() ==> (#[trigger] grid_view(out@)[i]).len() <= (
                    #[trigger] grid_view(out@)[j]).len(),
            decreases pool.len() - t,
        {
            assert(pv.take(t + 1) =~= pv.take(t as int).push(pv[t as int]));
            let ghost before = grid_view(out@);
            if pool[t].len() == w {
                let cl = pool[t].clone();
                let ghost cv = cl@;
                assert(cv == pv[t as int]);
                add_unique(&mut out, cl);
                proof {
                    if grid_view(out@) != before {
                        assert(grid_view(out@) == before.push(cv));
                        assert(grid_view(out@)[before.len() as int].len() == w);
                    }
                }
                assert forall|x: Seq<i32>|
                    #[trigger] grid_view(out@).contains(x) <==> (pv.contains(x) && x.len() < w) || (
                    pv.take(t + 1).contains(x) && x.len() == w) by {
                    let p = pv.take(t as int);
                    assert(before.contains(x) <==> (pv.contains(x) && x.len() < w) || (p.contains(x)
                        && x.len() == w));
                    if p.push(cv).contains(x) && x != cv {
                        let j = choose|j: int| 0 <= j < p.len() + 1 && p.push(cv)[j] == x;
                        assert(p[j] == x);
                    }
                    if p.contains(x) {
                        let j = choose|j: int| 0 <= j < p.len() && p[j] == x;
                        assert(p.push(cv)[j] == x);
                    }
                    if x == cv {
                        assert(p.push(cv)[p.len() as int] == x);
                    }
                }
            } else {
                assert forall|x: Seq<i32>|
                    #[trigger] grid_view(out@).contains(x) <==> (pv.contains(x) && x.len() < w) || (
                    pv.take(t + 1).contains(x) && x.len() == w) by {
                    let p = pv.take(t as int);
                    if p.push(pv[t as int]).contains(x) && x.len() == w {
                        let j = choose|j: int| 0 <= j < p.len() + 1 && p.push(pv[t as int])[j] == x;
                        assert(p[j] == x);
                    }
                    if p.contains(x) {
                        let j = choose|j: int| 0 <= j < p.len() && p[j] == x;
                        assert(p.push(pv[t as int])[j] == x);
                    }
                }
            }
            t = t + 1;
        }
        assert(pv.take(pool.len() as int) =~= pv);
        if w == widest {
            assert forall|x: Seq<i32>| #[trigger] grid_view(out@).contains(x) <==> pv.contains(x) by {
                if pv.contains(x) {
                    let j = choose|j: int| 0 <= j < pv.len() && pv[j] == x;
                    assert(pv[j].len() <= widest);
                }
            }
            proof {
                let ov = grid_view(out@);
                assert forall|i: int| 0 <= i < ov.len() implies clause_ok(#[trigger] ov[i]) by {
                    assert(ov.contains(ov[i]));
                    let j = choose|j: int| 0 <= j < pv.len() && pv[j] == ov[i];
                    assert(clause_ok(pv[j]));
                }
                assert forall|i: int, j: int|
                    0 <= i <= j < out@.len() implies (#[trigger] grid_view(out@)[i]).len() <= (
                    #[trigger] grid_view(out@)[j]).len() by {}
            }
            return Ok(out);
        }
        w = w + 1;
    }
}

/// Whether some completion of the board meets every clue with the probe
/// a mine (`probe_is_mine`) or mine-free.
pub fn solve_with_probe(conf: &Configuration, probe_is_mine: bool) -> (res: Result<bool, SolveError>)
    requires
        conf.wf(),
    ensures
        (res == Err::<bool, SolveError>(SolveError::TooLarge)) <==> !size_ok(conf.view()),
        res matches Err(SolveError::Inconsistent(row, col)) ==> size_ok(conf.view())
            && !clue_consistent(conf.view(), row as int, col as int),
        res matches Err(e) ==> (e == SolveError::TooLarge || e is Inconsistent),
        size_ok(conf.view()) && board_consistent(conf.view()) ==> res == Ok::<bool, SolveError>(
            completion_exists(conf.view(), probe_lit(conf, probe_is_mine)),
        ),
{
    let formula = match probe_formula(conf, probe_is_mine) {
        Ok(f) => f,
        Err(e) => {
            return Err(e);
        },
    };
    proof {
        lemma_formula_sat(conf.view(), grid_view(formula@), probe_lit(conf, probe_is_mine));
    }
    match solve_cnf(&formula) {
        Some(s) => Ok(s),
        None => Err(SolveError::Oracle),
    }
}

/// Whether some completion of the board meets every clue with the probe
/// mine-free: when none does, the probe must be a mine.
pub fn solve_sat_problem(conf: &Configuration) -> (res: Result<bool, SolveError>)
    requires
        conf.wf(),
    ensures
        (res == Err::<bool, SolveError>(SolveError::TooLarge)) <==> !size_ok(conf.view()),
        res matches Err(SolveError::Inconsistent(row, col)) ==> size_ok(conf.view())
            && !clue_consistent(conf.view(), row as int, col as int),
        res matches Err(e) ==> (e == SolveError::TooLarge || e is Inconsistent),
        size_ok(conf.view()) && board_consistent(conf.view()) ==> res == Ok::<bool, SolveError>(
            completion_exists(conf.view(), probe_lit(conf, false)),
        ),
{
    solve_with_probe(conf, false)
}

pub open spec fn answers_verdict(safe_possible: bool, mine_possible: bool) -> Option<ProbeResult> {
    if !safe_possible && !mine_possible {
        None
    } else if !safe_possible {
        Some(ProbeResult::Unsafe)
    } else if !mine_possible {
        Some(ProbeResult::Safe)
    } else {
        Some(ProbeResult::Unknown)
    }
}

pub open spec fn probe_lit(conf: &Configuration, mine: bool) -> i32 {
    if mine {
        var_of(conf.view(), (conf.probe_row as int, conf.probe_col as int))
    } else {
        (-var_of(conf.view(), (conf.probe_row as int, conf.probe_col as int))) as i32
    }
}

/// The verdict from whether a completion exists with the probe mine-free and
/// whether one exists with it a mine; `None` when neither exists.
pub fn verdict_from_answers(safe_possible: bool, mine_possible: bool) -> (r: Option<ProbeResult>)
    ensures
        r == answers_verdict(safe_possible, mine_possible),
{
    if !safe_possible && !mine_possible {
        None
    } else if !safe_possible {
        Some(ProbeResult::Unsafe)
    } else if !mine_possible {
        Some(ProbeResult::Safe)
    } else {
        Some(ProbeResult::Unknown)
    }
}

/// The verdict on the probe. A board too large or with an inconsistent clue
/// is refused first. Then propagation answers; where it leaves the probe
/// undetermined, the answer follows from whether some completion has the
/// probe mine-free and whether some has it a mine.
pub fn decide_probe(conf: &Configuration) -> (res: Result<ProbeResult, SolveError>)
    requires
        conf.wf(),
    ensures
        (res == Err::<ProbeResult, SolveError>(SolveError::TooLarge)) <==> !size_ok(conf.view()),
        res matches Err(SolveError::Inconsistent(row, col)) ==> size_ok(conf.view())
            && !clue_consistent(conf.view(), row as int, col as int),
        size_ok(conf.view()) && board_consistent(conf.view()) ==> ({
            let quick = verdict_of(
                final_inference(conf.view())[conf.probe_row as int][conf.probe_col as int],
            );
            let answer = answers_verdict(
                completion_exists(conf.view(), probe_lit(conf, false)),
                completion_exists(conf.view(), probe_lit(conf, true)),
            );
            if quick != ProbeResult::Unknown {
                res == Ok::<ProbeResult, SolveError>(quick)
            } else {
                match answer {
                    Some(v) => res == Ok::<ProbeResult, SolveError>(v),
                    None => res == Err::<ProbeResult, SolveError>(SolveError::NoCompletion),
                }
            }
        }),
{
    if !board_fits(conf) {
        return Err(SolveError::TooLarge);
    }
    match encode_clues(conf) {
        Ok(_) => {},
        Err((row, col)) => {
            return Err(SolveError::Inconsistent(row, col));
        },
    }
    let quick = check_configuration(conf);
    match quick {
        ProbeResult::Unknown => {},
        _ => {
            return Ok(quick);
        },
    }
    let safe_possible = match solve_with_probe(conf, false) {
        Ok(s) => s,
        Err(e) => {
            return Err(e);
        },
    };
    let mine_possible = match solve_with_probe(conf, true) {
        Ok(s) => s,
        Err(e) => {
            return Err(e);
        },
    };
    match verdict_from_answers(safe_possible, mine_possible) {
        Some(v) => Ok(v),
        None => Err(SolveError::NoCompletion),
    }
}

/// Number of `vars` that are mines under `a`.
pub open spec fn mines_in(a: Set<int>, vars: Seq<i32>) -> nat
    decreases vars.len(),
{
    if vars.len() == 0 {
        0
    } else {
        mines_in(a, vars.drop_last()) + if a.contains(vars.last() as int) {
            1nat
        } else {
            0nat
        }
    }
}

/// The assignment of `vars` under `a` as a mask, bit `i` for `vars[i]`.
pub open spec fn mask_of(a: Set<int>, vars: Seq<i32>) -> nat
    decreases vars.len(),
{
    if vars.len() == 0 {
        0
    } else {
        (if a.contains(vars[0] as int) {
            1nat
        } else {
            0nat
        }) + 2 * mask_of(a, vars.drop_first())
    }
}

proof fn lemma_shifted_half(m: nat, i: nat)
    requires
        i >= 1,
    ensures
        shifted(m, i) == shifted(m / 2, (i - 1) as nat),
    decreases i,
{
    assert(shifted(m, 0) == m);
    assert(shifted(m / 2, 0) == m / 2);
    if i > 1 {
        lemma_shifted_half(m, (i - 1) as nat);
        assert(shifted(m / 2, (i - 1) as nat) == shifted(m / 2, (i - 2) as nat) / 2);
    }
}

proof fn lemma_mask_of(a: Set<int>, vars: Seq<i32>)
    ensures
        mask_of(a, vars) < two_pow(vars.len()),
        forall|i: int|
            0 <= i < vars.len() ==> bit(mask_of(a, vars), i as nat) == a.contains(
                #[trigger] vars[i] as int,
            ),
    decreases vars.len(),
{
    if vars.len() > 0 {
        let rest = vars.drop_first();
        lemma_mask_of(a, rest);
        let m = mask_of(a, vars);
        let r = mask_of(a, rest);
        assert(m / 2 == r);
        assert forall|i: int| 0 <= i < vars.len() implies bit(m, i as nat) == a.contains(
            #[trigger] vars[i] as int,
        ) by {
            if i > 0 {
                lemma_shifted_half(m, i as nat);
                assert(rest[i - 1] == vars[i]);
            }
        }
    }
}

proof fn lemma_popcount_matches(a: Set<int>, vars: Seq<i32>, mask: nat, m: nat)
    requires
        m <= vars.len(),
        forall|i: int| 0 <= i < m ==> bit(mask, i as nat) == a.contains(#[trigger] vars[i] as int),
    ensures
        popcount(mask, m) == mines_in(a, vars.take(m as int)),
    decreases m,
{
    if m > 0 {
        lemma_popcount_matches(a, vars, mask, (m - 1) as nat);
        assert(vars.take(m as int).drop_last() =~= vars.take(m - 1));
    }
}

proof fn lemma_clause_for_holds(a: Set<int>, vars: Seq<i32>, mask: nat)
    requires
        forall|i: int| 0 <= i < vars.len() ==> #[trigger] vars[i] > 0,
    ensures
        clause_holds(a, clause_for(vars, mask)) <==> exists|i: int|
            0 <= i < vars.len() && bit(mask, i as nat) != a.contains(#[trigger] vars[i] as int),
{
    let cl = clause_for(vars, mask);
    if clause_holds(a, cl) {
        let i = choose|i: int| 0 <= i < cl.len() && lit_holds(a, #[trigger] cl[i]);
        assert(bit(mask, i as nat) != a.contains(vars[i] as int));
    }
    if exists|i: int|
        0 <= i < vars.len() && bit(mask, i as nat) != a.contains(#[trigger] vars[i] as int) {
        let i = choose|i: int|
            0 <= i < vars.len() && bit(mask, i as nat) != a.contains(#[trigger] vars[i] as int);
        assert(lit_holds(a, cl[i]));
    }
}

proof fn lemma_forbid_members(vars: Seq<i32>, k: nat, upto: nat)
    ensures
        forall|j: int|
            0 <= j < forbid_clauses(vars, k, upto).len() ==> exists|mask: nat|
                mask < upto && popcount(mask, vars.len()) != k && #[trigger] forbid_clauses(
                    vars,
                    k,
                    upto,
                )[j] == clause_for(vars, mask),
        forall|mask: nat|
            mask < upto && popcount(mask, vars.len()) != k ==> forbid_clauses(
                vars,
                k,
                upto,
            ).contains(#[trigger] clause_for(vars, mask)),
    decreases upto,
{
    if upto > 0 {
        let u = (upto - 1) as nat;
        lemma_forbid_members(vars, k, u);
        let prev = forbid_clauses(vars, k, u);
        let cur = forbid_clauses(vars, k, upto);
        assert forall|j: int| 0 <= j < cur.len() implies exists|mask: nat|
            mask < upto && popcount(mask, vars.len()) != k && #[trigger] cur[j] == clause_for(
                vars,
                mask,
            ) by {
            if j < prev.len() {
                assert(cur[j] == prev[j]);
            } else {
                assert(cur[j] == clause_for(vars, u));
            }
        }
        assert forall|mask: nat| mask < upto && popcount(mask, vars.len()) != k implies cur.contains(
            #[trigger] clause_for(vars, mask),
        ) by {
            if mask < u {
                let j = choose|j: int| 0 <= j < prev.len() && prev[j] == clause_for(vars, mask);
                assert(cur[j] == prev[j]);
            } else {
                assert(cur[prev.len() as int] == clause_for(vars, mask));
            }
        }
    }
}

proof fn lemma_mines_in_extremes(a: Set<int>, vars: Seq<i32>)
    ensures
        mines_in(a, vars) <= vars.len(),
        mines_in(a, vars) == 0 <==> forall|i: int|
            0 <= i < vars.len() ==> !a.contains(#[trigger] vars[i] as int),
        mines_in(a, vars) == vars.len() <==> forall|i: int|
            0 <= i < vars.len() ==> a.contains(#[trigger] vars[i] as int),
    decreases vars.len(),
{
    if vars.len() > 0 {
        let s0 = vars.drop_last();
        lemma_mines_in_extremes(a, s0);
        let n = vars.len() as int;
        assert(vars.last() == vars[n - 1]);
        if forall|i: int| 0 <= i < n ==> !a.contains(#[trigger] vars[i] as int) {
            assert forall|i: int| 0 <= i < s0.len() implies !a.contains(#[trigger] s0[i] as int) by {
                assert(s0[i] == vars[i]);
            }
        }
        if mines_in(a, vars) == 0 {
            assert forall|i: int| 0 <= i < n implies !a.contains(#[trigger] vars[i] as int) by {
                if i < n - 1 {
                    assert(s0[i] == vars[i]);
                }
            }
        }
        if forall|i: int| 0 <= i < n ==> a.contains(#[trigger] vars[i] as int) {
            assert forall|i: int| 0 <= i < s0.len() implies a.contains(#[trigger] s0[i] as int) by {
                assert(s0[i] == vars[i]);
            }
        }
        if mines_in(a, vars) == n {
            assert forall|i: int| 0 <= i < n implies a.contains(#[trigger] vars[i] as int) by {
                if i < n - 1 {
                    assert(s0[i] == vars[i]);
                }
            }
        }
    }
}

/// The clauses of a clue over the variables `vars` hold under an assignment
/// exactly when `k` of the variables are mines.
pub proof fn lemma_clue_clauses_exact(vars: Seq<i32>, k: nat, a: Set<int>)
    requires
        vars.len() > 0,
        forall|i: int| 0 <= i < vars.len() ==> #[trigger] vars[i] > 0,
    ensures
        satisfies(a, clue_clauses(vars, k)) <==> mines_in(a, vars) == k,
{
    let n = vars.len();
    let cs = clue_clauses(vars, k);
    lemma_mines_in_extremes(a, vars);
    if k == 0 {
        if satisfies(a, cs) {
            assert forall|i: int| 0 <= i < n implies !a.contains(#[trigger] vars[i] as int) by {
                assert(clause_holds(a, cs[i]));
                assert(cs[i][0] == (-vars[i]) as i32);
            }
        }
        if mines_in(a, vars) == 0 {
            assert forall|i: int| 0 <= i < cs.len() implies clause_holds(a, #[trigger] cs[i]) by {
                assert(lit_holds(a, cs[i][0]));
            }
        }
    } else if k == n {
        if satisfies(a, cs) {
            assert forall|i: int| 0 <= i < n implies a.contains(#[trigger] vars[i] as int) by {
                assert(clause_holds(a, cs[i]));
                assert(cs[i][0] == vars[i]);
            }
        }
        if mines_in(a, vars) == n {
            assert forall|i: int| 0 <= i < cs.len() implies clause_holds(a, #[trigger] cs[i]) by {
                assert(lit_holds(a, cs[i][0]));
            }
        }
    } else {
        lemma_forbid_members(vars, k, two_pow(n));
        assert(vars.take(n as int) =~= vars);
        if satisfies(a, cs) && mines_in(a, vars) != k {
            let m = mask_of(a, vars);
            lemma_mask_of(a, vars);
            lemma_popcount_matches(a, vars, m, n);
            assert(cs.contains(clause_for(vars, m)));
            let j = choose|j: int| 0 <= j < cs.len() && cs[j] == clause_for(vars, m);
            assert(clause_holds(a, cs[j]));
            lemma_clause_for_holds(a, vars, m);
        }
        if mines_in(a, vars) == k {
            assert forall|j: int| 0 <= j < cs.len() implies clause_holds(a, #[trigger] cs[j]) by {
                let mask = choose|mask: nat|
                    mask < two_pow(n) && popcount(mask, n) != k && #[trigger] cs[j] == clause_for(
                        vars,
                        mask,
                    );
                lemma_clause_for_holds(a, vars, mask);
                if !clause_holds(a, cs[j]) {
                    lemma_popcount_matches(a, vars, mask, n);
                }
            }
        }
    }
}

} // verus!
