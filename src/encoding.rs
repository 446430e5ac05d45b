use vstd::prelude::*;
use crate::board::{
    Square, Configuration, is_covered, grid_view, cells_int, num_rows, num_cols, in_bounds,
    lemma_neighbour_seq,
};
use crate::propagation::around;

verus! {

/// Largest number of variables that the solver accepts.
pub const MAX_VARS: usize = 268435456;

pub open spec fn two_pow(n: nat) -> nat
    decreases n,
{
    if n == 0 {
        1
    } else {
        2 * two_pow((n - 1) as nat)
    }
}

/// `mask` halved `i` times.
pub open spec fn shifted(mask: nat, i: nat) -> nat
    decreases i,
{
    if i == 0 {
        mask
    } else {
        shifted(mask, (i - 1) as nat) / 2
    }
}

/// Bit `i` of `mask`: the `i`-th variable is a mine in that assignment.
pub open spec fn bit(mask: nat, i: nat) -> bool {
    shifted(mask, i) % 2 == 1
}

/// Number of set bits among the low `m` bits of `mask`.
pub open spec fn popcount(mask: nat, m: nat) -> nat
    decreases m,
{
    if m == 0 {
        0
    } else {
        popcount(mask, (m - 1) as nat) + if bit(mask, (m - 1) as nat) {
            1nat
        } else {
            0nat
        }
    }
}

/// The clause that rules out exactly the assignment `mask` of `vars`.
pub open spec fn clause_for(vars: Seq<i32>, mask: nat) -> Seq<i32> {
    Seq::new(vars.len(), |i: int| if bit(mask, i as nat) { (-vars[i]) as i32 } else { vars[i] })
}

/// Clauses ruling out each assignment below `upto` whose number of mines is not `k`.
pub open spec fn forbid_clauses(vars: Seq<i32>, k: nat, upto: nat) -> Seq<Seq<i32>>
    decreases upto,
{
    if upto == 0 {
        seq![]
    } else {
        let mask = (upto - 1) as nat;
        let rest = forbid_clauses(vars, k, (upto - 1) as nat);
        if popcount(mask, vars.len()) != k {
            rest.push(clause_for(vars, mask))
        } else {
            rest
        }
    }
}

/// Clauses that hold exactly when `k` of `vars` are mines.
pub open spec fn clue_clauses(vars: Seq<i32>, k: nat) -> Seq<Seq<i32>> {
    if vars.len() == 0 {
        seq![]
    } else if k == 0 {
        Seq::new(vars.len(), |i: int| seq![(-vars[i]) as i32])
    } else if k == vars.len() {
        Seq::new(vars.len(), |i: int| seq![vars[i]])
    } else {
        forbid_clauses(vars, k, two_pow(vars.len()))
    }
}

/// The variable of a cell: row-major number, from 1.
pub open spec fn var_of(b: Seq<Seq<Square>>, p: (int, int)) -> i32 {
    (p.0 * num_cols(b) + p.1 + 1) as i32
}

/// Variables of the covered cells among `s`, in order.
pub open spec fn covered_vars(b: Seq<Seq<Square>>, s: Seq<(int, int)>) -> Seq<i32>
    decreases s.len(),
{
    if s.len() == 0 {
        seq![]
    } else {
        let rest = covered_vars(b, s.drop_last());
        if is_covered(b[s.last().0][s.last().1]) {
            rest.push(var_of(b, s.last()))
        } else {
            rest
        }
    }
}

/// Mines on the board among `s`.
pub open spec fn board_mines(b: Seq<Seq<Square>>, s: Seq<(int, int)>) -> nat
    decreases s.len(),
{
    if s.len() == 0 {
        0
    } else {
        board_mines(b, s.drop_last()) + if b[s.last().0][s.last().1] is Mine {
            1nat
        } else {
            0nat
        }
    }
}

pub open spec fn clue_vars(b: Seq<Seq<Square>>, r: int, c: int) -> Seq<i32> {
    covered_vars(b, around(b, r, c))
}

pub open spec fn clue_mines(b: Seq<Seq<Square>>, r: int, c: int) -> nat {
    board_mines(b, around(b, r, c))
}

/// A clue with covered neighbours asks for no fewer mines than are placed
/// around it and no more than placed and covered together.
pub open spec fn clue_consistent(b: Seq<Seq<Square>>, r: int, c: int) -> bool {
    b[r][c] is Number && clue_vars(b, r, c).len() > 0 ==> clue_mines(b, r, c) <= b[r][c]->Number_0
        <= clue_mines(b, r, c) + clue_vars(b, r, c).len()
}

pub open spec fn board_consistent(b: Seq<Seq<Square>>) -> bool {
    forall|r: int, c: int| in_bounds(b, r, c) ==> #[trigger] clue_consistent(b, r, c)
}

/// The clauses that the cell at `(r, c)` contributes.
pub open spec fn cell_clauses(b: Seq<Seq<Square>>, r: int, c: int) -> Seq<Seq<i32>> {
    if b[r][c] is Number && clue_vars(b, r, c).len() > 0 {
        clue_clauses(clue_vars(b, r, c), (b[r][c]->Number_0 - clue_mines(b, r, c)) as nat)
    } else {
        seq![]
    }
}

/// `cl` is contributed by some cell of the board.
pub open spec fn is_board_clause(b: Seq<Seq<Square>>, cl: Seq<i32>) -> bool {
    exists|r: int, c: int| in_bounds(b, r, c) && (#[trigger] cell_clauses(b, r, c)).contains(cl)
}

pub open spec fn size_ok(b: Seq<Seq<Square>>) -> bool {
    num_rows(b) * num_cols(b) <= MAX_VARS
}

proof fn lemma_two_pow_bound(n: nat)
    requires
        n <= 8,
    ensures
        1 <= two_pow(n) <= 256,
        two_pow(n) <= two_pow(8),
    decreases n,
{
    reveal_with_fuel(two_pow, 9);
    if n > 0 {
        lemma_two_pow_bound((n - 1) as nat);
    }
}

pub(crate) proof fn lemma_var_range(r: int, c: int, nr: int, nc: int)
    requires
        0 <= r < nr,
        0 <= c < nc,
    ensures
        1 <= r * nc + c + 1 <= nr * nc,
{
    assert(r * nc + c + 1 <= nr * nc) by (nonlinear_arith)
        requires
            0 <= r < nr,
            0 <= c < nc,
    ;
    assert(r * nc >= 0) by (nonlinear_arith)
        requires
            0 <= r,
            0 <= c < nc,
    ;
}

/// Number of set bits among the low `m` bits of `mask`.
fn popcount_exec(mask: u32, m: u32) -> (r: u32)
    requires
        m <= 8,
    ensures
        r == popcount(mask as nat, m as nat),
        r <= m,
{
    let mut count: u32 = 0;
    let mut x: u32 = mask;
    let mut i: u32 = 0;
    while i < m
        invariant
            0 <= i <= m <= 8,
            count <= i,
            count == popcount(mask as nat, i as nat),
            x as nat == shifted(mask as nat, i as nat),
        decreases m - i,
    {
        if x % 2 == 1 {
            count = count + 1;
        }
        x = x / 2;
        i = i + 1;
    }
    count
}

/// The clause that rules out the assignment `mask` of `vars`.
fn clause_exec(vars: &Vec<i32>, mask: u32) -> (r: Vec<i32>)
    requires
        vars.len() <= 8,
        forall|i: int| 0 <= i < vars.len() ==> #[trigger] vars@[i] > 0,
    ensures
        r@ == clause_for(vars@, mask as nat),
{
    let mut out: Vec<i32> = Vec::new();
    let mut x: u32 = mask;
    let mut i: usize = 0;
    while i < vars.len()
        invariant
            vars.len() <= 8,
            forall|j: int| 0 <= j < vars.len() ==> #[trigger] vars@[j] > 0,
            0 <= i <= vars.len(),
            x as nat == shifted(mask as nat, i as nat),
            out@.len() == i,
            forall|j: int| 0 <= j < i ==> #[trigger] out@[j] == clause_for(vars@, mask as nat)[j],
        decreases vars.len() - i,
    {
        let v = vars[i];
        if x % 2 == 1 {
            out.push(-v);
        } else {
            out.push(v);
        }
        x = x / 2;
        i = i + 1;
    }
    assert(out@ =~= clause_for(vars@, mask as nat));
    out
}

/// Clauses that hold exactly when `k` of `vars` are mines.
pub fn clue_clauses_exec(vars: &Vec<i32>, k: usize) -> (r: Vec<Vec<i32>>)
    requires
        vars.len() <= 8,
        k <= vars.len(),
        forall|i: int| 0 <= i < vars.len() ==> #[trigger] vars@[i] > 0,
    ensures
        grid_view(r@) == clue_clauses(vars@, k as nat),
{
    let mut out: Vec<Vec<i32>> = Vec::new();
    let m = vars.len();
    if m == 0 {
        assert(grid_view(out@) =~= clue_clauses(vars@, k as nat));
        return out;
    }
    if k == 0 || k == m {
        let mut i: usize = 0;
        while i < m
            invariant
                m == vars.len(),
                m > 0,
                k == 0 || k == m,
                forall|j: int| 0 <= j < vars.len() ==> #[trigger] vars@[j] > 0,
                0 <= i <= m,
                out@.len() == i,
                forall|j: int| 0 <= j < i ==> (#[trigger] out@[j])@ == clue_clauses(vars@, k as nat)[j],
            decreases m - i,
        {
            let v = vars[i];
            let lit = if k == 0 { -v } else { v };
            let unit = vec![lit];
            assert(unit@ =~= clue_clauses(vars@, k as nat)[i as int]);
            out.push(unit);
            i = i + 1;
        }
        assert(grid_view(out@) =~= clue_clauses(vars@, k as nat));
        return out;
    }
    let mut total: u32 = 1;
    let mut e: usize = 0;
    while e < m
        invariant
            m == vars.len() <= 8,
            0 <= e <= m,
            total == two_pow(e as nat),
        decreases m - e,
    {
        proof {
            lemma_two_pow_bound(e as nat);
        }
        total = total * 2;
        e = e + 1;
    }
    proof {
        lemma_two_pow_bound(m as nat);
    }
    let mut mask: u32 = 0;
    while mask < total
        invariant
            m == vars.len() <= 8,
            0 < k < m,
            forall|j: int| 0 <= j < vars.len() ==> #[trigger] vars@[j] > 0,
            total == two_pow(m as nat),
            total <= 256,
            0 <= mask <= total,
            grid_view(out@) == forbid_clauses(vars@, k as nat, mask as nat),
        decreases total - mask,
    {
        let ones = popcount_exec(mask, m as u32);
        let ghost before = grid_view(out@);
        if ones as usize != k {
            let cl = clause_exec(vars, mask);
            out.push(cl);
            assert(grid_view(out@) =~= before.push(clause_for(vars@, mask as nat)));
        }
        mask = mask + 1;
    }
    out
}

/// Variables of the covered neighbours of a cell, and the mines around it.
fn clue_scan(conf: &Configuration, row: usize, col: usize) -> (res: (Vec<i32>, usize))
    requires
        conf.wf(),
        size_ok(conf.view()),
        in_bounds(conf.view(), row as int, col as int),
    ensures
        res.0@ == clue_vars(conf.view(), row as int, col as int),
        res.1 == clue_mines(conf.view(), row as int, col as int),
        res.0.len() <= 8,
        res.1 + res.0.len() <= 8,
        forall|i: int| 0 <= i < res.0.len() ==> #[trigger] res.0@[i] > 0,
{
    let ghost b = conf.view();
    let nr = conf.rows();
    let nc = conf.cols();
    let nbs = conf.neighbours(row, col);
    let ghost ns = cells_int(nbs@);
    proof {
        lemma_neighbour_seq(row as int, col as int, num_rows(b), num_cols(b));
    }
    let mut vars: Vec<i32> = Vec::new();
    let mut mines: usize = 0;
    let mut i: usize = 0;
    while i < nbs.len()
        invariant
            conf.wf(),
            b == conf.view(),
            size_ok(b),
            nr == num_rows(b),
            nc == num_cols(b),
            ns == cells_int(nbs@),
            ns == around(b, row as int, col as int),
            ns.len() <= 8,
            forall|p: (int, int)| ns.contains(p) ==> in_bounds(b, p.0, p.1),
            0 <= i <= nbs.len(),
            mines + vars@.len() <= i,
            vars@ == covered_vars(b, ns.take(i as int)),
            mines == board_mines(b, ns.take(i as int)),
            forall|j: int| 0 <= j < vars.len() ==> #[trigger] vars@[j] > 0,
        decreases nbs.len() - i,
    {
        let (r, c) = nbs[i];
        assert(ns[i as int] == (r as int, c as int));
        assert(ns.contains((r as int, c as int)));
        assert(ns.take(i + 1).drop_last() =~= ns.take(i as int));
        if conf.is_mine(r, c) {
            mines = mines + 1;
        }
        if conf.is_empty(r, c) {
            proof {
                lemma_var_range(r as int, c as int, nr as int, nc as int);
            }
            let v = (r * nc + c + 1) as i32;
            vars.push(v);
        }
        i = i + 1;
    }
    assert(ns.take(i as int) =~= ns);
    (vars, mines)
}


/// `x` is contributed by a cell before `(r, c)` in row-major order.
pub open spec fn clause_before(b: Seq<Seq<Square>>, x: Seq<i32>, r: int, c: int) -> bool {
    exists|r2: int, c2: int|
        in_bounds(b, r2, c2) && (r2 < r || (r2 == r && c2 < c)) && (#[trigger] cell_clauses(
            b,
            r2,
            c2,
        )).contains(x)
}

fn same_clause(a: &Vec<i32>, b: &Vec<i32>) -> (r: bool)
    ensures
        r == (a@ == b@),
{
    if a.len() != b.len() {
        return false;
    }
    let mut i: usize = 0;
    while i < a.len()
        invariant
            a.len() == b.len(),
            0 <= i <= a.len(),
            forall|j: int| 0 <= j < i ==> a@[j] == b@[j],
        decreases a.len() - i,
    {
        if a[i] != b[i] {
            return false;
        }
        i = i + 1;
    }
    assert(a@ =~= b@);
    true
}

/// Appends a clause unless an equal one is already there.
pub(crate) fn add_unique(out: &mut Vec<Vec<i32>>, cl: Vec<i32>)
    requires
        grid_view(old(out)@).no_duplicates(),
    ensures
        grid_view(final(out)@).no_duplicates(),
        grid_view(final(out)@) == grid_view(old(out)@) || grid_view(final(out)@) == grid_view(
            old(out)@,
        ).push(cl@),
        forall|x: Seq<i32>|
            grid_view(final(out)@).contains(x) <==> (grid_view(old(out)@).contains(x) || x
                == cl@),
{
    let ghost g = grid_view(out@);
    let mut i: usize = 0;
    while i < out.len()
        invariant
            g == grid_view(out@),
            g == grid_view(old(out)@),
            g.no_duplicates(),
            0 <= i <= out.len(),
            forall|j: int| 0 <= j < i ==> g[j] != cl@,
        decreases out.len() - i,
    {
        if same_clause(&out[i], &cl) {
            assert(g[i as int] == cl@);
            assert(g.contains(cl@));
            return;
        }
        i = i + 1;
    }
    let ghost v = cl@;
    out.push(cl);
    assert(grid_view(out@) =~= g.push(v));
    assert(!g.contains(v));
    assert forall|x: Seq<i32>| g.push(v).contains(x) <==> (g.contains(x) || x == v) by {
        if x == v {
            assert(g.push(v)[g.len() as int] == v);
        }
        if g.contains(x) {
            let j = choose|j: int| 0 <= j < g.len() && g[j] == x;
            assert(g.push(v)[j] == x);
        }
    }
}

/// The clauses of all clues of the board, each once, or a clue that the
/// cells around it cannot satisfy.
pub fn encode_clues(conf: &Configuration) -> (res: Result<Vec<Vec<i32>>, (usize, usize)>)
    requires
        conf.wf(),
        size_ok(conf.view()),
    ensures
        res is Ok <==> board_consistent(conf.view()),
        match res {
            Ok(f) => grid_view(f@).no_duplicates() && forall|x: Seq<i32>|
                grid_view(f@).contains(x) <==> is_board_clause(conf.view(), x),
            Err(p) => in_bounds(conf.view(), p.0 as int, p.1 as int) && !clue_consistent(
                conf.view(),
                p.0 as int,
                p.1 as int,
            ),
        },
{
    let ghost b = conf.view();
    let nr = conf.rows();
    let nc = conf.cols();
    let mut out: Vec<Vec<i32>> = Vec::new();
    let mut r: usize = 0;
    while r < nr
        invariant
            conf.wf(),
            b == conf.view(),
            size_ok(b),
            nr == num_rows(b),
            nc == num_cols(b),
            0 <= r <= nr,
            grid_view(out@).no_duplicates(),
            forall|x: Seq<i32>| grid_view(out@).contains(x) <==> clause_before(b, x, r as int, 0),
            forall|r2: int, c2: int|
                in_bounds(b, r2, c2) && r2 < r ==> #[trigger] clue_consistent(b, r2, c2),
        decreases nr - r,
    {
        let mut c: usize = 0;
        while c < nc
            invariant
                conf.wf(),
                b == conf.view(),
                size_ok(b),
                nr == num_rows(b),
                nc == num_cols(b),
                0 <= r < nr,
                0 <= c <= nc,
                grid_view(out@).no_duplicates(),
                forall|x: Seq<i32>|
                    grid_view(out@).contains(x) <==> clause_before(b, x, r as int, c as int),
                forall|r2: int, c2: int|
                    in_bounds(b, r2, c2) && (r2 < r || (r2 == r && c2 < c))
                        ==> #[trigger] clue_consistent(b, r2, c2),
            decreases nc - c,
        {
            let ghost cc = cell_clauses(b, r as int, c as int);
            let ghost before = grid_view(out@);
            match conf.square(r, c) {
                Square::Number(n) => {
                    let (vars, mines) = clue_scan(conf, r, c);
                    if vars.len() > 0 {
                        if n < mines || n > mines + vars.len() {
                            assert(!clue_consistent(b, r as int, c as int));
                            return Err((r, c));
                        }
                        let cls = clue_clauses_exec(&vars, n - mines);
                        assert(grid_view(cls@) == cc);
                        let mut t: usize = 0;
                        while t < cls.len()
                            invariant
                                grid_view(cls@) == cc,
                                0 <= t <= cls.len(),
                                grid_view(out@).no_duplicates(),
                                forall|x: Seq<i32>|
                                    #[trigger] grid_view(out@).contains(x) <==> (before.contains(x)
                                        || cc.take(t as int).contains(x)),
                            decreases cls.len() - t,
                        {
                            let cl = cls[t].clone();
                            assert(cl@ == cc[t as int]);
                            let ghost mid = grid_view(out@);
                            let ghost cl_view = cl@;
                            add_unique(&mut out, cl);
                            assert(cc.take(t + 1) =~= cc.take(t as int).push(cl_view));
                            assert forall|x: Seq<i32>|
                                #[trigger] grid_view(out@).contains(x) <==> (before.contains(x)
                                    || cc.take(t + 1).contains(x)) by {
                                let p = cc.take(t as int);
                                assert(mid.contains(x) <==> (before.contains(x) || p.contains(x)));
                                if p.push(cl_view).contains(x) && x != cl_view {
                                    let j = choose|j: int| 0 <= j < p.len() + 1 && p.push(cl_view)[j] == x;
                                    assert(p[j] == x);
                                }
                                if p.contains(x) {
                                    let j = choose|j: int| 0 <= j < p.len() && p[j] == x;
                                    assert(p.push(cl_view)[j] == x);
                                }
                                if x == cl_view {
                                    assert(p.push(cl_view)[p.len() as int] == x);
                                }
                            }
                            t = t + 1;
                        }
                        assert(cc.take(t as int) =~= cc);
                    } else {
                        assert(cc =~= seq![]);
                    }
                },
                _ => {
                    assert(cc =~= seq![]);
                },
            }
            assert forall|x: Seq<i32>|
                grid_view(out@).contains(x) <==> (before.contains(x) || cc.contains(x)) by {}
            assert forall|x: Seq<i32>| clause_before(b, x, r as int, c + 1) implies grid_view(
                out@,
            ).contains(x) by {
                let (r2, c2) = choose|r2: int, c2: int|
                    in_bounds(b, r2, c2) && (r2 < r || (r2 == r && c2 < c + 1)) && (
                    #[trigger] cell_clauses(b, r2, c2)).contains(x);
                if r2 == r && c2 == c {
                    assert(cc.contains(x));
                } else {
                    assert(clause_before(b, x, r as int, c as int));
                }
            }
            assert forall|x: Seq<i32>| grid_view(out@).contains(x) implies clause_before(
                b,
                x,
                r as int,
                c + 1,
            ) by {
                if !before.contains(x) {
                    assert(cc.contains(x));
                    assert(in_bounds(b, r as int, c as int));
                }
            }
            c = c + 1;
        }
        assert forall|x: Seq<i32>|
            clause_before(b, x, r as int, nc as int) <==> clause_before(b, x, r + 1, 0) by {
            if clause_before(b, x, r + 1, 0) {
                let (r2, c2) = choose|r2: int, c2: int|
                    in_bounds(b, r2, c2) && (r2 < r + 1 || (r2 == r + 1 && c2 < 0)) && (
                    #[trigger] cell_clauses(b, r2, c2)).contains(x);
                assert(clause_before(b, x, r as int, nc as int));
            }
        }
        r = r + 1;
    }
    assert forall|x: Seq<i32>| clause_before(b, x, nr as int, 0) <==> is_board_clause(b, x) by {
        if is_board_clause(b, x) {
            let (r2, c2) = choose|r2: int, c2: int|
                in_bounds(b, r2, c2) && (#[trigger] cell_clauses(b, r2, c2)).contains(x);
            assert(clause_before(b, x, nr as int, 0));
        }
    }
    Ok(out)
}

pub open spec fn lit_var(l: i32) -> int {
    if l < 0 {
        -(l as int)
    } else {
        l as int
    }
}

/// No two literals of a clause name the same variable.
pub open spec fn lits_distinct(cl: Seq<i32>) -> bool {
    forall|i: int, j: int|
        0 <= i < cl.len() && 0 <= j < cl.len() && i != j ==> lit_var(#[trigger] cl[i]) != lit_var(
            #[trigger] cl[j],
        )
}

pub open spec fn names_var(vars: Seq<i32>, v: int) -> bool {
    exists|t: int| 0 <= t < vars.len() && #[trigger] vars[t] as int == v
}

/// Every variable that a clause names is one of `vars`.
pub open spec fn lits_within(cl: Seq<i32>, vars: Seq<i32>) -> bool {
    forall|i: int| 0 <= i < cl.len() ==> names_var(vars, lit_var(#[trigger] cl[i]))
}

pub open spec fn clause_over(cl: Seq<i32>, vars: Seq<i32>) -> bool {
    lits_distinct(cl) && lits_within(cl, vars)
}

proof fn lemma_forbid_clauses(vars: Seq<i32>, k: nat, upto: nat)
    requires
        vars.no_duplicates(),
        forall|i: int| 0 <= i < vars.len() ==> #[trigger] vars[i] > 0,
    ensures
        forbid_clauses(vars, k, upto).len() <= upto,
        forall|j: int|
            0 <= j < forbid_clauses(vars, k, upto).len() ==> clause_over(
                #[trigger] forbid_clauses(vars, k, upto)[j],
                vars,
            ) && forbid_clauses(vars, k, upto)[j].len() == vars.len(),
    decreases upto,
{
    if upto > 0 {
        lemma_forbid_clauses(vars, k, (upto - 1) as nat);
        let cl = clause_for(vars, (upto - 1) as nat);
        assert forall|i: int| 0 <= i < cl.len() implies lit_var(#[trigger] cl[i]) == vars[i] by {}
        assert forall|i: int, j: int|
            0 <= i < cl.len() && 0 <= j < cl.len() && i != j implies lit_var(#[trigger] cl[i])
            != lit_var(#[trigger] cl[j]) by {
            assert(lit_var(cl[i]) == vars[i]);
            assert(lit_var(cl[j]) == vars[j]);
            assert(vars[i] != vars[j]);
        }
        assert forall|i: int| 0 <= i < cl.len() implies names_var(vars, lit_var(#[trigger] cl[i])) by {
            assert(vars[i] as int == lit_var(cl[i]));
        }
        assert(lits_distinct(cl));
        assert(lits_within(cl, vars));
    }
}

/// For a clue over `m` distinct covered variables the encoding has at most
/// `2^m` clauses, and no clause names a variable twice, with either sign.
pub proof fn lemma_clue_clauses_bounded(vars: Seq<i32>, k: nat)
    requires
        vars.no_duplicates(),
        forall|i: int| 0 <= i < vars.len() ==> #[trigger] vars[i] > 0,
        k <= vars.len(),
    ensures
        clue_clauses(vars, k).len() <= two_pow(vars.len()),
        forall|j: int|
            0 <= j < clue_clauses(vars, k).len() ==> clause_over(
                #[trigger] clue_clauses(vars, k)[j],
                vars,
            ) && clue_clauses(vars, k)[j].len() > 0,
{
    lemma_two_pow_ge(vars.len());
    lemma_forbid_clauses(vars, k, two_pow(vars.len()));
    let cs = clue_clauses(vars, k);
    if vars.len() > 0 && (k == 0 || k == vars.len()) {
        assert forall|j: int| 0 <= j < cs.len() implies clause_over(#[trigger] cs[j], vars) by {
            assert(lit_var(cs[j][0]) == vars[j]);
            assert(vars[j] as int == lit_var(cs[j][0]));
        }
    }
}

proof fn lemma_two_pow_ge(n: nat)
    ensures
        two_pow(n) >= n,
        two_pow(n) >= 1,
    decreases n,
{
    if n > 0 {
        lemma_two_pow_ge((n - 1) as nat);
    }
}

proof fn lemma_var_injective(b: Seq<Seq<Square>>, p: (int, int), q: (int, int))
    requires
        in_bounds(b, p.0, p.1),
        in_bounds(b, q.0, q.1),
        size_ok(b),
        p != q,
    ensures
        var_of(b, p) != var_of(b, q),
{
    let nc = num_cols(b);
    let nr = num_rows(b);
    lemma_var_range(p.0, p.1, nr, nc);
    lemma_var_range(q.0, q.1, nr, nc);
    if p.0 != q.0 {
        assert(p.0 * nc + p.1 != q.0 * nc + q.1) by (nonlinear_arith)
            requires
                p.0 != q.0,
                0 <= p.1 < nc,
                0 <= q.1 < nc,
        {
            if p.0 < q.0 {
                assert(q.0 * nc >= (p.0 + 1) * nc);
            } else {
                assert(p.0 * nc >= (q.0 + 1) * nc);
            }
        }
    }
}

/// The covered variables of in-bounds cells without repetition are distinct
/// and within the solver's range.
proof fn lemma_covered_vars(b: Seq<Seq<Square>>, s: Seq<(int, int)>)
    requires
        size_ok(b),
        s.no_duplicates(),
        forall|i: int| 0 <= i < s.len() ==> in_bounds(b, (#[trigger] s[i]).0, s[i].1),
    ensures
        covered_vars(b, s).no_duplicates(),
        covered_vars(b, s).len() <= s.len(),
        forall|i: int|
            0 <= i < covered_vars(b, s).len() ==> 1 <= #[trigger] covered_vars(b, s)[i] <= MAX_VARS,
        forall|i: int|
            0 <= i < covered_vars(b, s).len() ==> exists|t: int|
                0 <= t < s.len() && #[trigger] covered_vars(b, s)[i] == var_of(b, s[t]),
    decreases s.len(),
{
    if s.len() > 0 {
        let s0 = s.drop_last();
        assert forall|i: int| 0 <= i < s0.len() implies in_bounds(b, (#[trigger] s0[i]).0, s0[i].1) by {
            assert(s0[i] == s[i]);
        }
        lemma_covered_vars(b, s0);
        let rest = covered_vars(b, s0);
        let p = s.last();
        lemma_var_range(p.0, p.1, num_rows(b), num_cols(b));
        if is_covered(b[p.0][p.1]) {
            assert forall|i: int| 0 <= i < rest.len() implies rest[i] != var_of(b, p) by {
                let t = choose|t: int| 0 <= t < s0.len() && #[trigger] rest[i] == var_of(b, s0[t]);
                assert(s0[t] == s[t]);
                assert(s[t] != s[s.len() - 1]);
                lemma_var_injective(b, s0[t], p);
            }
            let cv = rest.push(var_of(b, p));
            assert forall|i: int| 0 <= i < cv.len() implies exists|t: int|
                0 <= t < s.len() && #[trigger] cv[i] == var_of(b, s[t]) by {
                if i < rest.len() {
                    let t = choose|t: int| 0 <= t < s0.len() && #[trigger] rest[i] == var_of(b, s0[t]);
                    assert(s0[t] == s[t]);
                } else {
                    assert(cv[i] == var_of(b, s[s.len() - 1]));
                }
            }
        } else {
            assert forall|i: int| 0 <= i < rest.len() implies exists|t: int|
                0 <= t < s.len() && #[trigger] rest[i] == var_of(b, s[t]) by {
                let t = choose|t: int| 0 <= t < s0.len() && #[trigger] rest[i] == var_of(b, s0[t]);
                assert(s0[t] == s[t]);
            }
        }
    }
}

/// For a clue of a consistent board, its clauses number at most two to the
/// power of its covered neighbours, and each names distinct variables, all of
/// them covered neighbours of the clue.
pub proof fn lemma_cell_clauses_bounded(b: Seq<Seq<Square>>, r: int, c: int)
    requires
        crate::board::board_wf(b),
        size_ok(b),
        in_bounds(b, r, c),
        clue_consistent(b, r, c),
    ensures
        cell_clauses(b, r, c).len() <= two_pow(clue_vars(b, r, c).len()),
        forall|j: int|
            0 <= j < cell_clauses(b, r, c).len() ==> clause_over(
                #[trigger] cell_clauses(b, r, c)[j],
                clue_vars(b, r, c),
            ) && cell_clauses(b, r, c)[j].len() > 0,
        clue_vars(b, r, c).len() <= 8,
        forall|i: int|
            0 <= i < clue_vars(b, r, c).len() ==> 1 <= #[trigger] clue_vars(b, r, c)[i] <= MAX_VARS,
{
    let s = around(b, r, c);
    lemma_neighbour_seq(r, c, num_rows(b), num_cols(b));
    assert forall|i: int| 0 <= i < s.len() implies in_bounds(b, (#[trigger] s[i]).0, s[i].1) by {
        assert(s.contains(s[i]));
    }
    lemma_covered_vars(b, s);
    lemma_two_pow_ge(clue_vars(b, r, c).len());
    if b[r][c] is Number && clue_vars(b, r, c).len() > 0 {
        lemma_clue_clauses_bounded(
            clue_vars(b, r, c),
            (b[r][c]->Number_0 - clue_mines(b, r, c)) as nat,
        );
    }
}

} // verus!
