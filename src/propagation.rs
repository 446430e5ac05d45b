use vstd::prelude::*;
use crate::board::{
    Square, Configuration, is_covered, grid_view, cells_int, num_rows, num_cols, in_bounds,
    neighbour_seq, is_rectangular, board_wf, lemma_neighbour_seq, is_probe_at,
};

verus! {

/// Verdict of the propagation engine on the probe.
#[derive(Clone, Copy, Debug, PartialEq, Eq, Structural)]
pub enum ProbeResult {
    Safe,
    Unsafe,
    Unknown,
}

/// Inferred status of each cell: `Some(true)` safe, `Some(false)` mine,
/// `None` not inferred.
pub type Inference = Seq<Seq<Option<bool>>>;

pub open spec fn known_mine(b: Seq<Seq<Square>>, inf: Inference, p: (int, int)) -> bool {
    b[p.0][p.1] is Mine || inf[p.0][p.1] == Some(false)
}

pub open spec fn still_open(b: Seq<Seq<Square>>, inf: Inference, p: (int, int)) -> bool {
    is_covered(b[p.0][p.1]) && inf[p.0][p.1] is None
}

pub open spec fn count_mines(b: Seq<Seq<Square>>, inf: Inference, s: Seq<(int, int)>) -> nat
    decreases s.len(),
{
    if s.len() == 0 {
        0
    } else {
        count_mines(b, inf, s.drop_last()) + if known_mine(b, inf, s.last()) {
            1nat
        } else {
            0nat
        }
    }
}

pub open spec fn count_open(b: Seq<Seq<Square>>, inf: Inference, s: Seq<(int, int)>) -> nat
    decreases s.len(),
{
    if s.len() == 0 {
        0
    } else {
        count_open(b, inf, s.drop_last()) + if still_open(b, inf, s.last()) {
            1nat
        } else {
            0nat
        }
    }
}

pub open spec fn around(b: Seq<Seq<Square>>, r: int, c: int) -> Seq<(int, int)> {
    neighbour_seq(r, c, num_rows(b), num_cols(b))
}

/// Neighbours of `(r, c)` that are mines, on the board or by inference.
pub open spec fn mines_around(b: Seq<Seq<Square>>, inf: Inference, r: int, c: int) -> nat {
    count_mines(b, inf, around(b, r, c))
}

/// Covered neighbours of `(r, c)` not yet inferred.
pub open spec fn open_around(b: Seq<Seq<Square>>, inf: Inference, r: int, c: int) -> nat {
    count_open(b, inf, around(b, r, c))
}

/// The clue at `q` already has all its mines: its open neighbours are safe.
#[verifier::opaque]
pub open spec fn rule_safe(b: Seq<Seq<Square>>, inf: Inference, q: (int, int)) -> bool {
    &&& b[q.0][q.1] is Number
    &&& open_around(b, inf, q.0, q.1) > 0
    &&& b[q.0][q.1]->Number_0 == mines_around(b, inf, q.0, q.1)
}

/// The clue at `q` needs every open neighbour to be a mine.
#[verifier::opaque]
pub open spec fn rule_mine(b: Seq<Seq<Square>>, inf: Inference, q: (int, int)) -> bool {
    &&& b[q.0][q.1] is Number
    &&& open_around(b, inf, q.0, q.1) > 0
    &&& b[q.0][q.1]->Number_0 == mines_around(b, inf, q.0, q.1) + open_around(b, inf, q.0, q.1)
}

pub open spec fn some_rule_safe(b: Seq<Seq<Square>>, inf: Inference, r: int, c: int) -> bool {
    exists|i: int| 0 <= i < around(b, r, c).len() && rule_safe(b, inf, #[trigger] around(b, r, c)[i])
}

pub open spec fn some_rule_mine(b: Seq<Seq<Square>>, inf: Inference, r: int, c: int) -> bool {
    exists|i: int| 0 <= i < around(b, r, c).len() && rule_mine(b, inf, #[trigger] around(b, r, c)[i])
}

/// What one round makes of cell `(r, c)`: an inferred status is kept; an open
/// cell next to a clue that needs all its open neighbours is a mine, else one
/// next to a satisfied clue is safe.
pub open spec fn cell_step(b: Seq<Seq<Square>>, inf: Inference, r: int, c: int) -> Option<bool> {
    if inf[r][c] is Some || !is_covered(b[r][c]) {
        inf[r][c]
    } else if some_rule_mine(b, inf, r, c) {
        Some(false)
    } else if some_rule_safe(b, inf, r, c) {
        Some(true)
    } else {
        None
    }
}

/// One round of propagation: every cell is decided against the same state.
pub open spec fn step(b: Seq<Seq<Square>>, inf: Inference) -> Inference {
    Seq::new(b.len(), |r: int| Seq::new(b[r].len(), |c: int| cell_step(b, inf, r, c)))
}

pub open spec fn no_inference(b: Seq<Seq<Square>>) -> Inference {
    Seq::new(b.len(), |r: int| Seq::new(b[r].len(), |c: int| None::<bool>))
}

pub open spec fn shaped(b: Seq<Seq<Square>>, inf: Inference) -> bool {
    &&& inf.len() == b.len()
    &&& forall|r: int| 0 <= r < b.len() ==> #[trigger] inf[r].len() == b[r].len()
}

/// Rounds repeated until one changes nothing, or the fuel runs out.
pub open spec fn propagate(b: Seq<Seq<Square>>, inf: Inference, fuel: nat) -> Inference
    decreases fuel,
{
    if fuel == 0 || step(b, inf) == inf {
        inf
    } else {
        propagate(b, step(b, inf), (fuel - 1) as nat)
    }
}

pub open spec fn unresolved_cell(b: Seq<Seq<Square>>, inf: Inference, r: int, c: int) -> bool {
    is_covered(b[r][c]) && inf[r][c] is None
}

/// Covered cells `(r, j)` with `j < n` that have no inferred status.
pub open spec fn unresolved_in_row(b: Seq<Seq<Square>>, inf: Inference, r: int, n: int) -> nat
    decreases n,
{
    if n <= 0 {
        0
    } else {
        unresolved_in_row(b, inf, r, n - 1) + if unresolved_cell(b, inf, r, n - 1) {
            1nat
        } else {
            0nat
        }
    }
}

pub open spec fn unresolved_in_rows(b: Seq<Seq<Square>>, inf: Inference, m: int) -> nat
    decreases m,
{
    if m <= 0 {
        0
    } else {
        unresolved_in_rows(b, inf, m - 1) + unresolved_in_row(b, inf, m - 1, b[m - 1].len() as int)
    }
}

/// Number of covered cells with no inferred status.
pub open spec fn unresolved(b: Seq<Seq<Square>>, inf: Inference) -> nat {
    unresolved_in_rows(b, inf, b.len() as int)
}

/// The state that propagation from no inference settles in.
pub open spec fn final_inference(b: Seq<Seq<Square>>) -> Inference {
    propagate(b, no_inference(b), unresolved(b, no_inference(b)))
}

pub open spec fn verdict_of(o: Option<bool>) -> ProbeResult {
    match o {
        Some(true) => ProbeResult::Safe,
        Some(false) => ProbeResult::Unsafe,
        None => ProbeResult::Unknown,
    }
}

/// A round keeps every inferred status and infers nothing for uncovered cells.
pub proof fn lemma_step_keeps(b: Seq<Seq<Square>>, inf: Inference)
    requires
        shaped(b, inf),
    ensures
        shaped(b, step(b, inf)),
        forall|r: int, c: int|
            0 <= r < b.len() && 0 <= c < b[r].len() && (#[trigger] inf[r][c]) is Some ==> step(
                b,
                inf,
            )[r][c] == inf[r][c],
        forall|r: int, c: int|
            0 <= r < b.len() && 0 <= c < b[r].len() && (#[trigger] step(b, inf)[r][c]) is Some
                && inf[r][c] is None ==> is_covered(b[r][c]),
{
}

proof fn lemma_row_monotone(b: Seq<Seq<Square>>, i1: Inference, i2: Inference, r: int, n: int)
    requires
        forall|j: int|
            0 <= j < n && unresolved_cell(b, i2, r, j) ==> #[trigger] unresolved_cell(b, i1, r, j),
    ensures
        unresolved_in_row(b, i2, r, n) <= unresolved_in_row(b, i1, r, n),
        (exists|j: int|
            0 <= j < n && #[trigger] unresolved_cell(b, i1, r, j) && !unresolved_cell(b, i2, r, j))
            ==> unresolved_in_row(b, i2, r, n) < unresolved_in_row(b, i1, r, n),
    decreases n,
{
    if n > 0 {
        lemma_row_monotone(b, i1, i2, r, n - 1);
    }
}

proof fn lemma_rows_monotone(b: Seq<Seq<Square>>, i1: Inference, i2: Inference, m: int)
    requires
        m <= b.len(),
        forall|r: int, j: int|
            0 <= r < m && 0 <= j < b[r].len() && unresolved_cell(b, i2, r, j)
                ==> #[trigger] unresolved_cell(b, i1, r, j),
    ensures
        unresolved_in_rows(b, i2, m) <= unresolved_in_rows(b, i1, m),
        (exists|r: int, j: int|
            0 <= r < m && 0 <= j < b[r].len() && #[trigger] unresolved_cell(b, i1, r, j)
                && !unresolved_cell(b, i2, r, j)) ==> unresolved_in_rows(b, i2, m)
            < unresolved_in_rows(b, i1, m),
    decreases m,
{
    if m > 0 {
        lemma_rows_monotone(b, i1, i2, m - 1);
        let n = b[m - 1].len() as int;
        lemma_row_monotone(b, i1, i2, m - 1, n);
        if exists|r: int, j: int|
            0 <= r < m && 0 <= j < b[r].len() && #[trigger] unresolved_cell(b, i1, r, j)
                && !unresolved_cell(b, i2, r, j) {
            let (r, j) = choose|r: int, j: int|
                0 <= r < m && 0 <= j < b[r].len() && #[trigger] unresolved_cell(b, i1, r, j)
                    && !unresolved_cell(b, i2, r, j);
            if r == m - 1 {
                assert(unresolved_cell(b, i1, r, j) && !unresolved_cell(b, i2, r, j));
            }
        }
    }
}

/// A round that changes the state resolves at least one more covered cell.
pub proof fn lemma_step_progress(b: Seq<Seq<Square>>, inf: Inference)
    requires
        shaped(b, inf),
        step(b, inf) != inf,
    ensures
        unresolved(b, step(b, inf)) < unresolved(b, inf),
{
    let s = step(b, inf);
    lemma_step_keeps(b, inf);
    if forall|r: int, j: int|
        0 <= r < b.len() && 0 <= j < b[r].len() ==> #[trigger] s[r][j] == inf[r][j] {
        assert forall|r: int| 0 <= r < b.len() implies s[r] == inf[r] by {
            assert(s[r] =~= inf[r]);
        }
        assert(s =~= inf);
    }
    let (r, j) = choose|r: int, j: int|
        0 <= r < b.len() && 0 <= j < b[r].len() && #[trigger] s[r][j] != inf[r][j];
    assert(unresolved_cell(b, inf, r, j) && !unresolved_cell(b, s, r, j));
    lemma_rows_monotone(b, inf, s, b.len() as int);
}

/// More fuel than there are unresolved cells gives the same result.
pub proof fn lemma_fuel_enough(b: Seq<Seq<Square>>, inf: Inference, fuel: nat)
    requires
        shaped(b, inf),
        fuel >= unresolved(b, inf),
    ensures
        propagate(b, inf, fuel) == propagate(b, inf, unresolved(b, inf)),
    decreases fuel,
{
    if step(b, inf) != inf {
        lemma_step_progress(b, inf);
        lemma_step_keeps(b, inf);
        let s = step(b, inf);
        lemma_fuel_enough(b, s, (fuel - 1) as nat);
        lemma_fuel_enough(b, s, (unresolved(b, inf) - 1) as nat);
    }
}

/// Propagation halts: with as many rounds as there are covered cells without a
/// status, it reaches a state that a further round leaves unchanged.
pub proof fn lemma_propagation_terminates(b: Seq<Seq<Square>>, inf: Inference, fuel: nat)
    requires
        shaped(b, inf),
        fuel >= unresolved(b, inf),
    ensures
        step(b, propagate(b, inf, fuel)) == propagate(b, inf, fuel),
    decreases fuel,
{
    if step(b, inf) != inf {
        lemma_step_progress(b, inf);
        lemma_step_keeps(b, inf);
        lemma_propagation_terminates(b, step(b, inf), (fuel - 1) as nat);
    }
}

/// Once a cell is inferred safe or a mine, no later round changes it.
pub proof fn lemma_monotone(b: Seq<Seq<Square>>, inf: Inference, fuel: nat, r: int, c: int)
    requires
        shaped(b, inf),
        0 <= r < b.len(),
        0 <= c < b[r].len(),
        inf[r][c] is Some,
    ensures
        shaped(b, propagate(b, inf, fuel)),
        propagate(b, inf, fuel)[r][c] == inf[r][c],
    decreases fuel,
{
    if fuel > 0 && step(b, inf) != inf {
        lemma_step_keeps(b, inf);
        lemma_monotone(b, step(b, inf), (fuel - 1) as nat, r, c);
    }
}

/// The clue at `q` counts exactly the mines confirmed around it.
pub open spec fn clue_met(b: Seq<Seq<Square>>, inf: Inference, q: (int, int)) -> bool {
    b[q.0][q.1] is Number && b[q.0][q.1]->Number_0 == mines_around(b, inf, q.0, q.1)
}

/// The clue at `q` counts its confirmed mines plus all its open neighbours.
pub open spec fn clue_full(b: Seq<Seq<Square>>, inf: Inference, q: (int, int)) -> bool {
    b[q.0][q.1] is Number && b[q.0][q.1]->Number_0 == mines_around(b, inf, q.0, q.1)
        + open_around(b, inf, q.0, q.1)
}

/// A cell inferred safe in a round has a neighbouring clue whose count equals
/// its confirmed mines; one inferred a mine has a clue whose count equals its
/// confirmed mines plus its covered neighbours.
pub proof fn lemma_sound(b: Seq<Seq<Square>>, inf: Inference, r: int, c: int)
    requires
        shaped(b, inf),
        0 <= r < b.len(),
        0 <= c < b[r].len(),
        inf[r][c] is None,
    ensures
        step(b, inf)[r][c] == Some(true) ==> exists|i: int|
            0 <= i < around(b, r, c).len() && clue_met(b, inf, #[trigger] around(b, r, c)[i]),
        step(b, inf)[r][c] == Some(false) ==> exists|i: int|
            0 <= i < around(b, r, c).len() && clue_full(b, inf, #[trigger] around(b, r, c)[i]),
{
    reveal(rule_safe);
    reveal(rule_mine);
}

/// When every covered cell has a status, a round changes nothing, and so
/// propagating again leaves the state as it is.
pub proof fn lemma_resolved_is_fixpoint(b: Seq<Seq<Square>>, inf: Inference, fuel: nat)
    requires
        shaped(b, inf),
        forall|r: int, c: int|
            0 <= r < b.len() && 0 <= c < b[r].len() && is_covered(#[trigger] b[r][c])
                ==> inf[r][c] is Some,
    ensures
        step(b, inf) == inf,
        propagate(b, inf, fuel) == inf,
{
    let s = step(b, inf);
    assert forall|r: int| 0 <= r < b.len() implies s[r] == inf[r] by {
        assert(s[r] =~= inf[r]);
    }
    assert(s =~= inf);
}

/// Propagating from the settled state leaves it unchanged.
pub proof fn lemma_final_idempotent(b: Seq<Seq<Square>>, fuel: nat)
    ensures
        propagate(b, final_inference(b), fuel) == final_inference(b),
{
    let z = no_inference(b);
    assert(shaped(b, z));
    lemma_propagation_terminates(b, z, unresolved(b, z));
}

/// Cell `(r, c)` with its inferred status written in, unless it is the probe.
pub open spec fn rewritten_cell(b: Seq<Seq<Square>>, inf: Inference, pr: int, pc: int, r: int, c: int) -> Square {
    if (r, c) != (pr, pc) && inf[r][c] == Some(true) {
        Square::Safe
    } else if (r, c) != (pr, pc) && inf[r][c] == Some(false) {
        Square::Mine
    } else {
        b[r][c]
    }
}

/// The board with every inferred cell but the probe written as `Safe` or `Mine`.
pub open spec fn rewrite_board(b: Seq<Seq<Square>>, inf: Inference, pr: int, pc: int) -> Seq<
    Seq<Square>,
> {
    Seq::new(b.len(), |r: int| Seq::new(b[r].len(), |c: int| rewritten_cell(b, inf, pr, pc, r, c)))
}

pub open spec fn probe_cell(inf: Inference, pr: int, pc: int, r: int, c: int) -> Option<bool> {
    if (r, c) == (pr, pc) {
        inf[r][c]
    } else {
        None
    }
}

/// The inferred status of the probe alone.
pub open spec fn probe_only(b: Seq<Seq<Square>>, inf: Inference, pr: int, pc: int) -> Inference {
    Seq::new(b.len(), |r: int| Seq::new(b[r].len(), |c: int| probe_cell(inf, pr, pc, r, c)))
}

proof fn lemma_counts_agree(
    b: Seq<Seq<Square>>,
    inf: Inference,
    b2: Seq<Seq<Square>>,
    g: Inference,
    s: Seq<(int, int)>,
)
    requires
        forall|i: int|
            0 <= i < s.len() ==> known_mine(b2, g, #[trigger] s[i]) == known_mine(b, inf, s[i])
                && still_open(b2, g, s[i]) == still_open(b, inf, s[i]),
    ensures
        count_mines(b2, g, s) == count_mines(b, inf, s),
        count_open(b2, g, s) == count_open(b, inf, s),
    decreases s.len(),
{
    if s.len() > 0 {
        let s0 = s.drop_last();
        assert forall|i: int| 0 <= i < s0.len() implies known_mine(b2, g, #[trigger] s0[i])
            == known_mine(b, inf, s0[i]) && still_open(b2, g, s0[i]) == still_open(b, inf, s0[i]) by {
            assert(s0[i] == s[i]);
        }
        lemma_counts_agree(b, inf, b2, g, s0);
        assert(s.last() == s[s.len() - 1]);
    }
}

/// Writing the settled inferences into the board, and keeping only the probe's
/// status, gives a state that a further round of propagation leaves unchanged.
pub proof fn lemma_rewritten_board_is_fixpoint(b: Seq<Seq<Square>>, inf: Inference, pr: int, pc: int)
    requires
        board_wf(b),
        shaped(b, inf),
        is_probe_at(b, pr, pc),
        step(b, inf) == inf,
        forall|r: int, c: int|
            0 <= r < b.len() && 0 <= c < b[r].len() && (#[trigger] inf[r][c]) is Some
                ==> is_covered(b[r][c]),
    ensures
        step(rewrite_board(b, inf, pr, pc), probe_only(b, inf, pr, pc)) == probe_only(
            b,
            inf,
            pr,
            pc,
        ),
{
    reveal(rule_safe);
    reveal(rule_mine);
    let b2 = rewrite_board(b, inf, pr, pc);
    let g = probe_only(b, inf, pr, pc);
    assert(b2[0].len() == b[0].len());
    assert(num_rows(b2) == num_rows(b) && num_cols(b2) == num_cols(b));
    assert forall|p: (int, int)| in_bounds(b, p.0, p.1) implies #[trigger] known_mine(b2, g, p)
        == known_mine(b, inf, p) && still_open(b2, g, p) == still_open(b, inf, p) && (b2[p.0][p.1] is Number
        <==> b[p.0][p.1] is Number) && (b[p.0][p.1] is Number ==> b2[p.0][p.1] == b[p.0][p.1]) by {
        assert(b[p.0].len() == num_cols(b));
        assert(inf[p.0].len() == b[p.0].len());
        assert(b2[p.0][p.1] == rewritten_cell(b, inf, pr, pc, p.0, p.1));
        assert(g[p.0][p.1] == probe_cell(inf, pr, pc, p.0, p.1));
        if p == (pr, pc) {
            assert(b2[p.0][p.1] == b[p.0][p.1]);
            assert(g[p.0][p.1] == inf[p.0][p.1]);
        } else {
            assert(g[p.0][p.1] is None);
            if inf[p.0][p.1] is Some {
                assert(is_covered(b[p.0][p.1]));
                let v = inf[p.0][p.1]->0;
                assert(inf[p.0][p.1] == Some(v));
                if v {
                    assert(b2[p.0][p.1] == Square::Safe);
                } else {
                    assert(b2[p.0][p.1] == Square::Mine);
                }
            } else {
                assert(b2[p.0][p.1] == b[p.0][p.1]);
            }
        }
    }
    let s2 = step(b2, g);
    assert forall|r: int| 0 <= r < b.len() implies s2[r] == g[r] by {
        assert forall|c: int| 0 <= c < b[r].len() implies s2[r][c] == g[r][c] by {
            assert(b[r].len() == num_cols(b));
            if g[r][c] is None && is_covered(b2[r][c]) {
                let ns = around(b, r, c);
                lemma_neighbour_seq(r, c, num_rows(b), num_cols(b));
                assert(inf[r].len() == b[r].len());
                assert(b2[r][c] == rewritten_cell(b, inf, pr, pc, r, c));
                assert(g[r][c] == probe_cell(inf, pr, pc, r, c));
                if (r, c) == (pr, pc) {
                    assert(g[r][c] == inf[r][c]);
                } else if inf[r][c] is Some {
                    let v = inf[r][c]->0;
                    assert(inf[r][c] == Some(v));
                    if v {
                        assert(rewritten_cell(b, inf, pr, pc, r, c) == Square::Safe);
                    } else {
                        assert(rewritten_cell(b, inf, pr, pc, r, c) == Square::Mine);
                    }
                    assert(!is_covered(b2[r][c]));
                }
                assert(inf[r][c] is None);
                assert(b2[r][c] == b[r][c]);
                assert(step(b, inf)[r][c] == inf[r][c]);
                assert forall|i: int| 0 <= i < ns.len() implies !rule_safe(b2, g, #[trigger] ns[i])
                    && !rule_mine(b2, g, ns[i]) by {
                    let q = ns[i];
                    assert(ns.contains(q));
                    let nq = around(b, q.0, q.1);
                    lemma_neighbour_seq(q.0, q.1, num_rows(b), num_cols(b));
                    assert forall|j: int| 0 <= j < nq.len() implies known_mine(
                        b2,
                        g,
                        #[trigger] nq[j],
                    ) == known_mine(b, inf, nq[j]) && still_open(b2, g, nq[j]) == still_open(
                        b,
                        inf,
                        nq[j],
                    ) by {
                        assert(nq.contains(nq[j]));
                    }
                    lemma_counts_agree(b, inf, b2, g, nq);
                    assert(!rule_safe(b, inf, q) && !rule_mine(b, inf, q));
                }
            }
        }
        assert(s2[r] =~= g[r]);
    }
    assert(s2 =~= g);
}

/// Only covered cells carry an inferred status.
pub open spec fn covered_only(b: Seq<Seq<Square>>, inf: Inference) -> bool {
    forall|r: int, c: int|
        0 <= r < b.len() && 0 <= c < b[r].len() && (#[trigger] inf[r][c]) is Some ==> is_covered(
            b[r][c],
        )
}

proof fn lemma_propagate_covered_only(b: Seq<Seq<Square>>, inf: Inference, fuel: nat)
    requires
        shaped(b, inf),
        covered_only(b, inf),
    ensures
        shaped(b, propagate(b, inf, fuel)),
        covered_only(b, propagate(b, inf, fuel)),
    decreases fuel,
{
    if fuel > 0 && step(b, inf) != inf {
        lemma_step_keeps(b, inf);
        let s = step(b, inf);
        assert forall|r: int, c: int|
            0 <= r < b.len() && 0 <= c < b[r].len() && (#[trigger] s[r][c]) is Some implies is_covered(
            b[r][c],
        ) by {
            if inf[r][c] is None {
                assert(step(b, inf)[r][c] is Some);
            }
        }
        lemma_propagate_covered_only(b, s, (fuel - 1) as nat);
    }
}

/// Writing the inferences of the settled state into a well-formed board, and
/// keeping only the probe's status, gives a state that a further round of
/// propagation leaves unchanged.
pub proof fn lemma_settled_rewrite_is_fixpoint(b: Seq<Seq<Square>>, pr: int, pc: int)
    requires
        board_wf(b),
        is_probe_at(b, pr, pc),
    ensures
        ({
            let f = final_inference(b);
            step(rewrite_board(b, f, pr, pc), probe_only(b, f, pr, pc)) == probe_only(b, f, pr, pc)
        }),
{
    let z = no_inference(b);
    assert(shaped(b, z));
    lemma_propagation_terminates(b, z, unresolved(b, z));
    lemma_propagate_covered_only(b, z, unresolved(b, z));
    lemma_rewritten_board_is_fixpoint(b, final_inference(b), pr, pc);
}

pub open spec fn inference_view(inf: &Vec<Vec<Option<bool>>>) -> Inference {
    grid_view(inf@)
}

/// Mines (on the board or inferred) and open cells among the neighbours of a cell.
fn count_around(conf: &Configuration, inf: &Vec<Vec<Option<bool>>>, row: usize, col: usize) -> (res:
    (usize, usize))
    requires
        conf.wf(),
        shaped(conf.view(), inference_view(inf)),
        in_bounds(conf.view(), row as int, col as int),
    ensures
        res.0 == mines_around(conf.view(), inference_view(inf), row as int, col as int),
        res.1 == open_around(conf.view(), inference_view(inf), row as int, col as int),
        res.0 <= 8,
        res.1 <= 8,
{
    let ghost b = conf.view();
    let ghost iv = inference_view(inf);
    let nbs = conf.neighbours(row, col);
    let ghost ns = cells_int(nbs@);
    proof {
        lemma_neighbour_seq(row as int, col as int, num_rows(b), num_cols(b));
    }
    let mut mines: usize = 0;
    let mut open: usize = 0;
    let mut i: usize = 0;
    while i < nbs.len()
        invariant
            conf.wf(),
            shaped(b, iv),
            b == conf.view(),
            iv == inference_view(inf),
            ns == cells_int(nbs@),
            ns == around(b, row as int, col as int),
            ns.len() <= 8,
            forall|p: (int, int)| ns.contains(p) ==> in_bounds(b, p.0, p.1),
            0 <= i <= nbs.len(),
            mines <= i,
            open <= i,
            mines == count_mines(b, iv, ns.take(i as int)),
            open == count_open(b, iv, ns.take(i as int)),
        decreases nbs.len() - i,
    {
        let (r, c) = nbs[i];
        assert(ns[i as int] == (r as int, c as int));
        assert(ns.contains((r as int, c as int)));
        assert(ns.take(i + 1).drop_last() =~= ns.take(i as int));
        assert(b[r as int].len() == num_cols(b));
        assert(iv[r as int] == inf@[r as int]@);
        let inferred_mine = match inf[r][c] {
            Some(false) => true,
            _ => false,
        };
        if conf.is_mine(r, c) || inferred_mine {
            mines = mines + 1;
        }
        let covered_open = match inf[r][c] {
            None => true,
            _ => false,
        };
        if conf.is_empty(r, c) && covered_open {
            open = open + 1;
        }
        i = i + 1;
    }
    assert(ns.take(i as int) =~= ns);
    (mines, open)
}

/// Whether the cell at `(row, col)` is a clue that makes its open neighbours
/// safe, and whether it makes them mines.
fn clue_rules(conf: &Configuration, inf: &Vec<Vec<Option<bool>>>, row: usize, col: usize) -> (res:
    (bool, bool))
    requires
        conf.wf(),
        shaped(conf.view(), inference_view(inf)),
        in_bounds(conf.view(), row as int, col as int),
    ensures
        res.0 == rule_safe(conf.view(), inference_view(inf), (row as int, col as int)),
        res.1 == rule_mine(conf.view(), inference_view(inf), (row as int, col as int)),
{
    reveal(rule_safe);
    reveal(rule_mine);
    match conf.square(row, col) {
        Square::Number(n) => {
            let (m, o) = count_around(conf, inf, row, col);
            (o > 0 && n == m, o > 0 && n == m + o)
        },
        _ => (false, false),
    }
}

/// What one round makes of a cell.
#[verifier::rlimit(100)]
fn infer_cell(conf: &Configuration, inf: &Vec<Vec<Option<bool>>>, row: usize, col: usize) -> (res:
    Option<bool>)
    requires
        conf.wf(),
        shaped(conf.view(), inference_view(inf)),
        in_bounds(conf.view(), row as int, col as int),
    ensures
        res == cell_step(conf.view(), inference_view(inf), row as int, col as int),
{
    let ghost b = conf.view();
    let ghost iv = inference_view(inf);
    assert(b[row as int].len() == num_cols(b));
    assert(iv[row as int] == inf@[row as int]@);
    let current = inf[row][col];
    if current.is_some() || !conf.is_empty(row, col) {
        return current;
    }
    let nbs = conf.neighbours(row, col);
    let ghost ns = cells_int(nbs@);
    proof {
        lemma_neighbour_seq(row as int, col as int, num_rows(b), num_cols(b));
    }
    let mut any_safe = false;
    let mut any_mine = false;
    let mut i: usize = 0;
    while i < nbs.len()
        invariant
            conf.wf(),
            shaped(b, iv),
            b == conf.view(),
            iv == inference_view(inf),
            ns == cells_int(nbs@),
            ns == around(b, row as int, col as int),
            forall|p: (int, int)| ns.contains(p) ==> in_bounds(b, p.0, p.1),
            0 <= i <= nbs.len(),
            any_safe == exists|j: int| 0 <= j < i && rule_safe(b, iv, #[trigger] ns[j]),
            any_mine == exists|j: int| 0 <= j < i && rule_mine(b, iv, #[trigger] ns[j]),
        decreases nbs.len() - i,
    {
        let (r, c) = nbs[i];
        assert(ns[i as int] == (r as int, c as int));
        assert(ns.contains((r as int, c as int)));
        let ghost q = (r as int, c as int);
        let (safe, mine) = clue_rules(conf, inf, r, c);
        if safe {
            any_safe = true;
        }
        if mine {
            any_mine = true;
        }
        assert(ns[i as int] == q);
        proof {
            if rule_safe(b, iv, q) {
                assert(0 <= i < i + 1 && rule_safe(b, iv, ns[i as int]));
            }
            if rule_mine(b, iv, q) {
                assert(0 <= i < i + 1 && rule_mine(b, iv, ns[i as int]));
            }
        }
        i = i + 1;
    }
    if any_mine {
        Some(false)
    } else if any_safe {
        Some(true)
    } else {
        None
    }
}

/// One round of propagation, and whether it inferred anything new.
fn propagation_round(conf: &Configuration, inf: &Vec<Vec<Option<bool>>>) -> (res: (
    Vec<Vec<Option<bool>>>,
    bool,
))
    requires
        conf.wf(),
        shaped(conf.view(), inference_view(inf)),
    ensures
        inference_view(&res.0) == step(conf.view(), inference_view(inf)),
        res.1 == (step(conf.view(), inference_view(inf)) != inference_view(inf)),
{
    let ghost b = conf.view();
    let ghost iv = inference_view(inf);
    let ghost s = step(b, iv);
    proof {
        lemma_step_keeps(b, iv);
    }
    let nr = conf.rows();
    let nc = conf.cols();
    let mut next: Vec<Vec<Option<bool>>> = Vec::new();
    let mut changed = false;
    let mut r: usize = 0;
    while r < nr
        invariant
            conf.wf(),
            b == conf.view(),
            iv == inference_view(inf),
            s == step(b, iv),
            shaped(b, iv),
            nr == num_rows(b),
            nc == num_cols(b),
            0 <= r <= nr,
            next@.len() == r,
            forall|i: int| 0 <= i < r ==> (#[trigger] next@[i])@ == s[i],
            changed == exists|i: int, j: int|
                0 <= i < r && 0 <= j < nc && #[trigger] s[i][j] != iv[i][j],
        decreases nr - r,
    {
        let mut row: Vec<Option<bool>> = Vec::new();
        let mut c: usize = 0;
        assert(b[r as int].len() == nc);
        assert(iv[r as int] == inf@[r as int]@);
        while c < nc
            invariant
                conf.wf(),
                b == conf.view(),
                iv == inference_view(inf),
                s == step(b, iv),
                shaped(b, iv),
                nr == num_rows(b),
                nc == num_cols(b),
                0 <= r < nr,
                0 <= c <= nc,
                b[r as int].len() == nc,
                iv[r as int] == inf@[r as int]@,
                row@.len() == c,
                forall|j: int| 0 <= j < c ==> #[trigger] row@[j] == s[r as int][j],
                changed == ((exists|i: int, j: int|
                    0 <= i < r && 0 <= j < nc && #[trigger] s[i][j] != iv[i][j]) || (exists|
                    j: int,
                | 0 <= j < c && #[trigger] s[r as int][j] != iv[r as int][j])),
            decreases nc - c,
        {
            let v = infer_cell(conf, inf, r, c);
            if v.is_some() && inf[r][c].is_none() {
                changed = true;
            }
            assert(v == s[r as int][c as int]);
            row.push(v);
            c = c + 1;
        }
        assert(row@ =~= s[r as int]);
        next.push(row);
        r = r + 1;
    }
    assert(inference_view(&next) =~= s);
    if !changed {
        assert forall|i: int| 0 <= i < b.len() implies s[i] == iv[i] by {
            assert(s[i] =~= iv[i]);
        }
        assert(s =~= iv);
    }
    (next, changed)
}

/// Runs propagation on a well-formed board and answers for its probe.
pub fn check_configuration(conf: &Configuration) -> (result: ProbeResult)
    requires
        conf.wf(),
    ensures
        result == verdict_of(
            final_inference(conf.view())[conf.probe_row as int][conf.probe_col as int],
        ),
{
    let ghost b = conf.view();
    let nr = conf.rows();
    let nc = conf.cols();
    let mut inf: Vec<Vec<Option<bool>>> = Vec::new();
    let mut r: usize = 0;
    while r < nr
        invariant
            conf.wf(),
            b == conf.view(),
            nr == num_rows(b),
            nc == num_cols(b),
            0 <= r <= nr,
            inf@.len() == r,
            forall|i: int| 0 <= i < r ==> (#[trigger] inf@[i])@ == no_inference(b)[i],
        decreases nr - r,
    {
        let mut row: Vec<Option<bool>> = Vec::new();
        let mut c: usize = 0;
        assert(b[r as int].len() == nc);
        while c < nc
            invariant
                0 <= c <= nc,
                row@.len() == c,
                forall|j: int| 0 <= j < c ==> (#[trigger] row@[j]) is None,
            decreases nc - c,
        {
            row.push(None);
            c = c + 1;
        }
        assert(row@ =~= no_inference(b)[r as int]);
        inf.push(row);
        r = r + 1;
    }
    assert(inference_view(&inf) =~= no_inference(b));
    loop
        invariant
            conf.wf(),
            b == conf.view(),
            shaped(b, inference_view(&inf)),
            propagate(b, inference_view(&inf), unresolved(b, inference_view(&inf)))
                == final_inference(b),
        decreases unresolved(b, inference_view(&inf)),
    {
        let ghost iv = inference_view(&inf);
        let (next, changed) = propagation_round(conf, &inf);
        if !changed {
            let pr = conf.probe_row;
            let pc = conf.probe_col;
            assert(b[pr as int].len() == num_cols(b));
            assert(iv[pr as int] == inf@[pr as int]@);
            return match inf[pr][pc] {
                Some(true) => ProbeResult::Safe,
                Some(false) => ProbeResult::Unsafe,
                None => ProbeResult::Unknown,
            };
        }
        proof {
            lemma_step_progress(b, iv);
            lemma_step_keeps(b, iv);
            lemma_fuel_enough(b, step(b, iv), (unresolved(b, iv) - 1) as nat);
        }
        inf = next;
    }
}

} // verus!
