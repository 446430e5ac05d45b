use minesweeper::encoding::clue_clauses_exec;
use minesweeper::{
    decide_probe, probe_formula, solve_sat_problem, solve_with_probe, verdict_from_answers,
    check_configuration,
    Configuration, ProbeResult, SolveError,
};

fn board(text: &str) -> Configuration {
    Configuration::from(text.to_string()).unwrap()
}

#[test]
fn global_reasoning_proves_probe_is_mine() {
    let conf = board("_ ? _\n1 1 1");
    assert_eq!(check_configuration(&conf), ProbeResult::Unknown);
    assert_eq!(solve_sat_problem(&conf), Ok(false));
    assert_eq!(solve_with_probe(&conf, true), Ok(true));
    assert_eq!(decide_probe(&conf), Ok(ProbeResult::Unsafe));
}

#[test]
fn global_reasoning_proves_probe_is_safe() {
    let conf = board("_ ? _\n1 2 1");
    assert_eq!(check_configuration(&conf), ProbeResult::Unknown);
    assert_eq!(solve_sat_problem(&conf), Ok(true));
    assert_eq!(solve_with_probe(&conf, true), Ok(false));
    assert_eq!(decide_probe(&conf), Ok(ProbeResult::Safe));
}

#[test]
fn undetermined_probe_stays_unknown() {
    let conf = board("? _\n1 1");
    assert_eq!(solve_with_probe(&conf, false), Ok(true));
    assert_eq!(solve_with_probe(&conf, true), Ok(true));
    assert_eq!(decide_probe(&conf), Ok(ProbeResult::Unknown));
}

#[test]
fn propagation_answers_first() {
    let conf = board("* 1 ?");
    assert_eq!(decide_probe(&conf), Ok(ProbeResult::Safe));
}

#[test]
fn example_board_is_satisfiable_with_safe_probe() {
    let conf = board(
        "_ _ 2 _ 3 _\n2 _ _ * * 3\n1 1 2 4 _ 3\n1 ? 3 4 _ 2\n2 * * * _ 3\n_ 3 3 3 * *",
    );
    assert_eq!(solve_sat_problem(&conf), Ok(true));
}

#[test]
fn inconsistent_clue_is_reported() {
    let conf = board("? 1\n* *");
    assert_eq!(solve_sat_problem(&conf), Err(SolveError::Inconsistent(0, 1)));
    let conf = board("? 3\n_ s");
    assert_eq!(solve_sat_problem(&conf), Err(SolveError::Inconsistent(0, 1)));
}

#[test]
fn clue_of_zero_frees_probe_before_solving() {
    let conf = board("_ ? _\n0 1 1");
    assert_eq!(check_configuration(&conf), ProbeResult::Safe);
    assert_eq!(decide_probe(&conf), Ok(ProbeResult::Safe));
}

#[test]
fn verdicts_from_answers() {
    assert_eq!(verdict_from_answers(true, true), Some(ProbeResult::Unknown));
    assert_eq!(verdict_from_answers(false, true), Some(ProbeResult::Unsafe));
    assert_eq!(verdict_from_answers(true, false), Some(ProbeResult::Safe));
    assert_eq!(verdict_from_answers(false, false), None);
}

#[test]
fn clue_encoding_forbids_wrong_counts() {
    // Exactly one of two variables: rule out both safe (mask 0) and both mines (mask 3).
    assert_eq!(clue_clauses_exec(&vec![4, 7], 1), vec![vec![4, 7], vec![-4, -7]]);
    assert_eq!(clue_clauses_exec(&vec![4, 7], 0), vec![vec![-4], vec![-7]]);
    assert_eq!(clue_clauses_exec(&vec![4, 7], 2), vec![vec![4], vec![7]]);
    assert_eq!(clue_clauses_exec(&vec![], 0), Vec::<Vec<i32>>::new());
}

#[test]
fn clue_encoding_stays_within_bound() {
    let vars: Vec<i32> = (1..=8).collect();
    for k in 1..8usize {
        let clauses = clue_clauses_exec(&vars, k);
        assert!(clauses.len() <= 256);
        for cl in &clauses {
            assert_eq!(cl.len(), 8);
            for (i, l) in cl.iter().enumerate() {
                assert_eq!(l.abs(), vars[i]);
            }
        }
    }
    // Of 256 assignments, 70 have four mines.
    assert_eq!(clue_clauses_exec(&vars, 4).len(), 256 - 70);
}

#[test]
fn formula_holds_each_clause_once_shortest_first() {
    let conf = board("* 1 ?");
    let formula = probe_formula(&conf, false).unwrap();
    assert_eq!(formula, vec![vec![-3]]);
    let conf = board("_ ? _\n1 1 1");
    let formula = probe_formula(&conf, false).unwrap();
    assert_eq!(formula[0], vec![-2]);
    for i in 1..formula.len() {
        assert!(formula[i - 1].len() <= formula[i].len());
        for j in 0..i {
            assert_ne!(formula[i], formula[j]);
        }
    }
}

#[test]
fn inconsistent_board_is_refused_before_propagation() {
    let conf = board("* 1 ?\n3 _ _");
    assert_eq!(check_configuration(&conf), ProbeResult::Safe);
    assert_eq!(decide_probe(&conf), Err(SolveError::Inconsistent(1, 0)));
}

#[test]
fn solver_answers_on_six_by_six_boards() {
    let unsat = board("1 2 1 s s s\n? _ _ s s s\ns s s s s s\ns s s s s s\ns s s s s s\ns s s s s s");
    assert_eq!(check_configuration(&unsat), ProbeResult::Unknown);
    assert_eq!(solve_sat_problem(&unsat), Ok(false));
    assert_eq!(decide_probe(&unsat), Ok(ProbeResult::Unsafe));
    let sat = board("1 2 1 s s s\n_ ? _ s s s\ns s s s s s\ns s s s s s\ns s s s s s\ns s s s s s");
    assert_eq!(solve_sat_problem(&sat), Ok(true));
}
