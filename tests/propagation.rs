use minesweeper::{check_configuration, Configuration, ProbeResult};

fn do_test(raw_conf: &str, is_safe: ProbeResult) {
    let conf = Configuration::from(raw_conf.trim().to_string()).unwrap();
    let result = check_configuration(&conf);
    assert_eq!(result, is_safe);
}

#[test]
fn test1() {
    do_test(
        "
        * 2 2 2 2 *
        2 _ 2 * * 3 
        _ _ _ _ * 3 
        _ _ ? _ _ _ 
        2 _ _ _ 4 2 
        * 3 3 _ _ _
    ",
        ProbeResult::Unknown,
    )
}

#[test]
fn test2() {
    do_test(
        "
        _ _ 2 _ 3 _
        2 _ _ * * 3 
        1 1 2 4 _ 3 
        1 ? 3 4 _ 2 
        2 * * * _ 3 
        _ 3 3 3 * *
    ",
        ProbeResult::Safe,
    )
}

#[test]
fn test3() {
    do_test(
        "
        _ _ 2 _ 3 _
        2 _ _ * * 3 
        1 1 2 4 _ 3 
        1 _ 3 4 _ 2 
        2 * ? * _ 3 
        _ 3 3 3 * *
    ",
        ProbeResult::Unsafe,
    )
}

#[test]
fn test4() {
    do_test(
        "
        * 2 2 2 3 *
        2 _ 2 * * 3 
        1 1 2 4 * _ 
        1 2 3 4 _ ? 
        2 _ * * 4 3 
        * 3 3 3 * *
    ",
        ProbeResult::Safe,
    )
}

#[test]
fn test_full() {
    do_test(
        "
        * 2 2 2 2 *
        2 * 2 * ? 3 
        1 1 2 4 * 3 
        1 2 3 4 * 2 
        2 * * * 4 2 
        * 3 3 3 * *
    ",
        ProbeResult::Unsafe,
    )
}

#[test]
fn satisfied_clue_marks_probe_safe() {
    do_test("* 1 ?", ProbeResult::Safe);
}

#[test]
fn saturated_clue_marks_probe_mine() {
    do_test("2 ?\n_ s", ProbeResult::Unsafe);
    do_test("2 ?\n* s", ProbeResult::Unsafe);
}

#[test]
fn chained_inference_reaches_probe() {
    // The first clue frees the middle cell; the second clue then needs the probe.
    do_test("0 _ 1 ?", ProbeResult::Unsafe);
}

#[test]
fn probe_in_corner_sees_row_zero_neighbours() {
    // The clue at row 0, column 1 is adjacent to the probe at row 0, column 0.
    do_test("? 1\n1 *", ProbeResult::Safe);
}

#[test]
fn propagation_is_repeatable() {
    let conf = Configuration::from("* 1 ?".to_string()).unwrap();
    let first = check_configuration(&conf);
    let second = check_configuration(&conf);
    assert_eq!(first, ProbeResult::Safe);
    assert_eq!(first, second);
}

#[test]
fn isolated_probe_is_unknown() {
    do_test("? _ _\n_ _ _\n_ _ 0", ProbeResult::Unknown);
}

#[test]
fn rewritten_settled_board_gives_same_verdict() {
    // Propagation on the first board frees (0, 1) and finds the probe a mine.
    do_test("0 _ 1 ?", ProbeResult::Unsafe);
    do_test("0 s 1 ?", ProbeResult::Unsafe);
    do_test("_ ? _\n0 1 1", ProbeResult::Safe);
    do_test("s ? *\n0 1 1", ProbeResult::Safe);
}
