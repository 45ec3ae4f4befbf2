use puzzle::Puzzle;

fn grid(p: &Puzzle) -> Vec<Vec<i32>> {
    (0..p.size()).map(|r| p.row(r)).collect()
}

fn sorted_labels(p: &Puzzle) -> Vec<i32> {
    let mut all: Vec<i32> = grid(p).into_iter().flatten().collect();
    all.sort();
    all
}

fn expected_labels(n: usize) -> Vec<i32> {
    (0..(n * n) as i32).collect()
}

#[test]
fn fresh_grid_checks_as_solved() {
    for n in 2..7 {
        let mut p = Puzzle::in_goal_order(n, 0);
        assert!(p.check_at(42));
        assert_eq!(p.end_time, 42);
        assert!(p.check());
        assert!(p.end_time > 0);
    }
}

#[test]
fn goal_order_layout() {
    let p = Puzzle::in_goal_order(3, 7);
    assert_eq!(grid(&p), vec![vec![1, 2, 3], vec![4, 5, 6], vec![7, 8, 0]]);
    assert_eq!(p.cmds_str, "");
    assert_eq!(p.start_time, 7);
    assert_eq!(p.end_time, 0);
}

#[test]
fn new_puzzle_is_shuffled_arrangement() {
    let p = Puzzle::new(4);
    assert_eq!(p.size(), 4);
    assert_eq!(sorted_labels(&p), expected_labels(4));
    assert_eq!(p.cmds_str.chars().count(), 1000);
    assert!(p.cmds_str.chars().all(|c| "UDLR".contains(c)));
    assert_eq!(p.end_time, 0);
    assert!(p.start_time > 0);
}

#[test]
fn unsolved_check_keeps_end_time() {
    let mut p = Puzzle::in_goal_order(3, 0);
    p.move_tile("U");
    assert!(!p.check_at(99));
    assert_eq!(p.end_time, 0);
    assert!(!p.check());
    assert_eq!(p.end_time, 0);
}

#[test]
fn moves_keep_each_label_once() {
    let mut p = Puzzle::in_goal_order(5, 0);
    let tokens = ["U", "L", "L", "x", "U", "UU", "R", "D", "", "L", "U", "U", "U", "U"];
    for _ in 0..20 {
        for t in tokens.iter() {
            p.move_tile(t);
            assert_eq!(sorted_labels(&p), expected_labels(5));
        }
    }
}

#[test]
fn shuffle_keeps_each_label_once_and_extends_history() {
    let mut p = Puzzle::in_goal_order(3, 5);
    p.move_tile("U");
    p.shuffle();
    assert_eq!(sorted_labels(&p), expected_labels(3));
    assert_eq!(p.cmds_str.len(), 1001);
    assert!(p.cmds_str.starts_with('U'));
    assert_eq!(p.start_time, 5);
    assert_eq!(p.end_time, 0);
}

#[test]
fn blocked_moves_never_change_the_grid() {
    let mut p = Puzzle::in_goal_order(3, 0);
    let before = grid(&p);
    for _ in 0..5 {
        assert_eq!(p.move_tile("D"), "");
        assert_eq!(grid(&p), before);
    }
    for _ in 0..5 {
        assert_eq!(p.move_tile("R"), "");
        assert_eq!(grid(&p), before);
    }
    assert_eq!(p.cmds_str, "DDDDDRRRRR");
}

#[test]
fn tokens_that_name_no_direction_change_nothing() {
    let mut p = Puzzle::in_goal_order(3, 0);
    let before = grid(&p);
    assert_eq!(p.move_tile("u"), "");
    assert_eq!(p.move_tile("UU"), "");
    assert_eq!(p.move_tile(""), "");
    assert_eq!(p.move_tile("X"), "");
    assert_eq!(grid(&p), before);
    assert_eq!(p.cmds_str, "uUUX");
}

#[test]
fn up_then_down_restores_grid() {
    let mut p = Puzzle::in_goal_order(4, 0);
    p.move_tile("L");
    let before = grid(&p);
    assert_eq!(p.move_tile("U"), "U");
    assert_ne!(grid(&p), before);
    assert_eq!(p.move_tile("D"), "D");
    assert_eq!(grid(&p), before);
}

#[test]
fn left_then_right_and_back_restore_grid() {
    let mut p = Puzzle::in_goal_order(4, 0);
    p.move_tile("U");
    let before = grid(&p);
    assert_eq!(p.move_tile("L"), "L");
    assert_eq!(p.move_tile("R"), "R");
    assert_eq!(grid(&p), before);
    assert_eq!(p.move_tile("D"), "D");
    assert_eq!(p.move_tile("U"), "U");
    assert_eq!(grid(&p), before);
}

#[test]
fn boundary_scenario_on_solved_three_by_three() {
    let mut p = Puzzle::in_goal_order(3, 0);
    let solved = grid(&p);
    assert_eq!(p.move_tile("D"), "");
    assert_eq!(p.move_tile("R"), "");
    assert_eq!(grid(&p), solved);
    assert_eq!(p.move_tile("U"), "U");
    assert_eq!(grid(&p), vec![vec![1, 2, 3], vec![4, 5, 0], vec![7, 8, 6]]);
    assert_eq!(p.move_tile("L"), "L");
    assert_eq!(grid(&p), vec![vec![1, 2, 3], vec![4, 0, 5], vec![7, 8, 6]]);
    assert_eq!(p.cmds_str, "DRUL");
}

#[test]
fn sequence_stops_at_first_solve() {
    let mut p = Puzzle::in_goal_order(3, 0);
    p.move_tile("U");
    p.move_tile("L");
    assert!(p.move_sequence("RDLLLUUU"));
    assert_eq!(p.cmds_str, "RD");
    assert_eq!(grid(&p), vec![vec![1, 2, 3], vec![4, 5, 6], vec![7, 8, 0]]);
    assert!(p.end_time > 0);
}

#[test]
fn sequence_that_never_solves_consumes_all() {
    let mut p = Puzzle::in_goal_order(3, 0);
    p.move_tile("U");
    assert!(!p.move_sequence("LLU"));
    assert_eq!(p.cmds_str, "LLU");
    assert_eq!(grid(&p), vec![vec![0, 2, 3], vec![1, 4, 5], vec![7, 8, 6]]);
    assert_eq!(p.end_time, 0);
}

#[test]
fn empty_sequence_fails_even_when_solved() {
    let mut p = Puzzle::in_goal_order(3, 0);
    p.move_tile("U");
    assert!(!p.move_sequence(""));
    assert_eq!(p.cmds_str, "");
    let mut q = Puzzle::in_goal_order(3, 0);
    assert!(!q.move_sequence(""));
}

#[test]
fn sequence_on_solved_grid_succeeds_after_one_attempt() {
    let mut p = Puzzle::in_goal_order(3, 0);
    assert!(p.move_sequence("X?D"));
    assert_eq!(p.cmds_str, "X");
}

#[test]
fn replay_moves_is_case_sensitive() {
    let mut p = Puzzle::in_goal_order(3, 0);
    p.move_tile("U");
    assert!(!p.replay_moves("d"));
    assert_eq!(p.cmds_str, "d");
    assert!(p.replay_moves("d D"));
    assert_eq!(p.cmds_str, "d D");
    assert_eq!(p.end_time, 0);
}

#[test]
fn lower_case_sequence_matches_upper_case() {
    let mut lower = Puzzle::in_goal_order(3, 0);
    let mut upper = Puzzle::in_goal_order(3, 0);
    for t in ["U", "U", "L", "L"] {
        lower.move_tile(t);
        upper.move_tile(t);
    }
    let a = lower.move_sequence("uulldr");
    let b = upper.move_sequence("UULLDR");
    assert_eq!(a, b);
    assert!(!a);
    assert_eq!(lower.cmds_str, "UULLDR");
    assert_eq!(lower.cmds_str, upper.cmds_str);
    assert_eq!(grid(&lower), grid(&upper));
}

#[test]
fn lower_case_sequence_solves() {
    let mut p = Puzzle::in_goal_order(3, 0);
    p.move_tile("U");
    p.move_tile("L");
    assert!(p.move_sequence("rd"));
    assert_eq!(p.cmds_str, "RD");
}

#[test]
fn format_duration_hours_minutes_seconds() {
    let p = Puzzle::in_goal_order(2, 0);
    assert_eq!(p.format_duration(3_661_000), "1:1:1");
    assert_eq!(p.format_duration(5_000), "0:0:5");
    assert_eq!(p.format_duration(0), "0:0:0");
    assert_eq!(p.format_duration(999), "0:0:0");
    assert_eq!(p.format_duration(59_999), "0:0:59");
    assert_eq!(p.format_duration(3_600_000), "1:0:0");
    assert_eq!(p.format_duration(36_000_000 + 754_000), "10:12:34");
}

#[test]
fn duration_counts_from_start() {
    let p = Puzzle::in_goal_order(2, 1_000);
    assert_eq!(p.duration_at(6_000), "0:0:5");
    assert_eq!(p.duration_at(1_000 + 3_661_000), "1:1:1");
    assert_eq!(p.duration_at(500), "0:0:0");
    let q = Puzzle::new(3);
    let text = q.duration();
    assert_eq!(text.split(':').count(), 3);
    assert!(text.starts_with("0:0:"));
}
