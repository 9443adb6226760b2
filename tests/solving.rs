use sudoku::{box_num, col_num, row_num, ParseError, Puzzle, SolveError, Val, MAX_ITER};

const EASY: &str = "5 3 . . 7 . . . .
6 . . 1 9 5 . . .
. 9 8 . . . . 6 .
8 . . . 6 . . . 3
4 . . 8 . 3 . . 1
7 . . . 2 . . . 6
. 6 . . . . 2 8 .
. . . 4 1 9 . . 5
. . . . 8 . . 7 9";

const EASY_SOLUTION: [u32; 81] = [
    5, 3, 4, 6, 7, 8, 9, 1, 2, //
    6, 7, 2, 1, 9, 5, 3, 4, 8, //
    1, 9, 8, 3, 4, 2, 5, 6, 7, //
    8, 5, 9, 7, 6, 1, 4, 2, 3, //
    4, 2, 6, 8, 5, 3, 7, 9, 1, //
    7, 1, 3, 9, 2, 4, 8, 5, 6, //
    9, 6, 1, 5, 3, 7, 2, 8, 4, //
    2, 8, 7, 4, 1, 9, 6, 3, 5, //
    3, 4, 5, 2, 8, 6, 1, 7, 9,
];

fn solution_text(blank: impl Fn(usize) -> bool) -> String {
    let mut toks: Vec<String> = Vec::new();
    for (i, d) in EASY_SOLUTION.iter().enumerate() {
        if blank(i) {
            toks.push(".".to_string());
        } else {
            toks.push(d.to_string());
        }
    }
    toks.join(" ")
}

fn values_of(p: &Puzzle) -> Vec<Option<u32>> {
    (0..81).map(|i| p.value(i).map(|v| v.number())).collect()
}

fn assert_valid_grid(p: &Puzzle) {
    for n in 0..9 {
        for unit in [row_num(n), col_num(n), box_num(n)] {
            let mut seen: Vec<u32> = unit.iter().map(|&i| p.value(i).unwrap().number()).collect();
            seen.sort();
            assert_eq!(seen, vec![1, 2, 3, 4, 5, 6, 7, 8, 9]);
        }
    }
}

#[test]
fn easy_puzzle_solves() {
    let mut p = Puzzle::parse(EASY).unwrap();
    assert_eq!(p.solved_count(), 30);
    let r = p.try_solve();
    match r {
        Ok(n) => assert!(n >= 1 && n <= MAX_ITER),
        Err(e) => panic!("not solved: {:?}", e),
    }
    assert_eq!(p.solved_count(), 81);
    let expected: Vec<Option<u32>> = EASY_SOLUTION.iter().map(|&d| Some(d)).collect();
    assert_eq!(values_of(&p), expected);
}

#[test]
fn solved_grid_holds_each_value_once_per_unit() {
    let mut p = Puzzle::parse(EASY).unwrap();
    assert!(p.try_solve().is_ok());
    assert_valid_grid(&p);
}

#[test]
fn empty_puzzle_does_not_solve() {
    let text = vec!["."; 81].join(" ");
    let mut p = Puzzle::parse(&text).unwrap();
    assert_eq!(p.solved_count(), 0);
    assert_eq!(p.try_solve(), Err(SolveError::Stalled { sweeps: MAX_ITER, solved: 0, newly_solved: 0 }));
    assert_eq!(p.solved_count(), 0);
}

#[test]
fn row_duplicate_gives_contradiction() {
    let mut toks = vec!["."; 81];
    toks[0] = "5";
    toks[4] = "5";
    let mut p = Puzzle::parse(&toks.join(" ")).unwrap();
    assert!(p.find_conflict().is_some());
    match p.try_solve() {
        Err(SolveError::Contradiction { cell }) => assert!(cell < 81),
        other => panic!("expected a contradiction, got {:?}", other),
    }
}

#[test]
fn too_many_tokens_is_a_parse_error() {
    let text = vec!["."; 82].join(" ");
    assert!(matches!(Puzzle::parse(&text), Err(ParseError::TooManyTokens)));
    let text = vec!["1"; 82].join("\n");
    assert!(matches!(Puzzle::parse(&text), Err(ParseError::TooManyTokens)));
    let text = vec!["."; 81].join(" ");
    assert!(Puzzle::parse(&text).is_ok());
}

#[test]
fn parse_splits_on_any_whitespace_and_ignores_unknown_tokens() {
    let p = Puzzle::parse("  1\tb\n\nTHREE x  0 nine").unwrap();
    assert_eq!(p.value(0), Some(Val::One));
    assert_eq!(p.value(1), Some(Val::Two));
    assert_eq!(p.value(2), Some(Val::Three));
    assert_eq!(p.value(3), None);
    assert_eq!(p.value(4), None);
    assert_eq!(p.value(5), Some(Val::Nine));
    assert_eq!(p.value(6), None);
    assert_eq!(p.solved_count(), 4);
    assert_eq!(p.cell(3).possible_values().len(), 9);
}

#[test]
fn from_tokens_fills_row_major() {
    let toks: Vec<String> = vec!["4".to_string(), "?".to_string(), "h".to_string()];
    let p = Puzzle::from_tokens(&toks).unwrap();
    assert_eq!(p.value(0), Some(Val::Four));
    assert_eq!(p.value(1), None);
    assert_eq!(p.value(2), Some(Val::Eight));
    let many: Vec<String> = (0..82).map(|_| "1".to_string()).collect();
    assert_eq!(Puzzle::from_tokens(&many).err(), Some(ParseError::TooManyTokens));
}

#[test]
fn solving_twice_gives_the_same_outcome() {
    let mut a = Puzzle::parse(EASY).unwrap();
    let mut b = Puzzle::parse(EASY).unwrap();
    assert_eq!(a.try_solve(), b.try_solve());
    assert_eq!(a.render(), b.render());
    let hard = solution_text(|i| (i * 7 + 3) % 10 < 7);
    let mut c = Puzzle::parse(&hard).unwrap();
    let mut d = Puzzle::parse(&hard).unwrap();
    assert_eq!(c.try_solve(), d.try_solve());
    assert_eq!(values_of(&c), values_of(&d));
}

#[test]
fn solving_a_solved_puzzle_succeeds_at_once() {
    let mut p = Puzzle::parse(EASY).unwrap();
    assert!(p.try_solve().is_ok());
    let before = p.render();
    assert_eq!(p.try_solve(), Ok(1));
    assert_eq!(p.render(), before);
    let mut q = Puzzle::parse(&solution_text(|_| false)).unwrap();
    assert_eq!(q.try_solve(), Ok(1));
}

#[test]
fn sweeps_only_narrow_candidates() {
    let text = solution_text(|i| (i * 5 + 1) % 9 < 6);
    let mut p = Puzzle::parse(&text).unwrap();
    for _ in 0..6 {
        let before: Vec<(Option<Val>, Vec<Val>)> =
            (0..81).map(|i| (p.value(i), p.cell(i).possible_values())).collect();
        let _ = p.try_solve_with(1);
        for i in 0..81 {
            let (val, cands) = &before[i];
            if let Some(v) = val {
                assert_eq!(p.value(i), Some(*v));
            }
            for v in p.cell(i).possible_values() {
                assert!(cands.contains(&v));
            }
        }
    }
}

#[test]
fn blanked_valid_grids_never_contradict() {
    for seed in 0..12usize {
        let text = solution_text(|i| (i * (seed + 3) + seed) % 13 < 9);
        let mut p = Puzzle::parse(&text).unwrap();
        let r = p.try_solve();
        assert!(!matches!(r, Err(SolveError::Contradiction { .. })), "seed {}: {:?}", seed, r);
        for i in 0..81 {
            assert!(p.cell(i).contains(Val::try_from(EASY_SOLUTION[i]).unwrap()));
        }
    }
}

#[test]
fn naked_pairs_and_pointing_keep_true_values() {
    // A puzzle that needs more than singles; whatever the outcome, the true
    // values must stay possible.
    let text = "4 . . . . . 8 . 5 . 3 . . . . . . . . . . 7 . . . . . . 2 . . . . . 6 . . . . . 8 . 4 . . . . . . 1 . . . . . . . 6 . 3 . 7 . 5 . . 2 . . . . . 1 . 4 . . . . . .";
    let solution: [u32; 81] = [
        4, 1, 7, 3, 6, 9, 8, 2, 5, 6, 3, 2, 1, 5, 8, 9, 4, 7, 9, 5, 8, 7, 2, 4, 3, 1, 6, 8, 2, 5,
        4, 3, 7, 1, 6, 9, 7, 9, 1, 5, 8, 6, 4, 3, 2, 3, 4, 6, 9, 1, 2, 7, 5, 8, 2, 8, 9, 6, 4, 3,
        5, 7, 1, 5, 7, 3, 2, 9, 1, 6, 8, 4, 1, 6, 4, 8, 7, 5, 2, 9, 3,
    ];
    let mut p = Puzzle::parse(text).unwrap();
    let r = p.try_solve();
    assert!(!matches!(r, Err(SolveError::Contradiction { .. })));
    for i in 0..81 {
        assert!(p.cell(i).contains(Val::try_from(solution[i]).unwrap()));
    }
}

#[test]
fn one_sweep_reports_progress() {
    let mut p = Puzzle::parse(EASY).unwrap();
    let r = p.try_solve_with(1);
    match r {
        Ok(n) => assert_eq!(n, 1),
        Err(SolveError::Stalled { sweeps, solved, newly_solved }) => {
            assert_eq!(sweeps, 1);
            assert!(solved < 81);
            assert_eq!(newly_solved, solved - 30);
        }
        Err(e) => panic!("unexpected {:?}", e),
    }
}

#[test]
fn render_empty_grid() {
    let p = Puzzle::new();
    let row = "| . . . | . . . | . . . |\n";
    let sep = "+-------+-------+-------+";
    let mut expected = String::new();
    for r in 0..9 {
        if r % 3 == 0 {
            expected.push_str(sep);
            expected.push('\n');
        }
        expected.push_str(row);
    }
    expected.push_str(sep);
    assert_eq!(p.render(), expected);
}

#[test]
fn render_shows_digits() {
    let p = Puzzle::parse(EASY).unwrap();
    let text = p.render();
    let lines: Vec<&str> = text.lines().collect();
    assert_eq!(lines.len(), 13);
    assert_eq!(lines[0], "+-------+-------+-------+");
    assert_eq!(lines[1], "| 5 3 . | . 7 . | . . . |");
    assert_eq!(lines[4], "+-------+-------+-------+");
    assert_eq!(lines[12], "+-------+-------+-------+");
    assert_eq!(lines[11], "| . . . | . 8 . | . 7 9 |");
}

#[test]
fn default_is_empty() {
    let p = Puzzle::default();
    assert_eq!(p.solved_count(), 0);
    assert_eq!(p.find_conflict(), None);
}

#[test]
fn from_str_matches_parse() {
    let p: Puzzle = EASY.parse().unwrap();
    let q = Puzzle::parse(EASY).unwrap();
    assert_eq!(p.render(), q.render());
    let too_many = vec!["x"; 82].join(" ");
    assert_eq!(too_many.parse::<Puzzle>().err(), Some(ParseError::TooManyTokens));
    let blanks: Puzzle = "zero one ten".parse().unwrap();
    assert_eq!(blanks.value(0), None);
    assert_eq!(blanks.value(1), Some(Val::One));
    assert_eq!(blanks.cell(2).possible_values().len(), 9);
}

#[test]
fn first_conflict_is_lowest_cell() {
    let mut toks = vec!["."; 81];
    toks[10] = "4";
    toks[13] = "4";
    let p = Puzzle::parse(&toks.join(" ")).unwrap();
    assert_eq!(p.find_conflict(), Some(10));
}
