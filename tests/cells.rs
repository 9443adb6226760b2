use sudoku::{new_cell_list, Cell, Puzzle, Val};

#[test]
fn blank_cell_allows_everything() {
    let c = Cell::blank();
    assert!(!c.is_solved());
    assert_eq!(c.possible_values(), Val::all());
    assert_eq!(c.sole(), None);
    assert!(!c.is_empty());
}

#[test]
fn solved_cell_has_singleton_candidates() {
    let c = Cell::solved_to(Val::Seven);
    assert!(c.is_solved());
    assert_eq!(c.possible_values(), vec![Val::Seven]);
    assert!(c.contains(Val::Seven));
    assert!(!c.contains(Val::One));
    assert_eq!(c.sole(), Some(Val::Seven));
}

#[test]
fn eliminate_narrows_and_auto_promotes() {
    let mut c = Cell::blank();
    c.eliminate(Val::Three);
    assert!(!c.contains(Val::Three));
    assert_eq!(c.possible_values().len(), 8);
    for v in [Val::One, Val::Two, Val::Four, Val::Five, Val::Six, Val::Seven, Val::Eight] {
        c.eliminate(v);
    }
    assert!(c.is_solved());
    assert_eq!(c.val, Some(Val::Nine));
    c.eliminate(Val::Nine);
    assert_eq!(c.val, Some(Val::Nine));
}

#[test]
fn empty_cell_is_detected() {
    let mut c = Cell::blank();
    c.cands = [false; 9];
    assert!(c.is_empty());
    assert_eq!(c.possible_values(), Vec::<Val>::new());
    c.simplify();
    assert!(!c.is_solved());
}

#[test]
fn simplify_promotes_a_single_candidate() {
    let mut c = Cell::blank();
    c.cands = [false, false, false, false, true, false, false, false, false];
    assert_eq!(c.sole(), Some(Val::Five));
    c.simplify();
    assert_eq!(c.val, Some(Val::Five));
}

#[test]
fn assign_overrides() {
    let mut c = Cell::blank();
    c.assign(Val::Two);
    assert_eq!(c.val, Some(Val::Two));
}

#[test]
fn cell_list_is_blank() {
    let cells = new_cell_list();
    assert_eq!(cells.len(), 81);
    assert!(cells.iter().all(|c| !c.is_solved() && c.possible_values().len() == 9));
}

#[test]
fn set_and_exclude_by_index_and_position() {
    let mut p = Puzzle::new();
    p.set_value(3, Val::Eight);
    assert_eq!(p.value(3), Some(Val::Eight));
    p.set_at(2, 4, Val::One);
    assert_eq!(p.value(22), Some(Val::One));
    assert_eq!(p.solved_count(), 2);
    p.exclude(5, Val::One);
    assert!(!p.cell(5).contains(Val::One));
    for v in [Val::One, Val::Two, Val::Three, Val::Four, Val::Five, Val::Six, Val::Seven, Val::Eight] {
        p.exclude_at(8, 8, v);
    }
    assert_eq!(p.value(80), Some(Val::Nine));
    p.exclude(3, Val::Eight);
    assert_eq!(p.value(3), Some(Val::Eight));
    assert_eq!(p.solved_count(), 3);
}

#[test]
fn candidates_lists_open_cells_allowing_a_value() {
    let mut p = Puzzle::new();
    p.set_value(0, Val::One);
    p.exclude(2, Val::Four);
    let row = sudoku::row_num(0);
    assert_eq!(p.candidates(&row, Val::Four), vec![1, 3, 4, 5, 6, 7, 8]);
    assert_eq!(p.candidates(&row, Val::One), vec![1, 2, 3, 4, 5, 6, 7, 8]);
}

#[test]
fn promote_solves_single_candidate_cells() {
    let mut p = Puzzle::new();
    for v in [Val::One, Val::Two, Val::Three, Val::Four, Val::Five, Val::Six, Val::Seven] {
        p.exclude(40, v);
    }
    assert!(!p.cell(40).is_solved());
    p.promote();
    assert!(!p.cell(40).is_solved());
    assert_eq!(p.cell(40).possible_values(), vec![Val::Eight, Val::Nine]);
}

#[test]
fn cell_text_is_digit_or_dot() {
    assert_eq!(Cell::blank().text(), ".");
    assert_eq!(Cell::solved_to(Val::Three).text(), "3");
    assert_eq!(Cell::solved_to(Val::Nine).text(), "9");
}
