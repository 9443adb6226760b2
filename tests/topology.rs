use sudoku::{
    box_num, col_num, get_box_num, get_col_num, get_row_num, idx_to_box, idx_to_col, idx_to_row,
    peers_of, row_num, shares_unit,
};

#[test]
fn row_col_box_of_index() {
    assert_eq!(get_row_num(0), 0);
    assert_eq!(get_col_num(0), 0);
    assert_eq!(get_box_num(0), 0);
    assert_eq!(get_row_num(40), 4);
    assert_eq!(get_col_num(40), 4);
    assert_eq!(get_box_num(40), 4);
    assert_eq!(get_row_num(80), 8);
    assert_eq!(get_col_num(80), 8);
    assert_eq!(get_box_num(80), 8);
    assert_eq!(get_box_num(29), 3);
    assert_eq!(get_box_num(8), 2);
    assert_eq!(get_box_num(57), 7);
}

#[test]
fn unit_members_in_canonical_order() {
    assert_eq!(row_num(4), vec![36, 37, 38, 39, 40, 41, 42, 43, 44]);
    assert_eq!(col_num(2), vec![2, 11, 20, 29, 38, 47, 56, 65, 74]);
    assert_eq!(box_num(0), vec![0, 1, 2, 9, 10, 11, 18, 19, 20]);
    assert_eq!(box_num(4), vec![30, 31, 32, 39, 40, 41, 48, 49, 50]);
    assert_eq!(box_num(8), vec![60, 61, 62, 69, 70, 71, 78, 79, 80]);
}

#[test]
fn mates_exclude_the_cell_itself() {
    assert_eq!(idx_to_row(10), vec![9, 11, 12, 13, 14, 15, 16, 17]);
    assert_eq!(idx_to_col(10), vec![1, 19, 28, 37, 46, 55, 64, 73]);
    assert_eq!(idx_to_box(10), vec![0, 1, 2, 9, 11, 18, 19, 20]);
    assert_eq!(idx_to_box(80), vec![60, 61, 62, 69, 70, 71, 78, 79]);
}

#[test]
fn every_cell_has_twenty_distinct_peers() {
    for idx in 0..81usize {
        let mut peers: Vec<usize> = Vec::new();
        for p in idx_to_row(idx).into_iter().chain(idx_to_col(idx)).chain(idx_to_box(idx)) {
            assert_ne!(p, idx);
            if !peers.contains(&p) {
                peers.push(p);
            }
        }
        assert_eq!(peers.len(), 20);
    }
}

#[test]
fn peers_of_lists_twenty_cells_ascending() {
    assert_eq!(
        peers_of(0),
        vec![1, 2, 3, 4, 5, 6, 7, 8, 9, 10, 11, 18, 19, 20, 27, 36, 45, 54, 63, 72]
    );
    for idx in 0..81usize {
        let p = peers_of(idx);
        assert_eq!(p.len(), 20);
        assert!(p.windows(2).all(|w| w[0] < w[1]));
        assert!(!p.contains(&idx));
    }
}

#[test]
fn shares_unit_by_row_column_or_box() {
    assert!(shares_unit(0, 8));
    assert!(shares_unit(0, 72));
    assert!(shares_unit(0, 20));
    assert!(!shares_unit(0, 21));
    assert!(!shares_unit(10, 40));
}
