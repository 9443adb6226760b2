use sudoku::Val;

#[test]
fn parse_digits_letters_and_names() {
    assert_eq!(Val::parse("1"), Some(Val::One));
    assert_eq!(Val::parse("9"), Some(Val::Nine));
    assert_eq!(Val::parse("a"), Some(Val::One));
    assert_eq!(Val::parse("E"), Some(Val::Five));
    assert_eq!(Val::parse("i"), Some(Val::Nine));
    assert_eq!(Val::parse("three"), Some(Val::Three));
    assert_eq!(Val::parse("SEVEN"), Some(Val::Seven));
    assert_eq!(Val::parse("NiNe"), Some(Val::Nine));
    assert_eq!(Val::parse("Eight"), Some(Val::Eight));
}

#[test]
fn parse_rejects_other_tokens() {
    assert_eq!(Val::parse("0"), None);
    assert_eq!(Val::parse("."), None);
    assert_eq!(Val::parse("j"), None);
    assert_eq!(Val::parse("ten"), None);
    assert_eq!(Val::parse(""), None);
    assert_eq!(Val::parse("11"), None);
    assert_eq!(Val::parse("ones"), None);
}

#[test]
fn numbers_and_digits() {
    assert_eq!(Val::try_from(0), None);
    assert_eq!(Val::try_from(1), Some(Val::One));
    assert_eq!(Val::try_from(6), Some(Val::Six));
    assert_eq!(Val::try_from(10), None);
    assert_eq!(Val::Four.number(), 4);
    assert_eq!(Val::Four.to_char(), '4');
    assert_eq!(Val::Nine.idx(), 8);
    assert_eq!(Val::from_idx(2), Val::Three);
}

#[test]
fn all_values_in_order() {
    let all = Val::all();
    assert_eq!(all.len(), 9);
    for (i, v) in all.iter().enumerate() {
        assert_eq!(v.number() as usize, i + 1);
    }
    assert!(all.windows(2).all(|w| w[0] < w[1]));
}
