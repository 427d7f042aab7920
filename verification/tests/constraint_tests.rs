use minesolver::constraint::Constraint;

#[test]
fn constraint_new_keeps_fields() {
    let c = Constraint::new(3, 1, 4);
    assert_eq!(c.count, 3);
    assert_eq!(c.mines, 1);
    assert_eq!(c.unknown, 4);
}

#[test]
fn constraint_valid_between_bounds() {
    assert!(Constraint::new(2, 1, 1).valid());
    assert!(Constraint::new(2, 2, 0).valid());
    assert!(Constraint::new(0, 0, 8).valid());
    assert!(Constraint::new(3, 0, 3).valid());
}

#[test]
fn constraint_invalid_when_too_many_mines() {
    assert!(!Constraint::new(1, 2, 3).valid());
}

#[test]
fn constraint_invalid_when_count_out_of_reach() {
    assert!(!Constraint::new(3, 1, 1).valid());
}

#[test]
fn constraint_valid_does_not_overflow() {
    assert!(Constraint::new(127, 127, 127).valid());
    assert!(!Constraint::new(-128, 127, 127).valid());
    assert!(!Constraint::new(127, -128, -128).valid());
}

#[test]
fn constraint_remaining_safe_when_count_met() {
    assert!(Constraint::new(2, 2, 3).remaining_safe());
    assert!(!Constraint::new(2, 1, 3).remaining_safe());
    assert!(Constraint::new(0, 0, 5).remaining_safe());
}

#[test]
fn constraint_remaining_mines_when_all_needed() {
    assert!(Constraint::new(3, 1, 2).remaining_mines());
    assert!(!Constraint::new(3, 1, 3).remaining_mines());
    assert!(Constraint::new(127, 127, 0).remaining_mines());
    assert!(!Constraint::new(-2, 127, 127).remaining_mines());
}

#[test]
fn constraint_add_mine_moves_one_over() {
    let mut c = Constraint::new(2, 0, 3);
    c.add_mine(1);
    assert_eq!(c, Constraint::new(2, 1, 2));
    c.add_mine(-1);
    assert_eq!(c, Constraint::new(2, 0, 3));
}

#[test]
fn constraint_add_safe_only_lowers_unknown() {
    let mut c = Constraint::new(2, 1, 3);
    c.add_safe(1);
    assert_eq!(c, Constraint::new(2, 1, 2));
    c.add_safe(-1);
    assert_eq!(c, Constraint::new(2, 1, 3));
}

#[test]
fn constraint_apply_then_undo_is_identity() {
    let start = Constraint::new(4, 2, 5);
    let mut c = start;
    c.add_mine(1);
    c.add_safe(1);
    assert!(c.valid());
    c.add_safe(-1);
    c.add_mine(-1);
    assert_eq!(c, start);
}
