use ownership_rules::checker::Checker;
use ownership_rules::model::{BorrowMode, ValueKind, Violation};
use ownership_rules::trace::{check_trace, used_later, Op, Rejection};

const S: u64 = 1;
const S1: u64 = 2;
const S2: u64 = 3;
const X: u64 = 4;
const Y: u64 = 5;

fn owning(name: u64) -> Op {
    Op::Bind { name, kind: ValueKind::Owning, value: 11 }
}

fn shared(name: u64) -> Op {
    Op::Borrow { name, mode: BorrowMode::Shared }
}

fn exclusive(name: u64) -> Op {
    Op::Borrow { name, mode: BorrowMode::Exclusive }
}

fn touch(handle: usize) -> Op {
    Op::UseBorrow { handle }
}

fn reading(name: u64, mode: BorrowMode, reading: usize) -> Op {
    Op::BorrowReading { name, mode, reading }
}

#[test]
fn empty_trace_is_accepted() {
    assert_eq!(check_trace(&Vec::new()), Ok(()));
}

#[test]
fn borrows_past_their_last_use_do_not_conflict() {
    let trace = vec![owning(S), shared(S), touch(0), shared(S), touch(1), exclusive(S), touch(2)];
    assert_eq!(check_trace(&trace), Ok(()));
}

#[test]
fn shared_borrows_used_together_then_exclusive_is_accepted() {
    let trace = vec![owning(S), shared(S), shared(S), touch(0), touch(1), exclusive(S), touch(2)];
    assert_eq!(check_trace(&trace), Ok(()));
}

#[test]
fn exclusive_borrow_while_shared_is_live_is_rejected() {
    let trace = vec![owning(S), shared(S), exclusive(S), touch(0)];
    assert_eq!(
        check_trace(&trace),
        Err(Rejection { at: 2, violation: Violation::AliasConflict })
    );
}

#[test]
fn exclusive_borrow_while_two_shared_are_live_is_rejected() {
    let trace = vec![owning(S), shared(S), shared(S), exclusive(S), touch(0), touch(1), touch(2)];
    assert_eq!(
        check_trace(&trace),
        Err(Rejection { at: 3, violation: Violation::AliasConflict })
    );
}

#[test]
fn two_exclusive_borrows_used_together_are_rejected() {
    let trace = vec![owning(S), exclusive(S), exclusive(S), touch(0), touch(1)];
    assert_eq!(
        check_trace(&trace),
        Err(Rejection { at: 2, violation: Violation::AliasConflict })
    );
}

#[test]
fn exclusive_borrows_in_turn_are_accepted() {
    let trace = vec![owning(S), exclusive(S), touch(0), exclusive(S), touch(1)];
    assert_eq!(check_trace(&trace), Ok(()));
}

#[test]
fn unused_borrow_ends_where_it_begins() {
    let trace = vec![owning(S), exclusive(S), exclusive(S), shared(S)];
    assert_eq!(check_trace(&trace), Ok(()));
}

#[test]
fn truncating_under_a_live_view_is_rejected() {
    let trace = vec![
        owning(S),
        Op::Slice { name: S, start: 0, len: 5 },
        Op::Mutate { name: S, value: 0 },
        touch(0),
    ];
    assert_eq!(
        check_trace(&trace),
        Err(Rejection { at: 2, violation: Violation::AliasConflict })
    );
}

#[test]
fn truncating_after_the_view_was_last_used_is_accepted() {
    let trace = vec![
        owning(S),
        Op::Slice { name: S, start: 0, len: 5 },
        touch(0),
        Op::Mutate { name: S, value: 0 },
    ];
    assert_eq!(check_trace(&trace), Ok(()));
}

#[test]
fn use_after_move_is_rejected_in_a_trace() {
    let trace = vec![owning(S1), Op::Move { from: S1, to: S2 }, Op::Use { name: S1 }];
    assert_eq!(
        check_trace(&trace),
        Err(Rejection { at: 2, violation: Violation::UseAfterMove })
    );
}

#[test]
fn copy_then_use_of_both_is_accepted() {
    let trace = vec![
        Op::Bind { name: X, kind: ValueKind::Copy, value: 5 },
        Op::Move { from: X, to: Y },
        Op::Use { name: X },
        Op::Use { name: Y },
        Op::Mutate { name: Y, value: 6 },
        Op::Use { name: X },
    ];
    assert_eq!(check_trace(&trace), Ok(()));
}

#[test]
fn reference_escaping_its_scope_is_rejected() {
    let trace = vec![Op::BeginScope, owning(S), shared(S), Op::EndScope, touch(0)];
    assert_eq!(
        check_trace(&trace),
        Err(Rejection { at: 4, violation: Violation::DanglingReference })
    );
}

#[test]
fn value_moved_into_a_callee_is_gone_for_the_caller() {
    let trace = vec![
        Op::BeginScope,
        owning(S),
        Op::BeginScope,
        Op::Move { from: S, to: S1 },
        Op::Use { name: S1 },
        Op::EndScope,
        Op::Use { name: S },
    ];
    assert_eq!(
        check_trace(&trace),
        Err(Rejection { at: 6, violation: Violation::UseAfterMove })
    );
}

#[test]
fn first_violation_is_the_one_reported() {
    let trace = vec![
        owning(S1),
        Op::Use { name: S2 },
        Op::Move { from: S1, to: S2 },
        Op::Use { name: S1 },
    ];
    assert_eq!(
        check_trace(&trace),
        Err(Rejection { at: 1, violation: Violation::DanglingReference })
    );
}

#[test]
fn direct_read_under_live_exclusive_borrow_is_rejected() {
    let trace = vec![owning(S), exclusive(S), Op::Use { name: S }, touch(0)];
    assert_eq!(
        check_trace(&trace),
        Err(Rejection { at: 2, violation: Violation::AliasConflict })
    );
}

#[test]
fn used_later_looks_only_ahead() {
    let trace = vec![owning(S), shared(S), touch(0), shared(S), touch(1)];
    assert!(used_later(&trace, 0, 1));
    assert!(!used_later(&trace, 0, 2));
    assert!(used_later(&trace, 1, 2));
    assert!(!used_later(&trace, 1, 4));
    assert!(!used_later(&trace, 2, 0));
    assert!(!used_later(&trace, 0, 99));
}

#[test]
fn apply_expires_a_borrow_that_is_not_used_later() {
    let mut c = Checker::new();
    assert_eq!(c.apply(owning(S), false, false), Ok(()));
    assert_eq!(c.apply(shared(S), true, false), Ok(()));
    assert_eq!(c.apply(shared(S), false, false), Ok(()));
    assert!(c.borrow_record(0).unwrap().live);
    assert!(!c.borrow_record(1).unwrap().live);
    assert_eq!(c.apply(touch(0), true, false), Ok(()));
    assert!(c.borrow_record(0).unwrap().live);
    assert_eq!(c.apply(touch(0), false, false), Ok(()));
    assert!(!c.borrow_record(0).unwrap().live);
    assert_eq!(c.apply(touch(0), false, false), Err(Violation::DanglingReference));
    assert_eq!(c.apply(exclusive(S), true, false), Ok(()));
    assert_eq!(c.apply(Op::Mutate { name: S, value: 1 }, false, false), Err(Violation::AliasConflict));
    assert_eq!(c.apply(Op::EndScope, false, false), Ok(()));
    assert_eq!(c.apply(Op::Use { name: S }, false, false), Err(Violation::DanglingReference));
}

#[test]
fn final_read_of_shared_borrow_precedes_the_borrow_it_feeds() {
    let trace = vec![owning(S), shared(S), reading(S, BorrowMode::Exclusive, 0), touch(1)];
    assert_eq!(check_trace(&trace), Ok(()));
}

#[test]
fn read_of_shared_borrow_that_is_used_again_conflicts() {
    let trace =
        vec![owning(S), shared(S), reading(S, BorrowMode::Exclusive, 0), touch(1), touch(0)];
    assert_eq!(
        check_trace(&trace),
        Err(Rejection { at: 2, violation: Violation::AliasConflict })
    );
}

#[test]
fn final_use_of_exclusive_borrow_in_the_creating_statement_conflicts() {
    let trace = vec![owning(S), exclusive(S), reading(S, BorrowMode::Shared, 0), touch(1)];
    assert_eq!(
        check_trace(&trace),
        Err(Rejection { at: 2, violation: Violation::AliasConflict })
    );
    let in_turn = vec![owning(S), exclusive(S), touch(0), shared(S), touch(1)];
    assert_eq!(check_trace(&in_turn), Ok(()));
}

#[test]
fn reading_through_a_borrow_of_another_binding_is_accepted() {
    let trace = vec![
        owning(S1),
        owning(S2),
        exclusive(S1),
        reading(S2, BorrowMode::Exclusive, 0),
        touch(1),
    ];
    assert_eq!(check_trace(&trace), Ok(()));
}

#[test]
fn reading_through_a_borrow_that_is_gone_is_rejected() {
    let trace = vec![owning(S), shared(S), touch(0), reading(S, BorrowMode::Shared, 0)];
    assert_eq!(check_trace(&trace), Ok(()));
    let gone = vec![
        Op::BeginScope,
        owning(S1),
        shared(S1),
        Op::EndScope,
        owning(S2),
        reading(S2, BorrowMode::Shared, 0),
    ];
    assert_eq!(
        check_trace(&gone),
        Err(Rejection { at: 5, violation: Violation::DanglingReference })
    );
    let unknown = vec![owning(S), reading(S, BorrowMode::Shared, 3)];
    assert_eq!(
        check_trace(&unknown),
        Err(Rejection { at: 1, violation: Violation::DanglingReference })
    );
}

#[test]
fn read_through_counts_as_a_use() {
    let trace = vec![owning(S), shared(S), reading(S, BorrowMode::Shared, 0)];
    assert!(used_later(&trace, 0, 1));
    assert!(!used_later(&trace, 0, 2));
    assert!(!used_later(&trace, 1, 1));
}

#[test]
fn apply_settles_both_borrows_of_a_reading_borrow() {
    let mut c = Checker::new();
    assert_eq!(c.apply(owning(S), false, false), Ok(()));
    assert_eq!(c.apply(shared(S), true, false), Ok(()));
    assert_eq!(c.apply(reading(S, BorrowMode::Shared, 0), true, true), Ok(()));
    assert!(c.borrow_record(0).unwrap().live);
    assert!(c.borrow_record(1).unwrap().live);
    assert_eq!(c.apply(reading(S, BorrowMode::Shared, 0), false, false), Ok(()));
    assert!(!c.borrow_record(0).unwrap().live);
    assert!(!c.borrow_record(2).unwrap().live);
    assert_eq!(
        c.apply(reading(S, BorrowMode::Exclusive, 1), true, true),
        Err(Violation::AliasConflict)
    );
    assert_eq!(c.apply(reading(S, BorrowMode::Exclusive, 1), true, false), Ok(()));
    assert!(!c.borrow_record(1).unwrap().live);
    assert!(c.borrow_record(3).unwrap().live);
}

#[test]
fn value_returned_from_a_callee_is_usable_by_the_caller() {
    let trace = vec![
        Op::BeginScope,
        Op::BeginScope,
        owning(S),
        Op::Return { from: S, to: S1 },
        Op::Use { name: S1 },
        Op::EndScope,
        Op::Use { name: S1 },
    ];
    assert_eq!(
        check_trace(&trace),
        Err(Rejection { at: 6, violation: Violation::DanglingReference })
    );
    assert_eq!(check_trace(&trace[..6].to_vec()), Ok(()));
}

#[test]
fn reference_to_a_local_cannot_be_used_after_return() {
    let trace = vec![
        Op::BeginScope,
        owning(S),
        shared(S),
        Op::Bind { name: X, kind: ValueKind::Copy, value: 0 },
        Op::Return { from: X, to: Y },
        touch(0),
    ];
    assert_eq!(
        check_trace(&trace),
        Err(Rejection { at: 5, violation: Violation::DanglingReference })
    );
}
