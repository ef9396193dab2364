use bfc::optimizer::optimize;
use bfc::parser::{parse, tokens, Node};

#[test]
fn adds_merge() {
    assert_eq!(optimize(&[Node::Add(1), Node::Add(1), Node::Add(1)]), vec![Node::Add(3)]);
}

#[test]
fn adds_wrap_to_zero_and_stay() {
    let v = vec![Node::Add(1); 256];
    assert_eq!(optimize(&v), vec![Node::Add(0)]);
}

#[test]
fn plus_then_minus_keeps_zero_add() {
    let t = tokens("+-");
    let p = parse(&t);
    assert_eq!(optimize(&p), vec![Node::Add(0)]);
}

#[test]
fn opposite_shifts_cancel() {
    assert_eq!(optimize(&[Node::ShiftRight(3), Node::ShiftLeft(3)]), vec![]);
}

#[test]
fn larger_right_shift_remains() {
    assert_eq!(optimize(&[Node::ShiftRight(5), Node::ShiftLeft(2)]), vec![Node::ShiftRight(3)]);
}

#[test]
fn larger_magnitude_direction_remains() {
    assert_eq!(optimize(&[Node::ShiftLeft(2), Node::ShiftRight(5)]), vec![Node::ShiftRight(3)]);
    assert_eq!(optimize(&[Node::ShiftLeft(5), Node::ShiftRight(2)]), vec![Node::ShiftLeft(3)]);
}

#[test]
fn same_direction_shifts_add_up() {
    assert_eq!(
        optimize(&[Node::ShiftLeft(2), Node::ShiftLeft(5), Node::ShiftRight(1)]),
        vec![Node::ShiftLeft(6)]
    );
    assert_eq!(optimize(&[Node::ShiftRight(4), Node::ShiftRight(4)]), vec![Node::ShiftRight(8)]);
}

#[test]
fn shifts_that_overflow_stay_apart() {
    let v = [Node::ShiftRight(u64::MAX), Node::ShiftRight(1)];
    assert_eq!(optimize(&v), v.to_vec());
}

#[test]
fn print_is_a_barrier() {
    let v = [Node::Add(1), Node::Print, Node::Add(1)];
    assert_eq!(optimize(&v), v.to_vec());
}

#[test]
fn loops_are_barriers() {
    let v = [Node::Add(1), Node::BeginLoop(0), Node::Add(2), Node::EndLoop(0), Node::Add(3)];
    assert_eq!(optimize(&v), v.to_vec());
}

#[test]
fn cancellation_exposes_new_merges() {
    let v = [Node::Add(1), Node::ShiftRight(2), Node::ShiftLeft(2), Node::Add(4)];
    assert_eq!(optimize(&v), vec![Node::Add(5)]);
}

#[test]
fn optimize_is_idempotent_on_example() {
    let v = [
        Node::Add(7),
        Node::Add(250),
        Node::ShiftLeft(1),
        Node::ShiftRight(3),
        Node::Read,
        Node::ShiftRight(2),
        Node::ShiftLeft(2),
        Node::Print,
    ];
    let once = optimize(&v);
    assert_eq!(once, vec![Node::Add(1), Node::ShiftRight(2), Node::Read, Node::Print]);
    assert_eq!(optimize(&once), once);
}

#[test]
fn empty_stays_empty() {
    assert_eq!(optimize(&[]), vec![]);
}
