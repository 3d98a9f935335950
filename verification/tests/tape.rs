use gradtape::gradients::GradientTape;
use gradtape::gradients::TapeError;

#[test]
fn empty_tape_has_no_slots() {
    let tape = GradientTape::new();
    assert_eq!(tape.num_slots(), 0);
    assert_eq!(tape.num_steps(), 0);
}

#[test]
fn register_gradient_assigns_dense_indices() {
    let mut tape = GradientTape::new();
    let a = tape.register_gradient(vec![2]);
    let b = tape.register_gradient(vec![3]);
    let c = tape.register_gradient(vec![2, 2]);
    assert_eq!(a.index, 0);
    assert_eq!(b.index, 1);
    assert_eq!(c.index, 2);
    assert_eq!(a.len, 2);
    assert_eq!(b.len, 3);
    assert_eq!(c.len, 4);
    assert_eq!(tape.num_slots(), 3);
    assert_eq!(tape.resolve(a), &vec![0i64, 0]);
    assert_eq!(tape.slot_shape(b), &vec![3usize]);
    assert_eq!(tape.slot_shape(c), &vec![2usize, 2]);
}

#[test]
fn zero_dimension_shape_gives_empty_buffer() {
    let mut tape = GradientTape::new();
    let s = tape.register_gradient(vec![3, 0, 5]);
    assert_eq!(s.len, 0);
    assert_eq!(tape.resolve(s), &Vec::<i64>::new());
}

#[test]
fn scalar_shape_has_one_element() {
    let mut tape = GradientTape::new();
    let s = tape.register_gradient(Vec::new());
    assert_eq!(s.len, 1);
    assert_eq!(tape.resolve(s), &vec![0i64]);
}

#[test]
fn resolve_before_backward_is_zero() {
    let mut tape = GradientTape::new();
    let a = tape.register_gradient(vec![4]);
    let b = tape.register_gradient(vec![4]);
    tape.push_backward_step(b, a, vec![1, 2, 3, 4]);
    assert_eq!(tape.resolve(a), &vec![0i64, 0, 0, 0]);
}

#[test]
fn accumulation_sums_contributions() {
    let mut tape = GradientTape::new();
    let t = tape.register_gradient(vec![2]);
    let c = tape.register_gradient(vec![2]);
    tape.push_backward_step(c, t, vec![3, 4]);
    tape.push_backward_step(c, t, vec![10, 20]);
    let r = tape.execute_backward(c, &vec![1, 1]);
    assert!(r.is_ok());
    assert_eq!(tape.resolve(t), &vec![13i64, 24]);
}

#[test]
fn seed_overwrites_then_steps_accumulate() {
    let mut tape = GradientTape::new();
    let t = tape.register_gradient(vec![1]);
    let c = tape.register_gradient(vec![1]);
    tape.push_backward_step(c, t, vec![7]);
    let r = tape.execute_backward(c, &vec![5]);
    assert!(r.is_ok());
    assert_eq!(tape.resolve(c), &vec![5i64]);
    assert_eq!(tape.resolve(t), &vec![35i64]);
}

#[test]
fn reverse_order_replay_chain_rule() {
    let mut tape = GradientTape::new();
    let a = tape.register_gradient(vec![2]);
    let b = tape.register_gradient(vec![2]);
    let c = tape.register_gradient(vec![2]);
    tape.push_backward_step(b, a, vec![2, 3]);
    tape.push_backward_step(c, b, vec![5, 7]);
    let r = tape.execute_backward(c, &vec![10, 10]);
    assert!(r.is_ok());
    assert_eq!(tape.resolve(a), &vec![100i64, 210]);
}

#[test]
fn chain_rule_survives_interleaved_unrelated_steps() {
    let mut tape = GradientTape::new();
    let a = tape.register_gradient(vec![2]);
    let b = tape.register_gradient(vec![2]);
    let c = tape.register_gradient(vec![2]);
    let d = tape.register_gradient(vec![2]);
    tape.push_backward_step(c, d, vec![1000, 1000]);
    tape.push_backward_step(b, a, vec![2, 3]);
    tape.push_backward_step(c, d, vec![1000, 1000]);
    tape.push_backward_step(c, b, vec![5, 7]);
    tape.push_backward_step(c, d, vec![1000, 1000]);
    let r = tape.execute_backward(c, &vec![10, 10]);
    assert!(r.is_ok());
    assert_eq!(tape.resolve(a), &vec![100i64, 210]);
}

#[test]
fn backward_multiplication_overflow_leaves_tape_unchanged() {
    let mut tape = GradientTape::new();
    let a = tape.register_gradient(vec![1]);
    let b = tape.register_gradient(vec![1]);
    tape.push_backward_step(b, a, vec![i64::MAX]);
    let r = tape.execute_backward(b, &vec![2]);
    assert!(matches!(r, Err(TapeError::Overflow)));
    assert_eq!(tape.resolve(a), &vec![0i64]);
    assert_eq!(tape.resolve(b), &vec![0i64]);
}

#[test]
fn backward_addition_overflow_leaves_tape_unchanged() {
    let mut tape = GradientTape::new();
    let a = tape.register_gradient(vec![1]);
    let b = tape.register_gradient(vec![1]);
    tape.push_backward_step(b, a, vec![i64::MAX]);
    tape.push_backward_step(b, a, vec![i64::MAX]);
    let r = tape.execute_backward(b, &vec![1]);
    assert!(matches!(r, Err(TapeError::Overflow)));
    assert_eq!(tape.resolve(a), &vec![0i64]);
    assert_eq!(tape.resolve(b), &vec![0i64]);
}
