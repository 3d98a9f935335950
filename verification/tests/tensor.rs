use gradtape::gradients::GradientTape;
use gradtape::gradients::TapeError;
use gradtape::tensor::Activations;
use gradtape::tensor::HasGradient;
use gradtape::tensor::InitSugar;
use gradtape::tensor::IsShapedArray;
use gradtape::tensor::Randomize;
use gradtape::tensor::Record;
use gradtape::tensor::Taped;
use gradtape::tensor::Tensor0D;
use gradtape::tensor::Tensor1D;
use gradtape::tensor::Tensor2D;

#[test]
fn slot_uniqueness() {
    let mut tape = GradientTape::new();
    let mut a = Tensor1D::<2>::zeros();
    let mut b = Tensor1D::<2>::zeros();
    let mut c = Tensor1D::<3>::zeros();
    a.record(&mut tape);
    b.record(&mut tape);
    c.record(&mut tape);
    assert_eq!(tape.num_slots(), 3);
    let ia = a.grad().unwrap().gradient_ref.index;
    let ib = b.grad().unwrap().gradient_ref.index;
    let ic = c.grad().unwrap().gradient_ref.index;
    assert!(ia != ib && ib != ic && ia != ic);
    a.record(&mut tape);
    b.record(&mut tape);
    assert_eq!(tape.num_slots(), 3);
    assert_eq!(a.grad().unwrap().gradient_ref.index, ia);
    assert_eq!(b.grad().unwrap().gradient_ref.index, ib);
}

#[test]
fn shape_fidelity_zeros() {
    let mut tape = GradientTape::new();
    let mut s = Tensor0D::zeros();
    let mut v = Tensor1D::<4>::zeros();
    let mut m = Tensor2D::<2, 3>::zeros();
    s.record(&mut tape);
    v.record(&mut tape);
    m.record(&mut tape);
    let gs = s.grad().unwrap().gradient_ref;
    let gv = v.grad().unwrap().gradient_ref;
    let gm = m.grad().unwrap().gradient_ref;
    assert_eq!(tape.resolve(gs), &vec![0i64]);
    assert_eq!(tape.slot_shape(gs), &Vec::<usize>::new());
    assert_eq!(tape.resolve(gv), &vec![0i64; 4]);
    assert_eq!(tape.slot_shape(gv), &vec![4usize]);
    assert_eq!(tape.resolve(gm), &vec![0i64; 6]);
    assert_eq!(tape.slot_shape(gm), &vec![2usize, 3]);
}

#[test]
fn init_sugar_fills() {
    let z = Tensor1D::<3>::zeros();
    assert_eq!(z.data(), &vec![0i64, 0, 0]);
    assert!(z.grad().is_none());
    let o = Tensor2D::<2, 2>::ones();
    assert_eq!(o.data(), &vec![1i64, 1, 1, 1]);
    assert!(o.grad().is_none());
}

#[test]
fn num_elements_matches_shape() {
    assert_eq!(Tensor0D::zeros().num_elements(), 1);
    assert_eq!(Tensor1D::<5>::zeros().num_elements(), 5);
    assert_eq!(Tensor2D::<2, 3>::zeros().num_elements(), 6);
    assert_eq!(Tensor2D::<2, 3>::shape(), vec![2usize, 3]);
}

#[test]
fn randomize_installs_samples_and_keeps_handle() {
    let mut tape = GradientTape::new();
    let mut x = Tensor1D::<3>::zeros();
    x.record(&mut tape);
    let idx = x.grad().unwrap().gradient_ref.index;
    x.randomize(&vec![7, -8, 9]);
    assert_eq!(x.data(), &vec![7i64, -8, 9]);
    assert_eq!(x.grad().unwrap().gradient_ref.index, idx);
}

#[test]
fn update_requires_fresh_recording() {
    let mut tape = GradientTape::new();
    let mut x = Tensor1D::<2>::zeros();
    x.record(&mut tape);
    assert!(x.update(&tape).is_ok());
    assert!(x.grad().is_none());
    assert!(matches!(x.update(&tape), Err(TapeError::MissingGradient)));
}

#[test]
fn fresh_slot_after_consumption() {
    let mut tape = GradientTape::new();
    let mut x = Tensor1D::<2>::zeros();
    x.record(&mut tape);
    let first = x.grad().unwrap().gradient_ref.index;
    x.update(&tape).unwrap();
    x.record(&mut tape);
    let second = x.grad().unwrap().gradient_ref.index;
    assert_ne!(first, second);
    assert_eq!(tape.num_slots(), 2);
}

#[test]
fn square_backward_and_update() {
    let mut tape = GradientTape::new();
    let mut x = Tensor1D::<2>::zeros();
    x.randomize(&vec![3, 4]);
    let mut y = x.square(&mut tape);
    assert_eq!(y.data(), &vec![9i64, 16]);
    let ys = y.grad().unwrap().gradient_ref;
    assert!(tape.execute_backward(ys, &vec![1, 1]).is_ok());
    let xs = x.grad().unwrap().gradient_ref;
    assert_eq!(tape.resolve(xs), &vec![6i64, 8]);
    assert!(x.update(&tape).is_ok());
    assert_eq!(x.data(), &vec![-3i64, -4]);
    assert!(x.grad().is_none());
    assert!(y.grad().is_some());
}

#[test]
fn square_records_input_once() {
    let mut tape = GradientTape::new();
    let mut x = Tensor1D::<2>::zeros();
    x.randomize(&vec![1, 2]);
    x.record(&mut tape);
    let before = tape.num_slots();
    let y = x.square(&mut tape);
    assert_eq!(tape.num_slots(), before + 1);
    assert_eq!(tape.num_steps(), 1);
    assert_ne!(
        x.grad().unwrap().gradient_ref.index,
        y.grad().unwrap().gradient_ref.index
    );
}

#[test]
fn relu_forward_and_backward() {
    let mut tape = GradientTape::new();
    let mut x = Tensor1D::<3>::zeros();
    x.randomize(&vec![-2, 0, 5]);
    let y = x.relu(&mut tape);
    assert_eq!(y.data(), &vec![0i64, 0, 5]);
    let ys = y.grad().unwrap().gradient_ref;
    assert!(tape.execute_backward(ys, &vec![1, 1, 1]).is_ok());
    let xs = x.grad().unwrap().gradient_ref;
    assert_eq!(tape.resolve(xs), &vec![0i64, 0, 1]);
}

#[test]
fn abs_forward_and_backward() {
    let mut tape = GradientTape::new();
    let mut x = Tensor1D::<3>::zeros();
    x.randomize(&vec![-2, 0, 5]);
    let y = x.abs(&mut tape);
    assert_eq!(y.data(), &vec![2i64, 0, 5]);
    let ys = y.grad().unwrap().gradient_ref;
    assert!(tape.execute_backward(ys, &vec![10, 10, 10]).is_ok());
    let xs = x.grad().unwrap().gradient_ref;
    assert_eq!(tape.resolve(xs), &vec![-10i64, 0, 10]);
}

#[test]
fn chained_squares_multiply_derivatives() {
    let mut tape = GradientTape::new();
    let mut x = Tensor1D::<1>::zeros();
    x.randomize(&vec![2]);
    let mut y = x.square(&mut tape);
    let z = y.square(&mut tape);
    assert_eq!(z.data(), &vec![16i64]);
    let zs = z.grad().unwrap().gradient_ref;
    assert!(tape.execute_backward(zs, &vec![1]).is_ok());
    let xs = x.grad().unwrap().gradient_ref;
    assert_eq!(tape.resolve(xs), &vec![32i64]);
}

#[test]
fn update_overflow_leaves_value_unchanged() {
    let mut tape = GradientTape::new();
    let mut x = Tensor1D::<1>::zeros();
    x.randomize(&vec![i64::MIN]);
    x.record(&mut tape);
    let xs = x.grad().unwrap().gradient_ref;
    assert!(tape.execute_backward(xs, &vec![1]).is_ok());
    let r = x.update(&tape);
    assert!(matches!(r, Err(TapeError::Overflow)));
    assert_eq!(x.data(), &vec![i64::MIN]);
    assert!(x.grad().is_some());
}

#[test]
fn scalar_square_on_tensor0d() {
    let mut tape = GradientTape::new();
    let mut x = Tensor0D::zeros();
    x.randomize(&vec![5]);
    let y = x.square(&mut tape);
    assert_eq!(y.data(), &vec![25i64]);
    let ys = y.grad().unwrap().gradient_ref;
    assert!(tape.execute_backward(ys, &vec![1]).is_ok());
    let xs = x.grad().unwrap().gradient_ref;
    assert_eq!(tape.resolve(xs), &vec![10i64]);
}
