//! Fixed-shape tensor values and the capability traits through which the
//! gradient tape treats arbitrary shapes uniformly.

use vstd::prelude::*;

use crate::gradients::elem_count;
use crate::gradients::zero_buf;
use crate::gradients::Gradient;
use crate::gradients::GradientTape;
use crate::gradients::StepModel;
use crate::gradients::TapeError;
use vstd::pervasive::unreached;

verus! {

/// A buffer of `n` elements, all equal to one.
pub open spec fn one_buf(n: int) -> Seq<int> {
    Seq::new(n as nat, |i: int| 1)
}

/// The shaped-value contract: a tensor type exposes a compile-time shape, a
/// raw numeric buffer of exactly that shape's element count, and an optional
/// attached gradient handle. The buffer's length always equalling the
/// shape's element count is guaranteed by construction, never checked at
/// access time.
pub trait IsShapedArray: Sized {
    /// The compile-time shape descriptor: the dimensions, outermost first.
    spec fn spec_shape() -> Seq<usize>;

    /// The numeric buffer, as mathematical integers.
    spec fn view_data(&self) -> Seq<int>;

    /// The attached gradient handle, if any.
    spec fn spec_grad(&self) -> Option<Gradient>;

    /// The shape descriptor as a value.
    fn shape() -> (s: Vec<usize>)
        ensures
            s@ == Self::spec_shape(),
    ;

    /// How many elements the buffer holds.
    fn num_elements(&self) -> (n: usize)
        requires
            self.view_data().len() == elem_count(Self::spec_shape()),
        ensures
            n == elem_count(Self::spec_shape()),
    ;

    /// Read access to the backing buffer.
    fn data(&self) -> (d: &Vec<i64>)
        ensures
            d@.map_values(|x: i64| x as int) == self.view_data(),
    ;

    /// A fresh value with the given buffer and no gradient handle.
    fn from_data(data: Vec<i64>) -> (t: Self)
        requires
            data@.len() == elem_count(Self::spec_shape()),
        ensures
            t.view_data() == data@.map_values(|x: i64| x as int),
            t.spec_grad() is None,
    ;

    /// Replaces the backing buffer; the gradient handle is untouched.
    fn set_data(&mut self, data: Vec<i64>)
        requires
            data@.len() == elem_count(Self::spec_shape()),
        ensures
            final(self).view_data() == data@.map_values(|x: i64| x as int),
            final(self).spec_grad() == old(self).spec_grad(),
    ;
}

/// Access to the optional gradient handle a tensor value owns.
pub trait HasGradient: IsShapedArray {
    /// The currently attached handle, if any.
    fn grad(&self) -> (g: Option<Gradient>)
        ensures
            g == self.spec_grad(),
    ;

    /// Attaches or clears the handle; the data buffer is untouched.
    fn set_grad(&mut self, g: Option<Gradient>)
        ensures
            final(self).spec_grad() == g,
            final(self).view_data() == old(self).view_data(),
    ;
}

/// The recorder: lazily attaches a gradient handle the first time a value
/// takes part in a differentiable computation.
pub trait Record: HasGradient {
    /// If the value has no handle, registers a fresh zero slot of the
    /// value's shape with the tape and attaches it; otherwise changes
    /// nothing. A value is registered at most once per tape lifetime, until
    /// its handle is consumed.
    fn record(&mut self, tape: &mut GradientTape)
        requires
            old(self).view_data().len() == elem_count(Self::spec_shape()),
            old(tape).wf(),
        ensures
            final(tape).wf(),
            final(self).view_data() == old(self).view_data(),
            old(self).spec_grad() is Some ==> {
                &&& final(self).spec_grad() == old(self).spec_grad()
                &&& final(tape).bufs() == old(tape).bufs()
                &&& final(tape).shape_seqs() == old(tape).shape_seqs()
                &&& final(tape).step_models() == old(tape).step_models()
            },
            old(self).spec_grad() is None ==> {
                &&& final(self).spec_grad() matches Some(g)
                    && g.gradient_ref.index == old(tape).bufs().len()
                    && g.gradient_ref.len == elem_count(Self::spec_shape())
                &&& final(tape).bufs() == old(tape).bufs().push(
                    zero_buf(elem_count(Self::spec_shape())),
                )
                &&& final(tape).shape_seqs() == old(tape).shape_seqs().push(Self::spec_shape())
                &&& final(tape).step_models() == old(tape).step_models()
            },
    ;
}

impl<T: HasGradient> Record for T {
    fn record(&mut self, tape: &mut GradientTape) {
        match self.grad() {
            Some(_) => {},
            None => {
                let n = self.data().len();
                let shape = Self::shape();
                proof {
                    assert(elem_count(Self::spec_shape()) == n as int);
                }
                let slot = tape.register_gradient(shape);
                self.set_grad(Some(Gradient::new(slot)));
            },
        }
    }
}

/// The taped parameter update: consumes the value's gradient handle and
/// applies the slot's accumulated gradient to the value's data.
pub trait Taped: HasGradient {
    /// Subtracts the resolved gradient buffer elementwise from the value's
    /// own data, in place, then clears the handle so that the value can be
    /// freshly recorded in the next forward pass. Asking an untracked value
    /// to update itself is a contract violation, reported as
    /// [`TapeError::MissingGradient`]; nothing is changed then, nor when the
    /// subtraction would overflow.
    fn update(&mut self, tape: &GradientTape) -> (r: Result<(), TapeError>)
        requires
            old(self).view_data().len() == elem_count(Self::spec_shape()),
            tape.wf(),
            old(self).spec_grad() matches Some(g) ==> g.gradient_ref.index < tape.bufs().len()
                && tape.bufs()[g.gradient_ref.index as int].len() == elem_count(
                Self::spec_shape(),
            ),
        ensures
            old(self).spec_grad() is None ==> {
                &&& r == Err::<(), TapeError>(TapeError::MissingGradient)
                &&& final(self).view_data() == old(self).view_data()
                &&& final(self).spec_grad() == old(self).spec_grad()
            },
            old(self).spec_grad() matches Some(g) ==> {
                let gbuf = tape.bufs()[g.gradient_ref.index as int];
                let x = old(self).view_data();
                &&& (r is Ok <==> forall|i: int|
                    0 <= i < x.len() ==> i64::MIN <= x[i] - #[trigger] gbuf[i] <= i64::MAX)
                &&& r is Ok ==> final(self).view_data() == Seq::new(
                    x.len(),
                    |i: int| x[i] - gbuf[i],
                ) && final(self).spec_grad() is None
                &&& r is Err ==> r == Err::<(), TapeError>(TapeError::Overflow)
                    && final(self).view_data() == x
                    && final(self).spec_grad() == old(self).spec_grad()
            },
    ;
}

impl<T: HasGradient> Taped for T {
    #[verifier::loop_isolation(false)]
    fn update(&mut self, tape: &GradientTape) -> (r: Result<(), TapeError>) {
        match self.grad() {
            None => Err(TapeError::MissingGradient),
            Some(g) => {
                let gbuf = tape.resolve(g.gradient_ref);
                let n = self.data().len();
                let mut nd: Vec<i64> = Vec::new();
                let mut i: usize = 0;
                while i < n
                    invariant
                        0 <= i <= n,
                        nd@.len() == i,
                        forall|j: int|
                            0 <= j < i ==> #[trigger] nd@[j] as int == self.view_data()[j]
                                - gbuf@[j],
                        forall|j: int|
                            0 <= j < i ==> i64::MIN <= self.view_data()[j] - #[trigger] gbuf@[j]
                                <= i64::MAX,
                    decreases n - i,
                {
                    let d = self.data()[i];
                    let s = match d.checked_sub(gbuf[i]) {
                        Some(s) => s,
                        None => {
                            proof {
                                let idx = g.gradient_ref.index as int;
                                assert(self.view_data()[i as int] == d as int);
                                assert(tape.bufs()[idx][i as int] == gbuf@[i as int] as int);
                                assert(!(i64::MIN <= self.view_data()[i as int]
                                    - tape.bufs()[idx][i as int] <= i64::MAX));
                            }
                            return Err(TapeError::Overflow);
                        },
                    };
                    nd.push(s);
                    i += 1;
                }
                let ghost x = self.view_data();
                let ghost gb = tape.bufs()[g.gradient_ref.index as int];
                self.set_data(nd);
                self.set_grad(None);
                proof {
                    assert(gb =~= gbuf@.map_values(|v: i64| v as int));
                    assert(self.view_data() =~= Seq::new(x.len(), |j: int| x[j] - gb[j]));
                }
                Ok(())
            },
        }
    }
}

/// Overwriting a value's data with externally drawn samples. The caller
/// draws the numbers; this capability only installs them, so it is exact
/// about the result for every sample sequence.
pub trait Randomize: IsShapedArray {
    fn randomize(&mut self, samples: &Vec<i64>)
        requires
            samples@.len() == elem_count(Self::spec_shape()),
        ensures
            final(self).view_data() == samples@.map_values(|x: i64| x as int),
            final(self).spec_grad() == old(self).spec_grad(),
    ;
}

impl<T: IsShapedArray> Randomize for T {
    fn randomize(&mut self, samples: &Vec<i64>) {
        let copy = crate::gradients::copy_row(samples);
        self.set_data(copy);
    }
}

/// Construction sugar: fresh, untracked values with constant fill.
pub trait InitSugar: IsShapedArray {
    /// An all-zero value of the type's shape, with no gradient handle.
    fn zeros() -> (t: Self)
        requires
            elem_count(Self::spec_shape()) <= usize::MAX as int,
        ensures
            t.view_data() == zero_buf(elem_count(Self::spec_shape())),
            t.spec_grad() is None,
    ;

    /// An all-one value of the type's shape, with no gradient handle.
    fn ones() -> (t: Self)
        requires
            elem_count(Self::spec_shape()) <= usize::MAX as int,
        ensures
            t.view_data() == one_buf(elem_count(Self::spec_shape())),
            t.spec_grad() is None,
    ;
}

impl<T: IsShapedArray> InitSugar for T {
    fn zeros() -> (t: Self) {
        let t = Self::from_data(filled(&Self::shape(), 0));
        proof {
            assert(t.view_data() =~= zero_buf(elem_count(Self::spec_shape())));
        }
        t
    }

    fn ones() -> (t: Self) {
        let t = Self::from_data(filled(&Self::shape(), 1));
        proof {
            assert(t.view_data() =~= one_buf(elem_count(Self::spec_shape())));
        }
        t
    }
}

/// A buffer with one copy of `value` per element of `shape`.
fn filled(shape: &Vec<usize>, value: i64) -> (v: Vec<i64>)
    requires
        elem_count(shape@) <= usize::MAX as int,
    ensures
        v@.len() == elem_count(shape@),
        forall|j: int| 0 <= j < v@.len() ==> #[trigger] v@[j] == value,
{
    let n = crate::gradients::shape_len(shape);
    let mut v: Vec<i64> = Vec::new();
    let mut i: usize = 0;
    while i < n
        invariant
            0 <= i <= n,
            v@.len() == i,
            forall|j: int| 0 <= j < i ==> #[trigger] v@[j] == value,
        decreases n - i,
    {
        v.push(value);
        i += 1;
    }
    v
}

/// The forward result of squaring, elementwise.
pub open spec fn square_fwd(x: Seq<int>) -> Seq<int> {
    x.map_values(|v: int| v * v)
}

/// The local derivative of squaring: two times the input, elementwise.
pub open spec fn square_factor(x: Seq<int>) -> Seq<int> {
    x.map_values(|v: int| 2 * v)
}

/// The forward result of the rectifier: negative entries become zero.
pub open spec fn relu_fwd(x: Seq<int>) -> Seq<int> {
    x.map_values(|v: int| if v > 0 { v } else { 0 })
}

/// The local derivative of the rectifier: one where the input is positive,
/// zero elsewhere.
pub open spec fn relu_factor(x: Seq<int>) -> Seq<int> {
    x.map_values(|v: int| if v > 0 { 1int } else { 0int })
}

/// The forward result of the absolute value, elementwise.
pub open spec fn abs_fwd(x: Seq<int>) -> Seq<int> {
    x.map_values(|v: int| if v < 0 { -v } else { v })
}

/// The local derivative of the absolute value: the sign of the input.
pub open spec fn abs_factor(x: Seq<int>) -> Seq<int> {
    x.map_values(|v: int| if v < 0 { -1int } else if v > 0 { 1int } else { 0int })
}

/// The handle points into the tape and its buffer there has the type's
/// element count.
pub open spec fn tracked_on<T: HasGradient>(x: T, tape: GradientTape) -> bool {
    x.spec_grad() matches Some(g) ==> g.gradient_ref.index < tape.bufs().len()
        && tape.bufs()[g.gradient_ref.index as int].len() == elem_count(T::spec_shape())
}

/// What a differentiable elementwise operation leaves behind, given the
/// forward result `fwd` and the local derivative `fac` it must push: both
/// operands recorded (the input keeps or receives its slot, the result
/// always receives a fresh one), the forward result computed into the new
/// value, and one backward step pushed that will send `fac` times the
/// result's gradient into the input's slot.
pub open spec fn op_recorded<T: HasGradient>(
    x0: T,
    t0: GradientTape,
    x1: T,
    t1: GradientTape,
    y: T,
    fwd: Seq<int>,
    fac: Seq<int>,
) -> bool {
    let n = elem_count(T::spec_shape());
    &&& y.view_data() == fwd
    &&& x1.view_data() == x0.view_data()
    &&& t1.wf()
    &&& (x0.spec_grad() matches Some(g) ==> {
        &&& x1.spec_grad() == x0.spec_grad()
        &&& y.spec_grad() matches Some(h) && h.gradient_ref.index == t0.bufs().len()
        &&& t1.bufs() == t0.bufs().push(zero_buf(n))
        &&& t1.shape_seqs() == t0.shape_seqs().push(T::spec_shape())
        &&& t1.step_models() == t0.step_models().push(
            (StepModel {
                from: t0.bufs().len() as int,
                to: g.gradient_ref.index as int,
                factor: fac,
            }),
        )
    })
    &&& (x0.spec_grad() is None ==> {
        &&& x1.spec_grad() matches Some(g) && g.gradient_ref.index == t0.bufs().len()
        &&& y.spec_grad() matches Some(h) && h.gradient_ref.index == t0.bufs().len() + 1
        &&& t1.bufs() == t0.bufs().push(zero_buf(n)).push(zero_buf(n))
        &&& t1.shape_seqs() == t0.shape_seqs().push(T::spec_shape()).push(T::spec_shape())
        &&& t1.step_models() == t0.step_models().push(
            (StepModel {
                from: t0.bufs().len() as int + 1,
                to: t0.bufs().len() as int,
                factor: fac,
            }),
        )
    })
}

/// Differentiable elementwise operations. Each one records its input if it
/// is not yet tracked, computes the forward result into a fresh tracked
/// value, and pushes onto the tape the backward step that carries the
/// operation's analytic derivative.
pub trait Activations: HasGradient {
    /// Elementwise square; the pushed local derivative is `2 * x`.
    fn square(&mut self, tape: &mut GradientTape) -> (y: Self)
        requires
            old(self).view_data().len() == elem_count(Self::spec_shape()),
            old(tape).wf(),
            tracked_on(*old(self), *old(tape)),
            forall|i: int|
                0 <= i < old(self).view_data().len() ==> {
                    &&& i64::MIN <= #[trigger] old(self).view_data()[i] * old(self).view_data()[i]
                        <= i64::MAX
                    &&& i64::MIN <= 2 * old(self).view_data()[i] <= i64::MAX
                },
        ensures
            op_recorded(
                *old(self),
                *old(tape),
                *final(self),
                *final(tape),
                y,
                square_fwd(old(self).view_data()),
                square_factor(old(self).view_data()),
            ),
    ;

    /// Elementwise rectifier; the pushed local derivative is one where the
    /// input is positive and zero elsewhere.
    fn relu(&mut self, tape: &mut GradientTape) -> (y: Self)
        requires
            old(self).view_data().len() == elem_count(Self::spec_shape()),
            old(tape).wf(),
            tracked_on(*old(self), *old(tape)),
        ensures
            op_recorded(
                *old(self),
                *old(tape),
                *final(self),
                *final(tape),
                y,
                relu_fwd(old(self).view_data()),
                relu_factor(old(self).view_data()),
            ),
    ;

    /// Elementwise absolute value; the pushed local derivative is the sign
    /// of the input.
    fn abs(&mut self, tape: &mut GradientTape) -> (y: Self)
        requires
            old(self).view_data().len() == elem_count(Self::spec_shape()),
            old(tape).wf(),
            tracked_on(*old(self), *old(tape)),
            forall|i: int| 0 <= i < old(self).view_data().len() ==> old(self).view_data()[i]
                > i64::MIN,
        ensures
            op_recorded(
                *old(self),
                *old(tape),
                *final(self),
                *final(tape),
                y,
                abs_fwd(old(self).view_data()),
                abs_factor(old(self).view_data()),
            ),
    ;
}

/// The shared tail of every differentiable elementwise operation: record the
/// input, build the result from the forward buffer, record it, and push the
/// backward step carrying the local derivative.
fn attach_and_push<T: HasGradient>(x: &mut T, tape: &mut GradientTape, fwd: Vec<i64>, fac: Vec<
    i64,
>) -> (y: T)
    requires
        old(x).view_data().len() == elem_count(T::spec_shape()),
        old(tape).wf(),
        tracked_on(*old(x), *old(tape)),
        fwd@.len() == elem_count(T::spec_shape()),
        fac@.len() == elem_count(T::spec_shape()),
    ensures
        op_recorded(
            *old(x),
            *old(tape),
            *final(x),
            *final(tape),
            y,
            fwd@.map_values(|v: i64| v as int),
            fac@.map_values(|v: i64| v as int),
        ),
{
    x.record(tape);
    let g = match x.grad() {
        Some(g) => g,
        None => unreached(),
    };
    let mut y = T::from_data(fwd);
    y.record(tape);
    let h = match y.grad() {
        Some(h) => h,
        None => unreached(),
    };
    tape.push_backward_step(h.gradient_ref, g.gradient_ref, fac);
    y
}

impl<T: HasGradient> Activations for T {
    #[verifier::loop_isolation(false)]
    fn square(&mut self, tape: &mut GradientTape) -> (y: Self) {
        let n = self.data().len();
        let mut fwd: Vec<i64> = Vec::new();
        let mut fac: Vec<i64> = Vec::new();
        let mut i: usize = 0;
        while i < n
            invariant
                0 <= i <= n,
                fwd@.len() == i,
                fac@.len() == i,
                forall|j: int|
                    0 <= j < i ==> #[trigger] fwd@[j] as int == self.view_data()[j]
                        * self.view_data()[j],
                forall|j: int| 0 <= j < i ==> #[trigger] fac@[j] as int == 2 * self.view_data()[j],
            decreases n - i,
        {
            let v = self.data()[i];
            proof {
                assert(self.view_data()[i as int] == v as int);
            }
            fwd.push(v * v);
            fac.push(2 * v);
            i += 1;
        }
        proof {
            assert(fwd@.map_values(|v: i64| v as int) =~= square_fwd(self.view_data()));
            assert(fac@.map_values(|v: i64| v as int) =~= square_factor(self.view_data()));
        }
        attach_and_push(self, tape, fwd, fac)
    }

    #[verifier::loop_isolation(false)]
    fn relu(&mut self, tape: &mut GradientTape) -> (y: Self) {
        let n = self.data().len();
        let mut fwd: Vec<i64> = Vec::new();
        let mut fac: Vec<i64> = Vec::new();
        let mut i: usize = 0;
        while i < n
            invariant
                0 <= i <= n,
                fwd@.len() == i,
                fac@.len() == i,
                forall|j: int|
                    0 <= j < i ==> #[trigger] fwd@[j] as int == (if self.view_data()[j] > 0 {
                        self.view_data()[j]
                    } else {
                        0
                    }),
                forall|j: int|
                    0 <= j < i ==> #[trigger] fac@[j] as int == (if self.view_data()[j] > 0 {
                        1int
                    } else {
                        0int
                    }),
            decreases n - i,
        {
            let v = self.data()[i];
            proof {
                assert(self.view_data()[i as int] == v as int);
            }
            fwd.push(if v > 0 { v } else { 0 });
            fac.push(if v > 0 { 1 } else { 0 });
            i += 1;
        }
        proof {
            assert(fwd@.map_values(|v: i64| v as int) =~= relu_fwd(self.view_data()));
            assert(fac@.map_values(|v: i64| v as int) =~= relu_factor(self.view_data()));
        }
        attach_and_push(self, tape, fwd, fac)
    }

    #[verifier::loop_isolation(false)]
    fn abs(&mut self, tape: &mut GradientTape) -> (y: Self) {
        let n = self.data().len();
        let mut fwd: Vec<i64> = Vec::new();
        let mut fac: Vec<i64> = Vec::new();
        let mut i: usize = 0;
        while i < n
            invariant
                0 <= i <= n,
                fwd@.len() == i,
                fac@.len() == i,
                forall|j: int|
                    0 <= j < i ==> #[trigger] fwd@[j] as int == (if self.view_data()[j] < 0 {
                        -self.view_data()[j]
                    } else {
                        self.view_data()[j]
                    }),
                forall|j: int|
                    0 <= j < i ==> #[trigger] fac@[j] as int == (if self.view_data()[j] < 0 {
                        -1int
                    } else if self.view_data()[j] > 0 {
                        1int
                    } else {
                        0int
                    }),
            decreases n - i,
        {
            let v = self.data()[i];
            proof {
                assert(self.view_data()[i as int] == v as int);
            }
            fwd.push(if v < 0 { -v } else { v });
            fac.push(
                if v < 0 {
                    -1
                } else if v > 0 {
                    1
                } else {
                    0
                },
            );
            i += 1;
        }
        proof {
            assert(fwd@.map_values(|v: i64| v as int) =~= abs_fwd(self.view_data()));
            assert(fac@.map_values(|v: i64| v as int) =~= abs_factor(self.view_data()));
        }
        attach_and_push(self, tape, fwd, fac)
    }
}

/// A tensor: a shaped value that can carry a gradient handle and take part
/// in differentiable elementwise operations.
pub trait Tensor: Default + IsShapedArray + HasGradient + Activations {

}

/// A scalar: the empty shape, one element.
pub struct Tensor0D {
    data: Vec<i64>,
    grad: Option<Gradient>,
}

/// A vector of `N` elements.
pub struct Tensor1D<const N: usize> {
    data: Vec<i64>,
    grad: Option<Gradient>,
}

/// A matrix of `M` rows and `N` columns, stored row-major.
pub struct Tensor2D<const M: usize, const N: usize> {
    data: Vec<i64>,
    grad: Option<Gradient>,
}

pub proof fn lemma_elem_count_scalar()
    ensures
        elem_count(Seq::<usize>::empty()) == 1,
{
}

pub proof fn lemma_elem_count_vector(n: usize)
    ensures
        elem_count(seq![n]) == n,
{
    assert(seq![n].skip(1) =~= Seq::<usize>::empty());
    assert(elem_count(Seq::<usize>::empty()) == 1);
    assert(elem_count(seq![n]) == seq![n][0] * elem_count(seq![n].skip(1)));
}

pub proof fn lemma_elem_count_matrix(m: usize, n: usize)
    ensures
        elem_count(seq![m, n]) == m * n,
{
    assert(seq![m, n].skip(1) =~= seq![n]);
    lemma_elem_count_vector(n);
}

impl IsShapedArray for Tensor0D {
    open spec fn spec_shape() -> Seq<usize> {
        Seq::empty()
    }

    closed spec fn view_data(&self) -> Seq<int> {
        self.data@.map_values(|x: i64| x as int)
    }

    closed spec fn spec_grad(&self) -> Option<Gradient> {
        self.grad
    }

    fn shape() -> (s: Vec<usize>) {
        let s: Vec<usize> = Vec::new();
        proof {
            assert(s@ =~= Seq::<usize>::empty());
        }
        s
    }

    fn num_elements(&self) -> (n: usize) {
        self.data.len()
    }

    fn data(&self) -> (d: &Vec<i64>) {
        &self.data
    }

    fn from_data(data: Vec<i64>) -> (t: Self) {
        Tensor0D { data, grad: None }
    }

    fn set_data(&mut self, data: Vec<i64>) {
        self.data = data;
    }
}

impl<const N: usize> IsShapedArray for Tensor1D<N> {
    open spec fn spec_shape() -> Seq<usize> {
        seq![N]
    }

    closed spec fn view_data(&self) -> Seq<int> {
        self.data@.map_values(|x: i64| x as int)
    }

    closed spec fn spec_grad(&self) -> Option<Gradient> {
        self.grad
    }

    fn shape() -> (s: Vec<usize>) {
        let mut s: Vec<usize> = Vec::new();
        s.push(N);
        proof {
            assert(s@ =~= seq![N]);
        }
        s
    }

    fn num_elements(&self) -> (n: usize) {
        self.data.len()
    }

    fn data(&self) -> (d: &Vec<i64>) {
        &self.data
    }

    fn from_data(data: Vec<i64>) -> (t: Self) {
        Tensor1D { data, grad: None }
    }

    fn set_data(&mut self, data: Vec<i64>) {
        self.data = data;
    }
}

impl<const M: usize, const N: usize> IsShapedArray for Tensor2D<M, N> {
    open spec fn spec_shape() -> Seq<usize> {
        seq![M, N]
    }

    closed spec fn view_data(&self) -> Seq<int> {
        self.data@.map_values(|x: i64| x as int)
    }

    closed spec fn spec_grad(&self) -> Option<Gradient> {
        self.grad
    }

    fn shape() -> (s: Vec<usize>) {
        let mut s: Vec<usize> = Vec::new();
        s.push(M);
        s.push(N);
        proof {
            assert(s@ =~= seq![M, N]);
        }
        s
    }

    fn num_elements(&self) -> (n: usize) {
        self.data.len()
    }

    fn data(&self) -> (d: &Vec<i64>) {
        &self.data
    }

    fn from_data(data: Vec<i64>) -> (t: Self) {
        Tensor2D { data, grad: None }
    }

    fn set_data(&mut self, data: Vec<i64>) {
        self.data = data;
    }
}

impl HasGradient for Tensor0D {
    fn grad(&self) -> (g: Option<Gradient>) {
        self.grad
    }

    fn set_grad(&mut self, g: Option<Gradient>) {
        self.grad = g;
    }
}

impl<const N: usize> HasGradient for Tensor1D<N> {
    fn grad(&self) -> (g: Option<Gradient>) {
        self.grad
    }

    fn set_grad(&mut self, g: Option<Gradient>) {
        self.grad = g;
    }
}

impl<const M: usize, const N: usize> HasGradient for Tensor2D<M, N> {
    fn grad(&self) -> (g: Option<Gradient>) {
        self.grad
    }

    fn set_grad(&mut self, g: Option<Gradient>) {
        self.grad = g;
    }
}

impl Default for Tensor0D {
    /// The zero scalar, untracked.
    fn default() -> (t: Self)
        ensures
            t.view_data() == zero_buf(elem_count(Self::spec_shape())),
            t.spec_grad() is None,
    {
        let mut v: Vec<i64> = Vec::new();
        v.push(0i64);
        let t = Tensor0D { data: v, grad: None };
        proof {
            lemma_elem_count_scalar();
            assert(t.view_data() =~= zero_buf(1));
        }
        t
    }
}

impl<const N: usize> Default for Tensor1D<N> {
    /// The zero vector, untracked.
    fn default() -> (t: Self)
        ensures
            t.view_data() == zero_buf(elem_count(Self::spec_shape())),
            t.spec_grad() is None,
    {
        let mut v: Vec<i64> = Vec::new();
        let mut i: usize = 0;
        while i < N
            invariant
                0 <= i <= N,
                v@.len() == i,
                forall|j: int| 0 <= j < i ==> #[trigger] v@[j] == 0i64,
            decreases N - i,
        {
            v.push(0i64);
            i += 1;
        }
        let t = Tensor1D { data: v, grad: None };
        proof {
            lemma_elem_count_vector(N);
            assert(t.view_data() =~= zero_buf(N as int));
        }
        t
    }
}

impl<const M: usize, const N: usize> Default for Tensor2D<M, N> {
    /// The zero matrix, untracked.
    #[verifier::loop_isolation(false)]
    fn default() -> (t: Self)
        ensures
            t.view_data() == zero_buf(elem_count(Self::spec_shape())),
            t.spec_grad() is None,
    {
        let mut v: Vec<i64> = Vec::new();
        let mut r: usize = 0;
        while r < M
            invariant
                0 <= r <= M,
                v@.len() == r * N,
                forall|j: int| 0 <= j < v@.len() ==> #[trigger] v@[j] == 0i64,
            decreases M - r,
        {
            let mut c: usize = 0;
            while c < N
                invariant
                    0 <= c <= N,
                    v@.len() == r * N + c,
                    forall|j: int| 0 <= j < v@.len() ==> #[trigger] v@[j] == 0i64,
                decreases N - c,
            {
                v.push(0i64);
                c += 1;
            }
            proof {
                assert((r + 1) * N == r * N + N) by (nonlinear_arith);
            }
            r += 1;
        }
        let t = Tensor2D { data: v, grad: None };
        proof {
            lemma_elem_count_matrix(M, N);
            assert(t.view_data() =~= zero_buf(M * N));
        }
        t
    }
}

impl Tensor for Tensor0D {

}

impl<const N: usize> Tensor for Tensor1D<N> {

}

impl<const M: usize, const N: usize> Tensor for Tensor2D<M, N> {

}

} // verus!
