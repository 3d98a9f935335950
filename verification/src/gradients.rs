//! The gradient tape: slot allocation, backward-step recording, and the
//! reverse-order replay that accumulates gradients.

use vstd::prelude::*;

verus! {

/// Number of elements a shape describes: the product of its dimensions.
/// An empty shape describes a scalar, so its count is 1.
pub open spec fn elem_count(shape: Seq<usize>) -> int
    decreases shape.len(),
{
    if shape.len() == 0 {
        1
    } else {
        shape[0] * elem_count(shape.skip(1))
    }
}

/// An all-zero gradient buffer of `n` elements.
pub open spec fn zero_buf(n: int) -> Seq<int> {
    Seq::new(n as nat, |i: int| 0)
}

/// A shape with a zero dimension describes no elements.
pub proof fn lemma_elem_count_zero(shape: Seq<usize>, i: int)
    requires
        0 <= i < shape.len(),
        shape[i] == 0,
    ensures
        elem_count(shape) == 0,
    decreases i,
{
    if i == 0 {
        assert(elem_count(shape) == 0 * elem_count(shape.skip(1)));
    } else {
        assert(shape.skip(1)[i - 1] == shape[i]);
        lemma_elem_count_zero(shape.skip(1), i - 1);
        assert(elem_count(shape) == shape[0] * 0);
    }
}

/// Dropping leading dimensions of an all-positive shape cannot grow the count.
pub proof fn lemma_elem_count_skip_le(shape: Seq<usize>, j: int)
    requires
        0 <= j <= shape.len(),
        forall|i: int| 0 <= i < shape.len() ==> #[trigger] shape[i] >= 1,
    ensures
        elem_count(shape.skip(j)) >= 1,
        elem_count(shape.skip(j)) <= elem_count(shape),
    decreases j,
{
    if j == 0 {
        assert(shape.skip(0) =~= shape);
        lemma_elem_count_all_pos(shape);
    } else {
        lemma_elem_count_skip_le(shape, j - 1);
        assert(forall|i: int|
            0 <= i < shape.skip(j).len() ==> #[trigger] shape.skip(j)[i] == shape[i + j]);
        lemma_elem_count_all_pos(shape.skip(j));
        let prev = shape.skip(j - 1);
        assert(prev.skip(1) =~= shape.skip(j));
        assert(elem_count(prev) == prev[0] * elem_count(shape.skip(j)));
        assert(prev[0] == shape[j - 1]);
        assert(shape[j - 1] * elem_count(shape.skip(j)) >= elem_count(shape.skip(j)))
            by (nonlinear_arith)
            requires
                shape[j - 1] >= 1,
                elem_count(shape.skip(j)) >= 1,
        ;
    }
}

pub proof fn lemma_elem_count_all_pos(shape: Seq<usize>)
    requires
        forall|i: int| 0 <= i < shape.len() ==> #[trigger] shape[i] >= 1,
    ensures
        elem_count(shape) >= 1,
    decreases shape.len(),
{
    if shape.len() > 0 {
        assert(forall|i: int|
            0 <= i < shape.skip(1).len() ==> #[trigger] shape.skip(1)[i] == shape[i + 1]);
        lemma_elem_count_all_pos(shape.skip(1));
        assert(shape[0] * elem_count(shape.skip(1)) >= 1) by (nonlinear_arith)
            requires
                shape[0] >= 1,
                elem_count(shape.skip(1)) >= 1,
        ;
    }
}

/// Number of elements of a shape, computed: the product of the dimensions.
pub fn shape_len(shape: &Vec<usize>) -> (n: usize)
    requires
        elem_count(shape@) <= usize::MAX as int,
    ensures
        n == elem_count(shape@),
{
    let dims = shape.len();
    let mut i: usize = 0;
    while i < dims
        invariant
            dims == shape@.len(),
            0 <= i <= dims,
            forall|k: int| 0 <= k < i ==> #[trigger] shape@[k] >= 1,
        decreases dims - i,
    {
        if shape[i] == 0 {
            proof {
                lemma_elem_count_zero(shape@, i as int);
            }
            return 0;
        }
        i += 1;
    }
    let mut acc: usize = 1;
    let mut j: usize = dims;
    while j > 0
        invariant
            dims == shape@.len(),
            0 <= j <= dims,
            forall|k: int| 0 <= k < dims ==> #[trigger] shape@[k] >= 1,
            elem_count(shape@) <= usize::MAX as int,
            acc == elem_count(shape@.skip(j as int)),
        decreases j,
    {
        j -= 1;
        proof {
            let suffix = shape@.skip(j as int);
            assert(suffix.skip(1) =~= shape@.skip(j + 1));
            assert(elem_count(suffix) == shape@[j as int] * elem_count(shape@.skip(j + 1)));
            lemma_elem_count_skip_le(shape@, j as int);
        }
        acc = shape[j] * acc;
    }
    proof {
        assert(shape@.skip(0) =~= shape@);
    }
    acc
}

/// A reference into tape-owned gradient storage: the index of the buffer and
/// the number of elements it was registered with. The dimensions themselves
/// are kept by the tape.
#[derive(Clone, Copy, PartialEq, Eq, Structural, Debug)]
pub struct GradientSlot {
    pub index: usize,
    pub len: usize,
}

/// A tensor value's optional attachment: the slot the value is currently
/// registered under.
#[derive(Clone, Copy, PartialEq, Eq, Structural, Debug)]
pub struct Gradient {
    pub gradient_ref: GradientSlot,
}

impl Gradient {
    pub fn new(gradient_ref: GradientSlot) -> (g: Gradient)
        ensures
            g.gradient_ref == gradient_ref,
    {
        Gradient { gradient_ref }
    }
}

/// Fatal failures of the tape machinery. Neither is recoverable: a training
/// loop is expected to restart, not resume, past one of these.
#[derive(Clone, Copy, PartialEq, Eq, Structural, Debug)]
pub enum TapeError {
    /// A value without an attached gradient handle was asked to update
    /// itself: a contract violation in the calling code.
    MissingGradient,
    /// An accumulation or update left the representable range of the scalar
    /// type.
    Overflow,
}

/// The mathematical content of one recorded backward step: the gradient at
/// slot `to` accumulates, elementwise, `factor` times the gradient at slot
/// `from`. `factor` is the local derivative the recording operation captured.
pub struct StepModel {
    pub from: int,
    pub to: int,
    pub factor: Seq<int>,
}

/// A step fits the buffers it will read and write.
pub open spec fn step_wf(bufs: Seq<Seq<int>>, st: StepModel) -> bool {
    &&& 0 <= st.from < bufs.len()
    &&& 0 <= st.to < bufs.len()
    &&& st.factor.len() == bufs[st.from].len()
    &&& st.factor.len() == bufs[st.to].len()
}

pub open spec fn steps_wf(bufs: Seq<Seq<int>>, steps: Seq<StepModel>) -> bool {
    forall|k: int| 0 <= k < steps.len() ==> step_wf(bufs, #[trigger] steps[k])
}

/// One backward step applied to the buffers: the target slot accumulates the
/// elementwise product of the step's factor with the source slot's gradient.
/// Contributions are summed, never overwritten.
pub open spec fn apply_step(bufs: Seq<Seq<int>>, st: StepModel) -> Seq<Seq<int>> {
    bufs.update(
        st.to,
        Seq::new(bufs[st.to].len(), |i: int| bufs[st.to][i] + st.factor[i] * bufs[st.from][i]),
    )
}

/// Every intermediate value of one applied step stays representable in `i64`.
pub open spec fn step_in_range(bufs: Seq<Seq<int>>, st: StepModel) -> bool {
    forall|i: int|
        0 <= i < st.factor.len() ==> {
            &&& i64::MIN <= #[trigger] st.factor[i] * bufs[st.from][i] <= i64::MAX
            &&& i64::MIN <= bufs[st.to][i] + st.factor[i] * bufs[st.from][i] <= i64::MAX
        }
}

/// The backward replay: the steps are applied in strict reverse of the order
/// in which they were pushed, so the last element of `steps` acts first.
pub open spec fn replay(bufs: Seq<Seq<int>>, steps: Seq<StepModel>) -> Seq<Seq<int>>
    decreases steps.len(),
{
    if steps.len() == 0 {
        bufs
    } else {
        replay(apply_step(bufs, steps.last()), steps.drop_last())
    }
}

/// The whole replay stays within `i64` range, step by step.
pub open spec fn replay_in_range(bufs: Seq<Seq<int>>, steps: Seq<StepModel>) -> bool
    decreases steps.len(),
{
    if steps.len() == 0 {
        true
    } else {
        step_in_range(bufs, steps.last()) && replay_in_range(
            apply_step(bufs, steps.last()),
            steps.drop_last(),
        )
    }
}

/// Replay never changes the number of buffers nor any buffer's length, and
/// so keeps every step well-formed.
pub proof fn lemma_replay_lens(bufs: Seq<Seq<int>>, steps: Seq<StepModel>)
    requires
        steps_wf(bufs, steps),
    ensures
        replay(bufs, steps).len() == bufs.len(),
        forall|i: int|
            0 <= i < bufs.len() ==> #[trigger] replay(bufs, steps)[i].len() == bufs[i].len(),
    decreases steps.len(),
{
    if steps.len() > 0 {
        let st = steps.last();
        let b1 = apply_step(bufs, st);
        assert(step_wf(bufs, st));
        assert(b1.len() == bufs.len());
        assert(forall|i: int| 0 <= i < bufs.len() ==> #[trigger] b1[i].len() == bufs[i].len());
        assert(steps_wf(b1, steps.drop_last())) by {
            assert forall|k: int| 0 <= k < steps.drop_last().len() implies step_wf(
                b1,
                #[trigger] steps.drop_last()[k],
            ) by {
                assert(steps.drop_last()[k] == steps[k]);
                assert(step_wf(bufs, steps[k]));
            }
        }
        lemma_replay_lens(b1, steps.drop_last());
    }
}

/// View of a sequence of gradient buffers as sequences of mathematical
/// integers.
pub open spec fn buf_views(bufs: Seq<Vec<i64>>) -> Seq<Seq<int>> {
    bufs.map_values(|b: Vec<i64>| b@.map_values(|x: i64| x as int))
}

pub(crate) fn copy_row(src: &Vec<i64>) -> (r: Vec<i64>)
    ensures
        r@ == src@,
{
    let mut r: Vec<i64> = Vec::new();
    let mut i: usize = 0;
    while i < src.len()
        invariant
            0 <= i <= src@.len(),
            r@.len() == i,
            forall|j: int| 0 <= j < i ==> #[trigger] r@[j] == src@[j],
        decreases src@.len() - i,
    {
        r.push(src[i]);
        i += 1;
    }
    proof {
        assert(r@ =~= src@);
    }
    r
}

fn copy_bufs(src: &Vec<Vec<i64>>) -> (r: Vec<Vec<i64>>)
    ensures
        r@.len() == src@.len(),
        buf_views(r@) == buf_views(src@),
{
    let mut r: Vec<Vec<i64>> = Vec::new();
    let mut i: usize = 0;
    while i < src.len()
        invariant
            0 <= i <= src@.len(),
            r@.len() == i,
            forall|j: int| 0 <= j < i ==> (#[trigger] r@[j])@ == src@[j]@,
        decreases src@.len() - i,
    {
        r.push(copy_row(&src[i]));
        i += 1;
    }
    proof {
        assert(buf_views(r@) =~= buf_views(src@));
    }
    r
}

/// One recorded backward step: see [`StepModel`] for what it means.
struct BackwardStep {
    from: usize,
    to: usize,
    factor: Vec<i64>,
}

impl BackwardStep {
    spec fn model(&self) -> StepModel {
        StepModel {
            from: self.from as int,
            to: self.to as int,
            factor: self.factor@.map_values(|x: i64| x as int),
        }
    }
}

/// Replaying a single step is applying it.
proof fn lemma_replay_one(bufs: Seq<Seq<int>>, m: StepModel)
    ensures
        replay(bufs, seq![m]) == apply_step(bufs, m),
        replay_in_range(bufs, seq![m]) == step_in_range(bufs, m),
{
    let s = seq![m];
    assert(s.last() == m);
    assert(s.drop_last() =~= Seq::<StepModel>::empty());
    assert(s.drop_last().len() == 0);
    assert(replay(apply_step(bufs, m), s.drop_last()) == apply_step(bufs, m));
    assert(replay(bufs, s) == replay(apply_step(bufs, s.last()), s.drop_last()));
    assert(replay_in_range(apply_step(bufs, m), s.drop_last()));
}

/// If one step of the replay leaves the representable range, the whole
/// replay does.
proof fn lemma_backward_abort(
    seeded: Seq<Seq<int>>,
    models: Seq<StepModel>,
    k: int,
    pre: Seq<Seq<int>>,
)
    requires
        0 <= k < models.len(),
        pre == replay(seeded, models.skip(k + 1)),
        replay_in_range(seeded, models.skip(k + 1)),
        !step_in_range(pre, models[k]),
    ensures
        !replay_in_range(seeded, models),
{
    let m = models[k];
    let rest = models.skip(k + 1);
    assert(models.skip(k) =~= seq![m] + rest);
    lemma_replay_concat(seeded, seq![m], rest);
    assert(seq![m].last() == m);
    assert(seq![m].drop_last() =~= Seq::<StepModel>::empty());
    assert(!replay_in_range(pre, seq![m]));
    assert(!replay_in_range(seeded, models.skip(k)));
    assert(models =~= models.take(k) + models.skip(k));
    lemma_replay_concat(seeded, models.take(k), models.skip(k));
}

/// The gradient tape: the single owner of every gradient buffer and of the
/// ordered backward-step sequence. Slots are assigned densely, in the order
/// registration happens, and are never reused within one tape's lifetime.
pub struct GradientTape {
    buffers: Vec<Vec<i64>>,
    shapes: Vec<Vec<usize>>,
    steps: Vec<BackwardStep>,
}

impl GradientTape {
    /// The gradient buffers, slot by slot.
    pub closed spec fn bufs(&self) -> Seq<Seq<int>> {
        buf_views(self.buffers@)
    }

    /// The shape each slot was registered with.
    pub closed spec fn shape_seqs(&self) -> Seq<Seq<usize>> {
        self.shapes@.map_values(|s: Vec<usize>| s@)
    }

    /// The recorded backward steps, in push order.
    pub closed spec fn step_models(&self) -> Seq<StepModel> {
        self.steps@.map_values(|s: BackwardStep| s.model())
    }

    /// Buffers match their registered shapes and every recorded step fits
    /// the buffers it touches.
    pub closed spec fn wf(&self) -> bool {
        &&& self.buffers@.len() == self.shapes@.len()
        &&& forall|i: int|
            0 <= i < self.buffers@.len() ==> (#[trigger] self.buffers@[i])@.len() == elem_count(
                self.shapes@[i]@,
            )
        &&& steps_wf(self.bufs(), self.step_models())
    }

    /// An empty tape: no slots, no steps.
    pub fn new() -> (t: GradientTape)
        ensures
            t.wf(),
            t.bufs() == Seq::<Seq<int>>::empty(),
            t.shape_seqs() == Seq::<Seq<usize>>::empty(),
            t.step_models() == Seq::<StepModel>::empty(),
    {
        let t = GradientTape { buffers: Vec::new(), shapes: Vec::new(), steps: Vec::new() };
        proof {
            assert(t.bufs() =~= Seq::<Seq<int>>::empty());
            assert(t.shape_seqs() =~= Seq::<Seq<usize>>::empty());
            assert(t.step_models() =~= Seq::<StepModel>::empty());
        }
        t
    }

    /// How many slots have been registered so far.
    pub fn num_slots(&self) -> (n: usize)
        ensures
            n == self.bufs().len(),
    {
        self.buffers.len()
    }

    /// How many backward steps have been pushed so far.
    pub fn num_steps(&self) -> (n: usize)
        ensures
            n == self.step_models().len(),
    {
        self.steps.len()
    }

    /// Allocates a fresh, zero-initialized gradient buffer for the given
    /// shape and returns the slot that now denotes it. Never mutates an
    /// existing slot; slot indices grow by one per call.
    pub fn register_gradient(&mut self, shape: Vec<usize>) -> (slot: GradientSlot)
        requires
            old(self).wf(),
            elem_count(shape@) <= usize::MAX as int,
        ensures
            final(self).wf(),
            slot.index == old(self).bufs().len(),
            slot.len == elem_count(shape@),
            final(self).bufs() == old(self).bufs().push(zero_buf(elem_count(shape@))),
            final(self).shape_seqs() == old(self).shape_seqs().push(shape@),
            final(self).step_models() == old(self).step_models(),
    {
        let n = shape_len(&shape);
        let mut buf: Vec<i64> = Vec::new();
        let mut k: usize = 0;
        while k < n
            invariant
                0 <= k <= n,
                buf@.len() == k,
                forall|i: int| 0 <= i < k ==> #[trigger] buf@[i] == 0i64,
            decreases n - k,
        {
            buf.push(0i64);
            k += 1;
        }
        let index = self.buffers.len();
        self.buffers.push(buf);
        self.shapes.push(shape);
        proof {
            let ghost zb = zero_buf(elem_count(shape@));
            assert(buf@.map_values(|x: i64| x as int) =~= zb);
            assert(self.bufs() =~= old(self).bufs().push(zb));
            assert(self.shape_seqs() =~= old(self).shape_seqs().push(shape@));
            assert(self.step_models() =~= old(self).step_models());
            assert(steps_wf(self.bufs(), self.step_models())) by {
                assert forall|k2: int| 0 <= k2 < self.step_models().len() implies step_wf(
                    self.bufs(),
                    #[trigger] self.step_models()[k2],
                ) by {
                    assert(step_wf(old(self).bufs(), old(self).step_models()[k2]));
                }
            }
        }
        GradientSlot { index, len: n }
    }

    /// Appends one backward step: when the tape is replayed, the slot `to`
    /// will accumulate `factor` times the gradient at the slot `from`.
    pub fn push_backward_step(&mut self, from: GradientSlot, to: GradientSlot, factor: Vec<i64>)
        requires
            old(self).wf(),
            from.index < old(self).bufs().len(),
            to.index < old(self).bufs().len(),
            factor@.len() == old(self).bufs()[from.index as int].len(),
            factor@.len() == old(self).bufs()[to.index as int].len(),
        ensures
            final(self).wf(),
            final(self).bufs() == old(self).bufs(),
            final(self).shape_seqs() == old(self).shape_seqs(),
            final(self).step_models() == old(self).step_models().push(
                (StepModel {
                    from: from.index as int,
                    to: to.index as int,
                    factor: factor@.map_values(|x: i64| x as int),
                }),
            ),
    {
        let ghost m = StepModel {
            from: from.index as int,
            to: to.index as int,
            factor: factor@.map_values(|x: i64| x as int),
        };
        let step = BackwardStep { from: from.index, to: to.index, factor };
        self.steps.push(step);
        proof {
            assert(self.bufs() =~= old(self).bufs());
            assert(self.shape_seqs() =~= old(self).shape_seqs());
            assert(self.step_models() =~= old(self).step_models().push(m));
            assert(steps_wf(self.bufs(), self.step_models())) by {
                assert forall|k2: int| 0 <= k2 < self.step_models().len() implies step_wf(
                    self.bufs(),
                    #[trigger] self.step_models()[k2],
                ) by {
                    if k2 < old(self).step_models().len() {
                        assert(step_wf(old(self).bufs(), old(self).step_models()[k2]));
                    } else {
                        assert(self.step_models()[k2] == m);
                    }
                }
            }
        }
    }

    /// Seeds the buffer at `seed_slot` with `seed`, then replays the recorded
    /// backward steps in strict reverse of the order in which they were
    /// pushed, summing each step's contribution into its target slot. On an
    /// overflow of the scalar type nothing is committed: the tape is left as
    /// it was.
    #[verifier::loop_isolation(false)]
    pub fn execute_backward(&mut self, seed_slot: GradientSlot, seed: &Vec<i64>) -> (r: Result<
        (),
        TapeError,
    >)
        requires
            old(self).wf(),
            seed_slot.index < old(self).bufs().len(),
            seed@.len() == old(self).bufs()[seed_slot.index as int].len(),
        ensures
            final(self).wf(),
            final(self).shape_seqs() == old(self).shape_seqs(),
            final(self).step_models() == old(self).step_models(),
            r is Ok <==> replay_in_range(
                old(self).bufs().update(
                    seed_slot.index as int,
                    seed@.map_values(|x: i64| x as int),
                ),
                old(self).step_models(),
            ),
            r is Ok ==> final(self).bufs() == replay(
                old(self).bufs().update(
                    seed_slot.index as int,
                    seed@.map_values(|x: i64| x as int),
                ),
                old(self).step_models(),
            ),
            r is Err ==> final(self).bufs() == old(self).bufs() && r == Err::<(), TapeError>(
                TapeError::Overflow,
            ),
    {
        let ghost models = self.step_models();
        let ghost seeded = old(self).bufs().update(
            seed_slot.index as int,
            seed@.map_values(|x: i64| x as int),
        );
        let mut work = copy_bufs(&self.buffers);
        let seed_copy = copy_row(seed);
        work.set(seed_slot.index, seed_copy);
        proof {
            assert(buf_views(work@) =~= seeded);
            assert(steps_wf(seeded, models)) by {
                assert forall|k2: int| 0 <= k2 < models.len() implies step_wf(
                    seeded,
                    #[trigger] models[k2],
                ) by {
                    assert(step_wf(old(self).bufs(), models[k2]));
                }
            }
        }
        let mut k = self.steps.len();
        while k > 0
            invariant
                0 <= k <= models.len(),
                work@.len() == seeded.len(),
                buf_views(work@) == replay(seeded, models.skip(k as int)),
                replay_in_range(seeded, models.skip(k as int)),
            decreases k,
        {
            k -= 1;
            let ghost m = models[k as int];
            let ghost rest = models.skip(k as int + 1);
            let ghost pre = buf_views(work@);
            proof {
                assert(models.skip(k as int) =~= seq![m] + rest);
                lemma_replay_lens(seeded, rest);
                assert(step_wf(seeded, m));
                assert(forall|i: int|
                    0 <= i < seeded.len() ==> #[trigger] pre[i].len() == seeded[i].len());
            }
            let st_from = self.steps[k].from;
            let st_to = self.steps[k].to;
            let flen = self.steps[k].factor.len();
            proof {
                assert(m == self.steps@[k as int].model());
                assert(m.factor.len() == flen);
                assert(m.from == st_from as int);
                assert(m.to == st_to as int);
                assert(pre[st_from as int].len() == flen);
                assert(pre[st_to as int].len() == flen);
                assert(work@[st_from as int]@.len() == flen);
                assert(work@[st_to as int]@.len() == flen);
            }
            let mut new_row: Vec<i64> = Vec::new();
            let mut i: usize = 0;
            while i < flen
                invariant
                    0 <= i <= flen,
                    new_row@.len() == i,
                    buf_views(work@) == pre,
                    work@.len() == seeded.len(),
                    forall|j: int|
                        0 <= j < i ==> #[trigger] new_row@[j] as int == pre[st_to as int][j]
                            + m.factor[j] * pre[st_from as int][j],
                    forall|j: int|
                        0 <= j < i ==> {
                            &&& i64::MIN <= #[trigger] m.factor[j] * pre[st_from as int][j]
                                <= i64::MAX
                            &&& i64::MIN <= pre[st_to as int][j] + m.factor[j] * pre[st_from
                                as int][j] <= i64::MAX
                        },
                decreases flen - i,
            {
                let f = self.steps[k].factor[i];
                let u = work[st_from][i];
                let t0 = work[st_to][i];
                let p = match f.checked_mul(u) {
                    Some(p) => p,
                    None => {
                        proof {
                            assert(m.factor[i as int] == f as int);
                            assert(pre[m.from][i as int] == u as int);
                            assert(!step_in_range(pre, m));
                            lemma_backward_abort(seeded, models, k as int, pre);
                        }
                        return Err(TapeError::Overflow);
                    },
                };
                let s = match t0.checked_add(p) {
                    Some(s) => s,
                    None => {
                        proof {
                            assert(m.factor[i as int] == f as int);
                            assert(pre[m.from][i as int] == u as int);
                            assert(pre[m.to][i as int] == t0 as int);
                            assert(!step_in_range(pre, m));
                            lemma_backward_abort(seeded, models, k as int, pre);
                        }
                        return Err(TapeError::Overflow);
                    },
                };
                new_row.push(s);
                i += 1;
            }
            work.set(st_to, new_row);
            proof {
                assert(step_in_range(pre, m));
                assert(buf_views(work@) =~= apply_step(pre, m)) by {
                    assert(buf_views(work@).len() == pre.len());
                    assert forall|j: int| 0 <= j < pre.len() implies buf_views(work@)[j]
                        =~= apply_step(pre, m)[j] by {
                        if j == st_to as int {
                            assert(buf_views(work@)[j] =~= Seq::new(
                                pre[m.to].len(),
                                |i2: int| pre[m.to][i2] + m.factor[i2] * pre[m.from][i2],
                            ));
                        }
                    }
                }
                lemma_replay_concat(seeded, seq![m], rest);
                lemma_replay_one(pre, m);
                assert(buf_views(work@) == replay(seeded, models.skip(k as int)));
            }
        }
        proof {
            assert(models.skip(0) =~= models);
        }
        self.buffers = work;
        proof {
            lemma_replay_lens(seeded, models);
            assert(self.bufs() == replay(seeded, models));
            assert(self.shape_seqs() =~= old(self).shape_seqs());
            assert(self.step_models() =~= old(self).step_models());
            assert(forall|i: int|
                0 <= i < seeded.len() ==> #[trigger] seeded[i].len() == old(self).bufs()[i].len());
            assert(self.wf()) by {
                assert forall|i: int| 0 <= i < self.buffers@.len() implies (
                #[trigger] self.buffers@[i])@.len() == elem_count(self.shapes@[i]@) by {
                    assert(self.bufs()[i].len() == seeded[i].len());
                    assert((old(self).buffers@[i])@.len() == elem_count(old(self).shapes@[i]@));
                }
                assert forall|k2: int| 0 <= k2 < self.step_models().len() implies step_wf(
                    self.bufs(),
                    #[trigger] self.step_models()[k2],
                ) by {
                    assert(step_wf(old(self).bufs(), old(self).step_models()[k2]));
                }
            }
        }
        Ok(())
    }

    /// Read access to a slot's accumulated gradient buffer. Before a backward
    /// pass has touched the slot this is its zero-initialized buffer.
    pub fn resolve(&self, slot: GradientSlot) -> (b: &Vec<i64>)
        requires
            self.wf(),
            slot.index < self.bufs().len(),
        ensures
            b@.map_values(|x: i64| x as int) == self.bufs()[slot.index as int],
    {
        &self.buffers[slot.index]
    }

    /// The shape a slot was registered with.
    pub fn slot_shape(&self, slot: GradientSlot) -> (s: &Vec<usize>)
        requires
            self.wf(),
            slot.index < self.bufs().len(),
        ensures
            s@ == self.shape_seqs()[slot.index as int],
    {
        &self.shapes[slot.index]
    }
}

/// Splitting a replay: running the combined sequence `a + b` equals running
/// `b` first (it holds the later-pushed steps) and `a` on the result.
pub proof fn lemma_replay_concat(bufs: Seq<Seq<int>>, a: Seq<StepModel>, b: Seq<StepModel>)
    ensures
        replay(bufs, a + b) == replay(replay(bufs, b), a),
        replay_in_range(bufs, a + b) == (replay_in_range(bufs, b) && replay_in_range(
            replay(bufs, b),
            a,
        )),
    decreases b.len(),
{
    if b.len() == 0 {
        assert(a + b =~= a);
        assert(replay(bufs, b) == bufs);
        assert(replay_in_range(bufs, b));
    } else {
        let ab = a + b;
        assert(ab.len() == a.len() + b.len());
        assert(ab.last() == b.last());
        assert(ab.drop_last() =~= a + b.drop_last());
        lemma_replay_concat(apply_step(bufs, b.last()), a, b.drop_last());
    }
}

/// Step well-formedness depends only on buffer lengths, so it transfers
/// between states whose buffers have the same lengths.
proof fn lemma_steps_wf_same_lens(b1: Seq<Seq<int>>, b2: Seq<Seq<int>>, steps: Seq<StepModel>)
    requires
        steps_wf(b1, steps),
        b2.len() == b1.len(),
        forall|i: int| 0 <= i < b1.len() ==> #[trigger] b2[i].len() == b1[i].len(),
    ensures
        steps_wf(b2, steps),
{
    assert forall|k: int| 0 <= k < steps.len() implies step_wf(b2, #[trigger] steps[k]) by {
        assert(step_wf(b1, steps[k]));
    }
}

/// Steps that never write a slot leave its buffer exactly as it was.
pub proof fn lemma_replay_untouched(bufs: Seq<Seq<int>>, steps: Seq<StepModel>, t: int)
    requires
        steps_wf(bufs, steps),
        0 <= t < bufs.len(),
        forall|k: int| 0 <= k < steps.len() ==> (#[trigger] steps[k]).to != t,
    ensures
        replay(bufs, steps)[t] == bufs[t],
    decreases steps.len(),
{
    lemma_replay_lens(bufs, steps);
    if steps.len() > 0 {
        let st = steps.last();
        let b1 = apply_step(bufs, st);
        assert(step_wf(bufs, st));
        assert(b1[t] == bufs[t]);
        lemma_steps_wf_same_lens(bufs, b1, steps.drop_last());
        lemma_replay_untouched(b1, steps.drop_last(), t);
    }
}

/// Accumulation law: when two backward steps write into the same slot from
/// sources that slot does not feed, their contributions are summed. Starting
/// from a zero target buffer, the replayed result at that slot is exactly
/// `g1 + g2` elementwise, where `g1` and `g2` are the two steps' derivative
/// contributions.
pub proof fn lemma_accumulation(bufs: Seq<Seq<int>>, s1: StepModel, s2: StepModel)
    requires
        step_wf(bufs, s1),
        step_wf(bufs, s2),
        s1.to == s2.to,
        s1.from != s1.to,
        s2.from != s2.to,
        bufs[s1.to] == zero_buf(s1.factor.len() as int),
    ensures
        replay(bufs, seq![s1, s2])[s1.to] == Seq::new(
            s1.factor.len(),
            |i: int| s1.factor[i] * bufs[s1.from][i] + s2.factor[i] * bufs[s2.from][i],
        ),
{
    let steps = seq![s1, s2];
    assert(steps.last() == s2);
    assert(steps.drop_last() =~= seq![s1]);
    let b1 = apply_step(bufs, s2);
    lemma_replay_one(b1, s1);
    assert(replay(bufs, steps) == apply_step(b1, s1));
    assert(b1[s1.from] == bufs[s1.from]);
    assert(s2.factor.len() == s1.factor.len());
    assert forall|i: int| 0 <= i < s1.factor.len() implies #[trigger] apply_step(b1, s1)[s1.to][i]
        == s1.factor[i] * bufs[s1.from][i] + s2.factor[i] * bufs[s2.from][i] by {
        assert(b1[s1.to][i] == bufs[s1.to][i] + s2.factor[i] * bufs[s2.from][i]);
        assert(bufs[s1.to][i] == 0);
        assert(apply_step(b1, s1)[s1.to][i] == b1[s1.to][i] + s1.factor[i] * b1[s1.from][i]);
    }
    assert(replay(bufs, steps)[s1.to] =~= Seq::new(
        s1.factor.len(),
        |i: int| s1.factor[i] * bufs[s1.from][i] + s2.factor[i] * bufs[s2.from][i],
    ));
}

/// Chain rule over a three-slot chain `a -> b -> c`: the backward step of
/// `a -> b` was pushed first, that of `b -> c` second. Seeding `c` and
/// replaying in reverse order leaves at `a`'s slot the elementwise product
/// of the two local derivatives with the seed.
pub proof fn lemma_chain_rule(bufs: Seq<Seq<int>>, s1: StepModel, s2: StepModel)
    requires
        step_wf(bufs, s1),
        step_wf(bufs, s2),
        s1.from == s2.to,
        s1.to != s1.from,
        s2.to != s2.from,
        s1.to != s2.from,
        bufs[s1.to] == zero_buf(s1.factor.len() as int),
        bufs[s2.to] == zero_buf(s2.factor.len() as int),
    ensures
        replay(bufs, seq![s1, s2])[s1.to] == Seq::new(
            s1.factor.len(),
            |i: int| s1.factor[i] * s2.factor[i] * bufs[s2.from][i],
        ),
{
    let steps = seq![s1, s2];
    assert(steps.last() == s2);
    assert(steps.drop_last() =~= seq![s1]);
    let b1 = apply_step(bufs, s2);
    lemma_replay_one(b1, s1);
    assert(replay(bufs, steps) == apply_step(b1, s1));
    assert(b1[s1.to] == bufs[s1.to]);
    assert(s2.factor.len() == s1.factor.len());
    assert forall|i: int| 0 <= i < s1.factor.len() implies #[trigger] apply_step(b1, s1)[s1.to][i]
        == s1.factor[i] * s2.factor[i] * bufs[s2.from][i] by {
        assert(b1[s2.to][i] == bufs[s2.to][i] + s2.factor[i] * bufs[s2.from][i]);
        assert(bufs[s2.to][i] == 0);
        assert(apply_step(b1, s1)[s1.to][i] == b1[s1.to][i] + s1.factor[i] * b1[s1.from][i]);
        assert(bufs[s1.to][i] == 0);
        assert(s1.factor[i] * (s2.factor[i] * bufs[s2.from][i]) == s1.factor[i] * s2.factor[i]
            * bufs[s2.from][i]) by (nonlinear_arith);
    }
    assert(replay(bufs, steps)[s1.to] =~= Seq::new(
        s1.factor.len(),
        |i: int| s1.factor[i] * s2.factor[i] * bufs[s2.from][i],
    ));
}

/// Chain rule under interleaving: unrelated steps may stand anywhere in the
/// push sequence around the two chain steps without changing what arrives at
/// `a`'s slot, as long as none of them writes into the chain's three slots
/// and the two chain steps keep their relative order.
pub proof fn lemma_chain_rule_interleaved(
    bufs: Seq<Seq<int>>,
    p1: Seq<StepModel>,
    s1: StepModel,
    p2: Seq<StepModel>,
    s2: StepModel,
    p3: Seq<StepModel>,
)
    requires
        step_wf(bufs, s1),
        step_wf(bufs, s2),
        steps_wf(bufs, p1),
        steps_wf(bufs, p2),
        steps_wf(bufs, p3),
        s1.from == s2.to,
        s1.to != s1.from,
        s2.to != s2.from,
        s1.to != s2.from,
        bufs[s1.to] == zero_buf(s1.factor.len() as int),
        bufs[s2.to] == zero_buf(s2.factor.len() as int),
        forall|k: int|
            0 <= k < p1.len() ==> (#[trigger] p1[k]).to != s1.to,
        forall|k: int|
            0 <= k < p2.len() ==> (#[trigger] p2[k]).to != s1.to && p2[k].to != s1.from,
        forall|k: int|
            0 <= k < p3.len() ==> (#[trigger] p3[k]).to != s1.to && p3[k].to != s1.from
                && p3[k].to != s2.from,
    ensures
        replay(bufs, p1 + seq![s1] + p2 + seq![s2] + p3)[s1.to] == Seq::new(
            s1.factor.len(),
            |i: int| s1.factor[i] * s2.factor[i] * bufs[s2.from][i],
        ),
{
    let a = s1.to;
    let b = s1.from;
    let c = s2.from;
    lemma_replay_lens(bufs, p3);
    let b3 = replay(bufs, p3);
    lemma_replay_concat(bufs, p1 + seq![s1] + p2 + seq![s2], p3);
    lemma_replay_untouched(bufs, p3, a);
    lemma_replay_untouched(bufs, p3, b);
    lemma_replay_untouched(bufs, p3, c);
    lemma_steps_wf_same_lens(bufs, b3, p1);
    lemma_steps_wf_same_lens(bufs, b3, p2);
    lemma_replay_concat(b3, p1 + seq![s1] + p2, seq![s2]);
    lemma_replay_one(b3, s2);
    let b4 = apply_step(b3, s2);
    assert(b4.len() == bufs.len());
    assert(forall|i: int| 0 <= i < bufs.len() ==> #[trigger] b4[i].len() == b3[i].len());
    assert(b4[a] == b3[a]);
    lemma_steps_wf_same_lens(bufs, b4, p2);
    lemma_replay_concat(b4, p1 + seq![s1], p2);
    lemma_replay_lens(b4, p2);
    let b5 = replay(b4, p2);
    lemma_replay_untouched(b4, p2, a);
    lemma_replay_untouched(b4, p2, b);
    lemma_replay_concat(b5, p1, seq![s1]);
    lemma_replay_one(b5, s1);
    let b6 = apply_step(b5, s1);
    assert(forall|i: int| 0 <= i < bufs.len() ==> #[trigger] b5[i].len() == b4[i].len());
    lemma_steps_wf_same_lens(bufs, b6, p1);
    lemma_replay_untouched(b6, p1, a);
    assert(replay(bufs, p1 + seq![s1] + p2 + seq![s2] + p3)[a] == b6[a]);
    assert(s2.factor.len() == s1.factor.len());
    assert forall|i: int| 0 <= i < s1.factor.len() implies #[trigger] b6[a][i] == s1.factor[i]
        * s2.factor[i] * bufs[s2.from][i] by {
        assert(b4[b][i] == b3[b][i] + s2.factor[i] * b3[c][i]);
        assert(b3[b][i] == 0);
        assert(b3[c][i] == bufs[c][i]);
        assert(b6[a][i] == b5[a][i] + s1.factor[i] * b5[b][i]);
        assert(b5[a][i] == b4[a][i]);
        assert(b4[a][i] == b3[a][i]);
        assert(b3[a][i] == 0);
        assert(b5[b][i] == b4[b][i]);
        assert(s1.factor[i] * (s2.factor[i] * bufs[c][i]) == s1.factor[i] * s2.factor[i]
            * bufs[c][i]) by (nonlinear_arith);
    }
    assert(b6[a] =~= Seq::new(
        s1.factor.len(),
        |i: int| s1.factor[i] * s2.factor[i] * bufs[s2.from][i],
    ));
}

} // verus!
