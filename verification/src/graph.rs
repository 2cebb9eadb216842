use crate::array::Array;
use crate::error::Error;
use crate::hardware::Hardware;
use crate::operator::Operator;
use crate::shape::Shape;
use vstd::prelude::*;

verus! {

broadcast use crate::shape::lemma_shape_wf_facts;

/// Placeholder for a step's output array.  Unlike a plain option, it always
/// knows the shape and the hardware of the value it stands for, so a node's
/// shape and hardware can be queried without any evaluation.
pub enum ArrayPlaceholder {
    /// The array has not been computed yet; its shape and hardware identity
    /// are known.
    Unassigned(Shape, u64),
    /// The array has been computed and cached.
    Assigned(Array),
}

impl ArrayPlaceholder {
    /// The shape of the value this placeholder describes.
    pub open spec fn spec_shape(&self) -> Shape {
        match self {
            ArrayPlaceholder::Unassigned(shape, _) => *shape,
            ArrayPlaceholder::Assigned(a) => a.spec_shape(),
        }
    }

    /// The hardware identity of the value this placeholder describes.
    pub open spec fn spec_hw_id(&self) -> u64 {
        match self {
            ArrayPlaceholder::Unassigned(_, hw_id) => *hw_id,
            ArrayPlaceholder::Assigned(a) => a.spec_hw_id(),
        }
    }

    /// Returns the shape of the value this placeholder describes.
    pub fn shape(&self) -> (r: Shape)
        ensures
            r == self.spec_shape(),
    {
        match self {
            ArrayPlaceholder::Unassigned(shape, _) => *shape,
            ArrayPlaceholder::Assigned(a) => a.shape(),
        }
    }

    /// Returns the hardware identity of the value this placeholder
    /// describes.
    pub fn hardware_id(&self) -> (r: u64)
        ensures
            r == self.spec_hw_id(),
    {
        match self {
            ArrayPlaceholder::Unassigned(_, hw_id) => *hw_id,
            ArrayPlaceholder::Assigned(a) => a.hardware_id(),
        }
    }

    /// Returns the cached array, if the placeholder holds one.
    pub fn array(&self) -> (r: Option<&Array>)
        ensures
            match r {
                Some(a) => self matches ArrayPlaceholder::Assigned(b) && *a == b,
                None => self is Unassigned,
            },
    {
        match self {
            ArrayPlaceholder::Unassigned(_, _) => None,
            ArrayPlaceholder::Assigned(a) => Some(a),
        }
    }
}

/// One step in a computation graph: an operator consuming the outputs of
/// earlier steps, and the placeholder of its own output.
pub struct Step {
    /// Operator owned by this step.
    operator: Operator,
    /// Ids of the input steps.
    inputs: Vec<usize>,
    /// Output placeholder.
    output: ArrayPlaceholder,
}

impl Step {
    /// The operator of this step.
    pub closed spec fn spec_operator(&self) -> Operator {
        self.operator
    }

    /// The input step ids of this step.
    pub closed spec fn spec_inputs(&self) -> Seq<usize> {
        self.inputs@
    }

    /// The output placeholder of this step.
    pub closed spec fn spec_output(&self) -> ArrayPlaceholder {
        self.output
    }

    /// Returns the operator of this step.
    pub fn operator(&self) -> (r: &Operator)
        ensures
            *r == self.spec_operator(),
    {
        &self.operator
    }

    /// Returns the input step ids of this step.
    pub fn inputs(&self) -> (r: &Vec<usize>)
        ensures
            r@ == self.spec_inputs(),
    {
        &self.inputs
    }

    /// Returns the output placeholder of this step.
    pub fn output(&self) -> (r: &ArrayPlaceholder)
        ensures
            *r == self.spec_output(),
    {
        &self.output
    }
}

/// Append-only computation graph: a vector of [`Step`]s, each referring to
/// earlier steps only, together with an identity that nodes carry to detect
/// cross-graph operations.
///
/// Every graph the user builds must carry its own identity: the engine
/// compares identities to tell instances apart, so two live graphs sharing
/// an identity defeat the cross-graph checks.
pub struct Graph {
    /// Identity of this graph.
    id: u64,
    /// All steps registered to this graph.
    steps: Vec<Step>,
}

impl Graph {
    /// Identity of this graph.
    pub closed spec fn spec_id(&self) -> u64 {
        self.id
    }

    /// The registered steps.
    pub closed spec fn spec_steps(&self) -> Seq<Step> {
        self.steps@
    }

    /// Number of registered steps.
    pub open spec fn spec_len(&self) -> nat {
        self.spec_steps().len()
    }

    /// The operator of step `i`.
    pub open spec fn step_op(&self, i: int) -> Operator {
        self.spec_steps()[i].spec_operator()
    }

    /// The input ids of step `i`.
    pub open spec fn step_inputs(&self, i: int) -> Seq<usize> {
        self.spec_steps()[i].spec_inputs()
    }

    /// The output shape of step `i`.
    pub open spec fn step_shape(&self, i: int) -> Shape {
        self.spec_steps()[i].spec_output().spec_shape()
    }

    /// The output hardware identity of step `i`.
    pub open spec fn step_hw_id(&self, i: int) -> u64 {
        self.spec_steps()[i].spec_output().spec_hw_id()
    }

    /// Whether the output of step `i` has been computed and cached.
    pub open spec fn is_assigned(&self, i: int) -> bool {
        self.spec_steps()[i].spec_output() is Assigned
    }

    /// The cached output array of step `i`.
    pub open spec fn step_array(&self, i: int) -> Array
        recommends
            self.is_assigned(i),
    {
        self.spec_steps()[i].spec_output()->Assigned_0
    }

    /// The shapes of the inputs of step `i`.
    pub open spec fn input_shapes(&self, i: int) -> Seq<Shape> {
        Seq::new(
            self.step_inputs(i).len(),
            |j: int| self.step_shape(self.step_inputs(i)[j] as int),
        )
    }

    /// The hardware identities of the inputs of step `i`.
    pub open spec fn input_hw_ids(&self, i: int) -> Seq<u64> {
        Seq::new(
            self.step_inputs(i).len(),
            |j: int| self.step_hw_id(self.step_inputs(i)[j] as int),
        )
    }

    /// Structural well-formedness of step `i`: its arity matches, every
    /// input id is strictly smaller than `i`, its data is well formed, and
    /// its recorded shape and hardware are the ones its operator infers from
    /// its inputs.
    pub open spec fn step_wf(&self, i: int) -> bool {
        &&& self.step_inputs(i).len() == self.step_op(i).spec_input_size()
        &&& forall|j: int|
            0 <= j < self.step_inputs(i).len() ==> (#[trigger] self.step_inputs(i)[j]) < i
        &&& self.step_op(i).wf()
        &&& self.step_shape(i).wf()
        &&& self.step_op(i).spec_infer_shape(self.input_shapes(i)) == Some(self.step_shape(i))
        &&& self.step_op(i).spec_infer_hardware(self.input_hw_ids(i)) == Some(self.step_hw_id(i))
    }

    /// Structural well-formedness of the whole graph.
    pub open spec fn wf(&self) -> bool {
        forall|i: int| 0 <= i < self.spec_len() ==> #[trigger] self.step_wf(i)
    }

    /// Source `(i, c)` of a graph denotes one device allocation the graph
    /// owns on hardware identity `hid`: for `c == false` the cached output
    /// of step `i`, for `c == true` the array stored by a `Constant`
    /// operator at step `i`.
    pub open spec fn is_source(&self, i: int, c: bool, hid: u64) -> bool {
        &&& 0 <= i < self.spec_len()
        &&& if c {
            match self.step_op(i) {
                Operator::Constant(a) => a.spec_hw_id() == hid,
                _ => false,
            }
        } else {
            self.is_assigned(i) && self.step_hw_id(i) == hid
        }
    }

    /// The array denoted by source `(i, c)`.
    pub open spec fn source_array(&self, i: int, c: bool) -> Array {
        if c {
            match self.step_op(i) {
                Operator::Constant(a) => a,
                _ => self.step_array(i),
            }
        } else {
            self.step_array(i)
        }
    }

    /// The cached value of step `i` is exactly the one its operator computes
    /// from its inputs' cached values on hardware `h`: a stored constant is
    /// copied, a fill repeats its value, and each elementwise operator
    /// applies the hardware's kernel function pointwise.
    pub open spec fn step_values_ok<H: Hardware>(&self, h: &H, i: int) -> bool
        recommends
            self.is_assigned(i),
    {
        let n = self.step_shape(i).spec_num_elements();
        match self.step_op(i) {
            Operator::Constant(a) => self.step_array(i).contents(h) == a.contents(h),
            Operator::Fill { value, .. } => self.step_array(i).contents(h) == Seq::new(
                n,
                |k: int| value,
            ),
            Operator::Neg => {
                let j0 = self.step_inputs(i)[0] as int;
                &&& self.is_assigned(j0)
                &&& self.step_array(i).contents(h) == Seq::new(
                    n,
                    |k: int| H::neg_val(self.step_array(j0).contents(h)[k]),
                )
            },
            Operator::Add => {
                let j0 = self.step_inputs(i)[0] as int;
                let j1 = self.step_inputs(i)[1] as int;
                &&& self.is_assigned(j0)
                &&& self.is_assigned(j1)
                &&& self.step_array(i).contents(h) == Seq::new(
                    n,
                    |k: int|
                        H::add_val(
                            self.step_array(j0).contents(h)[k],
                            self.step_array(j1).contents(h)[k],
                        ),
                )
            },
            Operator::Sub => {
                let j0 = self.step_inputs(i)[0] as int;
                let j1 = self.step_inputs(i)[1] as int;
                &&& self.is_assigned(j0)
                &&& self.is_assigned(j1)
                &&& self.step_array(i).contents(h) == Seq::new(
                    n,
                    |k: int|
                        H::sub_val(
                            self.step_array(j0).contents(h)[k],
                            self.step_array(j1).contents(h)[k],
                        ),
                )
            },
            Operator::Mul => {
                let j0 = self.step_inputs(i)[0] as int;
                let j1 = self.step_inputs(i)[1] as int;
                &&& self.is_assigned(j0)
                &&& self.is_assigned(j1)
                &&& self.step_array(i).contents(h) == Seq::new(
                    n,
                    |k: int|
                        H::mul_val(
                            self.step_array(j0).contents(h)[k],
                            self.step_array(j1).contents(h)[k],
                        ),
                )
            },
            Operator::Div => {
                let j0 = self.step_inputs(i)[0] as int;
                let j1 = self.step_inputs(i)[1] as int;
                &&& self.is_assigned(j0)
                &&& self.is_assigned(j1)
                &&& self.step_array(i).contents(h) == Seq::new(
                    n,
                    |k: int|
                        H::div_val(
                            self.step_array(j0).contents(h)[k],
                            self.step_array(j1).contents(h)[k],
                        ),
                )
            },
        }
    }

    /// Every cached value on hardware `h` is explained by its operator.
    pub open spec fn values_ok<H: Hardware>(&self, h: &H) -> bool {
        forall|i: int|
            0 <= i < self.spec_len() && #[trigger] self.is_assigned(i) && self.step_hw_id(i)
                == h.spec_id() ==> self.step_values_ok(h, i)
    }

    /// All allocations the graph owns on hardware `h` are live on `h` and
    /// pairwise distinct, and every cached value is the one its operator
    /// computes.
    pub open spec fn cache_ok<H: Hardware>(&self, h: &H) -> bool {
        &&& forall|i: int, c: bool|
            #[trigger] self.is_source(i, c, h.spec_id()) ==> self.source_array(i, c).valid(h)
        &&& forall|i: int, c: bool, j: int, d: bool|
            #![trigger self.source_array(i, c), self.source_array(j, d)]
            self.is_source(i, c, h.spec_id()) && self.is_source(j, d, h.spec_id()) && !(i == j && c
                == d) ==> self.source_array(i, c).spec_handle() != self.source_array(
                j,
                d,
            ).spec_handle()
        &&& self.values_ok(h)
    }

    /// Creates a new empty graph carrying the given identity.
    pub fn new(id: u64) -> (g: Graph)
        ensures
            g.spec_id() == id,
            g.spec_len() == 0,
            g.wf(),
    {
        Graph { id, steps: Vec::new() }
    }

    /// Returns the identity of this graph.
    pub fn id(&self) -> (r: u64)
        ensures
            r == self.spec_id(),
    {
        self.id
    }

    /// Returns the number of registered steps.
    pub fn num_steps(&self) -> (r: usize)
        ensures
            r == self.spec_len(),
    {
        self.steps.len()
    }

    /// Returns a reference to the specified step, erring when the id is out
    /// of range.
    pub fn get_step(&self, step_id: usize) -> (r: Result<&Step, Error>)
        ensures
            step_id < self.spec_len() ==> (r matches Ok(s) && *s == self.spec_steps()[step_id as int]),
            step_id >= self.spec_len() ==> (r matches Err(e) && e is InvalidNode),
    {
        if step_id < self.steps.len() {
            Ok(&self.steps[step_id])
        } else {
            Err(Error::InvalidNode("Invalid step ID.".to_owned()))
        }
    }

    /// Inserts a new step into this graph, validating its arity, its input
    /// ids, and the shape and hardware compatibility of its inputs.
    pub(crate) fn add_step(&mut self, operator: Operator, inputs: Vec<usize>) -> (r: Result<
        usize,
        Error,
    >)
        requires
            old(self).wf(),
            operator.wf(),
        ensures
            final(self).spec_id() == old(self).spec_id(),
            final(self).wf(),
            r matches Err(_) ==> *final(self) == *old(self),
            r is Ok <==> inputs@.len() == operator.spec_input_size() && (forall|j: int|
                0 <= j < inputs@.len() ==> (#[trigger] inputs@[j]) < old(self).spec_len())
                && operator.spec_infer_shape(
                Seq::new(inputs@.len(), |j: int| old(self).step_shape(inputs@[j] as int)),
            ) is Some && operator.spec_infer_hardware(
                Seq::new(inputs@.len(), |j: int| old(self).step_hw_id(inputs@[j] as int)),
            ) is Some,
            inputs@.len() != operator.spec_input_size() ==> (r matches Err(e) && e
                is InvalidLength),
            inputs@.len() == operator.spec_input_size() && !(forall|j: int|
                0 <= j < inputs@.len() ==> (#[trigger] inputs@[j]) < old(self).spec_len()) ==> (
            r matches Err(e) && e is InvalidNode),
            inputs@.len() == operator.spec_input_size() && (forall|j: int|
                0 <= j < inputs@.len() ==> (#[trigger] inputs@[j]) < old(self).spec_len())
                && operator.spec_infer_shape(
                Seq::new(inputs@.len(), |j: int| old(self).step_shape(inputs@[j] as int)),
            ) is None ==> (r matches Err(e) && e is InvalidShape),
            inputs@.len() == operator.spec_input_size() && (forall|j: int|
                0 <= j < inputs@.len() ==> (#[trigger] inputs@[j]) < old(self).spec_len())
                && operator.spec_infer_shape(
                Seq::new(inputs@.len(), |j: int| old(self).step_shape(inputs@[j] as int)),
            ) is Some && operator.spec_infer_hardware(
                Seq::new(inputs@.len(), |j: int| old(self).step_hw_id(inputs@[j] as int)),
            ) is None ==> (r matches Err(e) && e is InvalidNode),
            r matches Ok(id) ==> {
                &&& id == old(self).spec_len()
                &&& final(self).spec_len() == old(self).spec_len() + 1
                &&& forall|i: int|
                    0 <= i < old(self).spec_len() ==> final(self).spec_steps()[i] == old(
                        self,
                    ).spec_steps()[i]
                &&& final(self).step_op(id as int) == operator
                &&& final(self).step_inputs(id as int) == inputs@
                &&& !final(self).is_assigned(id as int)
                &&& Some(final(self).step_shape(id as int)) == operator.spec_infer_shape(
                    final(self).input_shapes(id as int),
                )
                &&& Some(final(self).step_hw_id(id as int)) == operator.spec_infer_hardware(
                    final(self).input_hw_ids(id as int),
                )
            },
    {
        let new_step_id = self.steps.len();
        let input_size = operator.input_size();

        if inputs.len() != input_size {
            return Err(Error::InvalidLength("Operator got a wrong number of inputs.".to_owned()));
        }
        let mut input_shapes: Vec<Shape> = Vec::new();
        let mut input_hw_ids: Vec<u64> = Vec::new();
        let mut k: usize = 0;
        while k < inputs.len()
            invariant
                k <= inputs@.len(),
                inputs@.len() == operator.spec_input_size(),
                self.wf(),
                input_shapes@.len() == k,
                input_hw_ids@.len() == k,
                forall|j: int| 0 <= j < k ==> (#[trigger] inputs@[j]) < self.spec_len(),
                forall|j: int|
                    0 <= j < k ==> (#[trigger] input_shapes@[j]) == self.step_shape(
                        inputs@[j] as int,
                    ),
                forall|j: int|
                    0 <= j < k ==> (#[trigger] input_hw_ids@[j]) == self.step_hw_id(
                        inputs@[j] as int,
                    ),
            decreases inputs@.len() - k,
        {
            let id = inputs[k];
            if id >= self.steps.len() {
                return Err(Error::InvalidNode("Invalid step ID.".to_owned()));
            }
            input_shapes.push(self.steps[id].output.shape());
            input_hw_ids.push(self.steps[id].output.hardware_id());
            k = k + 1;
        }
        proof {
            assert(input_shapes@ =~= Seq::new(
                inputs@.len(),
                |j: int| self.step_shape(inputs@[j] as int),
            ));
            assert(input_hw_ids@ =~= Seq::new(
                inputs@.len(),
                |j: int| self.step_hw_id(inputs@[j] as int),
            ));
            assert forall|j: int| 0 <= j < input_shapes@.len() implies (
            #[trigger] input_shapes@[j]).wf() by {
                assert(self.step_wf(inputs@[j] as int));
            }
        }
        let output_shape = match operator.perform_shape(input_shapes.as_slice()) {
            Err(e) => {
                return Err(e);
            },
            Ok(s) => s,
        };
        let output_hw = match operator.perform_hardware(input_hw_ids.as_slice()) {
            Err(e) => {
                return Err(e);
            },
            Ok(h) => h,
        };
        let step = Step {
            operator,
            inputs,
            output: ArrayPlaceholder::Unassigned(output_shape, output_hw),
        };
        self.steps.push(step);
        proof {
            let g1 = *old(self);
            let g2 = *self;
            let n = g1.spec_len() as int;
            assert forall|i: int| 0 <= i < g2.spec_len() implies #[trigger] g2.step_wf(i) by {
                if i < n {
                    assert(g1.step_wf(i));
                    assert(g2.input_shapes(i) =~= g1.input_shapes(i));
                    assert(g2.input_hw_ids(i) =~= g1.input_hw_ids(i));
                } else {
                    assert(g2.input_shapes(n) =~= input_shapes@);
                    assert(g2.input_hw_ids(n) =~= input_hw_ids@);
                }
            }
        }
        Ok(new_step_id)
    }
}

/// Step well-formedness depends only on the step structure up to and
/// including the step, so it is preserved by any change that keeps every
/// step's operator, inputs, shape and hardware.
pub proof fn lemma_step_wf_preserved(g1: Graph, g2: Graph, i: int)
    requires
        0 <= i < g1.spec_len(),
        g1.step_wf(i),
        g2.spec_len() >= g1.spec_len(),
        forall|k: int|
            0 <= k < g1.spec_len() ==> #[trigger] g2.step_op(k) == g1.step_op(k)
                && g2.step_inputs(k) == g1.step_inputs(k) && g2.step_shape(k) == g1.step_shape(k)
                && g2.step_hw_id(k) == g1.step_hw_id(k),
    ensures
        g2.step_wf(i),
{
    assert(g2.step_op(i) == g1.step_op(i));
    let inp = g1.step_inputs(i);
    assert forall|j: int| 0 <= j < inp.len() implies g2.step_shape(inp[j] as int) == g1.step_shape(
        inp[j] as int,
    ) && g2.step_hw_id(inp[j] as int) == g1.step_hw_id(inp[j] as int) by {
        assert(inp[j] < i);
        assert(g2.step_op(inp[j] as int) == g1.step_op(inp[j] as int));
    }
    assert(g2.input_shapes(i) =~= g1.input_shapes(i));
    assert(g2.input_hw_ids(i) =~= g1.input_hw_ids(i));
}

/// Action of the push-down automaton that drives evaluation.
enum Action {
    /// Make the step's value available, scheduling its inputs first.
    Fetch,
    /// Compute the step's value from its now-available inputs.
    Perform,
}

/// Three to the power `e`; the measure of the evaluator's stack is built
/// from it.
spec fn pow3(e: nat) -> nat
    decreases e,
{
    if e == 0 {
        1
    } else {
        3 * pow3((e - 1) as nat)
    }
}

proof fn lemma_pow3_pos(e: nat)
    ensures
        pow3(e) >= 1,
    decreases e,
{
    if e > 0 {
        lemma_pow3_pos((e - 1) as nat);
    }
}

proof fn lemma_pow3_increases(a: nat, b: nat)
    requires
        a <= b,
    ensures
        pow3(a) <= pow3(b),
    decreases b,
{
    if a < b {
        lemma_pow3_increases(a, (b - 1) as nat);
        lemma_pow3_pos((b - 1) as nat);
    }
}

/// Weight of one automaton entry: a `Fetch` entry outweighs everything it
/// can ever push.
spec fn entry_weight(e: (usize, Action)) -> nat {
    match e.1 {
        Action::Fetch => 2 * pow3((e.0 + 1) as nat),
        Action::Perform => 1,
    }
}

/// Combined weight of the automaton's stack; it shrinks on every transition.
spec fn stack_weight(s: Seq<(usize, Action)>) -> nat
    decreases s.len(),
{
    if s.len() == 0 {
        0
    } else {
        stack_weight(s.drop_last()) + entry_weight(s.last())
    }
}

proof fn lemma_stack_weight_push(s: Seq<(usize, Action)>, e: (usize, Action))
    ensures
        stack_weight(s.push(e)) == stack_weight(s) + entry_weight(e),
{
    assert(s.push(e).drop_last() =~= s);
    assert(s.push(e).last() == e);
}

/// Invariant of the evaluator's stack: every entry points at a step of the
/// graph on the evaluated hardware; a `Perform` entry is still unassigned,
/// dominates everything above it, and each of its inputs is either already
/// assigned or scheduled above it.
spec fn stack_ok(g: &Graph, st: Seq<(usize, Action)>, hid: u64) -> bool {
    &&& forall|k: int|
        0 <= k < st.len() ==> (#[trigger] st[k]).0 < g.spec_len() && g.step_hw_id(st[k].0 as int)
            == hid
    &&& forall|k: int|
        0 <= k < st.len() && (#[trigger] st[k]).1 is Perform ==> !g.is_assigned(st[k].0 as int)
    &&& forall|k: int, l: int|
        0 <= k < l < st.len() && (#[trigger] st[k]).1 is Perform ==> (#[trigger] st[l]).0
            < st[k].0
    &&& forall|k: int, j: int|
        #![trigger g.step_inputs(st[k].0 as int)[j]]
        0 <= k < st.len() && st[k].1 is Perform && 0 <= j < g.step_inputs(st[k].0 as int).len()
            && !g.is_assigned(g.step_inputs(st[k].0 as int)[j] as int) ==> exists|l: int|
            k < l < st.len() && (#[trigger] st[l]).0 == g.step_inputs(st[k].0 as int)[j]
}

/// Every input of a step lives on the step's hardware and has the step's
/// dimensions; the first input has exactly the step's shape.
pub proof fn lemma_input_props(g: Graph, i: int, j: int)
    requires
        g.wf(),
        0 <= i < g.spec_len(),
        0 <= j < g.step_inputs(i).len(),
    ensures
        0 <= g.step_inputs(i)[j] < i,
        g.step_hw_id(g.step_inputs(i)[j] as int) == g.step_hw_id(i),
        g.step_shape(g.step_inputs(i)[j] as int).dims() == g.step_shape(i).dims(),
        j == 0 ==> g.step_shape(g.step_inputs(i)[j] as int) == g.step_shape(i),
{
    assert(g.step_wf(i));
    let shapes = g.input_shapes(i);
    let hws = g.input_hw_ids(i);
    assert(shapes[j] == g.step_shape(g.step_inputs(i)[j] as int));
    assert(hws[j] == g.step_hw_id(g.step_inputs(i)[j] as int));
    if j != 0 {
        assert(shapes[0] == g.step_shape(g.step_inputs(i)[0] as int));
        assert(hws[0] == g.step_hw_id(g.step_inputs(i)[0] as int));
    }
    match g.step_op(i) {
        Operator::Constant(_) => {},
        Operator::Fill { .. } => {},
        Operator::Neg => {},
        Operator::Add => {},
        Operator::Sub => {},
        Operator::Mul => {},
        Operator::Div => {},
    }
}

/// Cached values stay explained when the assigned steps are unchanged and
/// every graph-owned allocation keeps its contents.
pub proof fn lemma_values_ok_preserved<H: Hardware>(g1: Graph, g2: Graph, h1: H, h2: H)
    requires
        g1.wf(),
        g1.values_ok(&h1),
        h2.spec_id() == h1.spec_id(),
        g2.spec_len() >= g1.spec_len(),
        forall|i: int|
            0 <= i < g1.spec_len() && #[trigger] g1.is_assigned(i) ==> g2.spec_steps()[i]
                == g1.spec_steps()[i],
        forall|i: int, c: bool|
            #[trigger] g1.is_source(i, c, h1.spec_id()) ==> h2.mem().contains_key(
                g1.source_array(i, c).spec_handle(),
            ) && h2.mem()[g1.source_array(i, c).spec_handle()] == h1.mem()[g1.source_array(
                i,
                c,
            ).spec_handle()],
    ensures
        forall|i: int|
            0 <= i < g1.spec_len() && #[trigger] g1.is_assigned(i) && g1.step_hw_id(i)
                == h1.spec_id() ==> g2.step_values_ok(&h2, i),
{
    assert forall|i: int|
        0 <= i < g1.spec_len() && #[trigger] g1.is_assigned(i) && g1.step_hw_id(i)
            == h1.spec_id() implies g2.step_values_ok(&h2, i) by {
        assert(g1.step_values_ok(&h1, i));
        assert(g1.step_wf(i));
        assert(g2.spec_steps()[i] == g1.spec_steps()[i]);
        assert(g1.is_source(i, false, h1.spec_id()));
        assert(g2.step_array(i).contents(&h2) == g1.step_array(i).contents(&h1));
        let n = g1.step_shape(i).spec_num_elements();
        match g1.step_op(i) {
            Operator::Constant(a) => {
                assert(g1.is_source(i, true, h1.spec_id()));
                assert(g1.source_array(i, true) == a);
                assert(a.contents(&h2) == a.contents(&h1));
            },
            Operator::Fill { .. } => {},
            Operator::Neg => {
                let j0 = g1.step_inputs(i)[0] as int;
                lemma_input_props(g1, i, 0);
                assert(g1.is_assigned(j0));
                assert(g1.is_source(j0, false, h1.spec_id()));
                assert(g2.spec_steps()[j0] == g1.spec_steps()[j0]);
                assert(g2.step_array(j0).contents(&h2) == g1.step_array(j0).contents(&h1));
                assert(Seq::new(n, |k: int| H::neg_val(g2.step_array(j0).contents(&h2)[k])) =~= Seq::new(
                    n,
                    |k: int| H::neg_val(g1.step_array(j0).contents(&h1)[k]),
                ));
            },
            _ => {
                let j0 = g1.step_inputs(i)[0] as int;
                let j1 = g1.step_inputs(i)[1] as int;
                lemma_input_props(g1, i, 0);
                lemma_input_props(g1, i, 1);
                assert(g1.is_assigned(j0));
                assert(g1.is_assigned(j1));
                assert(g1.is_source(j0, false, h1.spec_id()));
                assert(g1.is_source(j1, false, h1.spec_id()));
                assert(g2.spec_steps()[j0] == g1.spec_steps()[j0]);
                assert(g2.spec_steps()[j1] == g1.spec_steps()[j1]);
                assert(g2.step_array(j0).contents(&h2) == g1.step_array(j0).contents(&h1));
                assert(g2.step_array(j1).contents(&h2) == g1.step_array(j1).contents(&h1));
                match g1.step_op(i) {
                    Operator::Add => {
                        assert(Seq::new(
                            n,
                            |k: int|
                                H::add_val(
                                    g2.step_array(j0).contents(&h2)[k],
                                    g2.step_array(j1).contents(&h2)[k],
                                ),
                        ) =~= Seq::new(
                            n,
                            |k: int|
                                H::add_val(
                                    g1.step_array(j0).contents(&h1)[k],
                                    g1.step_array(j1).contents(&h1)[k],
                                ),
                        ));
                    },
                    Operator::Sub => {
                        assert(Seq::new(
                            n,
                            |k: int|
                                H::sub_val(
                                    g2.step_array(j0).contents(&h2)[k],
                                    g2.step_array(j1).contents(&h2)[k],
                                ),
                        ) =~= Seq::new(
                            n,
                            |k: int|
                                H::sub_val(
                                    g1.step_array(j0).contents(&h1)[k],
                                    g1.step_array(j1).contents(&h1)[k],
                                ),
                        ));
                    },
                    Operator::Mul => {
                        assert(Seq::new(
                            n,
                            |k: int|
                                H::mul_val(
                                    g2.step_array(j0).contents(&h2)[k],
                                    g2.step_array(j1).contents(&h2)[k],
                                ),
                        ) =~= Seq::new(
                            n,
                            |k: int|
                                H::mul_val(
                                    g1.step_array(j0).contents(&h1)[k],
                                    g1.step_array(j1).contents(&h1)[k],
                                ),
                        ));
                    },
                    Operator::Div => {
                        assert(Seq::new(
                            n,
                            |k: int|
                                H::div_val(
                                    g2.step_array(j0).contents(&h2)[k],
                                    g2.step_array(j1).contents(&h2)[k],
                                ),
                        ) =~= Seq::new(
                            n,
                            |k: int|
                                H::div_val(
                                    g1.step_array(j0).contents(&h1)[k],
                                    g1.step_array(j1).contents(&h1)[k],
                                ),
                        ));
                    },
                    _ => {},
                }
            },
        }
    }
}

impl Graph {
    /// `g2` has the same identity and step structure (operators, inputs,
    /// shapes, hardware) as `self`.
    pub open spec fn same_structure(&self, g2: &Graph) -> bool {
        &&& g2.spec_id() == self.spec_id()
        &&& g2.spec_len() == self.spec_len()
        &&& forall|i: int|
            0 <= i < self.spec_len() ==> #[trigger] g2.step_op(i) == self.step_op(i)
                && g2.step_inputs(i) == self.step_inputs(i) && g2.step_shape(i) == self.step_shape(
                i,
            ) && g2.step_hw_id(i) == self.step_hw_id(i)
    }

    /// Every value cached in `self` is still cached unchanged in `g2`.
    pub open spec fn cache_preserved(&self, g2: &Graph) -> bool {
        forall|i: int|
            0 <= i < self.spec_len() && #[trigger] self.is_assigned(i) ==> g2.is_assigned(i)
                && g2.step_array(i) == self.step_array(i)
    }

    /// The graph owns the allocation behind handle `hd` on hardware identity
    /// `hid`.
    pub open spec fn owns_handle(&self, hd: usize, hid: u64) -> bool {
        exists|i: int, c: bool|
            self.is_source(i, c, hid) && (#[trigger] self.source_array(i, c)).spec_handle() == hd
    }

    /// Calculates the value of the target step and returns a fresh copy of
    /// its cached array.
    ///
    /// The evaluator is an explicit push-down automaton over `(step, action)`
    /// pairs, so its memory use does not grow with the depth of the graph.
    /// Every ancestor of the target is computed at most once; computed
    /// values are cached in their steps and persist across calls, so
    /// repeated evaluation returns a copy of the same cached array without
    /// running any operator again.
    pub fn calculate<H: Hardware>(&mut self, target: usize, hw: &mut H) -> (r: Result<Array, Error>)
        requires
            old(self).wf(),
            old(self).cache_ok(old(hw)),
            target < old(self).spec_len() ==> old(self).step_hw_id(target as int) == old(
                hw,
            ).spec_id(),
        ensures
            final(self).wf(),
            final(self).cache_ok(final(hw)),
            old(self).same_structure(final(self)),
            old(self).cache_preserved(final(self)),
            final(hw).spec_id() == old(hw).spec_id(),
            crate::hardware::mem_extends(old(hw).mem(), final(hw).mem()),
            r is Ok <==> target < old(self).spec_len(),
            target < old(self).spec_len() && old(self).is_assigned(target as int) ==> *final(self)
                == *old(self),
            target >= old(self).spec_len() ==> (r matches Err(e) && e is InvalidNode
                && *final(self) == *old(self) && *final(hw) == *old(hw)),
            r matches Ok(a) ==> {
                &&& final(self).is_assigned(target as int)
                &&& a.valid(final(hw))
                &&& a.spec_shape() == old(self).step_shape(target as int)
                &&& a.spec_hw_id() == old(hw).spec_id()
                &&& a.contents(final(hw)) == final(self).step_array(target as int).contents(
                    final(hw),
                )
                &&& !old(hw).mem().contains_key(a.spec_handle())
                &&& !final(self).owns_handle(a.spec_handle(), old(hw).spec_id())
            },
    {
        if target >= self.steps.len() {
            return Err(Error::InvalidNode("Invalid step ID.".to_owned()));
        }
        let ghost hid = old(hw).spec_id();
        let mut stack: Vec<(usize, Action)> = Vec::new();
        stack.push((target, Action::Fetch));
        proof {
            assert(stack@[0].0 == target);
        }
        while stack.len() > 0
            invariant
                self.wf(),
                self.cache_ok(hw),
                old(self).same_structure(self),
                old(self).cache_preserved(self),
                hw.spec_id() == hid,
                hid == old(hw).spec_id(),
                crate::hardware::mem_extends(old(hw).mem(), hw.mem()),
                target < old(self).spec_len(),
                old(self).step_hw_id(target as int) == hid,
                stack_ok(self, stack@, hid),
                self.is_assigned(target as int) || exists|k: int|
                    0 <= k < stack@.len() && (#[trigger] stack@[k]).0 == target,
                old(self).is_assigned(target as int) ==> *self == *old(self) && stack@.len() <= 1
                    && (forall|k: int|
                    0 <= k < stack@.len() ==> (#[trigger] stack@[k]) == (target, Action::Fetch)),
            decreases stack_weight(stack@),
        {
            let ghost st0 = stack@;
            let ghost g0 = *self;
            let ghost mem0 = hw.mem();
            let entry = stack.pop().unwrap();
            let step_id = entry.0;
            let ghost m = st0.len() as int;
            proof {
                assert(st0.drop_last() =~= stack@);
                assert(st0.last() == entry);
            }
            match entry.1 {
                Action::Fetch => {
                    let assigned = match &self.steps[step_id].output {
                        ArrayPlaceholder::Assigned(_) => true,
                        ArrayPlaceholder::Unassigned(_, _) => false,
                    };
                    if assigned {
                        proof {
                            lemma_pow3_pos((step_id + 1) as nat);
                            assert forall|k: int, j: int|
                                #![trigger self.step_inputs(stack@[k].0 as int)[j]]
                                0 <= k < stack@.len() && stack@[k].1 is Perform && 0 <= j
                                    < self.step_inputs(stack@[k].0 as int).len()
                                    && !self.is_assigned(
                                    self.step_inputs(stack@[k].0 as int)[j] as int,
                                ) implies exists|l: int|
                                k < l < stack@.len() && (#[trigger] stack@[l]).0
                                    == self.step_inputs(stack@[k].0 as int)[j] by {
                                let jid = self.step_inputs(st0[k].0 as int)[j];
                                let l = choose|l: int|
                                    k < l < st0.len() && (#[trigger] st0[l]).0 == jid;
                                assert(jid != step_id);
                                assert(stack@[l] == st0[l]);
                            }
                            if !self.is_assigned(target as int) {
                                let k = choose|k: int|
                                    0 <= k < st0.len() && (#[trigger] st0[k]).0 == target;
                                assert(k < m - 1);
                                assert(stack@[k].0 == target);
                            }
                        }
                    } else {
                        stack.push((step_id, Action::Perform));
                        proof {
                            lemma_stack_weight_push(st0.drop_last(), (step_id, Action::Perform));
                        }
                        let num_inputs = self.steps[step_id].inputs.len();
                        proof {
                            assert(self.step_wf(step_id as int));
                            assert(self.step_op(step_id as int).spec_input_size() <= 2);
                        }
                        if num_inputs >= 1 {
                            let ghost stack1 = stack@;
                            let j0 = self.steps[step_id].inputs[0];
                            proof {
                                lemma_input_props(*self, step_id as int, 0);
                            }
                            stack.push((j0, Action::Fetch));
                            proof {
                                lemma_stack_weight_push(stack1, (j0, Action::Fetch));
                            }
                        }
                        if num_inputs >= 2 {
                            let ghost stack2 = stack@;
                            let j1 = self.steps[step_id].inputs[1];
                            proof {
                                lemma_input_props(*self, step_id as int, 1);
                            }
                            stack.push((j1, Action::Fetch));
                            proof {
                                lemma_stack_weight_push(stack2, (j1, Action::Fetch));
                            }
                        }
                        proof {
                            let st1 = stack@;
                            let base = m - 1;
                            // stack entries below the popped one are unchanged
                            assert(forall|k: int| 0 <= k < base ==> st1[k] == st0[k]);
                            assert(st1[base] == (step_id, Action::Perform));
                            // the new entries all carry ids smaller than step_id
                            assert forall|l: int| base < l < st1.len() implies st1[l].0
                                < step_id by {
                                if l == base + 1 {
                                    lemma_input_props(*self, step_id as int, 0);
                                } else {
                                    lemma_input_props(*self, step_id as int, 1);
                                }
                            }
                            // ordering below Perform entries is preserved
                            assert forall|k: int, l: int|
                                0 <= k < l < st1.len() && (#[trigger] st1[k]).1
                                    is Perform implies (#[trigger] st1[l]).0 < st1[k].0 by {
                                if k < base {
                                    assert(st0[k].1 is Perform);
                                    if l < base {
                                        assert(st0[l].0 == st1[l].0);
                                    } else {
                                        // the popped Fetch entry was above k
                                        assert(st0[m - 1].0 == step_id);
                                        assert(step_id < st0[k].0);
                                    }
                                }
                            }
                            // every Perform entry still has its inputs scheduled
                            assert forall|k: int, j: int|
                                #![trigger self.step_inputs(st1[k].0 as int)[j]]
                                0 <= k < st1.len() && st1[k].1 is Perform && 0 <= j
                                    < self.step_inputs(st1[k].0 as int).len()
                                    && !self.is_assigned(
                                    self.step_inputs(st1[k].0 as int)[j] as int,
                                ) implies exists|l: int|
                                k < l < st1.len() && (#[trigger] st1[l]).0 == self.step_inputs(
                                    st1[k].0 as int,
                                )[j] by {
                                let jid = self.step_inputs(st1[k].0 as int)[j];
                                if k < base {
                                    let l = choose|l: int|
                                        k < l < st0.len() && (#[trigger] st0[l]).0 == jid;
                                    if l < base {
                                        assert(st1[l].0 == jid);
                                    } else {
                                        // the witness was the popped entry itself
                                        assert(jid == step_id);
                                        assert(st1[base].0 == jid);
                                    }
                                } else if k == base {
                                    if j == 0 {
                                        assert(st1[base + 1].0 == jid);
                                    } else {
                                        assert(st1[base + 2].0 == jid);
                                    }
                                }
                            }
                            // the target stays scheduled
                            if !self.is_assigned(target as int) {
                                let k = choose|k: int|
                                    0 <= k < st0.len() && (#[trigger] st0[k]).0 == target;
                                if k == m - 1 {
                                    assert(st1[base].0 == target);
                                } else {
                                    assert(st1[k].0 == target);
                                }
                            }
                            // the total weight shrank
                            lemma_pow3_pos(step_id as nat);
                            lemma_input_weight_bound(*self, step_id, num_inputs as int);
                        }
                    }
                },
                Action::Perform => {
                    proof {
                        assert(self.step_wf(step_id as int));
                        // all inputs of the step are assigned
                        assert forall|j: int|
                            0 <= j < self.step_inputs(step_id as int).len() implies self
                                .is_assigned(
                                self.step_inputs(step_id as int)[j] as int,
                            ) by {
                            if !self.is_assigned(self.step_inputs(step_id as int)[j] as int) {
                                let l = choose|l: int|
                                    m - 1 < l < st0.len() && (#[trigger] st0[l]).0
                                        == self.step_inputs(step_id as int)[j];
                                assert(false);
                            }
                        }
                    }
                    let ghost g_snap = *self;
                    let ghost h_snap = *hw;
                    let ghost mem_snap = hw.mem();
                    let out: Array = match &self.steps[step_id].operator {
                        Operator::Constant(a) => {
                            proof {
                                assert(g_snap.is_source(step_id as int, true, hid));
                                assert(g_snap.source_array(step_id as int, true) == *a);
                            }
                            a.clone_on(hw)
                        },
                        Operator::Fill { shape, value, .. } => Array::fill(hw, *shape, *value),
                        Operator::Neg => {
                            let j0 = self.steps[step_id].inputs[0];
                            proof {
                                lemma_input_props(*self, step_id as int, 0);
                                assert(g_snap.is_source(j0 as int, false, hid));
                            }
                            let x0 = match &self.steps[j0].output {
                                ArrayPlaceholder::Assigned(arr) => arr,
                                ArrayPlaceholder::Unassigned(_, _) => unreached(),
                            };
                            x0.elementwise_neg(hw)
                        },
                        Operator::Add => {
                            let j0 = self.steps[step_id].inputs[0];
                            let j1 = self.steps[step_id].inputs[1];
                            proof {
                                lemma_input_props(*self, step_id as int, 0);
                                lemma_input_props(*self, step_id as int, 1);
                                assert(g_snap.is_source(j0 as int, false, hid));
                                assert(g_snap.is_source(j1 as int, false, hid));
                            }
                            let x0 = match &self.steps[j0].output {
                                ArrayPlaceholder::Assigned(arr) => arr,
                                ArrayPlaceholder::Unassigned(_, _) => unreached(),
                            };
                            let x1 = match &self.steps[j1].output {
                                ArrayPlaceholder::Assigned(arr) => arr,
                                ArrayPlaceholder::Unassigned(_, _) => unreached(),
                            };
                            match x0.elementwise_add(x1, hw) {
                                Ok(o) => o,
                                Err(_) => unreached(),
                            }
                        },
                        Operator::Sub => {
                            let j0 = self.steps[step_id].inputs[0];
                            let j1 = self.steps[step_id].inputs[1];
                            proof {
                                lemma_input_props(*self, step_id as int, 0);
                                lemma_input_props(*self, step_id as int, 1);
                                assert(g_snap.is_source(j0 as int, false, hid));
                                assert(g_snap.is_source(j1 as int, false, hid));
                            }
                            let x0 = match &self.steps[j0].output {
                                ArrayPlaceholder::Assigned(arr) => arr,
                                ArrayPlaceholder::Unassigned(_, _) => unreached(),
                            };
                            let x1 = match &self.steps[j1].output {
                                ArrayPlaceholder::Assigned(arr) => arr,
                                ArrayPlaceholder::Unassigned(_, _) => unreached(),
                            };
                            match x0.elementwise_sub(x1, hw) {
                                Ok(o) => o,
                                Err(_) => unreached(),
                            }
                        },
                        Operator::Mul => {
                            let j0 = self.steps[step_id].inputs[0];
                            let j1 = self.steps[step_id].inputs[1];
                            proof {
                                lemma_input_props(*self, step_id as int, 0);
                                lemma_input_props(*self, step_id as int, 1);
                                assert(g_snap.is_source(j0 as int, false, hid));
                                assert(g_snap.is_source(j1 as int, false, hid));
                            }
                            let x0 = match &self.steps[j0].output {
                                ArrayPlaceholder::Assigned(arr) => arr,
                                ArrayPlaceholder::Unassigned(_, _) => unreached(),
                            };
                            let x1 = match &self.steps[j1].output {
                                ArrayPlaceholder::Assigned(arr) => arr,
                                ArrayPlaceholder::Unassigned(_, _) => unreached(),
                            };
                            match x0.elementwise_mul(x1, hw) {
                                Ok(o) => o,
                                Err(_) => unreached(),
                            }
                        },
                        Operator::Div => {
                            let j0 = self.steps[step_id].inputs[0];
                            let j1 = self.steps[step_id].inputs[1];
                            proof {
                                lemma_input_props(*self, step_id as int, 0);
                                lemma_input_props(*self, step_id as int, 1);
                                assert(g_snap.is_source(j0 as int, false, hid));
                                assert(g_snap.is_source(j1 as int, false, hid));
                            }
                            let x0 = match &self.steps[j0].output {
                                ArrayPlaceholder::Assigned(arr) => arr,
                                ArrayPlaceholder::Unassigned(_, _) => unreached(),
                            };
                            let x1 = match &self.steps[j1].output {
                                ArrayPlaceholder::Assigned(arr) => arr,
                                ArrayPlaceholder::Unassigned(_, _) => unreached(),
                            };
                            match x0.elementwise_div(x1, hw) {
                                Ok(o) => o,
                                Err(_) => unreached(),
                            }
                        },
                    };
                    proof {
                        assert(out.valid(hw));
                        assert(out.spec_shape() == g_snap.step_shape(step_id as int));
                        assert(out.spec_hw_id() == hid);
                        assert(!mem_snap.contains_key(out.spec_handle()));
                    }
                    self.steps[step_id].output = ArrayPlaceholder::Assigned(out);
                    proof {
                        let g1 = *self;
                        // structure is preserved: only the placeholder of
                        // `step_id` changed, keeping shape and hardware
                        assert(g_snap.same_structure(&g1));
                        assert forall|i: int| 0 <= i < g1.spec_len() implies #[trigger] g1.step_wf(
                            i,
                        ) by {
                            lemma_step_wf_preserved(g_snap, g1, i);
                        }
                        // the cache gained exactly the new entry
                        assert forall|i: int, c: bool| #[trigger]
                            g1.is_source(i, c, hid) implies g1.source_array(i, c).valid(hw) by {
                            if i == step_id && !c {
                            } else {
                                assert(g_snap.is_source(i, c, hid));
                                assert(g1.source_array(i, c) == g_snap.source_array(i, c));
                            }
                        }
                        assert forall|i: int, c: bool, j: int, d: bool|
                            #![trigger g1.source_array(i, c), g1.source_array(j, d)]
                            g1.is_source(i, c, hid) && g1.is_source(j, d, hid) && !(i == j && c
                                == d) implies g1.source_array(i, c).spec_handle()
                            != g1.source_array(j, d).spec_handle() by {
                            if i == step_id && !c {
                                assert(g_snap.is_source(j, d, hid));
                                assert(g1.source_array(j, d) == g_snap.source_array(j, d));
                                assert(mem_snap.contains_key(
                                    g_snap.source_array(j, d).spec_handle(),
                                ));
                            } else if j == step_id && !d {
                                assert(g_snap.is_source(i, c, hid));
                                assert(g1.source_array(i, c) == g_snap.source_array(i, c));
                                assert(mem_snap.contains_key(
                                    g_snap.source_array(i, c).spec_handle(),
                                ));
                            } else {
                                assert(g_snap.is_source(i, c, hid));
                                assert(g_snap.is_source(j, d, hid));
                                assert(g1.source_array(i, c) == g_snap.source_array(i, c));
                                assert(g1.source_array(j, d) == g_snap.source_array(j, d));
                            }
                        }
                        // cached values: the old entries are untouched and
                        // the new entry is exactly what the operator computes
                        lemma_values_ok_preserved(g_snap, g1, h_snap, *hw);
                        assert forall|i: int|
                            0 <= i < g1.spec_len() && #[trigger] g1.is_assigned(i)
                                && g1.step_hw_id(i) == hid implies g1.step_values_ok(hw, i) by {
                            if i == step_id as int {
                                let n = g1.step_shape(i).spec_num_elements();
                                assert(g1.step_array(i) == out);
                                match g_snap.step_op(i) {
                                    Operator::Constant(a) => {
                                        assert(g_snap.is_source(i, true, hid));
                                        assert(a.contents(hw) == a.contents(&h_snap));
                                    },
                                    Operator::Fill { value, .. } => {
                                        assert(out.contents(hw) =~= Seq::new(n, |k: int| value));
                                    },
                                    Operator::Neg => {
                                        let j0 = g1.step_inputs(i)[0] as int;
                                        assert(g_snap.is_source(j0, false, hid));
                                        assert(g1.step_array(j0) == g_snap.step_array(j0));
                                        assert(g1.step_array(j0).contents(hw) == g_snap.step_array(
                                            j0,
                                        ).contents(&h_snap));
                                        assert(out.contents(hw) =~= Seq::new(
                                            n,
                                            |k: int|
                                                H::neg_val(g1.step_array(j0).contents(hw)[k]),
                                        ));
                                    },
                                    _ => {
                                        let j0 = g1.step_inputs(i)[0] as int;
                                        let j1 = g1.step_inputs(i)[1] as int;
                                        assert(g_snap.is_source(j0, false, hid));
                                        assert(g_snap.is_source(j1, false, hid));
                                        assert(g1.step_array(j0) == g_snap.step_array(j0));
                                        assert(g1.step_array(j1) == g_snap.step_array(j1));
                                        assert(g1.step_array(j0).contents(hw) == g_snap.step_array(
                                            j0,
                                        ).contents(&h_snap));
                                        assert(g1.step_array(j1).contents(hw) == g_snap.step_array(
                                            j1,
                                        ).contents(&h_snap));
                                        match g_snap.step_op(i) {
                                            Operator::Add => {
                                                assert(out.contents(hw) =~= Seq::new(
                                                    n,
                                                    |k: int|
                                                        H::add_val(
                                                            g1.step_array(j0).contents(hw)[k],
                                                            g1.step_array(j1).contents(hw)[k],
                                                        ),
                                                ));
                                            },
                                            Operator::Sub => {
                                                assert(out.contents(hw) =~= Seq::new(
                                                    n,
                                                    |k: int|
                                                        H::sub_val(
                                                            g1.step_array(j0).contents(hw)[k],
                                                            g1.step_array(j1).contents(hw)[k],
                                                        ),
                                                ));
                                            },
                                            Operator::Mul => {
                                                assert(out.contents(hw) =~= Seq::new(
                                                    n,
                                                    |k: int|
                                                        H::mul_val(
                                                            g1.step_array(j0).contents(hw)[k],
                                                            g1.step_array(j1).contents(hw)[k],
                                                        ),
                                                ));
                                            },
                                            Operator::Div => {
                                                assert(out.contents(hw) =~= Seq::new(
                                                    n,
                                                    |k: int|
                                                        H::div_val(
                                                            g1.step_array(j0).contents(hw)[k],
                                                            g1.step_array(j1).contents(hw)[k],
                                                        ),
                                                ));
                                            },
                                            _ => {},
                                        }
                                    },
                                }
                            } else {
                                assert(g_snap.is_assigned(i));
                                assert(g_snap.step_hw_id(i) == hid);
                            }
                        }
                        // stack invariants survive the assignment
                        let st1 = stack@;
                        assert forall|k: int|
                            0 <= k < st1.len() && (#[trigger] st1[k]).1 is Perform implies !g1
                                .is_assigned(st1[k].0 as int) by {
                            assert(st0[k] == st1[k]);
                            assert(st0[m - 1].0 == step_id);
                            assert(st0[m - 1].1 is Perform);
                            assert(st1[k].0 > step_id);
                        }
                        assert forall|k: int, j: int|
                            #![trigger g1.step_inputs(st1[k].0 as int)[j]]
                            0 <= k < st1.len() && st1[k].1 is Perform && 0 <= j < g1.step_inputs(
                                st1[k].0 as int,
                            ).len() && !g1.is_assigned(
                                g1.step_inputs(st1[k].0 as int)[j] as int,
                            ) implies exists|l: int|
                            k < l < st1.len() && (#[trigger] st1[l]).0 == g1.step_inputs(
                                st1[k].0 as int,
                            )[j] by {
                            let jid = g1.step_inputs(st1[k].0 as int)[j];
                            assert(st0[k] == st1[k]);
                            assert(g1.step_inputs(st1[k].0 as int) == g_snap.step_inputs(
                                st1[k].0 as int,
                            ));
                            assert(g1.step_wf(st1[k].0 as int));
                            assert(jid < st1[k].0);
                            if jid == step_id {
                                assert(g1.is_assigned(step_id as int));
                            } else {
                                assert(g1.spec_steps()[jid as int] == g_snap.spec_steps()[
                                    jid as int]);
                                assert(!g_snap.is_assigned(jid as int));
                                assert(g_snap.step_inputs(st0[k].0 as int)[j] == jid);
                                let l = choose|l: int|
                                    k < l < st0.len() && (#[trigger] st0[l]).0 == jid;
                                assert(st0[m - 1].0 == step_id);
                                assert(l < m - 1);
                                assert(st1[l].0 == jid);
                            }
                        }
                        if !g1.is_assigned(target as int) {
                            let k = choose|k: int|
                                0 <= k < st0.len() && (#[trigger] st0[k]).0 == target;
                            assert(target != step_id);
                            assert(k < m - 1);
                            assert(st1[k].0 == target);
                        }
                    }
                },
            }
        }
        proof {
            assert(self.is_assigned(target as int));
            assert(self.is_source(target as int, false, hid));
        }
        let ghost h_end = *hw;
        let result = match &self.steps[target].output {
            ArrayPlaceholder::Assigned(arr) => arr.clone_on(hw),
            ArrayPlaceholder::Unassigned(_, _) => unreached(),
        };
        proof {
            lemma_values_ok_preserved(*self, *self, h_end, *hw);
            assert forall|i: int|
                0 <= i < self.spec_len() && #[trigger] self.is_assigned(i) && self.step_hw_id(i)
                    == hid implies self.step_values_ok(hw, i) by {}
            // the returned copy is no allocation the graph owns
            let ghost mem1 = old(hw).mem();
            assert forall|i: int, c: bool|
                self.is_source(i, c, hid) implies (#[trigger] self.source_array(
                i,
                c,
            )).spec_handle() != result.spec_handle() by {}
        }
        Ok(result)
    }
}

impl Graph {
    /// The graph owns, among its steps in `lo..hi`, the allocation behind
    /// handle `hd` on hardware identity `hid`.
    pub open spec fn owns_handle_range(&self, lo: int, hi: int, hd: usize, hid: u64) -> bool {
        exists|i: int, c: bool|
            lo <= i < hi && self.is_source(i, c, hid) && (#[trigger] self.source_array(
                i,
                c,
            )).spec_handle() == hd
    }

    /// Releases every allocation the graph owns on hardware `hw`: all cached
    /// step outputs and all arrays stored by `Constant` operators.  The
    /// graph is consumed; afterwards the hardware holds exactly the
    /// allocations it held before that the graph did not own, unchanged.
    pub fn release<H: Hardware>(self, hw: &mut H)
        requires
            self.wf(),
            self.cache_ok(old(hw)),
            forall|i: int|
                0 <= i < self.spec_len() ==> #[trigger] self.step_hw_id(i) == old(hw).spec_id(),
        ensures
            final(hw).spec_id() == old(hw).spec_id(),
            forall|hd: usize|
                #[trigger] final(hw).mem().contains_key(hd) <==> old(hw).mem().contains_key(hd)
                    && !self.owns_handle(hd, old(hw).spec_id()),
            forall|hd: usize|
                #[trigger] final(hw).mem().contains_key(hd) ==> final(hw).mem()[hd] == old(
                    hw,
                ).mem()[hd],
    {
        let ghost g = self;
        let ghost hid = old(hw).spec_id();
        let Graph { id: _, steps: mut steps } = self;
        proof {
            assert(steps@ =~= g.spec_steps().take(steps@.len() as int));
        }
        while steps.len() > 0
            invariant
                hw.spec_id() == hid,
                hid == old(hw).spec_id(),
                steps@ == g.spec_steps().take(steps@.len() as int),
                steps@.len() <= g.spec_len(),
                g.wf(),
                forall|i: int| 0 <= i < g.spec_len() ==> #[trigger] g.step_hw_id(i) == hid,
                forall|hd: usize|
                    #[trigger] hw.mem().contains_key(hd) <==> old(hw).mem().contains_key(hd)
                        && !g.owns_handle_range(
                        steps@.len() as int,
                        g.spec_len() as int,
                        hd,
                        hid,
                    ),
                forall|hd: usize|
                    #[trigger] hw.mem().contains_key(hd) ==> hw.mem()[hd] == old(hw).mem()[hd],
                forall|i: int, c: bool|
                    0 <= i < steps@.len() && #[trigger] g.is_source(i, c, hid) ==> g.source_array(
                        i,
                        c,
                    ).valid(hw),
                forall|i: int, c: bool, j: int, d: bool|
                    #![trigger g.source_array(i, c), g.source_array(j, d)]
                    g.is_source(i, c, hid) && g.is_source(j, d, hid) && !(i == j && c == d)
                        ==> g.source_array(i, c).spec_handle() != g.source_array(j, d).spec_handle(),
            decreases steps@.len(),
        {
            let ghost n = steps@.len() as int;
            let ghost mem0 = hw.mem();
            let step = steps.pop().unwrap();
            proof {
                assert(steps@ =~= g.spec_steps().take(n - 1));
                assert(g.spec_steps().take(n)[n - 1] == g.spec_steps()[n - 1]);
            }
            let Step { operator, inputs: _, output } = step;
            match operator {
                Operator::Constant(a) => {
                    proof {
                        assert(g.step_wf(n - 1));
                        assert(g.is_source(n - 1, true, hid));
                        assert(g.source_array(n - 1, true) == a);
                    }
                    a.free(hw);
                },
                _ => {},
            }
            match output {
                ArrayPlaceholder::Assigned(arr) => {
                    proof {
                        assert(g.is_source(n - 1, false, hid));
                        assert(g.source_array(n - 1, false) == arr);
                    }
                    arr.free(hw);
                },
                ArrayPlaceholder::Unassigned(_, _) => {},
            }
            proof {
                assert forall|hd: usize| #[trigger]
                    hw.mem().contains_key(hd) <==> old(hw).mem().contains_key(hd)
                        && !g.owns_handle_range(n - 1, g.spec_len() as int, hd, hid) by {
                    if hw.mem().contains_key(hd) {
                        assert(mem0.contains_key(hd));
                        if g.owns_handle_range(n - 1, g.spec_len() as int, hd, hid) {
                            let (i, c): (int, bool) = choose|i: int, c: bool|
                                n - 1 <= i < g.spec_len() && g.is_source(i, c, hid) && (
                                #[trigger] g.source_array(i, c)).spec_handle() == hd;
                            if i >= n {
                                assert(g.owns_handle_range(n, g.spec_len() as int, hd, hid));
                                assert(false);
                            } else {
                                assert(false);
                            }
                        }
                    } else {
                        if old(hw).mem().contains_key(hd) && !g.owns_handle_range(
                            n - 1,
                            g.spec_len() as int,
                            hd,
                            hid,
                        ) {
                            assert(mem0.contains_key(hd));
                            assert(false);
                        }
                    }
                }
            }
        }
        proof {
            assert forall|hd: usize| #[trigger]
                final(hw).mem().contains_key(hd) <==> old(hw).mem().contains_key(hd)
                    && !g.owns_handle(hd, hid) by {
                if old(hw).mem().contains_key(hd) {
                    if g.owns_handle(hd, hid) {
                        let (i, c): (int, bool) = choose|i: int, c: bool|
                            g.is_source(i, c, hid) && (#[trigger] g.source_array(
                                i,
                                c,
                            )).spec_handle() == hd;
                        assert(g.owns_handle_range(0, g.spec_len() as int, hd, hid));
                    } else {
                        if g.owns_handle_range(0, g.spec_len() as int, hd, hid) {
                            let (i, c): (int, bool) = choose|i: int, c: bool|
                                0 <= i < g.spec_len() && g.is_source(i, c, hid) && (
                                #[trigger] g.source_array(i, c)).spec_handle() == hd;
                            assert(g.owns_handle(hd, hid));
                        }
                    }
                }
            }
        }
    }
}

/// An empty graph owns no allocations, so any hardware's cache is trivially
/// consistent with it.
pub proof fn lemma_cache_ok_empty<H: Hardware>(g: Graph, h: &H)
    requires
        g.spec_len() == 0,
    ensures
        g.cache_ok(h),
{
}

/// A graph extension that adds only unassigned steps carrying no stored
/// arrays keeps every hardware's cache consistent.
pub proof fn lemma_cache_ok_extend<H: Hardware>(g1: Graph, g2: Graph, h: &H)
    requires
        g1.wf(),
        g1.cache_ok(h),
        g2.spec_len() >= g1.spec_len(),
        forall|i: int|
            0 <= i < g1.spec_len() ==> #[trigger] g2.spec_steps()[i] == g1.spec_steps()[i],
        forall|i: int|
            g1.spec_len() <= i < g2.spec_len() ==> !(#[trigger] g2.is_assigned(i)) && !(g2.step_op(
                i,
            ) is Constant),
    ensures
        g2.cache_ok(h),
{
    assert forall|i: int, c: bool| #[trigger] g2.is_source(i, c, h.spec_id()) implies g2
        .source_array(i, c).valid(h) by {
        if i >= g1.spec_len() {
            assert(!g2.is_assigned(i));
            assert(false);
        }
        assert(g1.is_source(i, c, h.spec_id()));
        assert(g2.source_array(i, c) == g1.source_array(i, c));
    }
    assert forall|i: int, c: bool, j: int, d: bool|
        #![trigger g2.source_array(i, c), g2.source_array(j, d)]
        g2.is_source(i, c, h.spec_id()) && g2.is_source(j, d, h.spec_id()) && !(i == j && c
            == d) implies g2.source_array(i, c).spec_handle() != g2.source_array(
        j,
        d,
    ).spec_handle() by {
        if i >= g1.spec_len() {
            assert(!g2.is_assigned(i));
            assert(false);
        }
        if j >= g1.spec_len() {
            assert(!g2.is_assigned(j));
            assert(false);
        }
        assert(g1.is_source(i, c, h.spec_id()));
        assert(g1.is_source(j, d, h.spec_id()));
        assert(g2.source_array(i, c) == g1.source_array(i, c));
        assert(g2.source_array(j, d) == g1.source_array(j, d));
    }
    lemma_values_ok_preserved(g1, g2, *h, *h);
    assert forall|i: int|
        0 <= i < g2.spec_len() && #[trigger] g2.is_assigned(i) && g2.step_hw_id(i)
            == h.spec_id() implies g2.step_values_ok(h, i) by {
        if i >= g1.spec_len() {
            assert(!g2.is_assigned(i));
        }
        assert(g1.is_assigned(i));
        assert(g1.step_hw_id(i) == h.spec_id());
    }
}

/// The value a step denotes on hardware `h`: its operator applied
/// recursively to the values of its inputs.  Steps whose input ids are not
/// strictly smaller than their own id denote nothing; a well-formed graph
/// has no such step.
pub open spec fn spec_eval<H: Hardware>(g: &Graph, h: &H, i: int) -> Seq<u32>
    decreases i,
{
    let n = g.step_shape(i).spec_num_elements();
    match g.step_op(i) {
        Operator::Constant(a) => a.contents(h),
        Operator::Fill { value, .. } => Seq::new(n, |k: int| value),
        Operator::Neg => {
            let j0 = g.step_inputs(i)[0] as int;
            if 0 <= j0 < i {
                Seq::new(n, |k: int| H::neg_val(spec_eval(g, h, j0)[k]))
            } else {
                Seq::empty()
            }
        },
        Operator::Add => {
            let j0 = g.step_inputs(i)[0] as int;
            let j1 = g.step_inputs(i)[1] as int;
            if 0 <= j0 < i && 0 <= j1 < i {
                Seq::new(n, |k: int| H::add_val(spec_eval(g, h, j0)[k], spec_eval(g, h, j1)[k]))
            } else {
                Seq::empty()
            }
        },
        Operator::Sub => {
            let j0 = g.step_inputs(i)[0] as int;
            let j1 = g.step_inputs(i)[1] as int;
            if 0 <= j0 < i && 0 <= j1 < i {
                Seq::new(n, |k: int| H::sub_val(spec_eval(g, h, j0)[k], spec_eval(g, h, j1)[k]))
            } else {
                Seq::empty()
            }
        },
        Operator::Mul => {
            let j0 = g.step_inputs(i)[0] as int;
            let j1 = g.step_inputs(i)[1] as int;
            if 0 <= j0 < i && 0 <= j1 < i {
                Seq::new(n, |k: int| H::mul_val(spec_eval(g, h, j0)[k], spec_eval(g, h, j1)[k]))
            } else {
                Seq::empty()
            }
        },
        Operator::Div => {
            let j0 = g.step_inputs(i)[0] as int;
            let j1 = g.step_inputs(i)[1] as int;
            if 0 <= j0 < i && 0 <= j1 < i {
                Seq::new(n, |k: int| H::div_val(spec_eval(g, h, j0)[k], spec_eval(g, h, j1)[k]))
            } else {
                Seq::empty()
            }
        },
    }
}

/// Evaluation law: in a consistent graph, every cached value is the full
/// recursive evaluation of its step.  Together with the postcondition of
/// [`Graph::calculate`] — the returned array is a copy of the target's
/// cached value and caches only grow — this pins down what evaluation
/// returns, and that repeated evaluation of the same target returns the
/// same values.
pub proof fn lemma_cached_value_is_eval<H: Hardware>(g: Graph, h: H, i: int)
    requires
        g.wf(),
        g.cache_ok(&h),
        0 <= i < g.spec_len(),
        g.is_assigned(i),
        g.step_hw_id(i) == h.spec_id(),
    ensures
        g.step_array(i).contents(&h) == spec_eval(&g, &h, i),
    decreases i,
{
    assert(g.step_values_ok(&h, i));
    assert(g.step_wf(i));
    let n = g.step_shape(i).spec_num_elements();
    match g.step_op(i) {
        Operator::Constant(_) => {},
        Operator::Fill { .. } => {},
        Operator::Neg => {
            let j0 = g.step_inputs(i)[0] as int;
            lemma_input_props(g, i, 0);
            lemma_cached_value_is_eval(g, h, j0);
            assert(Seq::new(n, |k: int| H::neg_val(g.step_array(j0).contents(&h)[k])) =~= Seq::new(
                n,
                |k: int| H::neg_val(spec_eval(&g, &h, j0)[k]),
            ));
        },
        _ => {
            let j0 = g.step_inputs(i)[0] as int;
            let j1 = g.step_inputs(i)[1] as int;
            lemma_input_props(g, i, 0);
            lemma_input_props(g, i, 1);
            lemma_cached_value_is_eval(g, h, j0);
            lemma_cached_value_is_eval(g, h, j1);
            match g.step_op(i) {
                Operator::Add => {
                    assert(Seq::new(
                        n,
                        |k: int|
                            H::add_val(
                                g.step_array(j0).contents(&h)[k],
                                g.step_array(j1).contents(&h)[k],
                            ),
                    ) =~= Seq::new(
                        n,
                        |k: int| H::add_val(spec_eval(&g, &h, j0)[k], spec_eval(&g, &h, j1)[k]),
                    ));
                },
                Operator::Sub => {
                    assert(Seq::new(
                        n,
                        |k: int|
                            H::sub_val(
                                g.step_array(j0).contents(&h)[k],
                                g.step_array(j1).contents(&h)[k],
                            ),
                    ) =~= Seq::new(
                        n,
                        |k: int| H::sub_val(spec_eval(&g, &h, j0)[k], spec_eval(&g, &h, j1)[k]),
                    ));
                },
                Operator::Mul => {
                    assert(Seq::new(
                        n,
                        |k: int|
                            H::mul_val(
                                g.step_array(j0).contents(&h)[k],
                                g.step_array(j1).contents(&h)[k],
                            ),
                    ) =~= Seq::new(
                        n,
                        |k: int| H::mul_val(spec_eval(&g, &h, j0)[k], spec_eval(&g, &h, j1)[k]),
                    ));
                },
                Operator::Div => {
                    assert(Seq::new(
                        n,
                        |k: int|
                            H::div_val(
                                g.step_array(j0).contents(&h)[k],
                                g.step_array(j1).contents(&h)[k],
                            ),
                    ) =~= Seq::new(
                        n,
                        |k: int| H::div_val(spec_eval(&g, &h, j0)[k], spec_eval(&g, &h, j1)[k]),
                    ));
                },
                _ => {},
            }
        },
    }
}

/// Graph topology law: in a well-formed graph, every input id of every
/// step is strictly smaller than the step's own id, so the step order is a
/// topological order of the graph.
pub proof fn lemma_graph_topology(g: Graph, i: int, j: int)
    requires
        g.wf(),
        0 <= i < g.spec_len(),
        0 <= j < g.step_inputs(i).len(),
    ensures
        g.step_inputs(i)[j] < i,
{
    assert(g.step_wf(i));
}

/// The weight of the input entries a `Fetch` expansion pushes stays below
/// the weight of the `Fetch` entry it replaces.
proof fn lemma_input_weight_bound(g: Graph, i: usize, n: int)
    requires
        g.wf(),
        i < g.spec_len(),
        n == g.step_inputs(i as int).len(),
        n <= 2,
    ensures
        n >= 1 ==> entry_weight((g.step_inputs(i as int)[0], Action::Fetch)) <= 2 * pow3(i as nat),
        n >= 2 ==> entry_weight((g.step_inputs(i as int)[1], Action::Fetch)) <= 2 * pow3(i as nat),
        1 + 4 * pow3(i as nat) < 2 * pow3((i + 1) as nat),
{
    if n >= 1 {
        lemma_input_props(g, i as int, 0);
        lemma_pow3_increases((g.step_inputs(i as int)[0] + 1) as nat, i as nat);
    }
    if n >= 2 {
        lemma_input_props(g, i as int, 1);
        lemma_pow3_increases((g.step_inputs(i as int)[1] + 1) as nat, i as nat);
    }
    lemma_pow3_pos(i as nat);
    assert(pow3((i + 1) as nat) == 3 * pow3(i as nat));
}

} // verus!
