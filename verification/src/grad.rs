use crate::error::Error;
use crate::graph::Graph;
use crate::node::Node;
use crate::operator::Operator;
use crate::shape::lemma_shape_dims_eq;
use crate::shape::Shape;
use vstd::prelude::*;

verus! {

broadcast use crate::shape::lemma_shape_wf_facts, crate::node::lemma_node_step_id_bounds;

/// Bit pattern of the value one in the element encoding; it seeds the
/// gradient of the differentiated node.
pub const ONE_BITS: u32 = 0x3F800000;

/// Bit pattern of the value zero in the element encoding; the gradient of a
/// node that no gradient path reaches.
pub const ZERO_BITS: u32 = 0;

/// The gradient subgraph that backpropagation appends for one step, as a
/// symbolic expression.  Forward steps are referred to by id; everything
/// else is a step the backward pass itself creates.
pub enum GradExpr {
    /// A one-filled `Fill` step of the given shape and hardware: the seed
    /// gradient of the differentiated node.
    Seed(Shape, u64),
    /// A zero-filled `Fill` step of the given shape and hardware: the
    /// gradient of an input that no gradient path reaches.
    Zero(Shape, u64),
    /// A `Neg` step on a gradient.
    Negate(Box<GradExpr>),
    /// An `Add` step summing two gradients that met at the same step.
    Sum(Box<GradExpr>, Box<GradExpr>),
    /// A `Mul` step: the gradient times the forward step with the given id.
    MulStep(Box<GradExpr>, usize),
    /// A `Div` step: the gradient divided by the forward step with the
    /// given id.
    DivStep(Box<GradExpr>, usize),
    /// A `Mul` step: the forward step with the given id times the gradient.
    StepMul(usize, Box<GradExpr>),
}

/// Node `i` of graph `g` is the root of exactly the gradient subgraph that
/// expression `e` describes.
pub open spec fn node_denotes(g: &Graph, i: int, e: GradExpr) -> bool
    decreases e,
{
    &&& 0 <= i < g.spec_len()
    &&& match e {
        GradExpr::Seed(shape, hw_id) => g.step_op(i) == (Operator::Fill {
            hw_id,
            shape,
            value: ONE_BITS,
        }),
        GradExpr::Zero(shape, hw_id) => g.step_op(i) == (Operator::Fill {
            hw_id,
            shape,
            value: ZERO_BITS,
        }),
        GradExpr::Negate(e1) => {
            &&& g.step_op(i) is Neg
            &&& g.step_inputs(i).len() == 1
            &&& node_denotes(g, g.step_inputs(i)[0] as int, *e1)
        },
        GradExpr::Sum(e1, e2) => {
            &&& g.step_op(i) is Add
            &&& g.step_inputs(i).len() == 2
            &&& node_denotes(g, g.step_inputs(i)[0] as int, *e1)
            &&& node_denotes(g, g.step_inputs(i)[1] as int, *e2)
        },
        GradExpr::MulStep(e1, x) => {
            &&& g.step_op(i) is Mul
            &&& g.step_inputs(i).len() == 2
            &&& node_denotes(g, g.step_inputs(i)[0] as int, *e1)
            &&& g.step_inputs(i)[1] == x
        },
        GradExpr::DivStep(e1, x) => {
            &&& g.step_op(i) is Div
            &&& g.step_inputs(i).len() == 2
            &&& node_denotes(g, g.step_inputs(i)[0] as int, *e1)
            &&& g.step_inputs(i)[1] == x
        },
        GradExpr::StepMul(x, e1) => {
            &&& g.step_op(i) is Mul
            &&& g.step_inputs(i).len() == 2
            &&& g.step_inputs(i)[0] == x
            &&& node_denotes(g, g.step_inputs(i)[1] as int, *e1)
        },
    }
}

/// Records gradient `e` for step `j` of the table: stored directly where no
/// gradient reached `j` yet, summed onto the earlier gradient otherwise.
pub open spec fn accumulate(table: Seq<Option<GradExpr>>, j: int, e: GradExpr) -> Seq<
    Option<GradExpr>,
> {
    match table[j] {
        None => table.update(j, Some(e)),
        Some(p) => table.update(j, Some(GradExpr::Sum(Box::new(p), Box::new(e)))),
    }
}

/// One backward step over the gradient table of graph `g`: the gradient
/// that reached step `sid` — if any — is propagated to the step's inputs
/// through the operator's local gradient.  `Neg` contributes the negated
/// gradient; `Add` hands the gradient to both inputs; `Sub` hands it and
/// its negation; `Mul` contributes the gradient times the respective other
/// input; `Div` contributes the gradient divided by the divisor, and, for
/// the divisor, the negated product of the step's own output with that
/// quotient.  Operators without a gradient propagate nothing.
pub open spec fn process_step(g: &Graph, table: Seq<Option<GradExpr>>, sid: int) -> Seq<
    Option<GradExpr>,
> {
    match table[sid] {
        None => table,
        Some(gy) => {
            let j0 = g.step_inputs(sid)[0] as int;
            let j1 = g.step_inputs(sid)[1] as int;
            match g.step_op(sid) {
                Operator::Neg => accumulate(table, j0, GradExpr::Negate(Box::new(gy))),
                Operator::Add => accumulate(accumulate(table, j0, gy), j1, gy),
                Operator::Sub => accumulate(
                    accumulate(table, j0, gy),
                    j1,
                    GradExpr::Negate(Box::new(gy)),
                ),
                Operator::Mul => accumulate(
                    accumulate(
                        table,
                        j0,
                        GradExpr::MulStep(Box::new(gy), g.step_inputs(sid)[1]),
                    ),
                    j1,
                    GradExpr::MulStep(Box::new(gy), g.step_inputs(sid)[0]),
                ),
                Operator::Div => accumulate(
                    accumulate(
                        table,
                        j0,
                        GradExpr::DivStep(Box::new(gy), g.step_inputs(sid)[1]),
                    ),
                    j1,
                    GradExpr::Negate(
                        Box::new(
                            GradExpr::StepMul(
                                sid as usize,
                                Box::new(GradExpr::DivStep(Box::new(gy), g.step_inputs(sid)[1])),
                            ),
                        ),
                    ),
                ),
                _ => table,
            }
        },
    }
}

/// The gradient table after the backward pass has processed the steps
/// `lo + 1 ..= hi` of graph `g`, in decreasing order.
pub open spec fn backward_from(
    g: &Graph,
    table: Seq<Option<GradExpr>>,
    hi: int,
    lo: int,
) -> Seq<Option<GradExpr>>
    decreases hi - lo,
{
    if hi <= lo {
        table
    } else {
        backward_from(g, process_step(g, table, hi), hi - 1, lo)
    }
}

/// The initial gradient table: the differentiated step carries its
/// one-filled seed, every other slot is empty.
pub open spec fn seed_table(g: &Graph, last: int) -> Seq<Option<GradExpr>> {
    Seq::new(
        g.spec_len(),
        |j: int|
            if j == last {
                Some(GradExpr::Seed(g.step_shape(last), g.step_hw_id(last)))
            } else {
                None
            },
    )
}

/// The smallest step id among the given nodes.
pub open spec fn min_step_id(xs: Seq<Node>) -> int
    decreases xs.len(),
{
    if xs.len() <= 1 {
        xs[0].spec_step_id()
    } else {
        let m = min_step_id(xs.drop_last());
        if xs.last().spec_step_id() < m {
            xs.last().spec_step_id()
        } else {
            m
        }
    }
}

/// The gradient table that differentiating `y` by `xs` builds on graph
/// `g`: the seed at `y`, propagated backwards down to the earliest node of
/// `xs`.
pub open spec fn spec_grad_table(g: &Graph, y: Node, xs: Seq<Node>) -> Seq<Option<GradExpr>> {
    backward_from(g, seed_table(g, y.spec_step_id()), y.spec_step_id(), min_step_id(xs))
}

/// The gradient expression owed to input step `x`: its table entry, or a
/// zero fill of the step's own shape and hardware when no gradient path
/// reached it.
pub open spec fn grad_result_expr(g: &Graph, table: Seq<Option<GradExpr>>, x: int) -> GradExpr {
    match table[x] {
        None => GradExpr::Zero(g.step_shape(x), g.step_hw_id(x)),
        Some(e) => e,
    }
}

/// Peeling the backward pass from the bottom: processing down to `lo` is
/// processing down to `lo + 1` followed by one step at `lo + 1`.
proof fn lemma_backward_step(g: &Graph, table: Seq<Option<GradExpr>>, hi: int, lo: int)
    requires
        hi > lo,
    ensures
        backward_from(g, table, hi, lo) == process_step(
            g,
            backward_from(g, table, hi, lo + 1),
            lo + 1,
        ),
    decreases hi - lo,
{
    if hi == lo + 1 {
        assert(backward_from(g, table, hi, lo) == backward_from(
            g,
            process_step(g, table, hi),
            hi - 1,
            lo,
        ));
    } else {
        lemma_backward_step(g, process_step(g, table, hi), hi - 1, lo);
    }
}

/// A gradient subgraph stays denoted when the graph is extended without
/// touching its existing steps.
proof fn lemma_node_denotes_extend(g1: Graph, g2: Graph, i: int, e: GradExpr)
    requires
        g1.wf(),
        node_denotes(&g1, i, e),
        g2.spec_len() >= g1.spec_len(),
        forall|k: int|
            0 <= k < g1.spec_len() ==> #[trigger] g2.spec_steps()[k] == g1.spec_steps()[k],
    ensures
        node_denotes(&g2, i, e),
    decreases e,
{
    assert(g1.step_wf(i));
    assert(g2.spec_steps()[i] == g1.spec_steps()[i]);
    match e {
        GradExpr::Seed(_, _) => {},
        GradExpr::Zero(_, _) => {},
        GradExpr::Negate(e1) => {
            assert(g1.step_inputs(i)[0] < i);
            lemma_node_denotes_extend(g1, g2, g1.step_inputs(i)[0] as int, *e1);
        },
        GradExpr::Sum(e1, e2) => {
            assert(g1.step_inputs(i)[0] < i);
            assert(g1.step_inputs(i)[1] < i);
            lemma_node_denotes_extend(g1, g2, g1.step_inputs(i)[0] as int, *e1);
            lemma_node_denotes_extend(g1, g2, g1.step_inputs(i)[1] as int, *e2);
        },
        GradExpr::MulStep(e1, _) => {
            assert(g1.step_inputs(i)[0] < i);
            lemma_node_denotes_extend(g1, g2, g1.step_inputs(i)[0] as int, *e1);
        },
        GradExpr::DivStep(e1, _) => {
            assert(g1.step_inputs(i)[0] < i);
            lemma_node_denotes_extend(g1, g2, g1.step_inputs(i)[0] as int, *e1);
        },
        GradExpr::StepMul(_, e1) => {
            assert(g1.step_inputs(i)[1] < i);
            lemma_node_denotes_extend(g1, g2, g1.step_inputs(i)[1] as int, *e1);
        },
    }
}

/// One gradient-table entry is consistent: a recorded gradient node points
/// into the graph and has exactly the shape and hardware of the step it is
/// the gradient of.
spec fn entry_ok(g: &Graph, e: Option<Node>, j: int) -> bool {
    match e {
        Some(n) => {
            &&& n.spec_graph_id() == g.spec_id()
            &&& 0 <= n.spec_step_id() < g.spec_len()
            &&& g.step_shape(n.spec_step_id()) == g.step_shape(j)
            &&& g.step_hw_id(n.spec_step_id()) == g.step_hw_id(j)
        },
        None => true,
    }
}

/// The whole gradient table is consistent.
spec fn table_ok(g: &Graph, table: Seq<Option<Node>>) -> bool {
    forall|j: int| 0 <= j < table.len() ==> entry_ok(g, #[trigger] table[j], j)
}

/// A consistent table stays consistent when the graph is extended without
/// touching its existing steps.
proof fn lemma_table_ok_extend(g1: Graph, g2: Graph, table: Seq<Option<Node>>)
    requires
        table_ok(&g1, table),
        g2.spec_id() == g1.spec_id(),
        g2.spec_len() >= g1.spec_len(),
        forall|i: int|
            0 <= i < g1.spec_len() ==> #[trigger] g2.spec_steps()[i] == g1.spec_steps()[i],
        table.len() <= g1.spec_len(),
    ensures
        table_ok(&g2, table),
{
    assert forall|j: int| 0 <= j < table.len() implies entry_ok(&g2, #[trigger] table[j], j) by {
        assert(entry_ok(&g1, table[j], j));
        match table[j] {
            Some(n) => {
                assert(g2.spec_steps()[n.spec_step_id()] == g1.spec_steps()[n.spec_step_id()]);
                assert(g2.spec_steps()[j] == g1.spec_steps()[j]);
            },
            None => {},
        }
    }
}

/// The executable gradient table matches the symbolic one: a slot is
/// filled exactly where the symbolic table has an expression, and its node
/// is the root of exactly that gradient subgraph.
spec fn table_denotes(g: &Graph, exec_table: Seq<Option<Node>>, spec_table: Seq<Option<GradExpr>>) -> bool {
    &&& exec_table.len() == spec_table.len()
    &&& forall|j: int|
        0 <= j < exec_table.len() ==> match #[trigger] spec_table[j] {
            Some(e) => exec_table[j] matches Some(n) && node_denotes(g, n.spec_step_id(), e),
            None => exec_table[j] is None,
        }
}

/// Builds the nodes of the derivatives of `y` with respect to each node of
/// `xs`, by reverse-mode backpropagation through the graph.
///
/// The backward pass only appends new forward steps to the graph — it never
/// evaluates anything — so the returned nodes can themselves be
/// differentiated again for higher-order derivatives.  Each returned node
/// is the root of exactly the gradient subgraph that [`spec_grad_table`]
/// prescribes: the seed gradient of `y` is a one-filled step of `y`'s
/// shape; every operator contributes its local gradient (see
/// [`process_step`]); gradients meeting at a step are summed with an
/// appended addition step, which makes diamond dependencies correct; and a
/// node of `xs` that no gradient path reaches gets a zero-filled gradient
/// of its own shape.
#[verifier::rlimit(100)]
pub fn grad(g: &mut Graph, y: Node, xs: &[Node]) -> (r: Result<Vec<Node>, Error>)
    requires
        old(g).wf(),
    ensures
        final(g).wf(),
        final(g).spec_id() == old(g).spec_id(),
        old(g).cache_ok_all_preserved_by(final(g)),
        r is Ok <==> y.valid_in(old(g)) && (forall|i: int|
            0 <= i < xs@.len() ==> (#[trigger] xs@[i]).valid_in(old(g))),
        r matches Err(e) ==> e is InvalidNode && *final(g) == *old(g),
        xs@.len() == 0 && r is Ok ==> *final(g) == *old(g),
        r matches Ok(gs) ==> {
            &&& gs@.len() == xs@.len()
            &&& forall|i: int| 0 <= i < gs@.len() ==> (#[trigger] gs@[i]).valid_in(final(g))
            &&& forall|i: int|
                0 <= i < gs@.len() ==> final(g).step_shape((#[trigger] gs@[i]).spec_step_id())
                    == old(g).step_shape(xs@[i].spec_step_id()) && final(g).step_hw_id(
                    gs@[i].spec_step_id(),
                ) == old(g).step_hw_id(xs@[i].spec_step_id())
            &&& forall|i: int|
                0 <= i < gs@.len() ==> node_denotes(
                    final(g),
                    (#[trigger] gs@[i]).spec_step_id(),
                    grad_result_expr(
                        old(g),
                        spec_grad_table(old(g), y, xs@),
                        xs@[i].spec_step_id(),
                    ),
                )
        },
{
    let ghost g_orig = *g;
    let graph_id = g.id();
    let num_steps = g.num_steps();
    if y.graph_id() != graph_id || y.step_id() >= num_steps {
        return Err(
            Error::InvalidNode(
                "Gradients can not be calculated beyond different graphs.".to_owned(),
            ),
        );
    }
    let mut k: usize = 0;
    while k < xs.len()
        invariant
            k <= xs@.len(),
            *g == g_orig,
            g_orig == *old(g),
            g.wf(),
            num_steps == g.spec_len(),
            graph_id == g.spec_id(),
            forall|i: int| 0 <= i < k ==> (#[trigger] xs@[i]).valid_in(g),
        decreases xs@.len() - k,
    {
        if xs[k].graph_id() != graph_id || xs[k].step_id() >= num_steps {
            return Err(
                Error::InvalidNode(
                    "Gradients can not be calculated beyond different graphs.".to_owned(),
                ),
            );
        }
        k = k + 1;
    }
    if xs.len() == 0 {
        return Ok(Vec::new());
    }
    // Earliest step of interest: the smallest id among `xs`.
    let mut first: usize = xs[0].step_id();
    let mut k2: usize = 1;
    proof {
        assert(xs@.take(1) =~= seq![xs@[0]]);
    }
    while k2 < xs.len()
        invariant
            1 <= k2 <= xs@.len(),
            *g == g_orig,
            g_orig == *old(g),
            g.wf(),
            num_steps == g.spec_len(),
            forall|i: int| 0 <= i < xs@.len() ==> (#[trigger] xs@[i]).valid_in(g),
            first < num_steps,
            first == min_step_id(xs@.take(k2 as int)),
        decreases xs@.len() - k2,
    {
        proof {
            assert(xs@.take(k2 + 1).drop_last() =~= xs@.take(k2 as int));
            assert(xs@.take(k2 + 1).last() == xs@[k2 as int]);
        }
        if xs[k2].step_id() < first {
            first = xs[k2].step_id();
        }
        k2 = k2 + 1;
    }
    proof {
        assert(xs@.take(xs@.len() as int) =~= xs@);
    }
    let last: usize = y.step_id();

    // Gradient table, indexed by step id.
    let mut gradients: Vec<Option<Node>> = Vec::new();
    while gradients.len() < num_steps
        invariant
            *g == g_orig,
            g_orig == *old(g),
            gradients@.len() <= num_steps,
            forall|j: int| 0 <= j < gradients@.len() ==> (#[trigger] gradients@[j]) is None,
        decreases num_steps - gradients@.len(),
    {
        gradients.push(None);
    }

    // Seed: the gradient of `y` is one.
    let y_shape = match g.get_step(last) {
        Ok(step) => step.output().shape(),
        Err(_) => unreached(),
    };
    let y_hw = match g.get_step(last) {
        Ok(step) => step.output().hardware_id(),
        Err(_) => unreached(),
    };
    proof {
        assert(g.step_wf(last as int));
    }
    let seed = g.fill_node(y_hw, y_shape, ONE_BITS);
    gradients[last] = Some(seed);
    proof {
        assert forall|j: int| 0 <= j < gradients@.len() implies entry_ok(
            g,
            #[trigger] gradients@[j],
            j,
        ) by {}
        assert(table_denotes(g, gradients@, seed_table(&g_orig, last as int)));
    }

    // Backward pass in decreasing step order: steps are numbered
    // topologically, so this is a valid reverse-topological walk.
    let mut sid: usize = last;
    while sid > first
        invariant
            g.wf(),
            g.spec_id() == graph_id,
            g.spec_len() >= num_steps,
            num_steps == g_orig.spec_len(),
            g_orig == *old(g),
            g_orig.wf(),
            g_orig.cache_ok_all_preserved_by(g),
            forall|i: int|
                0 <= i < num_steps ==> #[trigger] g.spec_steps()[i] == g_orig.spec_steps()[i],
            gradients@.len() == num_steps,
            table_ok(g, gradients@),
            table_denotes(
                g,
                gradients@,
                backward_from(&g_orig, seed_table(&g_orig, last as int), last as int, sid as int),
            ),
            sid < num_steps,
            sid <= last,
            last < num_steps,
            last == y.spec_step_id(),
            first < num_steps,
            first == min_step_id(xs@),
            sid >= first || sid == last,
            forall|i: int| 0 <= i < xs@.len() ==> (#[trigger] xs@[i]).valid_in(&g_orig),
        decreases sid,
    {
        let ghost t_spec0 = backward_from(
            &g_orig,
            seed_table(&g_orig, last as int),
            last as int,
            sid as int,
        );
        proof {
            lemma_backward_step(&g_orig, seed_table(&g_orig, last as int), last as int, sid - 1);
        }
        let ghost t_target = process_step(&g_orig, t_spec0, sid as int);
        let cur_gy_opt = gradients[sid];
        match cur_gy_opt {
            None => {
                proof {
                    assert(t_spec0[sid as int] is None);
                    assert(t_target == t_spec0);
                }
            },
            Some(cur_gy) => {
                // Extract the operator kind and the input ids; only the
                // payload-free operators participate in backpropagation.
                let step = match g.get_step(sid) {
                    Ok(s) => s,
                    Err(_) => unreached(),
                };
                let kind: Option<Operator> = match step.operator() {
                    Operator::Neg => Some(Operator::Neg),
                    Operator::Add => Some(Operator::Add),
                    Operator::Sub => Some(Operator::Sub),
                    Operator::Mul => Some(Operator::Mul),
                    Operator::Div => Some(Operator::Div),
                    Operator::Constant(_) => None,
                    Operator::Fill { .. } => None,
                };
                let num_inputs = step.inputs().len();
                proof {
                    assert(g.step_wf(sid as int));
                    assert(g_orig.step_op(sid as int) == g.step_op(sid as int));
                    assert(g_orig.step_inputs(sid as int) == g.step_inputs(sid as int));
                }
                let j0: usize = if num_inputs >= 1 {
                    step.inputs()[0]
                } else {
                    0
                };
                let j1: usize = if num_inputs >= 2 {
                    step.inputs()[1]
                } else {
                    0
                };
                let ghost e_gy = match t_spec0[sid as int] {
                    Some(e) => e,
                    None => arbitrary(),
                };
                proof {
                    assert(t_spec0[sid as int] == Some(e_gy));
                    assert(node_denotes(g, cur_gy.spec_step_id(), e_gy));
                }
                match kind {
                    None => {
                        proof {
                            assert(t_target == t_spec0);
                        }
                    },
                    Some(op) => {
                        let ghost g_iter = *g;
                        let y_node = Node::new(graph_id, sid);
                        proof {
                            assert(entry_ok(g, gradients@[sid as int], sid as int));
                            crate::graph::lemma_input_props(*g, sid as int, 0);
                            if num_inputs >= 2 {
                                crate::graph::lemma_input_props(*g, sid as int, 1);
                                assert(g.step_wf(j1 as int));
                                lemma_shape_dims_eq(
                                    g.step_shape(j1 as int),
                                    g.step_shape(sid as int),
                                );
                            }
                        }
                        // Build the gradients of the step's inputs.
                        let gx0: Node;
                        let mut gx1_opt: Option<Node> = None;
                        let ghost mut e0: GradExpr = arbitrary();
                        let ghost mut e1: GradExpr = arbitrary();
                        match op {
                            Operator::Neg => {
                                gx0 = match g.neg(cur_gy) {
                                    Ok(n) => n,
                                    Err(_) => unreached(),
                                };
                                proof {
                                    e0 = GradExpr::Negate(Box::new(e_gy));
                                    lemma_node_denotes_extend(
                                        g_iter,
                                        *g,
                                        cur_gy.spec_step_id(),
                                        e_gy,
                                    );
                                    assert(node_denotes(g, gx0.spec_step_id(), e0));
                                    assert(t_target == accumulate(t_spec0, j0 as int, e0));
                                }
                            },
                            Operator::Add => {
                                gx0 = cur_gy;
                                gx1_opt = Some(cur_gy);
                                proof {
                                    e0 = e_gy;
                                    e1 = e_gy;
                                    assert(node_denotes(g, gx0.spec_step_id(), e0));
                                    assert(t_target == accumulate(
                                        accumulate(t_spec0, j0 as int, e0),
                                        j1 as int,
                                        e1,
                                    ));
                                }
                            },
                            Operator::Sub => {
                                gx0 = cur_gy;
                                let n1 = match g.neg(cur_gy) {
                                    Ok(n) => n,
                                    Err(_) => unreached(),
                                };
                                gx1_opt = Some(n1);
                                proof {
                                    e0 = e_gy;
                                    e1 = GradExpr::Negate(Box::new(e_gy));
                                    lemma_node_denotes_extend(
                                        g_iter,
                                        *g,
                                        cur_gy.spec_step_id(),
                                        e_gy,
                                    );
                                    assert(node_denotes(g, gx0.spec_step_id(), e0));
                                    assert(node_denotes(g, n1.spec_step_id(), e1));
                                    assert(t_target == accumulate(
                                        accumulate(t_spec0, j0 as int, e0),
                                        j1 as int,
                                        e1,
                                    ));
                                }
                            },
                            Operator::Mul => {
                                let x0 = Node::new(graph_id, j0);
                                let x1 = Node::new(graph_id, j1);
                                gx0 = match g.mul(cur_gy, x1) {
                                    Ok(n) => n,
                                    Err(_) => unreached(),
                                };
                                let ghost g_after0 = *g;
                                let n1 = match g.mul(cur_gy, x0) {
                                    Ok(n) => n,
                                    Err(_) => unreached(),
                                };
                                gx1_opt = Some(n1);
                                proof {
                                    e0 = GradExpr::MulStep(Box::new(e_gy), j1);
                                    e1 = GradExpr::MulStep(Box::new(e_gy), j0);
                                    lemma_node_denotes_extend(
                                        g_iter,
                                        g_after0,
                                        cur_gy.spec_step_id(),
                                        e_gy,
                                    );
                                    lemma_node_denotes_extend(
                                        g_after0,
                                        *g,
                                        cur_gy.spec_step_id(),
                                        e_gy,
                                    );
                                    assert(node_denotes(g, gx0.spec_step_id(), e0)) by {
                                        lemma_node_denotes_extend(
                                            g_after0,
                                            *g,
                                            gx0.spec_step_id(),
                                            e0,
                                        );
                                    }
                                    assert(node_denotes(g, n1.spec_step_id(), e1));
                                    assert(t_target == accumulate(
                                        accumulate(t_spec0, j0 as int, e0),
                                        j1 as int,
                                        e1,
                                    ));
                                }
                            },
                            Operator::Div => {
                                // d(x0/x1)/dx0 is gy/x1; d(x0/x1)/dx1 is
                                // -y*gy/x1, reusing the step's own output so
                                // that backpropagation stays symbolic.
                                let x1 = Node::new(graph_id, j1);
                                gx0 = match g.div(cur_gy, x1) {
                                    Ok(n) => n,
                                    Err(_) => unreached(),
                                };
                                let ghost g_after0 = *g;
                                let t = match g.mul(y_node, gx0) {
                                    Ok(n) => n,
                                    Err(_) => unreached(),
                                };
                                let ghost g_after1 = *g;
                                let n1 = match g.neg(t) {
                                    Ok(n) => n,
                                    Err(_) => unreached(),
                                };
                                gx1_opt = Some(n1);
                                proof {
                                    e0 = GradExpr::DivStep(Box::new(e_gy), j1);
                                    e1 = GradExpr::Negate(
                                        Box::new(GradExpr::StepMul(sid, Box::new(e0))),
                                    );
                                    lemma_node_denotes_extend(
                                        g_iter,
                                        g_after0,
                                        cur_gy.spec_step_id(),
                                        e_gy,
                                    );
                                    assert(node_denotes(&g_after0, gx0.spec_step_id(), e0));
                                    lemma_node_denotes_extend(
                                        g_after0,
                                        g_after1,
                                        gx0.spec_step_id(),
                                        e0,
                                    );
                                    assert(node_denotes(
                                        &g_after1,
                                        t.spec_step_id(),
                                        GradExpr::StepMul(sid, Box::new(e0)),
                                    ));
                                    lemma_node_denotes_extend(
                                        g_after1,
                                        *g,
                                        t.spec_step_id(),
                                        GradExpr::StepMul(sid, Box::new(e0)),
                                    );
                                    assert(node_denotes(g, n1.spec_step_id(), e1));
                                    lemma_node_denotes_extend(g_after0, *g, gx0.spec_step_id(), e0);
                                    assert(node_denotes(g, gx0.spec_step_id(), e0));
                                    assert(t_target == accumulate(
                                        accumulate(t_spec0, j0 as int, e0),
                                        j1 as int,
                                        e1,
                                    ));
                                }
                            },
                            _ => {
                                gx0 = unreached();
                            },
                        }
                        proof {
                            assert(g.step_shape(gx0.spec_step_id()) == g.step_shape(j0 as int));
                            assert(g.step_hw_id(gx0.spec_step_id()) == g.step_hw_id(j0 as int));
                            match gx1_opt {
                                Some(gx1) => {
                                    assert(g.step_shape(gx1.spec_step_id()) == g.step_shape(
                                        j1 as int,
                                    ));
                                    assert(g.step_hw_id(gx1.spec_step_id()) == g.step_hw_id(
                                        j1 as int,
                                    ));
                                },
                                None => {},
                            }
                            lemma_table_ok_extend(g_iter, *g, gradients@);
                            // the whole table is still denoted after the
                            // appends of this iteration
                            assert forall|j: int| 0 <= j < gradients@.len() implies match
                                #[trigger] t_spec0[j] {
                                Some(e) => gradients@[j] matches Some(n) && node_denotes(
                                    g,
                                    n.spec_step_id(),
                                    e,
                                ),
                                None => gradients@[j] is None,
                            } by {
                                match t_spec0[j] {
                                    Some(e) => {
                                        let n = match gradients@[j] {
                                            Some(n) => n,
                                            None => arbitrary(),
                                        };
                                        lemma_node_denotes_extend(
                                            g_iter,
                                            *g,
                                            n.spec_step_id(),
                                            e,
                                        );
                                    },
                                    None => {},
                                }
                            }
                        }
                        // Accumulate into the table, summing where another
                        // gradient already flowed into the same step.
                        let ghost g_built = *g;
                        let ghost t_specA = accumulate(t_spec0, j0 as int, e0);
                        let prev0 = gradients[j0];
                        let acc0 = match prev0 {
                            None => gx0,
                            Some(p) => match g.add(p, gx0) {
                                Ok(n) => n,
                                Err(_) => unreached(),
                            },
                        };
                        gradients[j0] = Some(acc0);
                        proof {
                            // the fresh entry is denoted
                            match t_spec0[j0 as int] {
                                None => {
                                    assert(t_specA[j0 as int] == Some(e0));
                                    lemma_node_denotes_extend(
                                        g_built,
                                        *g,
                                        gx0.spec_step_id(),
                                        e0,
                                    );
                                },
                                Some(p_e) => {
                                    assert(t_specA[j0 as int] == Some(
                                        GradExpr::Sum(Box::new(p_e), Box::new(e0)),
                                    ));
                                    let p = match prev0 {
                                        Some(p) => p,
                                        None => arbitrary(),
                                    };
                                    lemma_node_denotes_extend(
                                        g_built,
                                        *g,
                                        p.spec_step_id(),
                                        p_e,
                                    );
                                    lemma_node_denotes_extend(
                                        g_built,
                                        *g,
                                        gx0.spec_step_id(),
                                        e0,
                                    );
                                    assert(node_denotes(
                                        g,
                                        acc0.spec_step_id(),
                                        GradExpr::Sum(Box::new(p_e), Box::new(e0)),
                                    ));
                                },
                            }
                            // the untouched entries are still denoted
                            assert forall|j: int|
                                0 <= j < gradients@.len() && j != j0 implies match
                                #[trigger] t_specA[j] {
                                Some(e) => gradients@[j] matches Some(n) && node_denotes(
                                    g,
                                    n.spec_step_id(),
                                    e,
                                ),
                                None => gradients@[j] is None,
                            } by {
                                assert(t_specA[j] == t_spec0[j]);
                                match t_spec0[j] {
                                    Some(e) => {
                                        let n = match gradients@[j] {
                                            Some(n) => n,
                                            None => arbitrary(),
                                        };
                                        lemma_node_denotes_extend(
                                            g_built,
                                            *g,
                                            n.spec_step_id(),
                                            e,
                                        );
                                    },
                                    None => {},
                                }
                            }
                            let ghost t_mid = gradients@;
                            assert forall|j: int| 0 <= j < t_mid.len() implies entry_ok(
                                g,
                                #[trigger] t_mid[j],
                                j,
                            ) by {
                                if j != j0 {
                                    assert(g.spec_steps()[j] == g_iter.spec_steps()[j]);
                                }
                            }
                        }
                        let ghost g_mid = *g;
                        match gx1_opt {
                            None => {
                                proof {
                                    assert(t_target == t_specA);
                                }
                            },
                            Some(gx1) => {
                                let ghost t_specB = accumulate(t_specA, j1 as int, e1);
                                let prev1 = gradients[j1];
                                let acc1 = match prev1 {
                                    None => gx1,
                                    Some(p) => match g.add(p, gx1) {
                                        Ok(n) => n,
                                        Err(_) => unreached(),
                                    },
                                };
                                gradients[j1] = Some(acc1);
                                proof {
                                    assert(t_target == t_specB);
                                    match t_specA[j1 as int] {
                                        None => {
                                            assert(t_specB[j1 as int] == Some(e1));
                                            lemma_node_denotes_extend(
                                                g_built,
                                                *g,
                                                gx1.spec_step_id(),
                                                e1,
                                            );
                                        },
                                        Some(p_e) => {
                                            assert(t_specB[j1 as int] == Some(
                                                GradExpr::Sum(Box::new(p_e), Box::new(e1)),
                                            ));
                                            let p = match prev1 {
                                                Some(p) => p,
                                                None => arbitrary(),
                                            };
                                            lemma_node_denotes_extend(
                                                g_mid,
                                                *g,
                                                p.spec_step_id(),
                                                p_e,
                                            );
                                            lemma_node_denotes_extend(
                                                g_built,
                                                *g,
                                                gx1.spec_step_id(),
                                                e1,
                                            );
                                            assert(node_denotes(
                                                g,
                                                acc1.spec_step_id(),
                                                GradExpr::Sum(Box::new(p_e), Box::new(e1)),
                                            ));
                                        },
                                    }
                                    assert forall|j: int|
                                        0 <= j < gradients@.len() && j != j1 implies match
                                        #[trigger] t_specB[j] {
                                        Some(e) => gradients@[j] matches Some(n) && node_denotes(
                                            g,
                                            n.spec_step_id(),
                                            e,
                                        ),
                                        None => gradients@[j] is None,
                                    } by {
                                        assert(t_specB[j] == t_specA[j]);
                                        match t_specA[j] {
                                            Some(e) => {
                                                let n = match gradients@[j] {
                                                    Some(n) => n,
                                                    None => arbitrary(),
                                                };
                                                lemma_node_denotes_extend(
                                                    g_mid,
                                                    *g,
                                                    n.spec_step_id(),
                                                    e,
                                                );
                                            },
                                            None => {},
                                        }
                                    }
                                    lemma_table_ok_extend(
                                        g_mid,
                                        *g,
                                        gradients@.update(j1 as int, None),
                                    );
                                    assert forall|j: int| 0 <= j < gradients@.len() implies
                                        entry_ok(g, #[trigger] gradients@[j], j) by {
                                        if j != j1 {
                                            assert(gradients@.update(j1 as int, None)[j]
                                                == gradients@[j]);
                                            assert(entry_ok(
                                                g,
                                                gradients@.update(j1 as int, None)[j],
                                                j,
                                            ));
                                        }
                                    }
                                }
                            },
                        }
                        proof {
                            crate::node::lemma_cache_preserve_trans(g_orig, g_iter, *g);
                        }
                    },
                }
            },
        }
        sid = sid - 1;
    }

    // Collect the gradients of `xs`; an untouched slot means no gradient
    // path exists, which is semantically zero.
    let ghost t_final = spec_grad_table(&g_orig, y, xs@);
    proof {
        if sid as int == min_step_id(xs@) {
            assert(t_final == backward_from(
                &g_orig,
                seed_table(&g_orig, last as int),
                last as int,
                sid as int,
            ));
        } else {
            // the backward pass never ran: `y` is no later than the
            // earliest input, so both tables are the seed table
            assert(sid == last);
            assert(last as int <= min_step_id(xs@));
            assert(backward_from(
                &g_orig,
                seed_table(&g_orig, last as int),
                last as int,
                sid as int,
            ) == seed_table(&g_orig, last as int));
            assert(t_final == seed_table(&g_orig, last as int));
        }
    }
    let mut result: Vec<Node> = Vec::new();
    let mut k3: usize = 0;
    while k3 < xs.len()
        invariant
            k3 <= xs@.len(),
            result@.len() == k3,
            g.wf(),
            g.spec_id() == graph_id,
            g.spec_len() >= num_steps,
            num_steps == g_orig.spec_len(),
            g_orig == *old(g),
            g_orig.wf(),
            g_orig.cache_ok_all_preserved_by(g),
            forall|i: int|
                0 <= i < num_steps ==> #[trigger] g.spec_steps()[i] == g_orig.spec_steps()[i],
            gradients@.len() == num_steps,
            table_ok(g, gradients@),
            table_denotes(g, gradients@, t_final),
            forall|i: int| 0 <= i < xs@.len() ==> (#[trigger] xs@[i]).valid_in(&g_orig),
            forall|i: int|
                0 <= i < k3 ==> (#[trigger] result@[i]).valid_in(g) && g.step_shape(
                    result@[i].spec_step_id(),
                ) == g_orig.step_shape(xs@[i].spec_step_id()) && g.step_hw_id(
                    result@[i].spec_step_id(),
                ) == g_orig.step_hw_id(xs@[i].spec_step_id()),
            forall|i: int|
                0 <= i < k3 ==> node_denotes(
                    g,
                    (#[trigger] result@[i]).spec_step_id(),
                    grad_result_expr(&g_orig, t_final, xs@[i].spec_step_id()),
                ),
        decreases xs@.len() - k3,
    {
        let ghost g_iter = *g;
        let xj = xs[k3].step_id();
        proof {
            assert(entry_ok(g, gradients@[xj as int], xj as int));
        }
        let entry = gradients[xj];
        let r_k: Node = match entry {
            Some(n) => {
                proof {
                    assert(t_final[xj as int] is Some);
                    assert(grad_result_expr(&g_orig, t_final, xj as int) == t_final[xj as int]->0);
                }
                n
            },
            None => {
                let x_shape = match g.get_step(xj) {
                    Ok(step) => step.output().shape(),
                    Err(_) => unreached(),
                };
                let x_hw = match g.get_step(xj) {
                    Ok(step) => step.output().hardware_id(),
                    Err(_) => unreached(),
                };
                proof {
                    assert(g.step_wf(xj as int));
                    assert(t_final[xj as int] is None);
                }
                g.fill_node(x_hw, x_shape, ZERO_BITS)
            },
        };
        proof {
            let e_k = grad_result_expr(&g_orig, t_final, xj as int);
            if t_final[xj as int] is Some {
                assert(node_denotes(&g_iter, r_k.spec_step_id(), e_k));
            } else {
                assert(e_k == GradExpr::Zero(
                    g_orig.step_shape(xj as int),
                    g_orig.step_hw_id(xj as int),
                ));
                assert(node_denotes(g, r_k.spec_step_id(), e_k));
            }
        }
        let ghost r0 = result@;
        result.push(r_k);
        proof {
            assert forall|i: int| 0 <= i < result@.len() implies (#[trigger] result@[i]).valid_in(
                g,
            ) && g.step_shape(result@[i].spec_step_id()) == g_orig.step_shape(
                xs@[i].spec_step_id(),
            ) && g.step_hw_id(result@[i].spec_step_id()) == g_orig.step_hw_id(
                xs@[i].spec_step_id(),
            ) && node_denotes(
                g,
                result@[i].spec_step_id(),
                grad_result_expr(&g_orig, t_final, xs@[i].spec_step_id()),
            ) by {
                if i < k3 as int {
                    assert(result@[i] == r0[i]);
                    assert(r0[i].valid_in(&g_iter));
                    assert(r0[i].spec_step_id() < g_iter.spec_len());
                    lemma_step_same(g_iter, *g, r0[i].spec_step_id());
                    lemma_node_denotes_extend(
                        g_iter,
                        *g,
                        r0[i].spec_step_id(),
                        grad_result_expr(&g_orig, t_final, xs@[i].spec_step_id()),
                    );
                } else {
                    if t_final[xj as int] is Some {
                        lemma_node_denotes_extend(
                            g_iter,
                            *g,
                            r_k.spec_step_id(),
                            grad_result_expr(&g_orig, t_final, xj as int),
                        );
                    }
                }
            }
            crate::node::lemma_cache_preserve_trans(g_orig, g_iter, *g);
            lemma_table_ok_extend(g_iter, *g, gradients@);
            assert forall|j: int| 0 <= j < gradients@.len() implies match #[trigger] t_final[j] {
                Some(e) => gradients@[j] matches Some(n) && node_denotes(g, n.spec_step_id(), e),
                None => gradients@[j] is None,
            } by {
                match t_final[j] {
                    Some(e) => {
                        let n = match gradients@[j] {
                            Some(n) => n,
                            None => arbitrary(),
                        };
                        lemma_node_denotes_extend(g_iter, *g, n.spec_step_id(), e);
                    },
                    None => {},
                }
            }
        }
        k3 = k3 + 1;
    }
    Ok(result)
}

/// A step of a prefix-stable extension is unchanged.
proof fn lemma_step_same(g1: Graph, g2: Graph, i: int)
    requires
        0 <= i < g1.spec_len(),
        g2.spec_len() >= g1.spec_len(),
        forall|k: int|
            0 <= k < g1.spec_len() ==> #[trigger] g2.spec_steps()[k] == g1.spec_steps()[k],
    ensures
        g2.spec_steps()[i] == g1.spec_steps()[i],
{
}

} // verus!
