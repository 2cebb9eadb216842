use crate::array::Array;
use crate::error::Error;
use crate::graph::Graph;
use crate::hardware::mem_extends;
use crate::hardware::Hardware;
use crate::operator::Operator;
use crate::shape::Shape;
use vstd::prelude::*;

verus! {

broadcast use crate::shape::lemma_shape_wf_facts;

/// Handle into a computation graph: the identity of the graph and the id of
/// one step.  A node carries no data; every query goes through the graph it
/// points into.  Two nodes are equal when both coordinates are equal, so
/// nodes of different graphs are never equal.
#[derive(Clone, Copy, Debug, PartialEq, Eq, Structural)]
pub struct Node {
    /// Identity of the graph the node points into.
    graph_id: u64,
    /// Step id within that graph.
    step_id: usize,
}

/// Appending one unassigned `Constant` step whose array is a live
/// allocation that the graph does not already own keeps the cache
/// consistent.
proof fn lemma_cache_ok_push_constant<H: Hardware>(g1: Graph, g2: Graph, h: &H, a: Array)
    requires
        g1.wf(),
        g1.cache_ok(h),
        g2.spec_len() == g1.spec_len() + 1,
        forall|i: int|
            0 <= i < g1.spec_len() ==> #[trigger] g2.spec_steps()[i] == g1.spec_steps()[i],
        g2.step_op(g1.spec_len() as int) == Operator::Constant(a),
        !g2.is_assigned(g1.spec_len() as int),
        a.valid(h),
        !g1.owns_handle(a.spec_handle(), h.spec_id()),
    ensures
        g2.cache_ok(h),
{
    let hid = h.spec_id();
    let n = g1.spec_len() as int;
    assert forall|i: int, c: bool| #[trigger] g2.is_source(i, c, hid) implies g2.source_array(
        i,
        c,
    ).valid(h) by {
        if i == n {
            assert(g2.source_array(i, c) == a);
        } else {
            assert(g1.is_source(i, c, hid));
            assert(g2.source_array(i, c) == g1.source_array(i, c));
        }
    }
    assert forall|i: int, c: bool, j: int, d: bool|
        #![trigger g2.source_array(i, c), g2.source_array(j, d)]
        g2.is_source(i, c, hid) && g2.is_source(j, d, hid) && !(i == j && c == d) implies g2
        .source_array(i, c).spec_handle() != g2.source_array(j, d).spec_handle() by {
        if i == n && j == n {
            assert(false);
        } else if i == n {
            assert(g1.is_source(j, d, hid));
            assert(g2.source_array(j, d) == g1.source_array(j, d));
            if g1.source_array(j, d).spec_handle() == a.spec_handle() {
                assert(g1.owns_handle(a.spec_handle(), hid));
            }
        } else if j == n {
            assert(g1.is_source(i, c, hid));
            assert(g2.source_array(i, c) == g1.source_array(i, c));
            if g1.source_array(i, c).spec_handle() == a.spec_handle() {
                assert(g1.owns_handle(a.spec_handle(), hid));
            }
        } else {
            assert(g1.is_source(i, c, hid));
            assert(g1.is_source(j, d, hid));
            assert(g2.source_array(i, c) == g1.source_array(i, c));
            assert(g2.source_array(j, d) == g1.source_array(j, d));
        }
    }
    crate::graph::lemma_values_ok_preserved(g1, g2, *h, *h);
    assert forall|i: int|
        0 <= i < g2.spec_len() && #[trigger] g2.is_assigned(i) && g2.step_hw_id(i)
            == hid implies g2.step_values_ok(h, i) by {
        assert(i < g1.spec_len());
        assert(g1.is_assigned(i));
        assert(g1.step_hw_id(i) == hid);
    }
}

/// A node's step id is a machine index.
pub broadcast proof fn lemma_node_step_id_bounds(n: Node)
    ensures
        0 <= #[trigger] n.spec_step_id() <= usize::MAX,
{
}

impl Node {
    /// Identity of the graph this node points into.
    pub closed spec fn spec_graph_id(&self) -> u64 {
        self.graph_id
    }

    /// Step id of this node within its graph.
    pub closed spec fn spec_step_id(&self) -> int {
        self.step_id as int
    }

    /// The node is a handle into graph `g`.
    pub open spec fn valid_in(&self, g: &Graph) -> bool {
        self.spec_graph_id() == g.spec_id() && 0 <= self.spec_step_id() < g.spec_len()
    }

    /// Creates a handle from its coordinates.
    pub(crate) fn new(graph_id: u64, step_id: usize) -> (n: Node)
        ensures
            n.spec_graph_id() == graph_id,
            n.spec_step_id() == step_id,
    {
        Node { graph_id, step_id }
    }

    /// Returns the identity of the graph this node points into.
    pub fn graph_id(&self) -> (r: u64)
        ensures
            r == self.spec_graph_id(),
    {
        self.graph_id
    }

    /// Returns the step id of this node within its graph.
    pub fn step_id(&self) -> (r: usize)
        ensures
            r == self.spec_step_id(),
    {
        self.step_id
    }

    /// Checks that every node of `others` points into the same graph as
    /// this node, erring with `InvalidGraph` otherwise.
    pub fn check_graph(&self, others: &[Node]) -> (r: Result<(), Error>)
        ensures
            r is Ok <==> forall|i: int|
                0 <= i < others@.len() ==> (#[trigger] others@[i]).spec_graph_id()
                    == self.spec_graph_id(),
            r matches Err(e) ==> e is InvalidGraph,
    {
        let mut i: usize = 0;
        while i < others.len()
            invariant
                i <= others@.len(),
                forall|k: int|
                    0 <= k < i ==> (#[trigger] others@[k]).spec_graph_id()
                        == self.spec_graph_id(),
            decreases others@.len() - i,
        {
            if others[i].graph_id != self.graph_id {
                return Err(
                    Error::InvalidGraph(
                        "Attempted calculation between nodes on different graphs.".to_owned(),
                    ),
                );
            }
            i = i + 1;
        }
        Ok(())
    }

    /// Registers a `Constant` step producing the given array, which must be
    /// a live allocation of `hw` that the graph does not already own.  The
    /// graph takes ownership of the array.
    pub fn constant<H: Hardware>(graph: &mut Graph, array: Array, hw: &H) -> (n: Node)
        requires
            old(graph).wf(),
            old(graph).cache_ok(hw),
            array.valid(hw),
            !old(graph).owns_handle(array.spec_handle(), hw.spec_id()),
        ensures
            final(graph).wf(),
            final(graph).cache_ok(hw),
            final(graph).spec_id() == old(graph).spec_id(),
            final(graph).spec_len() == old(graph).spec_len() + 1,
            forall|i: int|
                0 <= i < old(graph).spec_len()
                    ==> #[trigger] final(graph).spec_steps()[i] == old(graph).spec_steps()[i],
            n.valid_in(final(graph)),
            n.spec_graph_id() == old(graph).spec_id(),
            n.spec_step_id() == old(graph).spec_len(),
            final(graph).step_op(n.spec_step_id()) == Operator::Constant(array),
            !final(graph).is_assigned(n.spec_step_id()),
            final(graph).step_shape(n.spec_step_id()) == array.spec_shape(),
            final(graph).step_hw_id(n.spec_step_id()) == array.spec_hw_id(),
    {
        let graph_id = graph.id();
        let ghost g1 = *graph;
        let ghost a = array;
        let r = graph.add_step(Operator::Constant(array), Vec::new());
        match r {
            Ok(id) => {
                proof {
                    lemma_cache_ok_push_constant(g1, *graph, hw, a);
                }
                Node::new(graph_id, id)
            },
            Err(_) => unreached(),
        }
    }

    /// Registers a constant scalar: allocates a scalar array holding
    /// `value` on `hw` and appends a `Constant` step producing it.
    pub fn from_scalar<H: Hardware>(graph: &mut Graph, hw: &mut H, value: u32) -> (n: Node)
        requires
            old(graph).wf(),
            old(graph).cache_ok(old(hw)),
        ensures
            final(graph).wf(),
            final(graph).cache_ok(final(hw)),
            final(hw).spec_id() == old(hw).spec_id(),
            mem_extends(old(hw).mem(), final(hw).mem()),
            final(graph).spec_id() == old(graph).spec_id(),
            final(graph).spec_len() == old(graph).spec_len() + 1,
            forall|i: int|
                0 <= i < old(graph).spec_len()
                    ==> #[trigger] final(graph).spec_steps()[i] == old(graph).spec_steps()[i],
            n.valid_in(final(graph)),
            n.spec_graph_id() == old(graph).spec_id(),
            n.spec_step_id() == old(graph).spec_len(),
            final(graph).step_shape(n.spec_step_id()).spec_num_dimensions() == 0,
            final(graph).step_hw_id(n.spec_step_id()) == old(hw).spec_id(),
            !final(graph).is_assigned(n.spec_step_id()),
            final(graph).step_op(n.spec_step_id()) matches Operator::Constant(a)
                && a.contents(final(hw)) == seq![value],
    {
        let array = Array::scalar(hw, value);
        proof {
            if old(graph).owns_handle(array.spec_handle(), old(hw).spec_id()) {
                let (i, c): (int, bool) = choose|i: int, c: bool|
                    old(graph).is_source(i, c, old(hw).spec_id()) && (#[trigger] old(
                        graph,
                    ).source_array(i, c)).spec_handle() == array.spec_handle();
                assert(old(graph).source_array(i, c).valid(old(hw)));
                assert(false);
            }
            crate::graph::lemma_values_ok_preserved(*old(graph), *old(graph), *old(hw), *hw);
            assert forall|i: int|
                0 <= i < graph.spec_len() && #[trigger] graph.is_assigned(i) && graph.step_hw_id(i)
                    == hw.spec_id() implies graph.step_values_ok(hw, i) by {}
        }
        Node::constant(graph, array, hw)
    }

    /// Registers a `Fill` step: a lazily materialised array of the given
    /// shape on the given hardware, with every element set to `value`.
    pub fn fill<H: Hardware>(graph: &mut Graph, hw: &H, shape: Shape, value: u32) -> (n: Node)
        requires
            old(graph).wf(),
            shape.wf(),
        ensures
            final(graph).wf(),
            final(graph).spec_id() == old(graph).spec_id(),
            final(graph).spec_len() == old(graph).spec_len() + 1,
            forall|i: int|
                0 <= i < old(graph).spec_len()
                    ==> #[trigger] final(graph).spec_steps()[i] == old(graph).spec_steps()[i],
            old(graph).cache_ok(hw) ==> final(graph).cache_ok(hw),
            n.valid_in(final(graph)),
            n.spec_graph_id() == old(graph).spec_id(),
            n.spec_step_id() == old(graph).spec_len(),
            final(graph).step_op(n.spec_step_id()) == (Operator::Fill {
                hw_id: hw.spec_id(),
                shape,
                value,
            }),
            !final(graph).is_assigned(n.spec_step_id()),
            final(graph).step_shape(n.spec_step_id()) == shape,
            final(graph).step_hw_id(n.spec_step_id()) == hw.spec_id(),
    {
        let hw_id = hw.id();
        let n = graph.fill_node(hw_id, shape, value);
        proof {
            if old(graph).cache_ok(hw) {
                crate::graph::lemma_cache_ok_extend(*old(graph), *graph, hw);
            }
        }
        n
    }

    /// Returns the shape of the value this node stands for, without
    /// evaluating anything.
    pub fn shape(&self, g: &Graph) -> (r: Result<Shape, Error>)
        ensures
            self.spec_graph_id() != g.spec_id() ==> (r matches Err(e) && e is InvalidGraph),
            self.spec_graph_id() == g.spec_id() && self.spec_step_id() >= g.spec_len() ==> (
            r matches Err(e) && e is InvalidNode),
            self.valid_in(g) ==> r == Ok::<Shape, Error>(g.step_shape(self.spec_step_id())),
    {
        if self.graph_id != g.id() {
            return Err(
                Error::InvalidGraph("Node does not belong to the given graph.".to_owned()),
            );
        }
        match g.get_step(self.step_id) {
            Ok(step) => Ok(step.output().shape()),
            Err(e) => Err(e),
        }
    }

    /// Returns the hardware identity of the value this node stands for,
    /// without evaluating anything.
    pub fn hardware_id(&self, g: &Graph) -> (r: Result<u64, Error>)
        ensures
            self.spec_graph_id() != g.spec_id() ==> (r matches Err(e) && e is InvalidGraph),
            self.spec_graph_id() == g.spec_id() && self.spec_step_id() >= g.spec_len() ==> (
            r matches Err(e) && e is InvalidNode),
            self.valid_in(g) ==> r == Ok::<u64, Error>(g.step_hw_id(self.spec_step_id())),
    {
        if self.graph_id != g.id() {
            return Err(
                Error::InvalidGraph("Node does not belong to the given graph.".to_owned()),
            );
        }
        match g.get_step(self.step_id) {
            Ok(step) => Ok(step.output().hardware_id()),
            Err(e) => Err(e),
        }
    }

    /// Evaluates this node and returns a fresh copy of its value.
    pub fn calculate<H: Hardware>(&self, g: &mut Graph, hw: &mut H) -> (r: Result<Array, Error>)
        requires
            old(g).wf(),
            old(g).cache_ok(old(hw)),
            self.spec_step_id() < old(g).spec_len() ==> old(g).step_hw_id(self.spec_step_id())
                == old(hw).spec_id(),
        ensures
            final(g).wf(),
            final(g).cache_ok(final(hw)),
            old(g).same_structure(final(g)),
            old(g).cache_preserved(final(g)),
            final(hw).spec_id() == old(hw).spec_id(),
            mem_extends(old(hw).mem(), final(hw).mem()),
            r is Ok <==> self.valid_in(old(g)),
            self.spec_graph_id() != old(g).spec_id() ==> (r matches Err(e) && e is InvalidGraph
                && *final(g) == *old(g) && *final(hw) == *old(hw)),
            self.spec_graph_id() == old(g).spec_id() && self.spec_step_id() >= old(g).spec_len()
                ==> (r matches Err(e) && e is InvalidNode && *final(g) == *old(g) && *final(hw)
                == *old(hw)),
            r matches Ok(a) ==> {
                &&& final(g).is_assigned(self.spec_step_id())
                &&& a.valid(final(hw))
                &&& a.spec_shape() == old(g).step_shape(self.spec_step_id())
                &&& a.spec_hw_id() == old(hw).spec_id()
                &&& a.contents(final(hw)) == final(g).step_array(self.spec_step_id()).contents(
                    final(hw),
                )
                &&& !old(hw).mem().contains_key(a.spec_handle())
                &&& !final(g).owns_handle(a.spec_handle(), old(hw).spec_id())
            },
    {
        if self.graph_id != g.id() {
            return Err(
                Error::InvalidGraph("Node does not belong to the given graph.".to_owned()),
            );
        }
        g.calculate(self.step_id, hw)
    }

    /// Evaluates this node, which must stand for a scalar, and returns its
    /// value.  The temporary copy is released before returning.
    pub fn to_scalar<H: Hardware>(&self, g: &mut Graph, hw: &mut H) -> (r: Result<u32, Error>)
        requires
            old(g).wf(),
            old(g).cache_ok(old(hw)),
            self.spec_step_id() < old(g).spec_len() ==> old(g).step_hw_id(self.spec_step_id())
                == old(hw).spec_id(),
        ensures
            final(g).wf(),
            final(g).cache_ok(final(hw)),
            old(g).same_structure(final(g)),
            old(g).cache_preserved(final(g)),
            final(hw).spec_id() == old(hw).spec_id(),
            mem_extends(old(hw).mem(), final(hw).mem()),
            r is Ok <==> self.valid_in(old(g)) && old(g).step_shape(
                self.spec_step_id(),
            ).spec_num_dimensions() == 0,
            r matches Ok(v) ==> final(g).is_assigned(self.spec_step_id())
                && v == final(g).step_array(self.spec_step_id()).contents(final(hw))[0],

    {
        let ghost mem0 = old(hw).mem();
        let arr = match self.calculate(g, hw) {
            Ok(a) => a,
            Err(e) => {
                return Err(e);
            },
        };
        let r = arr.get_scalar(hw);
        let ghost h1 = *hw;
        arr.free(hw);
        proof {
            let sid = self.spec_step_id();
            if g.is_assigned(sid) {
                let cached = g.step_array(sid);
                if cached.spec_handle() == arr.spec_handle() {
                    assert(g.is_source(sid, false, h1.spec_id()));
                    assert(g.source_array(sid, false) == cached);
                    assert(g.owns_handle(arr.spec_handle(), h1.spec_id()));
                }
                assert(cached.contents(hw) == cached.contents(&h1));
            }
            assert forall|i: int, c: bool| #[trigger]
                g.is_source(i, c, hw.spec_id()) implies g.source_array(i, c).valid(hw) by {
                assert(g.source_array(i, c).valid(&h1));
                assert(g.source_array(i, c).spec_handle() != arr.spec_handle());
            }
            assert(mem_extends(mem0, hw.mem())) by {
                assert forall|hd: usize| #[trigger]
                    mem0.contains_key(hd) implies hw.mem().contains_key(hd) && hw.mem()[hd]
                    == mem0[hd] by {
                    assert(h1.mem().contains_key(hd));
                    assert(hd != arr.spec_handle());
                }
            }
            crate::graph::lemma_values_ok_preserved(*g, *g, h1, *hw);
            assert forall|i: int|
                0 <= i < g.spec_len() && #[trigger] g.is_assigned(i) && g.step_hw_id(i)
                    == hw.spec_id() implies g.step_values_ok(hw, i) by {}
        }
        r
    }
}

impl Graph {
    /// Appends a `Fill` step for the given hardware identity: a lazily
    /// materialised array of the given shape with every element set to
    /// `value`.
    pub(crate) fn fill_node(&mut self, hw_id: u64, shape: Shape, value: u32) -> (n: Node)
        requires
            old(self).wf(),
            shape.wf(),
        ensures
            final(self).wf(),
            final(self).spec_id() == old(self).spec_id(),
            final(self).spec_len() == old(self).spec_len() + 1,
            forall|i: int|
                0 <= i < old(self).spec_len() ==> #[trigger] final(self).spec_steps()[i] == old(
                    self,
                ).spec_steps()[i],
            old(self).cache_ok_all_preserved_by(final(self)),
            n.valid_in(final(self)),
            n.spec_graph_id() == old(self).spec_id(),
            n.spec_step_id() == old(self).spec_len(),
            final(self).step_op(n.spec_step_id()) == (Operator::Fill { hw_id, shape, value }),
            !final(self).is_assigned(n.spec_step_id()),
            final(self).step_shape(n.spec_step_id()) == shape,
            final(self).step_hw_id(n.spec_step_id()) == hw_id,
    {
        let graph_id = self.id();
        let r = self.add_step(Operator::Fill { hw_id, shape, value }, Vec::new());
        match r {
            Ok(id) => Node::new(graph_id, id),
            Err(_) => unreached(),
        }
    }

    /// Appends a binary elementwise step reading `lhs` and `rhs`.
    fn binary_op(&mut self, operator: Operator, lhs: Node, rhs: Node) -> (r: Result<Node, Error>)
        requires
            old(self).wf(),
            operator.wf(),
            operator.spec_input_size() == 2,
            !(operator is Constant),
        ensures
            final(self).wf(),
            final(self).spec_id() == old(self).spec_id(),
            r matches Err(_) ==> *final(self) == *old(self),
            (lhs.spec_graph_id() != old(self).spec_id()
                || rhs.spec_graph_id() != old(self).spec_id()) ==> (r matches Err(e) && e
                is InvalidGraph),
            lhs.spec_graph_id() == old(self).spec_id() && rhs.spec_graph_id()
                == old(self).spec_id() && !(lhs.spec_step_id() < old(self).spec_len()
                && rhs.spec_step_id() < old(self).spec_len()) ==> (r matches Err(e) && e
                is InvalidNode),
            lhs.valid_in(old(self)) && rhs.valid_in(old(self)) && old(self).step_shape(
                lhs.spec_step_id(),
            ).dims() != old(self).step_shape(rhs.spec_step_id()).dims() ==> (r matches Err(e) && e
                is InvalidShape),
            lhs.valid_in(old(self)) && rhs.valid_in(old(self)) && old(self).step_shape(
                lhs.spec_step_id(),
            ).dims() == old(self).step_shape(rhs.spec_step_id()).dims() && old(self).step_hw_id(
                lhs.spec_step_id(),
            ) != old(self).step_hw_id(rhs.spec_step_id()) ==> (r matches Err(e) && e
                is InvalidNode),
            r is Ok <==> lhs.valid_in(old(self)) && rhs.valid_in(old(self))
                && old(self).step_shape(lhs.spec_step_id()).dims() == old(self).step_shape(
                rhs.spec_step_id(),
            ).dims() && old(self).step_hw_id(lhs.spec_step_id()) == old(self).step_hw_id(
                rhs.spec_step_id(),
            ),
            r matches Ok(n) ==> {
                &&& final(self).spec_len() == old(self).spec_len() + 1
                &&& forall|i: int|
                    0 <= i < old(self).spec_len() ==> #[trigger] final(self).spec_steps()[i]
                        == old(self).spec_steps()[i]
                &&& old(self).cache_ok_all_preserved_by(final(self))
                &&& n.valid_in(final(self))
                &&& n.spec_graph_id() == old(self).spec_id()
                &&& n.spec_step_id() == old(self).spec_len()
                &&& final(self).step_op(n.spec_step_id()) == operator
                &&& final(self).step_inputs(n.spec_step_id()) == seq![
                    lhs.spec_step_id() as usize,
                    rhs.spec_step_id() as usize,
                ]
                &&& !final(self).is_assigned(n.spec_step_id())
                &&& final(self).step_shape(n.spec_step_id()) == old(self).step_shape(
                    lhs.spec_step_id(),
                )
                &&& final(self).step_hw_id(n.spec_step_id()) == old(self).step_hw_id(
                    lhs.spec_step_id(),
                )
            },
    {
        let graph_id = self.id();
        if lhs.graph_id() != graph_id || rhs.graph_id() != graph_id {
            return Err(
                Error::InvalidGraph(
                    "Attempted calculation between nodes on different graphs.".to_owned(),
                ),
            );
        }
        let mut inputs: Vec<usize> = Vec::new();
        inputs.push(lhs.step_id());
        inputs.push(rhs.step_id());
        proof {
            assert(inputs@ =~= seq![lhs.spec_step_id() as usize, rhs.spec_step_id() as usize]);
        }
        let ghost g1 = *self;
        let r = self.add_step(operator, inputs);
        match r {
            Ok(id) => {
                proof {
                    let shapes = Seq::new(
                        2,
                        |j: int| g1.step_shape(inputs@[j] as int),
                    );
                    assert(shapes[0] == g1.step_shape(lhs.spec_step_id()));
                    assert(shapes[1] == g1.step_shape(rhs.spec_step_id()));
                    let hws = Seq::new(2, |j: int| g1.step_hw_id(inputs@[j] as int));
                    assert(hws[0] == g1.step_hw_id(lhs.spec_step_id()));
                    assert(hws[1] == g1.step_hw_id(rhs.spec_step_id()));
                }
                Ok(Node::new(graph_id, id))
            },
            Err(e) => {
                proof {
                    if lhs.valid_in(&g1) && rhs.valid_in(&g1) {
                        let shapes = Seq::new(
                            2,
                            |j: int| g1.step_shape(inputs@[j] as int),
                        );
                        assert(shapes[0] == g1.step_shape(lhs.spec_step_id()));
                        assert(shapes[1] == g1.step_shape(rhs.spec_step_id()));
                        let hws = Seq::new(2, |j: int| g1.step_hw_id(inputs@[j] as int));
                        assert(hws[0] == g1.step_hw_id(lhs.spec_step_id()));
                        assert(hws[1] == g1.step_hw_id(rhs.spec_step_id()));
                    }
                }
                Err(e)
            },
        }
    }

    /// Appends an elementwise negation step reading `x`.
    pub fn neg(&mut self, x: Node) -> (r: Result<Node, Error>)
        requires
            old(self).wf(),
        ensures
            final(self).wf(),
            final(self).spec_id() == old(self).spec_id(),
            r matches Err(_) ==> *final(self) == *old(self),
            x.spec_graph_id() != old(self).spec_id() ==> (r matches Err(e) && e is InvalidGraph),
            x.spec_graph_id() == old(self).spec_id() && x.spec_step_id() >= old(self).spec_len()
                ==> (r matches Err(e) && e is InvalidNode),
            r is Ok <==> x.valid_in(old(self)),
            r matches Ok(n) ==> {
                &&& final(self).spec_len() == old(self).spec_len() + 1
                &&& forall|i: int|
                    0 <= i < old(self).spec_len() ==> #[trigger] final(self).spec_steps()[i]
                        == old(self).spec_steps()[i]
                &&& old(self).cache_ok_all_preserved_by(final(self))
                &&& n.valid_in(final(self))
                &&& n.spec_graph_id() == old(self).spec_id()
                &&& n.spec_step_id() == old(self).spec_len()
                &&& final(self).step_op(n.spec_step_id()) == Operator::Neg
                &&& final(self).step_inputs(n.spec_step_id()) == seq![x.spec_step_id() as usize]
                &&& !final(self).is_assigned(n.spec_step_id())
                &&& final(self).step_shape(n.spec_step_id()) == old(self).step_shape(
                    x.spec_step_id(),
                )
                &&& final(self).step_hw_id(n.spec_step_id()) == old(self).step_hw_id(
                    x.spec_step_id(),
                )
            },
    {
        let graph_id = self.id();
        if x.graph_id() != graph_id {
            return Err(
                Error::InvalidGraph(
                    "Attempted calculation between nodes on different graphs.".to_owned(),
                ),
            );
        }
        let mut inputs: Vec<usize> = Vec::new();
        inputs.push(x.step_id());
        proof {
            assert(inputs@ =~= seq![x.spec_step_id() as usize]);
        }
        let ghost g1 = *self;
        let r = self.add_step(Operator::Neg, inputs);
        match r {
            Ok(id) => {
                proof {
                    let shapes = Seq::new(1, |j: int| g1.step_shape(inputs@[j] as int));
                    assert(shapes[0] == g1.step_shape(x.spec_step_id()));
                    let hws = Seq::new(1, |j: int| g1.step_hw_id(inputs@[j] as int));
                    assert(hws[0] == g1.step_hw_id(x.spec_step_id()));
                }
                Ok(Node::new(graph_id, id))
            },
            Err(e) => Err(e),
        }
    }

    /// Appends an elementwise addition step reading `lhs` and `rhs`.
    pub fn add(&mut self, lhs: Node, rhs: Node) -> (r: Result<Node, Error>)
        requires
            old(self).wf(),
        ensures
            binary_ensures(*old(self), *final(self), Operator::Add, lhs, rhs, r),
    {
        self.binary_op(Operator::Add, lhs, rhs)
    }

    /// Appends an elementwise subtraction step reading `lhs` and `rhs`.
    pub fn sub(&mut self, lhs: Node, rhs: Node) -> (r: Result<Node, Error>)
        requires
            old(self).wf(),
        ensures
            binary_ensures(*old(self), *final(self), Operator::Sub, lhs, rhs, r),
    {
        self.binary_op(Operator::Sub, lhs, rhs)
    }

    /// Appends an elementwise multiplication step reading `lhs` and `rhs`.
    pub fn mul(&mut self, lhs: Node, rhs: Node) -> (r: Result<Node, Error>)
        requires
            old(self).wf(),
        ensures
            binary_ensures(*old(self), *final(self), Operator::Mul, lhs, rhs, r),
    {
        self.binary_op(Operator::Mul, lhs, rhs)
    }

    /// Appends an elementwise division step reading `lhs` and `rhs`.
    pub fn div(&mut self, lhs: Node, rhs: Node) -> (r: Result<Node, Error>)
        requires
            old(self).wf(),
        ensures
            binary_ensures(*old(self), *final(self), Operator::Div, lhs, rhs, r),
    {
        self.binary_op(Operator::Div, lhs, rhs)
    }

    /// Every hardware cache that was consistent with `self` is consistent
    /// with `g2`: `g2` extends `self` by unassigned steps that store no
    /// arrays.
    pub open spec fn cache_ok_all_preserved_by(&self, g2: &Graph) -> bool {
        &&& g2.spec_len() >= self.spec_len()
        &&& forall|i: int|
            0 <= i < self.spec_len() ==> #[trigger] g2.spec_steps()[i] == self.spec_steps()[i]
        &&& forall|i: int|
            self.spec_len() <= i < g2.spec_len() ==> !(#[trigger] g2.is_assigned(i)) && !(
            g2.step_op(i) is Constant)
    }
}

/// What a successful binary node construction guarantees, shared by the
/// four elementwise binary operators.
pub open spec fn binary_ensures(
    g1: Graph,
    g2: Graph,
    operator: Operator,
    lhs: Node,
    rhs: Node,
    r: Result<Node, Error>,
) -> bool {
    &&& g2.wf()
    &&& g2.spec_id() == g1.spec_id()
    &&& (r matches Err(_) ==> g2 == g1)
    &&& ((lhs.spec_graph_id() != g1.spec_id() || rhs.spec_graph_id() != g1.spec_id()) ==> (
    r matches Err(e) && e is InvalidGraph))
    &&& (lhs.spec_graph_id() == g1.spec_id() && rhs.spec_graph_id() == g1.spec_id() && !(
    lhs.spec_step_id() < g1.spec_len() && rhs.spec_step_id() < g1.spec_len()) ==> (r matches Err(e)
        && e is InvalidNode))
    &&& (lhs.valid_in(&g1) && rhs.valid_in(&g1) && g1.step_shape(lhs.spec_step_id()).dims()
        != g1.step_shape(rhs.spec_step_id()).dims() ==> (r matches Err(e) && e is InvalidShape))
    &&& (lhs.valid_in(&g1) && rhs.valid_in(&g1) && g1.step_shape(lhs.spec_step_id()).dims()
        == g1.step_shape(rhs.spec_step_id()).dims() && g1.step_hw_id(lhs.spec_step_id())
        != g1.step_hw_id(rhs.spec_step_id()) ==> (r matches Err(e) && e is InvalidNode))
    &&& (r is Ok <==> lhs.valid_in(&g1) && rhs.valid_in(&g1) && g1.step_shape(
        lhs.spec_step_id(),
    ).dims() == g1.step_shape(rhs.spec_step_id()).dims() && g1.step_hw_id(lhs.spec_step_id())
        == g1.step_hw_id(rhs.spec_step_id()))
    &&& (r matches Ok(n) ==> {
        &&& g2.spec_len() == g1.spec_len() + 1
        &&& forall|i: int|
            0 <= i < g1.spec_len() ==> #[trigger] g2.spec_steps()[i] == g1.spec_steps()[i]
        &&& g1.cache_ok_all_preserved_by(&g2)
        &&& n.valid_in(&g2)
        &&& n.spec_graph_id() == g1.spec_id()
        &&& n.spec_step_id() == g1.spec_len()
        &&& g2.step_op(n.spec_step_id()) == operator
        &&& g2.step_inputs(n.spec_step_id()) == seq![
            lhs.spec_step_id() as usize,
            rhs.spec_step_id() as usize,
        ]
        &&& !g2.is_assigned(n.spec_step_id())
        &&& g2.step_shape(n.spec_step_id()) == g1.step_shape(lhs.spec_step_id())
        &&& g2.step_hw_id(n.spec_step_id()) == g1.step_hw_id(lhs.spec_step_id())
    })
}

/// Consistency preservation of the cache composes across successive graph
/// extensions.
pub proof fn lemma_cache_preserve_trans(a: Graph, b: Graph, c: Graph)
    requires
        a.cache_ok_all_preserved_by(&b),
        b.cache_ok_all_preserved_by(&c),
    ensures
        a.cache_ok_all_preserved_by(&c),
{
    assert forall|i: int| 0 <= i < a.spec_len() implies #[trigger] c.spec_steps()[i]
        == a.spec_steps()[i] by {
        assert(b.spec_steps()[i] == a.spec_steps()[i]);
        assert(c.spec_steps()[i] == b.spec_steps()[i]);
    }
    assert forall|i: int| a.spec_len() <= i < c.spec_len() implies !(#[trigger] c.is_assigned(i))
        && !(c.step_op(i) is Constant) by {
        if i < b.spec_len() {
            assert(!b.is_assigned(i));
            assert(c.spec_steps()[i] == b.spec_steps()[i]);
        }
    }
}

} // verus!
