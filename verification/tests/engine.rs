use lazygrad::array::Array;
use lazygrad::buffer::Buffer;
use lazygrad::error::Error;
use lazygrad::grad::grad;
use lazygrad::graph::Graph;
use lazygrad::hardware::Hardware;
use lazygrad::node::Node;
use lazygrad::shape::Shape;
use std::collections::HashMap;

/// Host implementation of the engine's hardware interface: memory blocks are
/// vectors of 32-bit cells, and the kernels interpret every cell as an IEEE
/// single-precision value.
struct CpuHardware {
    id: u64,
    supplied: HashMap<usize, Vec<u32>>,
    next_handle: usize,
}

impl CpuHardware {
    fn new(id: u64) -> CpuHardware {
        CpuHardware { id, supplied: HashMap::new(), next_handle: 1 }
    }

    /// Number of outstanding nonzero-length allocations; zero-length blocks
    /// are never counted by leak checks.
    fn outstanding(&self) -> usize {
        self.supplied.values().filter(|v| !v.is_empty()).count()
    }
}

impl Hardware for CpuHardware {
    fn id(&self) -> u64 {
        self.id
    }

    fn allocate_memory(&mut self, len: usize) -> usize {
        let handle = self.next_handle;
        self.next_handle += 1;
        self.supplied.insert(handle, vec![0u32; len]);
        handle
    }

    fn deallocate_memory(&mut self, h: usize, len: usize) {
        let block = self.supplied.remove(&h).expect("deallocating an unknown handle");
        assert_eq!(block.len(), len);
    }

    fn copy_host_to_hardware(&mut self, src: &[u32], dst: usize) {
        let block = self.supplied.get_mut(&dst).unwrap();
        block.copy_from_slice(src);
    }

    fn copy_hardware_to_host(&self, src: usize, len: usize) -> Vec<u32> {
        let block = self.supplied.get(&src).unwrap();
        assert_eq!(block.len(), len);
        block.clone()
    }

    fn copy_hardware_to_hardware(&mut self, src: usize, dst: usize, len: usize) {
        let data = self.supplied.get(&src).unwrap().clone();
        assert_eq!(data.len(), len);
        let block = self.supplied.get_mut(&dst).unwrap();
        block.copy_from_slice(&data);
    }

    fn fill(&mut self, dst: usize, value: u32, len: usize) {
        let block = self.supplied.get_mut(&dst).unwrap();
        assert_eq!(block.len(), len);
        for cell in block.iter_mut() {
            *cell = value;
        }
    }

    fn elementwise_neg(&mut self, src: usize, dst: usize, len: usize) {
        let a = self.supplied.get(&src).unwrap().clone();
        let block = self.supplied.get_mut(&dst).unwrap();
        for i in 0..len {
            block[i] = (-f32::from_bits(a[i])).to_bits();
        }
    }

    fn elementwise_add(&mut self, lhs: usize, rhs: usize, dst: usize, len: usize) {
        let a = self.supplied.get(&lhs).unwrap().clone();
        let b = self.supplied.get(&rhs).unwrap().clone();
        let block = self.supplied.get_mut(&dst).unwrap();
        for i in 0..len {
            block[i] = (f32::from_bits(a[i]) + f32::from_bits(b[i])).to_bits();
        }
    }

    fn elementwise_sub(&mut self, lhs: usize, rhs: usize, dst: usize, len: usize) {
        let a = self.supplied.get(&lhs).unwrap().clone();
        let b = self.supplied.get(&rhs).unwrap().clone();
        let block = self.supplied.get_mut(&dst).unwrap();
        for i in 0..len {
            block[i] = (f32::from_bits(a[i]) - f32::from_bits(b[i])).to_bits();
        }
    }

    fn elementwise_mul(&mut self, lhs: usize, rhs: usize, dst: usize, len: usize) {
        let a = self.supplied.get(&lhs).unwrap().clone();
        let b = self.supplied.get(&rhs).unwrap().clone();
        let block = self.supplied.get_mut(&dst).unwrap();
        for i in 0..len {
            block[i] = (f32::from_bits(a[i]) * f32::from_bits(b[i])).to_bits();
        }
    }

    fn elementwise_div(&mut self, lhs: usize, rhs: usize, dst: usize, len: usize) {
        let a = self.supplied.get(&lhs).unwrap().clone();
        let b = self.supplied.get(&rhs).unwrap().clone();
        let block = self.supplied.get_mut(&dst).unwrap();
        for i in 0..len {
            block[i] = (f32::from_bits(a[i]) / f32::from_bits(b[i])).to_bits();
        }
    }
}

fn scalar_node(g: &mut Graph, hw: &mut CpuHardware, v: f32) -> Node {
    Node::from_scalar(g, hw, v.to_bits())
}

fn eval_scalar(n: Node, g: &mut Graph, hw: &mut CpuHardware) -> f32 {
    f32::from_bits(n.to_scalar(g, hw).unwrap())
}

fn values_of(a: &Array, hw: &CpuHardware) -> Vec<f32> {
    a.get_values(hw).iter().map(|b| f32::from_bits(*b)).collect()
}

// ------------------------------------------------------------------
// Buffer

#[test]
fn test_raw() {
    let mut hw = CpuHardware::new(1);
    let buf1 = Buffer::new_uninit(&mut hw, 1);
    assert_eq!(buf1.hardware_id(), 1);
    assert_eq!(buf1.size(), 1);
    let buf2 = Buffer::new_uninit(&mut hw, 2);
    assert_eq!(buf2.size(), 2);
    assert_eq!(hw.outstanding(), 2);
    buf1.free(&mut hw);
    buf2.free(&mut hw);
    assert_eq!(hw.outstanding(), 0);
}

#[test]
fn test_raw_zero() {
    let mut hw = CpuHardware::new(1);
    let buf = Buffer::new_uninit(&mut hw, 0);
    assert_eq!(buf.size(), 0);
    assert_eq!(hw.outstanding(), 0);
    buf.free(&mut hw);
}

#[test]
fn test_raw_colocated() {
    let mut hw = CpuHardware::new(1);
    let buf1 = Buffer::new_uninit(&mut hw, 1);
    let buf2 = Buffer::colocated_uninit(&buf1, 2, &mut hw);
    assert_eq!(buf2.hardware_id(), 1);
    assert_eq!(buf2.size(), 2);
    buf1.free(&mut hw);
    buf2.free(&mut hw);
    assert_eq!(hw.outstanding(), 0);
}

#[test]
fn test_hardware() {
    let mut hw = CpuHardware::new(42);
    let buf = Buffer::new_uninit(&mut hw, 1);
    assert_eq!(buf.hardware_id(), 42);
    buf.free(&mut hw);
}

#[test]
fn test_size() {
    let mut hw = CpuHardware::new(1);
    let buf = Buffer::new_uninit(&mut hw, 123);
    assert_eq!(buf.size(), 123);
    buf.free(&mut hw);
}

#[test]
fn test_is_colocated() {
    let mut hw1 = CpuHardware::new(1);
    let mut hw2 = CpuHardware::new(2);
    let buf1 = Buffer::new_uninit(&mut hw1, 1);
    let buf2 = Buffer::new_uninit(&mut hw1, 1);
    let buf3 = Buffer::new_uninit(&mut hw2, 1);
    assert!(buf1.is_colocated(&buf1));
    assert!(buf1.is_colocated(&buf2));
    assert!(!buf1.is_colocated(&buf3));
    assert!(buf2.is_colocated(&buf1));
    assert!(!buf3.is_colocated(&buf1));
    assert!(buf3.is_colocated(&buf3));
    buf1.free(&mut hw1);
    buf2.free(&mut hw1);
    buf3.free(&mut hw2);
}

#[test]
fn test_check_colocated() {
    let mut hw1 = CpuHardware::new(1);
    let mut hw2 = CpuHardware::new(2);
    let buf1 = Buffer::new_uninit(&mut hw1, 1);
    let buf2 = Buffer::new_uninit(&mut hw1, 1);
    let buf3 = Buffer::new_uninit(&mut hw2, 1);
    assert!(buf1.check_colocated(&buf2).is_ok());
    assert!(matches!(buf1.check_colocated(&buf3), Err(Error::InvalidHardware(_))));
    assert!(buf3.check_colocated(&buf3).is_ok());
    buf1.free(&mut hw1);
    buf2.free(&mut hw1);
    buf3.free(&mut hw2);
}

// ------------------------------------------------------------------
// Host hardware

#[test]
fn test_zero_memory_leak() {
    let mut hw = CpuHardware::new(1);
    hw.allocate_memory(0);
    hw.allocate_memory(0);
    hw.allocate_memory(0);
    assert_eq!(hw.outstanding(), 0);
}

#[test]
fn test_fill_f32() {
    let mut hw = CpuHardware::new(1);
    let h = hw.allocate_memory(4);
    hw.fill(h, 42.0f32.to_bits(), 4);
    let values = hw.copy_hardware_to_host(h, 4);
    for v in values {
        assert_eq!(f32::from_bits(v), 42.0);
    }
    hw.deallocate_memory(h, 4);
}

#[test]
fn test_elementwise_add_f32() {
    let mut hw = CpuHardware::new(1);
    let a = Array::constant(
        &mut hw,
        Shape::new([4]),
        &[1.0f32, 2.0, 3.0, 4.0].map(f32::to_bits),
    )
    .unwrap();
    let b = Array::constant(
        &mut hw,
        Shape::new([4]),
        &[5.0f32, 6.0, 7.0, 8.0].map(f32::to_bits),
    )
    .unwrap();
    let c = a.elementwise_add(&b, &mut hw).unwrap();
    assert_eq!(values_of(&c, &hw), vec![6.0, 8.0, 10.0, 12.0]);
    a.free(&mut hw);
    b.free(&mut hw);
    c.free(&mut hw);
    assert_eq!(hw.outstanding(), 0);
}

#[test]
fn test_elementwise_sub_f32() {
    let mut hw = CpuHardware::new(1);
    let a = Array::constant(
        &mut hw,
        Shape::new([4]),
        &[9.0f32, 8.0, 7.0, 6.0].map(f32::to_bits),
    )
    .unwrap();
    let b = Array::constant(
        &mut hw,
        Shape::new([4]),
        &[1.0f32, 2.0, 3.0, 4.0].map(f32::to_bits),
    )
    .unwrap();
    let c = a.elementwise_sub(&b, &mut hw).unwrap();
    assert_eq!(values_of(&c, &hw), vec![8.0, 6.0, 4.0, 2.0]);
    a.free(&mut hw);
    b.free(&mut hw);
    c.free(&mut hw);
}

#[test]
fn test_elementwise_mul_f32() {
    let mut hw = CpuHardware::new(1);
    let a = Array::constant(
        &mut hw,
        Shape::new([4]),
        &[1.0f32, 2.0, 3.0, 4.0].map(f32::to_bits),
    )
    .unwrap();
    let b = Array::constant(
        &mut hw,
        Shape::new([4]),
        &[5.0f32, 6.0, 7.0, 8.0].map(f32::to_bits),
    )
    .unwrap();
    let c = a.elementwise_mul(&b, &mut hw).unwrap();
    assert_eq!(values_of(&c, &hw), vec![5.0, 12.0, 21.0, 32.0]);
    a.free(&mut hw);
    b.free(&mut hw);
    c.free(&mut hw);
}

#[test]
fn test_elementwise_div_f32() {
    let mut hw = CpuHardware::new(1);
    let a = Array::constant(
        &mut hw,
        Shape::new([4]),
        &[1.0f32, 2.0, 3.0, 4.0].map(f32::to_bits),
    )
    .unwrap();
    let b = Array::constant(
        &mut hw,
        Shape::new([4]),
        &[4.0f32, 2.0, 1.0, 0.5].map(f32::to_bits),
    )
    .unwrap();
    let c = a.elementwise_div(&b, &mut hw).unwrap();
    assert_eq!(values_of(&c, &hw), vec![0.25, 1.0, 3.0, 8.0]);
    a.free(&mut hw);
    b.free(&mut hw);
    c.free(&mut hw);
}

#[test]
fn test_elementwise_neg_f32() {
    let mut hw = CpuHardware::new(1);
    let a = Array::scalar(&mut hw, 42.0f32.to_bits());
    let c = a.elementwise_neg(&mut hw);
    assert_eq!(f32::from_bits(c.get_scalar(&hw).unwrap()), -42.0);
    a.free(&mut hw);
    c.free(&mut hw);
}

// ------------------------------------------------------------------
// Array

#[test]
fn test_shape() {
    let mut hw = CpuHardware::new(1);
    let a = Array::scalar(&mut hw, 0);
    assert_eq!(a.shape(), Shape::new([]));
    assert_eq!(a.hardware_id(), 1);
    a.free(&mut hw);
}

#[test]
fn test_scalar_roundtrip() {
    let mut hw = CpuHardware::new(1);
    let a = Array::scalar(&mut hw, 123.0f32.to_bits());
    assert_eq!(f32::from_bits(a.get_scalar(&hw).unwrap()), 123.0);
    a.set_scalar(456.0f32.to_bits(), &mut hw).unwrap();
    assert_eq!(f32::from_bits(a.get_scalar(&hw).unwrap()), 456.0);
    a.free(&mut hw);
}

#[test]
fn test_get_scalar_nonscalar() {
    let mut hw = CpuHardware::new(1);
    let a = Array::fill(&mut hw, Shape::new([3]), 0);
    assert!(matches!(a.get_scalar(&hw), Err(Error::InvalidShape(_))));
    assert!(matches!(a.set_scalar(0, &mut hw), Err(Error::InvalidShape(_))));
    a.free(&mut hw);
}

#[test]
fn test_constant_roundtrip() {
    // Array round trip: the values given to `constant` come back unchanged
    // from `get_values`, in row-major order.
    let mut hw = CpuHardware::new(1);
    let values: Vec<u32> = [1.0f32, 2.0, 3.0, 4.0, 5.0, 6.0].iter().map(|v| v.to_bits()).collect();
    let a = Array::constant(&mut hw, Shape::new([2, 3]), &values).unwrap();
    assert_eq!(a.get_values(&hw), values);
    a.free(&mut hw);
    assert_eq!(hw.outstanding(), 0);
}

#[test]
fn test_constant_invalid_length() {
    let mut hw = CpuHardware::new(1);
    let r = Array::constant(&mut hw, Shape::new([3]), &[0, 0]);
    assert!(matches!(r, Err(Error::InvalidLength(_))));
    assert_eq!(hw.outstanding(), 0);
}

#[test]
fn test_set_values_invalid_length() {
    let mut hw = CpuHardware::new(1);
    let a = Array::fill(&mut hw, Shape::new([3]), 0);
    assert!(matches!(a.set_values(&[0, 0], &mut hw), Err(Error::InvalidLength(_))));
    a.set_values(&[1, 2, 3], &mut hw).unwrap();
    assert_eq!(a.get_values(&hw), vec![1, 2, 3]);
    a.free(&mut hw);
}

#[test]
fn test_fill_values() {
    let mut hw = CpuHardware::new(1);
    let a = Array::fill(&mut hw, Shape::new([3]), 123.0f32.to_bits());
    assert_eq!(values_of(&a, &hw), vec![123.0, 123.0, 123.0]);
    let b = Array::fill(&mut hw, Shape::new([0]), 123.0f32.to_bits());
    assert_eq!(values_of(&b, &hw), vec![]);
    let c = Array::fill_colocated(&a, Shape::new([2]), 7.0f32.to_bits(), &mut hw);
    assert_eq!(c.hardware_id(), a.hardware_id());
    assert_eq!(values_of(&c, &hw), vec![7.0, 7.0]);
    a.free(&mut hw);
    b.free(&mut hw);
    c.free(&mut hw);
}

#[test]
fn test_clone_on() {
    let mut hw = CpuHardware::new(1);
    let a = Array::constant(&mut hw, Shape::new([2]), &[1, 2]).unwrap();
    let b = a.clone_on(&mut hw);
    assert_eq!(b.shape(), a.shape());
    assert_eq!(b.get_values(&hw), vec![1, 2]);
    a.free(&mut hw);
    assert_eq!(b.get_values(&hw), vec![1, 2]);
    b.free(&mut hw);
    assert_eq!(hw.outstanding(), 0);
}

#[test]
fn test_colocation_error() {
    // Binary operations on arrays of different hardwares report an
    // `InvalidHardware` error; on the same hardware they succeed when the
    // shapes match.
    let mut hw1 = CpuHardware::new(1);
    let mut hw2 = CpuHardware::new(2);
    let a = Array::scalar(&mut hw1, 1.0f32.to_bits());
    let b = Array::scalar(&mut hw2, 2.0f32.to_bits());
    let c = Array::scalar(&mut hw1, 3.0f32.to_bits());
    assert!(matches!(a.elementwise_add(&b, &mut hw1), Err(Error::InvalidHardware(_))));
    let ok = a.elementwise_add(&c, &mut hw1).unwrap();
    assert_eq!(f32::from_bits(ok.get_scalar(&hw1).unwrap()), 4.0);
    a.free(&mut hw1);
    b.free(&mut hw2);
    c.free(&mut hw1);
    ok.free(&mut hw1);
    assert_eq!(hw1.outstanding(), 0);
    assert_eq!(hw2.outstanding(), 0);
}

#[test]
fn test_elementwise_shape_error() {
    let mut hw = CpuHardware::new(1);
    let a = Array::fill(&mut hw, Shape::new([2]), 0);
    let b = Array::fill(&mut hw, Shape::new([3]), 0);
    assert!(matches!(a.elementwise_mul(&b, &mut hw), Err(Error::InvalidShape(_))));
    a.free(&mut hw);
    b.free(&mut hw);
}

// ------------------------------------------------------------------
// Graph and nodes

#[test]
fn test_steps() {
    let mut hw = CpuHardware::new(1);
    let mut g = Graph::new(1);
    let lhs = scalar_node(&mut g, &mut hw, 1.0);
    let rhs = scalar_node(&mut g, &mut hw, 2.0);
    let ret = g.add(lhs, rhs).unwrap();

    assert_eq!(lhs.step_id(), 0);
    assert_eq!(rhs.step_id(), 1);
    assert_eq!(ret.step_id(), 2);
    assert_eq!(lhs.shape(&g).unwrap(), Shape::new([]));
    assert_eq!(rhs.shape(&g).unwrap(), Shape::new([]));
    assert_eq!(ret.shape(&g).unwrap(), Shape::new([]));
    assert_eq!(lhs.hardware_id(&g).unwrap(), 1);
    assert_eq!(rhs.hardware_id(&g).unwrap(), 1);
    assert_eq!(ret.hardware_id(&g).unwrap(), 1);

    assert_eq!(g.num_steps(), 3);
    assert_eq!(g.get_step(0).unwrap().operator().name(), "Constant");
    assert_eq!(g.get_step(1).unwrap().operator().name(), "Constant");
    assert_eq!(g.get_step(2).unwrap().operator().name(), "Add");

    let retval = ret.calculate(&mut g, &mut hw).unwrap();
    assert_eq!(retval.shape(), Shape::new([]));
    assert_eq!(f32::from_bits(retval.get_scalar(&hw).unwrap()), 3.0);
    retval.free(&mut hw);
    g.release(&mut hw);
    assert_eq!(hw.outstanding(), 0);
}

#[test]
fn tests_test_neg() {
    let mut hw = CpuHardware::new(1);
    let mut g = Graph::new(1);
    let src = scalar_node(&mut g, &mut hw, 42.0);
    let dest = g.neg(src).unwrap();
    assert_eq!(src.shape(&g).unwrap(), Shape::new([]));
    assert_eq!(dest.shape(&g).unwrap(), Shape::new([]));
    assert_eq!(dest.hardware_id(&g).unwrap(), 1);
    assert_eq!(eval_scalar(dest, &mut g, &mut hw), -42.0);
    g.release(&mut hw);
    assert_eq!(hw.outstanding(), 0);
}

#[test]
fn tests_test_add() {
    let mut hw = CpuHardware::new(1);
    let mut g = Graph::new(1);
    let lhs = scalar_node(&mut g, &mut hw, 1.0);
    let rhs = scalar_node(&mut g, &mut hw, 2.0);
    let ret = g.add(lhs, rhs).unwrap();
    assert_eq!(eval_scalar(ret, &mut g, &mut hw), 3.0);
    g.release(&mut hw);
}

#[test]
fn tests_test_sub() {
    let mut hw = CpuHardware::new(1);
    let mut g = Graph::new(1);
    let lhs = scalar_node(&mut g, &mut hw, 1.0);
    let rhs = scalar_node(&mut g, &mut hw, 2.0);
    let ret = g.sub(lhs, rhs).unwrap();
    assert_eq!(eval_scalar(ret, &mut g, &mut hw), -1.0);
    g.release(&mut hw);
}

#[test]
fn tests_test_mul() {
    let mut hw = CpuHardware::new(1);
    let mut g = Graph::new(1);
    let lhs = scalar_node(&mut g, &mut hw, 1.0);
    let rhs = scalar_node(&mut g, &mut hw, 2.0);
    let ret = g.mul(lhs, rhs).unwrap();
    assert_eq!(eval_scalar(ret, &mut g, &mut hw), 2.0);
    g.release(&mut hw);
}

#[test]
fn tests_test_div() {
    let mut hw = CpuHardware::new(1);
    let mut g = Graph::new(1);
    let lhs = scalar_node(&mut g, &mut hw, 1.0);
    let rhs = scalar_node(&mut g, &mut hw, 2.0);
    let ret = g.div(lhs, rhs).unwrap();
    assert_eq!(eval_scalar(ret, &mut g, &mut hw), 0.5);
    g.release(&mut hw);
}

#[test]
fn test_fill_scalar() {
    let mut hw = CpuHardware::new(1);
    let mut g = Graph::new(1);
    let ret = Node::fill(&mut g, &hw, Shape::new([]), 123.0f32.to_bits());
    assert_eq!(ret.shape(&g).unwrap(), Shape::new([]));
    assert_eq!(ret.hardware_id(&g).unwrap(), 1);
    assert_eq!(eval_scalar(ret, &mut g, &mut hw), 123.0);
    g.release(&mut hw);
    assert_eq!(hw.outstanding(), 0);
}

#[test]
fn test_fill_0() {
    let mut hw = CpuHardware::new(1);
    let mut g = Graph::new(1);
    let ret = Node::fill(&mut g, &hw, Shape::new([0]), 123.0f32.to_bits());
    assert_eq!(ret.shape(&g).unwrap(), Shape::new([0]));
    let arr = ret.calculate(&mut g, &mut hw).unwrap();
    assert_eq!(arr.get_values(&hw), Vec::<u32>::new());
    arr.free(&mut hw);
    g.release(&mut hw);
}

#[test]
fn test_fill_n() {
    let mut hw = CpuHardware::new(1);
    let mut g = Graph::new(1);
    let ret = Node::fill(&mut g, &hw, Shape::new([3]), 123.0f32.to_bits());
    assert_eq!(ret.shape(&g).unwrap(), Shape::new([3]));
    let arr = ret.calculate(&mut g, &mut hw).unwrap();
    assert_eq!(values_of(&arr, &hw), vec![123.0, 123.0, 123.0]);
    arr.free(&mut hw);
    g.release(&mut hw);
}

#[test]
fn tests_test_multiple_computation() {
    let mut hw = CpuHardware::new(1);
    let mut g = Graph::new(1);
    let a = scalar_node(&mut g, &mut hw, 1.0);
    let b = scalar_node(&mut g, &mut hw, 2.0);
    let c = scalar_node(&mut g, &mut hw, 3.0);
    let nb = g.neg(b).unwrap();
    let nbc = g.mul(nb, c).unwrap();
    let y = g.add(a, nbc).unwrap();
    assert_eq!(y.shape(&g).unwrap(), Shape::new([]));
    assert_eq!(eval_scalar(y, &mut g, &mut hw), -5.0);
    g.release(&mut hw);
    assert_eq!(hw.outstanding(), 0);
}

#[test]
fn test_cross_graph_arithmetic() {
    let mut hw = CpuHardware::new(1);
    let mut g1 = Graph::new(1);
    let mut g2 = Graph::new(2);
    let a = scalar_node(&mut g1, &mut hw, 1.0);
    let b = scalar_node(&mut g2, &mut hw, 2.0);
    assert!(matches!(g1.add(a, b), Err(Error::InvalidGraph(_))));
    g1.release(&mut hw);
    g2.release(&mut hw);
}

#[test]
fn test_cross_hardware_node_op() {
    let mut hw1 = CpuHardware::new(1);
    let mut hw2 = CpuHardware::new(2);
    let mut g = Graph::new(1);
    let a = scalar_node(&mut g, &mut hw1, 1.0);
    let b = scalar_node(&mut g, &mut hw2, 2.0);
    assert!(matches!(g.add(a, b), Err(Error::InvalidNode(_))));
    // Only the steps on each hardware can be released through it, so this
    // graph is torn down by hand.
    let arr_a = a.calculate(&mut g, &mut hw1).unwrap();
    arr_a.free(&mut hw1);
    let arr_b = b.calculate(&mut g, &mut hw2).unwrap();
    arr_b.free(&mut hw2);
}

#[test]
fn test_calculate_invalid_node() {
    let mut hw = CpuHardware::new(1);
    let mut g = Graph::new(1);
    let r = g.calculate(0, &mut hw);
    assert!(matches!(r, Err(Error::InvalidNode(_))));
}

#[test]
fn test_caching() {
    // Repeated calculation returns equal arrays, reuses the cached values,
    // and appends no steps.
    let mut hw = CpuHardware::new(1);
    let mut g = Graph::new(1);
    let a = scalar_node(&mut g, &mut hw, 2.0);
    let b = scalar_node(&mut g, &mut hw, 3.0);
    let y = g.mul(a, b).unwrap();
    let v1 = y.calculate(&mut g, &mut hw).unwrap();
    let steps_after_first = g.num_steps();
    let outstanding_after_first = hw.outstanding();
    let v2 = y.calculate(&mut g, &mut hw).unwrap();
    assert_eq!(v1.get_values(&hw), v2.get_values(&hw));
    assert_eq!(g.num_steps(), steps_after_first);
    // The second call allocated only the returned copy.
    assert_eq!(hw.outstanding(), outstanding_after_first + 1);
    v1.free(&mut hw);
    v2.free(&mut hw);
    g.release(&mut hw);
    assert_eq!(hw.outstanding(), 0);
}

#[test]
fn test_topology() {
    // Every step of a graph reads only strictly earlier steps, also after
    // backpropagation appended its gradient subgraph.
    let mut hw = CpuHardware::new(1);
    let mut g = Graph::new(1);
    let x = scalar_node(&mut g, &mut hw, 5.0);
    let xx = g.mul(x, x).unwrap();
    let y = g.mul(xx, x).unwrap();
    let _gx = grad(&mut g, y, &[x]).unwrap();
    for i in 0..g.num_steps() {
        let step = g.get_step(i).unwrap();
        for input in step.inputs() {
            assert!(*input < i);
        }
    }
    g.release(&mut hw);
}

#[test]
fn test_leak_free() {
    // The leak-tracking host hardware reports zero outstanding allocations
    // after everything built on it has been released.
    let mut hw = CpuHardware::new(1);
    let mut g = Graph::new(1);
    let a = scalar_node(&mut g, &mut hw, 2.0);
    let b = scalar_node(&mut g, &mut hw, 3.0);
    let y = g.mul(a, b).unwrap();
    let gx = grad(&mut g, y, &[a, b]).unwrap();
    let v0 = gx[0].calculate(&mut g, &mut hw).unwrap();
    let v1 = gx[1].calculate(&mut g, &mut hw).unwrap();
    assert!(hw.outstanding() > 0);
    v0.free(&mut hw);
    v1.free(&mut hw);
    g.release(&mut hw);
    assert_eq!(hw.outstanding(), 0);
}

// ------------------------------------------------------------------
// Gradients

#[test]
fn test_empty() {
    let mut hw = CpuHardware::new(1);
    let mut g = Graph::new(1);
    let x = scalar_node(&mut g, &mut hw, 42.0);
    let gx = grad(&mut g, x, &[]).unwrap();
    assert!(gx.is_empty());
    g.release(&mut hw);
}

#[test]
fn test_self() {
    let mut hw = CpuHardware::new(1);
    let mut g = Graph::new(1);
    let x = scalar_node(&mut g, &mut hw, 42.0);
    let gx = grad(&mut g, x, &[x]).unwrap();
    assert_eq!(gx.len(), 1);
    assert_eq!(gx[0].shape(&g).unwrap(), Shape::new([]));
    assert_eq!(gx[0].hardware_id(&g).unwrap(), 1);
    assert_eq!(eval_scalar(gx[0], &mut g, &mut hw), 1.0);
    g.release(&mut hw);
}

#[test]
fn test_unrelated() {
    let mut hw = CpuHardware::new(1);
    let mut g = Graph::new(1);
    let x = scalar_node(&mut g, &mut hw, 42.0);
    let y = scalar_node(&mut g, &mut hw, 42.0);
    let gx = grad(&mut g, y, &[x]).unwrap();
    assert_eq!(gx.len(), 1);
    assert_eq!(gx[0].shape(&g).unwrap(), Shape::new([]));
    assert_eq!(eval_scalar(gx[0], &mut g, &mut hw), 0.0);
    g.release(&mut hw);
}

#[test]
fn grad_tests_test_neg() {
    let mut hw = CpuHardware::new(1);
    let mut g = Graph::new(1);
    let x = scalar_node(&mut g, &mut hw, 42.0);
    let y = g.neg(x).unwrap();
    let gx = grad(&mut g, y, &[x]).unwrap();
    assert_eq!(gx.len(), 1);
    assert_eq!(eval_scalar(gx[0], &mut g, &mut hw), -1.0);
    g.release(&mut hw);
}

#[test]
fn grad_tests_test_add() {
    let mut hw = CpuHardware::new(1);
    let mut g = Graph::new(1);
    let a = scalar_node(&mut g, &mut hw, 123.0);
    let b = scalar_node(&mut g, &mut hw, 456.0);
    let y = g.add(a, b).unwrap();
    let gx = grad(&mut g, y, &[a, b]).unwrap();
    assert_eq!(gx.len(), 2);
    assert_eq!(eval_scalar(gx[0], &mut g, &mut hw), 1.0);
    assert_eq!(eval_scalar(gx[1], &mut g, &mut hw), 1.0);
    g.release(&mut hw);
}

#[test]
fn grad_tests_test_sub() {
    let mut hw = CpuHardware::new(1);
    let mut g = Graph::new(1);
    let a = scalar_node(&mut g, &mut hw, 123.0);
    let b = scalar_node(&mut g, &mut hw, 456.0);
    let y = g.sub(a, b).unwrap();
    let gx = grad(&mut g, y, &[a, b]).unwrap();
    assert_eq!(eval_scalar(gx[0], &mut g, &mut hw), 1.0);
    assert_eq!(eval_scalar(gx[1], &mut g, &mut hw), -1.0);
    g.release(&mut hw);
}

#[test]
fn grad_tests_test_mul() {
    let mut hw = CpuHardware::new(1);
    let mut g = Graph::new(1);
    let a = scalar_node(&mut g, &mut hw, 123.0);
    let b = scalar_node(&mut g, &mut hw, 456.0);
    let y = g.mul(a, b).unwrap();
    let gx = grad(&mut g, y, &[a, b]).unwrap();
    assert_eq!(eval_scalar(gx[0], &mut g, &mut hw), 456.0);
    assert_eq!(eval_scalar(gx[1], &mut g, &mut hw), 123.0);
    g.release(&mut hw);
}

#[test]
fn test_mul_quadratic() {
    // Diamond dependency: y = x*x, so backpropagation must sum the two
    // gradient paths and produce 2x.
    let mut hw = CpuHardware::new(1);
    let mut g = Graph::new(1);
    let x = scalar_node(&mut g, &mut hw, 123.0);
    let y = g.mul(x, x).unwrap();
    let gx = grad(&mut g, y, &[x]).unwrap();
    assert_eq!(gx.len(), 1);
    assert_eq!(eval_scalar(gx[0], &mut g, &mut hw), 246.0);
    g.release(&mut hw);
}

#[test]
fn grad_tests_test_div() {
    let mut hw = CpuHardware::new(1);
    let mut g = Graph::new(1);
    let a = scalar_node(&mut g, &mut hw, 3.0);
    let b = scalar_node(&mut g, &mut hw, 2.0);
    let y = g.div(a, b).unwrap();
    let gx = grad(&mut g, y, &[a, b]).unwrap();
    assert_eq!(eval_scalar(gx[0], &mut g, &mut hw), 0.5);
    assert_eq!(eval_scalar(gx[1], &mut g, &mut hw), -0.75);
    g.release(&mut hw);
}

#[test]
fn grad_tests_test_multiple_computation() {
    let mut hw = CpuHardware::new(1);
    let mut g = Graph::new(1);
    let a = scalar_node(&mut g, &mut hw, 1.0);
    let b = scalar_node(&mut g, &mut hw, 2.0);
    let c = scalar_node(&mut g, &mut hw, 3.0);
    let nb = g.neg(b).unwrap();
    let nbc = g.mul(nb, c).unwrap();
    let y = g.add(a, nbc).unwrap();
    let gx = grad(&mut g, y, &[a, b, c]).unwrap();
    assert_eq!(gx.len(), 3);
    assert_eq!(eval_scalar(gx[0], &mut g, &mut hw), 1.0);
    assert_eq!(eval_scalar(gx[1], &mut g, &mut hw), -3.0);
    assert_eq!(eval_scalar(gx[2], &mut g, &mut hw), -2.0);
    g.release(&mut hw);
}

#[test]
fn test_higher_order_gradients() {
    let mut hw = CpuHardware::new(1);
    let mut g = Graph::new(1);
    let x = scalar_node(&mut g, &mut hw, 5.0);
    let xx = g.mul(x, x).unwrap();
    let y = g.mul(xx, x).unwrap();

    let gx1 = grad(&mut g, y, &[x]).unwrap()[0];
    let gx2 = grad(&mut g, gx1, &[x]).unwrap()[0];
    let gx3 = grad(&mut g, gx2, &[x]).unwrap()[0];
    let gx4 = grad(&mut g, gx3, &[x]).unwrap()[0];

    assert_eq!(gx1.shape(&g).unwrap(), Shape::new([]));
    assert_eq!(gx2.shape(&g).unwrap(), Shape::new([]));
    assert_eq!(gx3.shape(&g).unwrap(), Shape::new([]));
    assert_eq!(gx4.shape(&g).unwrap(), Shape::new([]));

    assert_eq!(eval_scalar(gx1, &mut g, &mut hw), 75.0);
    assert_eq!(eval_scalar(gx2, &mut g, &mut hw), 30.0);
    assert_eq!(eval_scalar(gx3, &mut g, &mut hw), 6.0);
    assert_eq!(eval_scalar(gx4, &mut g, &mut hw), 0.0);
    g.release(&mut hw);
    assert_eq!(hw.outstanding(), 0);
}

#[test]
fn test_gradient_of_multiple_variables() {
    let mut hw = CpuHardware::new(1);
    let mut g = Graph::new(1);
    let a = scalar_node(&mut g, &mut hw, 2.0);
    let b = scalar_node(&mut g, &mut hw, 3.0);
    let aa = g.mul(a, a).unwrap();
    let y = g.mul(aa, b).unwrap();

    let y_a = grad(&mut g, y, &[a]).unwrap()[0];
    let y_b = grad(&mut g, y, &[b]).unwrap()[0];

    let y_aa = grad(&mut g, y_a, &[a]).unwrap()[0];
    let y_ab = grad(&mut g, y_a, &[b]).unwrap()[0];
    let y_ba = grad(&mut g, y_b, &[a]).unwrap()[0];
    let y_bb = grad(&mut g, y_b, &[b]).unwrap()[0];

    let y_aaa = grad(&mut g, y_aa, &[a]).unwrap()[0];
    let y_aab = grad(&mut g, y_aa, &[b]).unwrap()[0];
    let y_aba = grad(&mut g, y_ab, &[a]).unwrap()[0];
    let y_abb = grad(&mut g, y_ab, &[b]).unwrap()[0];
    let y_baa = grad(&mut g, y_ba, &[a]).unwrap()[0];
    let y_bab = grad(&mut g, y_ba, &[b]).unwrap()[0];
    let y_bba = grad(&mut g, y_bb, &[a]).unwrap()[0];
    let y_bbb = grad(&mut g, y_bb, &[b]).unwrap()[0];

    assert_eq!(eval_scalar(y_a, &mut g, &mut hw), 12.0);
    assert_eq!(eval_scalar(y_b, &mut g, &mut hw), 4.0);

    assert_eq!(eval_scalar(y_aa, &mut g, &mut hw), 6.0);
    assert_eq!(eval_scalar(y_ab, &mut g, &mut hw), 4.0);
    assert_eq!(eval_scalar(y_ba, &mut g, &mut hw), 4.0);
    assert_eq!(eval_scalar(y_bb, &mut g, &mut hw), 0.0);

    assert_eq!(eval_scalar(y_aaa, &mut g, &mut hw), 0.0);
    assert_eq!(eval_scalar(y_aab, &mut g, &mut hw), 2.0);
    assert_eq!(eval_scalar(y_aba, &mut g, &mut hw), 2.0);
    assert_eq!(eval_scalar(y_abb, &mut g, &mut hw), 0.0);
    assert_eq!(eval_scalar(y_baa, &mut g, &mut hw), 2.0);
    assert_eq!(eval_scalar(y_bab, &mut g, &mut hw), 0.0);
    assert_eq!(eval_scalar(y_bba, &mut g, &mut hw), 0.0);
    assert_eq!(eval_scalar(y_bbb, &mut g, &mut hw), 0.0);
    g.release(&mut hw);
}

#[test]
fn test_different_graph() {
    // Differentiating across two graphs is rejected with a recoverable
    // error.
    let mut hw = CpuHardware::new(1);
    let mut g1 = Graph::new(1);
    let mut g2 = Graph::new(2);
    let x = scalar_node(&mut g1, &mut hw, 1.0);
    let y = scalar_node(&mut g2, &mut hw, 2.0);
    let r = grad(&mut g2, y, &[x]);
    assert!(matches!(r, Err(Error::InvalidNode(_))));
    g1.release(&mut hw);
    g2.release(&mut hw);
}

#[test]
fn test_check_graph() {
    let mut hw = CpuHardware::new(1);
    let mut g1 = Graph::new(1);
    let mut g2 = Graph::new(2);
    let a = scalar_node(&mut g1, &mut hw, 1.0);
    let b = scalar_node(&mut g1, &mut hw, 2.0);
    let c = scalar_node(&mut g2, &mut hw, 3.0);
    assert!(a.check_graph(&[b]).is_ok());
    assert!(a.check_graph(&[]).is_ok());
    assert!(matches!(a.check_graph(&[b, c]), Err(Error::InvalidGraph(_))));
    g1.release(&mut hw);
    g2.release(&mut hw);
}

#[test]
fn test_error_message() {
    let e = Error::InvalidShape("not a scalar".to_string());
    assert_eq!(e.message(), "not a scalar");
    let e = Error::NotSupported("reserved".to_string());
    assert_eq!(e.message(), "reserved");
}

#[test]
fn test_gradient_matches_closed_form() {
    // Gradients of each arithmetic operator match the closed-form
    // derivatives on a handful of scalar inputs.
    let samples = [(1.25f32, -2.5f32), (0.5, 0.75), (-3.0, 4.0), (7.5, -0.125)];
    for (av, bv) in samples {
        let mut hw = CpuHardware::new(1);
        let mut g = Graph::new(1);
        let a = scalar_node(&mut g, &mut hw, av);
        let b = scalar_node(&mut g, &mut hw, bv);

        let y_add = g.add(a, b).unwrap();
        let gs = grad(&mut g, y_add, &[a, b]).unwrap();
        assert_eq!(eval_scalar(gs[0], &mut g, &mut hw), 1.0);
        assert_eq!(eval_scalar(gs[1], &mut g, &mut hw), 1.0);

        let y_sub = g.sub(a, b).unwrap();
        let gs = grad(&mut g, y_sub, &[a, b]).unwrap();
        assert_eq!(eval_scalar(gs[0], &mut g, &mut hw), 1.0);
        assert_eq!(eval_scalar(gs[1], &mut g, &mut hw), -1.0);

        let y_mul = g.mul(a, b).unwrap();
        let gs = grad(&mut g, y_mul, &[a, b]).unwrap();
        assert_eq!(eval_scalar(gs[0], &mut g, &mut hw), bv);
        assert_eq!(eval_scalar(gs[1], &mut g, &mut hw), av);

        let y_div = g.div(a, b).unwrap();
        let gs = grad(&mut g, y_div, &[a, b]).unwrap();
        let gx0 = eval_scalar(gs[0], &mut g, &mut hw);
        let gx1 = eval_scalar(gs[1], &mut g, &mut hw);
        assert!((gx0 - 1.0 / bv).abs() <= 1e-6 * (1.0 / bv).abs());
        assert!((gx1 - (-av / (bv * bv))).abs() <= 1e-5 * (av / (bv * bv)).abs());

        let y_neg = g.neg(a).unwrap();
        let gs = grad(&mut g, y_neg, &[a]).unwrap();
        assert_eq!(eval_scalar(gs[0], &mut g, &mut hw), -1.0);

        g.release(&mut hw);
        assert_eq!(hw.outstanding(), 0);
    }
}

#[test]
fn test_grad_vector_shape() {
    // Gradients carry the shape of the node they differentiate.
    let mut hw = CpuHardware::new(1);
    let mut g = Graph::new(1);
    let values: Vec<u32> = [1.0f32, 2.0, 3.0].iter().map(|v| v.to_bits()).collect();
    let arr = Array::constant(&mut hw, Shape::new([3]), &values).unwrap();
    let x = Node::constant(&mut g, arr, &hw);
    let y = g.mul(x, x).unwrap();
    let gx = grad(&mut g, y, &[x]).unwrap();
    assert_eq!(gx[0].shape(&g).unwrap(), Shape::new([3]));
    let v = gx[0].calculate(&mut g, &mut hw).unwrap();
    assert_eq!(values_of(&v, &hw), vec![2.0, 4.0, 6.0]);
    v.free(&mut hw);
    g.release(&mut hw);
    assert_eq!(hw.outstanding(), 0);
}
