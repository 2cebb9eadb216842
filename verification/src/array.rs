use crate::buffer::Buffer;
use crate::error::Error;
use crate::hardware::mem_extends;
use crate::hardware::Hardware;
use crate::shape::Shape;
use vstd::prelude::*;

verus! {

broadcast use crate::shape::lemma_shape_wf_facts;

/// A dense multidimensional array on a specific hardware: a [`Shape`] and a
/// [`Buffer`] of exactly `num_elements` value cells, laid out in row-major
/// order.
///
/// Binary operations require both operands to have equal shapes and to be
/// colocated on the same hardware; both conditions are checked and produce
/// typed errors.  An array is released exactly once through [`Array::free`].
pub struct Array {
    /// Shape of this array.
    shape: Shape,
    /// Buffer holding the data.
    buffer: Buffer,
}

impl Array {
    /// The shape of this array.
    pub closed spec fn spec_shape(&self) -> Shape {
        self.shape
    }

    /// The buffer of this array.
    pub closed spec fn spec_buffer(&self) -> Buffer {
        self.buffer
    }

    /// Identity of the hardware that hosts this array.
    pub open spec fn spec_hw_id(&self) -> u64 {
        self.spec_buffer().spec_hw_id()
    }

    /// Handle of the underlying allocation.
    pub open spec fn spec_handle(&self) -> usize {
        self.spec_buffer().spec_handle()
    }

    /// Well-formedness: the shape is well formed and the buffer holds exactly
    /// one cell per element.
    pub open spec fn wf(&self) -> bool {
        &&& self.spec_shape().wf()
        &&& self.spec_buffer().spec_len() == self.spec_shape().spec_num_elements()
    }

    /// The array is live on hardware `h`.
    pub open spec fn valid<H: Hardware>(&self, h: &H) -> bool {
        &&& self.wf()
        &&& self.spec_buffer().valid(h)
    }

    /// The row-major element contents of this array on hardware `h`.
    pub open spec fn contents<H: Hardware>(&self, h: &H) -> Seq<u32> {
        self.spec_buffer().contents(h)
    }

    /// Creates a new array with uninitialised contents.
    fn uninit<H: Hardware>(hw: &mut H, shape: Shape) -> (a: Array)
        requires
            shape.wf(),
        ensures
            final(hw).spec_id() == old(hw).spec_id(),
            a.valid(final(hw)),
            a.spec_shape() == shape,
            a.spec_hw_id() == old(hw).spec_id(),
            !old(hw).mem().contains_key(a.spec_handle()),
            final(hw).mem() == old(hw).mem().insert(
                a.spec_handle(),
                final(hw).mem()[a.spec_handle()],
            ),
            mem_extends(old(hw).mem(), final(hw).mem()),
    {
        let len = shape.num_elements();
        let buffer = Buffer::new_uninit(hw, len);
        Array { shape, buffer }
    }

    /// Returns the shape of the array.
    pub fn shape(&self) -> (r: Shape)
        ensures
            r == self.spec_shape(),
    {
        self.shape
    }

    /// Returns the identity of the hardware that hosts the array.
    pub fn hardware_id(&self) -> (r: u64)
        ensures
            r == self.spec_hw_id(),
    {
        self.buffer.hardware_id()
    }

    /// Sets the value of a scalar array, erring when the array is not a
    /// scalar.
    pub fn set_scalar<H: Hardware>(&self, value: u32, hw: &mut H) -> (r: Result<(), Error>)
        requires
            self.valid(old(hw)),
        ensures
            final(hw).spec_id() == old(hw).spec_id(),
            r is Ok <==> self.spec_shape().spec_num_dimensions() == 0,
            r matches Err(e) ==> e is InvalidShape && *final(hw) == *old(hw),
            r is Ok ==> final(hw).mem() == old(hw).mem().insert(self.spec_handle(), seq![value]),
    {
        match self.shape.check_is_scalar() {
            Err(e) => Err(e),
            Ok(()) => {
                proof {
                    assert(self.spec_shape().dims().len() == 0);
                }
                let values = vec![value];
                hw.copy_host_to_hardware(values.as_slice(), self.buffer.handle());
                proof {
                    assert(values@ =~= seq![value]);
                }
                Ok(())
            },
        }
    }

    /// Obtains the value of a scalar array, erring when the array is not a
    /// scalar.
    pub fn get_scalar<H: Hardware>(&self, hw: &H) -> (r: Result<u32, Error>)
        requires
            self.valid(hw),
        ensures
            r is Ok <==> self.spec_shape().spec_num_dimensions() == 0,
            r matches Err(e) ==> e is InvalidShape,
            r matches Ok(v) ==> v == self.contents(hw)[0],
    {
        match self.shape.check_is_scalar() {
            Err(e) => Err(e),
            Ok(()) => {
                proof {
                    assert(self.spec_shape().dims().len() == 0);
                }
                let values = hw.copy_hardware_to_host(self.buffer.handle(), 1);
                Ok(values[0])
            },
        }
    }

    /// Replaces all values of the array, erring when the number of supplied
    /// values differs from the element count.
    pub fn set_values<H: Hardware>(&self, values: &[u32], hw: &mut H) -> (r: Result<(), Error>)
        requires
            self.valid(old(hw)),
        ensures
            final(hw).spec_id() == old(hw).spec_id(),
            r is Ok <==> values@.len() == self.spec_shape().spec_num_elements(),
            r matches Err(e) ==> e is InvalidLength && *final(hw) == *old(hw),
            r is Ok ==> final(hw).mem() == old(hw).mem().insert(self.spec_handle(), values@),
    {
        if values.len() != self.shape.num_elements() {
            return Err(Error::InvalidLength("Values have a different length.".to_owned()));
        }
        hw.copy_host_to_hardware(values, self.buffer.handle());
        Ok(())
    }

    /// Obtains all values of the array in row-major order.
    pub fn get_values<H: Hardware>(&self, hw: &H) -> (r: Vec<u32>)
        requires
            self.valid(hw),
        ensures
            r@ == self.contents(hw),
    {
        hw.copy_hardware_to_host(self.buffer.handle(), self.shape.num_elements())
    }

    /// Creates a new scalar array holding a single value.
    pub fn scalar<H: Hardware>(hw: &mut H, value: u32) -> (a: Array)
        ensures
            final(hw).spec_id() == old(hw).spec_id(),
            a.valid(final(hw)),
            a.spec_shape().spec_num_dimensions() == 0,
            a.spec_hw_id() == old(hw).spec_id(),
            a.contents(final(hw)) == seq![value],
            !old(hw).mem().contains_key(a.spec_handle()),
            final(hw).mem() == old(hw).mem().insert(a.spec_handle(), seq![value]),
            mem_extends(old(hw).mem(), final(hw).mem()),
    {
        let ghost mem0 = old(hw).mem();
        let a = Array::uninit(hw, Shape::scalar());
        let values = vec![value];
        hw.copy_host_to_hardware(values.as_slice(), a.buffer.handle());
        proof {
            assert(values@ =~= seq![value]);
            assert(final(hw).mem() =~= mem0.insert(a.spec_handle(), seq![value]));
        }
        a
    }

    /// Creates a new array of the given shape holding the given row-major
    /// values, erring when the number of values differs from the element
    /// count.
    pub fn constant<H: Hardware>(hw: &mut H, shape: Shape, values: &[u32]) -> (r: Result<
        Array,
        Error,
    >)
        requires
            shape.wf(),
        ensures
            final(hw).spec_id() == old(hw).spec_id(),
            r is Ok <==> values@.len() == shape.spec_num_elements(),
            r matches Err(e) ==> e is InvalidLength && *final(hw) == *old(hw),
            r matches Ok(a) ==> a.valid(final(hw)) && a.spec_shape() == shape && a.spec_hw_id()
                == old(hw).spec_id() && a.contents(final(hw)) == values@ && !old(hw).mem().contains_key(a.spec_handle()) && final(hw).mem() == old(hw).mem().insert(
                a.spec_handle(),
                values@,
            ) && mem_extends(old(hw).mem(), final(hw).mem()),
    {
        if values.len() != shape.num_elements() {
            return Err(Error::InvalidLength("Values have a different length.".to_owned()));
        }
        let ghost mem0 = old(hw).mem();
        let a = Array::uninit(hw, shape);
        hw.copy_host_to_hardware(values, a.buffer.handle());
        proof {
            assert(final(hw).mem() =~= mem0.insert(a.spec_handle(), values@));
        }
        Ok(a)
    }

    /// Creates a new array of the given shape with every element set to
    /// `value`.
    pub fn fill<H: Hardware>(hw: &mut H, shape: Shape, value: u32) -> (a: Array)
        requires
            shape.wf(),
        ensures
            final(hw).spec_id() == old(hw).spec_id(),
            a.valid(final(hw)),
            a.spec_shape() == shape,
            a.spec_hw_id() == old(hw).spec_id(),
            a.contents(final(hw)) == Seq::new(shape.spec_num_elements(), |i: int| value),
            !old(hw).mem().contains_key(a.spec_handle()),
            final(hw).mem() == old(hw).mem().insert(
                a.spec_handle(),
                Seq::new(shape.spec_num_elements(), |i: int| value),
            ),
            mem_extends(old(hw).mem(), final(hw).mem()),
    {
        let ghost mem0 = old(hw).mem();
        let a = Array::uninit(hw, shape);
        let len = a.shape.num_elements();
        hw.fill(a.buffer.handle(), value, len);
        proof {
            assert(final(hw).mem() =~= mem0.insert(
                a.spec_handle(),
                Seq::new(shape.spec_num_elements(), |i: int| value),
            ));
        }
        a
    }

    /// Creates a new filled array colocated with an existing array.
    pub fn fill_colocated<H: Hardware>(other: &Array, shape: Shape, value: u32, hw: &mut H) -> (a:
        Array)
        requires
            shape.wf(),
            other.spec_hw_id() == old(hw).spec_id(),
        ensures
            final(hw).spec_id() == old(hw).spec_id(),
            a.valid(final(hw)),
            a.spec_shape() == shape,
            a.spec_hw_id() == other.spec_hw_id(),
            a.contents(final(hw)) == Seq::new(shape.spec_num_elements(), |i: int| value),
            !old(hw).mem().contains_key(a.spec_handle()),
            mem_extends(old(hw).mem(), final(hw).mem()),
    {
        Array::fill(hw, shape, value)
    }

    /// Performs elementwise negation and returns a fresh colocated array of
    /// the results.
    pub fn elementwise_neg<H: Hardware>(&self, hw: &mut H) -> (r: Array)
        requires
            self.valid(old(hw)),
        ensures
            final(hw).spec_id() == old(hw).spec_id(),
            r.valid(final(hw)),
            r.spec_shape() == self.spec_shape(),
            r.spec_hw_id() == self.spec_hw_id(),
            r.contents(final(hw)) == Seq::new(
                self.spec_shape().spec_num_elements(),
                |i: int| H::neg_val(self.contents(old(hw))[i]),
            ),
            self.contents(final(hw)) == self.contents(old(hw)),
            !old(hw).mem().contains_key(r.spec_handle()),
            final(hw).mem() == old(hw).mem().insert(
                r.spec_handle(),
                Seq::new(
                    self.spec_shape().spec_num_elements(),
                    |i: int| H::neg_val(self.contents(old(hw))[i]),
                ),
            ),
            mem_extends(old(hw).mem(), final(hw).mem()),
    {
        let ghost mem0 = old(hw).mem();
        let out = Array::uninit(hw, self.shape);
        let len = self.shape.num_elements();
        hw.elementwise_neg(self.buffer.handle(), out.buffer.handle(), len);
        proof {
            assert(final(hw).mem() =~= mem0.insert(
                out.spec_handle(),
                Seq::new(
                    self.spec_shape().spec_num_elements(),
                    |i: int| H::neg_val(mem0[self.spec_handle()][i]),
                ),
            ));
        }
        out
    }

    /// Performs elementwise addition and returns a fresh colocated array of
    /// the results, erring on a colocation or shape mismatch.
    pub fn elementwise_add<H: Hardware>(&self, other: &Array, hw: &mut H) -> (r: Result<
        Array,
        Error,
    >)
        requires
            self.valid(old(hw)),
            other.wf(),
            other.spec_hw_id() == self.spec_hw_id() ==> other.spec_buffer().valid(old(hw)),
        ensures
            final(hw).spec_id() == old(hw).spec_id(),
            r is Ok <==> other.spec_hw_id() == self.spec_hw_id() && self.spec_shape().dims()
                == other.spec_shape().dims(),
            other.spec_hw_id() != self.spec_hw_id() ==> (r matches Err(e) && e is InvalidHardware
                && *final(hw) == *old(hw)),
            other.spec_hw_id() == self.spec_hw_id() && self.spec_shape().dims()
                != other.spec_shape().dims() ==> (r matches Err(e) && e is InvalidShape && *final(hw) == *old(hw)),
            r matches Ok(out) ==> out.valid(final(hw)) && out.spec_shape() == self.spec_shape()
                && out.spec_hw_id() == self.spec_hw_id() && out.contents(final(hw)) == Seq::new(
                self.spec_shape().spec_num_elements(),
                |i: int| H::add_val(self.contents(old(hw))[i], other.contents(old(hw))[i]),
            ) && !old(hw).mem().contains_key(out.spec_handle()) && final(hw).mem() == old(hw).mem().insert(out.spec_handle(), out.contents(final(hw))) && mem_extends(
                old(hw).mem(),
                final(hw).mem(),
            ),
    {
        match self.buffer.check_colocated(&other.buffer) {
            Err(e) => Err(e),
            Ok(()) => match self.shape.elementwise(&other.shape) {
                Err(e) => Err(e),
                Ok(output_shape) => {
                    proof {
                        assert(self.spec_shape().dims() == other.spec_shape().dims());
                        assert(output_shape == self.spec_shape());
                    }
                    let num_elements = output_shape.num_elements();
                    let ghost mem0 = old(hw).mem();
                    let out = Array::uninit(hw, output_shape);
                    hw.elementwise_add(
                        self.buffer.handle(),
                        other.buffer.handle(),
                        out.buffer.handle(),
                        num_elements,
                    );
                    proof {
                        assert(final(hw).mem() =~= mem0.insert(
                            out.spec_handle(),
                            Seq::new(
                                self.spec_shape().spec_num_elements(),
                                |i: int|
                                    H::add_val(
                                        mem0[self.spec_handle()][i],
                                        mem0[other.spec_handle()][i],
                                    ),
                            ),
                        ));
                    }
                    Ok(out)
                },
            },
        }
    }

    /// Performs elementwise subtraction and returns a fresh colocated array
    /// of the results, erring on a colocation or shape mismatch.
    pub fn elementwise_sub<H: Hardware>(&self, other: &Array, hw: &mut H) -> (r: Result<
        Array,
        Error,
    >)
        requires
            self.valid(old(hw)),
            other.wf(),
            other.spec_hw_id() == self.spec_hw_id() ==> other.spec_buffer().valid(old(hw)),
        ensures
            final(hw).spec_id() == old(hw).spec_id(),
            r is Ok <==> other.spec_hw_id() == self.spec_hw_id() && self.spec_shape().dims()
                == other.spec_shape().dims(),
            other.spec_hw_id() != self.spec_hw_id() ==> (r matches Err(e) && e is InvalidHardware
                && *final(hw) == *old(hw)),
            other.spec_hw_id() == self.spec_hw_id() && self.spec_shape().dims()
                != other.spec_shape().dims() ==> (r matches Err(e) && e is InvalidShape && *final(hw) == *old(hw)),
            r matches Ok(out) ==> out.valid(final(hw)) && out.spec_shape() == self.spec_shape()
                && out.spec_hw_id() == self.spec_hw_id() && out.contents(final(hw)) == Seq::new(
                self.spec_shape().spec_num_elements(),
                |i: int| H::sub_val(self.contents(old(hw))[i], other.contents(old(hw))[i]),
            ) && !old(hw).mem().contains_key(out.spec_handle()) && final(hw).mem() == old(hw).mem().insert(out.spec_handle(), out.contents(final(hw))) && mem_extends(
                old(hw).mem(),
                final(hw).mem(),
            ),
    {
        match self.buffer.check_colocated(&other.buffer) {
            Err(e) => Err(e),
            Ok(()) => match self.shape.elementwise(&other.shape) {
                Err(e) => Err(e),
                Ok(output_shape) => {
                    proof {
                        assert(self.spec_shape().dims() == other.spec_shape().dims());
                        assert(output_shape == self.spec_shape());
                    }
                    let num_elements = output_shape.num_elements();
                    let ghost mem0 = old(hw).mem();
                    let out = Array::uninit(hw, output_shape);
                    hw.elementwise_sub(
                        self.buffer.handle(),
                        other.buffer.handle(),
                        out.buffer.handle(),
                        num_elements,
                    );
                    proof {
                        assert(final(hw).mem() =~= mem0.insert(
                            out.spec_handle(),
                            Seq::new(
                                self.spec_shape().spec_num_elements(),
                                |i: int|
                                    H::sub_val(
                                        mem0[self.spec_handle()][i],
                                        mem0[other.spec_handle()][i],
                                    ),
                            ),
                        ));
                    }
                    Ok(out)
                },
            },
        }
    }

    /// Performs elementwise multiplication and returns a fresh colocated
    /// array of the results, erring on a colocation or shape mismatch.
    pub fn elementwise_mul<H: Hardware>(&self, other: &Array, hw: &mut H) -> (r: Result<
        Array,
        Error,
    >)
        requires
            self.valid(old(hw)),
            other.wf(),
            other.spec_hw_id() == self.spec_hw_id() ==> other.spec_buffer().valid(old(hw)),
        ensures
            final(hw).spec_id() == old(hw).spec_id(),
            r is Ok <==> other.spec_hw_id() == self.spec_hw_id() && self.spec_shape().dims()
                == other.spec_shape().dims(),
            other.spec_hw_id() != self.spec_hw_id() ==> (r matches Err(e) && e is InvalidHardware
                && *final(hw) == *old(hw)),
            other.spec_hw_id() == self.spec_hw_id() && self.spec_shape().dims()
                != other.spec_shape().dims() ==> (r matches Err(e) && e is InvalidShape && *final(hw) == *old(hw)),
            r matches Ok(out) ==> out.valid(final(hw)) && out.spec_shape() == self.spec_shape()
                && out.spec_hw_id() == self.spec_hw_id() && out.contents(final(hw)) == Seq::new(
                self.spec_shape().spec_num_elements(),
                |i: int| H::mul_val(self.contents(old(hw))[i], other.contents(old(hw))[i]),
            ) && !old(hw).mem().contains_key(out.spec_handle()) && final(hw).mem() == old(hw).mem().insert(out.spec_handle(), out.contents(final(hw))) && mem_extends(
                old(hw).mem(),
                final(hw).mem(),
            ),
    {
        match self.buffer.check_colocated(&other.buffer) {
            Err(e) => Err(e),
            Ok(()) => match self.shape.elementwise(&other.shape) {
                Err(e) => Err(e),
                Ok(output_shape) => {
                    proof {
                        assert(self.spec_shape().dims() == other.spec_shape().dims());
                        assert(output_shape == self.spec_shape());
                    }
                    let num_elements = output_shape.num_elements();
                    let ghost mem0 = old(hw).mem();
                    let out = Array::uninit(hw, output_shape);
                    hw.elementwise_mul(
                        self.buffer.handle(),
                        other.buffer.handle(),
                        out.buffer.handle(),
                        num_elements,
                    );
                    proof {
                        assert(final(hw).mem() =~= mem0.insert(
                            out.spec_handle(),
                            Seq::new(
                                self.spec_shape().spec_num_elements(),
                                |i: int|
                                    H::mul_val(
                                        mem0[self.spec_handle()][i],
                                        mem0[other.spec_handle()][i],
                                    ),
                            ),
                        ));
                    }
                    Ok(out)
                },
            },
        }
    }

    /// Performs elementwise division and returns a fresh colocated array of
    /// the results, erring on a colocation or shape mismatch.
    pub fn elementwise_div<H: Hardware>(&self, other: &Array, hw: &mut H) -> (r: Result<
        Array,
        Error,
    >)
        requires
            self.valid(old(hw)),
            other.wf(),
            other.spec_hw_id() == self.spec_hw_id() ==> other.spec_buffer().valid(old(hw)),
        ensures
            final(hw).spec_id() == old(hw).spec_id(),
            r is Ok <==> other.spec_hw_id() == self.spec_hw_id() && self.spec_shape().dims()
                == other.spec_shape().dims(),
            other.spec_hw_id() != self.spec_hw_id() ==> (r matches Err(e) && e is InvalidHardware
                && *final(hw) == *old(hw)),
            other.spec_hw_id() == self.spec_hw_id() && self.spec_shape().dims()
                != other.spec_shape().dims() ==> (r matches Err(e) && e is InvalidShape && *final(hw) == *old(hw)),
            r matches Ok(out) ==> out.valid(final(hw)) && out.spec_shape() == self.spec_shape()
                && out.spec_hw_id() == self.spec_hw_id() && out.contents(final(hw)) == Seq::new(
                self.spec_shape().spec_num_elements(),
                |i: int| H::div_val(self.contents(old(hw))[i], other.contents(old(hw))[i]),
            ) && !old(hw).mem().contains_key(out.spec_handle()) && final(hw).mem() == old(hw).mem().insert(out.spec_handle(), out.contents(final(hw))) && mem_extends(
                old(hw).mem(),
                final(hw).mem(),
            ),
    {
        match self.buffer.check_colocated(&other.buffer) {
            Err(e) => Err(e),
            Ok(()) => match self.shape.elementwise(&other.shape) {
                Err(e) => Err(e),
                Ok(output_shape) => {
                    proof {
                        assert(self.spec_shape().dims() == other.spec_shape().dims());
                        assert(output_shape == self.spec_shape());
                    }
                    let num_elements = output_shape.num_elements();
                    let ghost mem0 = old(hw).mem();
                    let out = Array::uninit(hw, output_shape);
                    hw.elementwise_div(
                        self.buffer.handle(),
                        other.buffer.handle(),
                        out.buffer.handle(),
                        num_elements,
                    );
                    proof {
                        assert(final(hw).mem() =~= mem0.insert(
                            out.spec_handle(),
                            Seq::new(
                                self.spec_shape().spec_num_elements(),
                                |i: int|
                                    H::div_val(
                                        mem0[self.spec_handle()][i],
                                        mem0[other.spec_handle()][i],
                                    ),
                            ),
                        ));
                    }
                    Ok(out)
                },
            },
        }
    }

    /// Allocates a fresh colocated array and copies this array's contents
    /// into it.
    pub fn clone_on<H: Hardware>(&self, hw: &mut H) -> (r: Array)
        requires
            self.valid(old(hw)),
        ensures
            final(hw).spec_id() == old(hw).spec_id(),
            r.valid(final(hw)),
            r.spec_shape() == self.spec_shape(),
            r.spec_hw_id() == self.spec_hw_id(),
            r.contents(final(hw)) == self.contents(old(hw)),
            !old(hw).mem().contains_key(r.spec_handle()),
            final(hw).mem() == old(hw).mem().insert(r.spec_handle(), self.contents(old(hw))),
            mem_extends(old(hw).mem(), final(hw).mem()),
    {
        let ghost mem0 = old(hw).mem();
        let out = Array::uninit(hw, self.shape);
        let len = self.shape.num_elements();
        hw.copy_hardware_to_hardware(self.buffer.handle(), out.buffer.handle(), len);
        proof {
            assert(final(hw).mem() =~= mem0.insert(out.spec_handle(), mem0[self.spec_handle()]));
        }
        out
    }

    /// Releases the array's buffer through its owning hardware.
    pub fn free<H: Hardware>(self, hw: &mut H)
        requires
            self.valid(old(hw)),
        ensures
            final(hw).spec_id() == old(hw).spec_id(),
            final(hw).mem() == old(hw).mem().remove(self.spec_handle()),
    {
        self.buffer.free(hw);
    }
}

/// Array round-trip law: an array created from given row-major values
/// holds exactly those values, and reading an array's values returns
/// exactly what it holds; together, writing values and reading them back
/// yields the original sequence.  The two hypotheses are the
/// postconditions of [`Array::constant`] and [`Array::get_values`].
pub proof fn lemma_array_round_trip<H: Hardware>(h: H, a: Array, values: Seq<u32>, read: Seq<u32>)
    requires
        a.contents(&h) == values,
        read == a.contents(&h),
    ensures
        read == values,
{
}

} // verus!
