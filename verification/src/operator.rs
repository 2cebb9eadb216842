use crate::array::Array;
use crate::error::Error;
use crate::shape::Shape;
use vstd::prelude::*;

verus! {

broadcast use crate::shape::lemma_shape_wf_facts;

/// One forward computation in a computation graph: a tagged union over the
/// engine's operator set.
///
/// Nullary operators carry everything they need to produce their output;
/// unary and binary operators read their operands from preceding steps.
/// Every operator propagates its output shape and hardware at graph-build
/// time, before any evaluation happens.
pub enum Operator {
    /// Nullary operator producing a copy of a stored array.
    Constant(Array),
    /// Nullary operator producing an array of one repeated value,
    /// materialised lazily at evaluation time.
    Fill { hw_id: u64, shape: Shape, value: u32 },
    /// Elementwise negation.
    Neg,
    /// Elementwise addition.
    Add,
    /// Elementwise subtraction.
    Sub,
    /// Elementwise multiplication.
    Mul,
    /// Elementwise division.
    Div,
}

impl Operator {
    /// Well-formedness of the data carried by the operator.
    pub open spec fn wf(&self) -> bool {
        match self {
            Operator::Constant(a) => a.wf(),
            Operator::Fill { shape, .. } => shape.wf(),
            _ => true,
        }
    }

    /// The number of inputs the operator requires.
    pub open spec fn spec_input_size(&self) -> nat {
        match self {
            Operator::Constant(_) => 0,
            Operator::Fill { .. } => 0,
            Operator::Neg => 1,
            _ => 2,
        }
    }

    /// The name of the operator.
    pub open spec fn spec_name(&self) -> Seq<char> {
        match self {
            Operator::Constant(_) => "Constant"@,
            Operator::Fill { .. } => "Fill"@,
            Operator::Neg => "Neg"@,
            Operator::Add => "Add"@,
            Operator::Sub => "Sub"@,
            Operator::Mul => "Mul"@,
            Operator::Div => "Div"@,
        }
    }

    /// The output shape the operator infers from its input shapes, or `None`
    /// when the inputs are rejected.
    pub open spec fn spec_infer_shape(&self, inputs: Seq<Shape>) -> Option<Shape>
        recommends
            inputs.len() == self.spec_input_size(),
    {
        match self {
            Operator::Constant(a) => Some(a.spec_shape()),
            Operator::Fill { shape, .. } => Some(*shape),
            Operator::Neg => Some(inputs[0]),
            _ => if inputs[0].dims() == inputs[1].dims() {
                Some(inputs[0])
            } else {
                None
            },
        }
    }

    /// The output hardware the operator infers from its input hardwares, or
    /// `None` when the inputs are not colocated.
    pub open spec fn spec_infer_hardware(&self, inputs: Seq<u64>) -> Option<u64>
        recommends
            inputs.len() == self.spec_input_size(),
    {
        match self {
            Operator::Constant(a) => Some(a.spec_hw_id()),
            Operator::Fill { hw_id, .. } => Some(*hw_id),
            Operator::Neg => Some(inputs[0]),
            _ => if inputs[0] == inputs[1] {
                Some(inputs[0])
            } else {
                None
            },
        }
    }

    /// Whether the operator participates in backpropagation.  Nullary
    /// operators are graph leaves and have no gradient.
    pub open spec fn spec_has_gradient(&self) -> bool {
        self.spec_input_size() > 0
    }

    /// Returns the name of the operator.
    pub fn name(&self) -> (r: String)
        ensures
            r@ == self.spec_name(),
    {
        match self {
            Operator::Constant(_) => "Constant".to_owned(),
            Operator::Fill { .. } => "Fill".to_owned(),
            Operator::Neg => "Neg".to_owned(),
            Operator::Add => "Add".to_owned(),
            Operator::Sub => "Sub".to_owned(),
            Operator::Mul => "Mul".to_owned(),
            Operator::Div => "Div".to_owned(),
        }
    }

    /// Returns the number of inputs the operator requires.
    pub fn input_size(&self) -> (r: usize)
        ensures
            r == self.spec_input_size(),
    {
        match self {
            Operator::Constant(_) => 0,
            Operator::Fill { .. } => 0,
            Operator::Neg => 1,
            _ => 2,
        }
    }

    /// Whether the operator participates in backpropagation.
    pub fn has_gradient(&self) -> (r: bool)
        ensures
            r == self.spec_has_gradient(),
    {
        match self {
            Operator::Constant(_) => false,
            Operator::Fill { .. } => false,
            _ => true,
        }
    }

    /// Calculates the output shape from the input shapes, erring when the
    /// inputs are rejected.
    pub fn perform_shape(&self, inputs: &[Shape]) -> (r: Result<Shape, Error>)
        requires
            self.wf(),
            inputs@.len() == self.spec_input_size(),
            forall|i: int| 0 <= i < inputs@.len() ==> (#[trigger] inputs@[i]).wf(),
        ensures
            self.spec_infer_shape(inputs@) matches Some(s) ==> r == Ok::<Shape, Error>(s) && s.wf(),
            self.spec_infer_shape(inputs@) is None ==> (r matches Err(e) && e is InvalidShape),
    {
        match self {
            Operator::Constant(a) => Ok(a.shape()),
            Operator::Fill { shape, .. } => Ok(*shape),
            Operator::Neg => Ok(inputs[0]),
            _ => inputs[0].elementwise(&inputs[1]),
        }
    }

    /// Calculates the output hardware identity from the input hardware
    /// identities, erring when the inputs are not colocated.
    pub fn perform_hardware(&self, inputs: &[u64]) -> (r: Result<u64, Error>)
        requires
            inputs@.len() == self.spec_input_size(),
        ensures
            self.spec_infer_hardware(inputs@) matches Some(h) ==> r == Ok::<u64, Error>(h),
            self.spec_infer_hardware(inputs@) is None ==> (r matches Err(e) && e is InvalidNode),
    {
        match self {
            Operator::Constant(a) => Ok(a.hardware_id()),
            Operator::Fill { hw_id, .. } => Ok(*hw_id),
            Operator::Neg => Ok(inputs[0]),
            _ => {
                if inputs[0] == inputs[1] {
                    Ok(inputs[0])
                } else {
                    Err(
                        Error::InvalidNode(
                            "Operation between different hardwares is not supported.".to_owned(),
                        ),
                    )
                }
            },
        }
    }
}

} // verus!
