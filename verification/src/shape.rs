use crate::error::Error;
use vstd::prelude::*;
use vstd::string::*;

verus! {

/// Maximum number of dimensions a shape can describe.
pub const MAX_NUM_DIMENSIONS: usize = 8;

/// Product of a sequence of dimension sizes.  An empty sequence has product
/// one; a sequence containing a zero has product zero.
pub open spec fn dims_product(dims: Seq<usize>) -> nat
    decreases dims.len(),
{
    if dims.len() == 0 {
        1
    } else {
        dims_product(dims.drop_last()) * (dims.last() as nat)
    }
}

/// Shape of a value: a fixed-capacity dimension vector with at most
/// [`MAX_NUM_DIMENSIONS`] axes and a cached element count.
///
/// A scalar has zero dimensions.  Equality is structural over the first
/// `num_dimensions` entries; the remaining entries are kept at zero.
#[derive(Clone, Copy, Debug)]
pub struct Shape {
    /// Number of dimensions of the shape.  Only entries of `dimensions` with
    /// indices smaller than `num_dimensions` are observable.
    num_dimensions: usize,
    /// Number of values for each dimension.
    dimensions: [usize; 8],
    /// Cached number of elements described by this shape.
    num_elements: usize,
}

impl Shape {
    /// The observable dimensions of this shape.
    pub closed spec fn dims(&self) -> Seq<usize> {
        self.dimensions@.take(self.num_dimensions as int)
    }

    /// The cached element count.
    pub closed spec fn spec_num_elements(&self) -> nat {
        self.num_elements as nat
    }

    /// The number of axes.
    pub closed spec fn spec_num_dimensions(&self) -> nat {
        self.num_dimensions as nat
    }

    /// Well-formedness: the dimension count is within capacity, the unused
    /// entries are zero, and the cached element count is the product of the
    /// observable dimensions.
    pub closed spec fn wf(&self) -> bool {
        &&& self.num_dimensions <= 8
        &&& self.num_elements == dims_product(self.dims())
        &&& forall|i: int| self.num_dimensions <= i < 8 ==> self.dimensions@[i] == 0
    }

    /// Creates a new n-dimensional shape from a fixed-length array.
    pub fn new<const N: usize>(dimensions: [usize; N]) -> (s: Shape)
        requires
            N <= MAX_NUM_DIMENSIONS,
            forall|k: int|
                0 <= k <= N ==> dims_product(#[trigger] dimensions@.take(k)) <= usize::MAX,
        ensures
            s.wf(),
            s.dims() == dimensions@,
            s.spec_num_dimensions() == N,
            s.spec_num_elements() == dims_product(dimensions@),
    {
        let mut actual: [usize; 8] = [0, 0, 0, 0, 0, 0, 0, 0];
        let mut num_elements: usize = 1;
        let mut i: usize = 0;
        while i < N
            invariant
                i <= N,
                N <= 8,
                forall|k: int|
                    0 <= k <= N ==> dims_product(#[trigger] dimensions@.take(k)) <= usize::MAX,
                num_elements == dims_product(dimensions@.take(i as int)),
                forall|j: int| 0 <= j < i ==> actual@[j] == dimensions@[j],
                forall|j: int| i <= j < 8 ==> actual@[j] == 0,
            decreases N - i,
        {
            proof {
                assert(dimensions@.take(i + 1).drop_last() =~= dimensions@.take(i as int));
                assert(dimensions@.take(i + 1).last() == dimensions@[i as int]);
            }
            actual[i] = dimensions[i];
            num_elements = num_elements * dimensions[i];
            i = i + 1;
        }
        proof {
            assert(dimensions@.take(N as int) =~= dimensions@);
        }
        let s = Shape { num_dimensions: N, dimensions: actual, num_elements };
        proof {
            assert(s.dims() =~= dimensions@);
        }
        s
    }

    /// The scalar shape: zero dimensions, one element.
    pub fn scalar() -> (s: Shape)
        ensures
            s.wf(),
            s.spec_num_dimensions() == 0,
            s.dims() == Seq::<usize>::empty(),
            s.spec_num_elements() == 1,
    {
        let s = Shape {
            num_dimensions: 0,
            dimensions: [0, 0, 0, 0, 0, 0, 0, 0],
            num_elements: 1,
        };
        proof {
            assert(s.dims() =~= Seq::<usize>::empty());
        }
        s
    }

    /// Creates a new n-dimensional shape from a runtime slice, rejecting
    /// slices with more than [`MAX_NUM_DIMENSIONS`] entries.
    pub fn from_slice(dimensions: &[usize]) -> (r: Result<Shape, Error>)
        requires
            dimensions@.len() <= MAX_NUM_DIMENSIONS ==> forall|k: int|
                0 <= k <= dimensions@.len() ==> dims_product(
                    #[trigger] dimensions@.take(k),
                ) <= usize::MAX,
        ensures
            dimensions@.len() > MAX_NUM_DIMENSIONS ==> (r matches Err(e) && e is InvalidLength),
            dimensions@.len() <= MAX_NUM_DIMENSIONS ==> (r matches Ok(s) && s.wf() && s.dims()
                == dimensions@ && s.spec_num_elements() == dims_product(dimensions@)),
    {
        let num_dimensions = dimensions.len();
        if num_dimensions > MAX_NUM_DIMENSIONS {
            return Err(
                Error::InvalidLength(
                    "Number of dimensions is larger than the maximum capacity.".to_owned(),
                ),
            );
        }
        let mut actual: [usize; 8] = [0, 0, 0, 0, 0, 0, 0, 0];
        let mut num_elements: usize = 1;
        let mut i: usize = 0;
        while i < num_dimensions
            invariant
                i <= num_dimensions,
                num_dimensions == dimensions@.len(),
                num_dimensions <= 8,
                forall|k: int|
                    0 <= k <= num_dimensions ==> dims_product(
                        #[trigger] dimensions@.take(k),
                    ) <= usize::MAX,
                num_elements == dims_product(dimensions@.take(i as int)),
                forall|j: int| 0 <= j < i ==> actual@[j] == dimensions@[j],
                forall|j: int| i <= j < 8 ==> actual@[j] == 0,
            decreases num_dimensions - i,
        {
            proof {
                assert(dimensions@.take(i + 1).drop_last() =~= dimensions@.take(i as int));
                assert(dimensions@.take(i + 1).last() == dimensions@[i as int]);
            }
            actual[i] = dimensions[i];
            num_elements = num_elements * dimensions[i];
            i = i + 1;
        }
        proof {
            assert(dimensions@.take(num_dimensions as int) =~= dimensions@);
        }
        let s = Shape { num_dimensions, dimensions: actual, num_elements };
        proof {
            assert(s.dims() =~= dimensions@);
        }
        Ok(s)
    }

    /// Returns the number of dimensions of this shape.
    pub fn num_dimensions(&self) -> (r: usize)
        ensures
            r == self.spec_num_dimensions(),
    {
        self.num_dimensions
    }

    /// Checks whether the given axis index is valid in this shape.
    pub fn check_index(&self, index: usize) -> (r: Result<(), Error>)
        ensures
            r is Ok <==> index < self.spec_num_dimensions(),
            r matches Err(e) ==> e is OutOfRange,
    {
        if index < self.num_dimensions {
            Ok(())
        } else {
            Err(Error::OutOfRange("Shape index out of range.".to_owned()))
        }
    }

    /// Checks whether the shape represents a scalar.
    pub fn check_is_scalar(&self) -> (r: Result<(), Error>)
        ensures
            r is Ok <==> self.spec_num_dimensions() == 0,
            r matches Err(e) ==> e is InvalidShape,
    {
        if self.num_dimensions == 0 {
            Ok(())
        } else {
            Err(Error::InvalidShape("Shape is not representing a scalar.".to_owned()))
        }
    }

    /// Obtains the size of the specified dimension in this shape.
    pub fn dimension(&self, index: usize) -> (r: Result<usize, Error>)
        requires
            self.wf(),
        ensures
            index < self.spec_num_dimensions() ==> r == Ok::<usize, Error>(self.dims()[index as int]),
            index >= self.spec_num_dimensions() ==> (r matches Err(e) && e is OutOfRange),
    {
        self.check_index(index)?;
        Ok(self.dimensions[index])
    }

    /// Returns the number of elements represented by this shape: the product
    /// of all dimension sizes, one for a scalar, zero as soon as one
    /// dimension is zero.
    pub fn num_elements(&self) -> (r: usize)
        ensures
            r == self.spec_num_elements(),
    {
        self.num_elements
    }

    /// Calculates the memory size required for this shape with a specific
    /// value type.
    pub fn memory_size<T: Sized>(&self) -> (r: usize)
        requires
            self.spec_num_elements() * vstd::layout::size_of::<T>() <= usize::MAX,
        ensures
            r == self.spec_num_elements() * vstd::layout::size_of::<T>(),
    {
        self.num_elements * core::mem::size_of::<T>()
    }

    /// Obtains the resulting shape of an elementwise binary operation: a copy
    /// of `self` when both shapes are equal, an `InvalidShape` error
    /// otherwise.  No broadcasting is performed.
    pub fn elementwise(&self, other: &Shape) -> (r: Result<Shape, Error>)
        requires
            self.wf(),
            other.wf(),
        ensures
            self.dims() == other.dims() ==> r == Ok::<Shape, Error>(*self),
            self.dims() != other.dims() ==> (r matches Err(e) && e is InvalidShape),
    {
        proof {
            if self.dims() == other.dims() {
                lemma_shape_dims_eq(*self, *other);
            }
        }
        if *self == *other {
            Ok(*self)
        } else {
            Err(
                Error::InvalidShape(
                    "Elementwise operation can not be evaluated for different shapes.".to_owned(),
                ),
            )
        }
    }
}

impl Shape {
    /// Renders the shape: its dimensions, comma-separated, in parentheses.
    pub fn to_string(&self) -> (r: String)
        requires
            self.wf(),
        ensures
            r@ == "("@ + dims_str(self.dims()) + ")"@,
    {
        let mut s = "(".to_owned();
        let mut i: usize = 0;
        while i < self.num_dimensions
            invariant
                self.wf(),
                i <= self.num_dimensions,
                s@ == "("@ + dims_str(self.dims().take(i as int)),
            decreases self.num_dimensions - i,
        {
            proof {
                assert(self.dims().take(i + 1).drop_last() =~= self.dims().take(i as int));
                assert(self.dims().take(i + 1).last() == self.dims()[i as int]);
                assert(self.dims()[i as int] == self.dimensions@[i as int]);
                if i == 0 {
                    assert(self.dims().take(1) =~= seq![self.dims()[0]]);
                }
            }
            if i > 0 {
                s.append(", ");
            }
            let d = fmt_usize(self.dimensions[i]);
            s.append(d.as_str());
            i = i + 1;
        }
        proof {
            assert(self.dims().take(self.num_dimensions as int) =~= self.dims());
        }
        s.append(")");
        s
    }
}

/// The characters of a digit sequence read back to front.
spec fn rev_digit_chars(s: Seq<usize>) -> Seq<char>
    decreases s.len(),
{
    if s.len() == 0 {
        Seq::empty()
    } else {
        rev_digit_chars(s.drop_first()) + seq![digit_char(s.first() as nat)]
    }
}

proof fn lemma_rev_digit_chars_push(s: Seq<usize>, d: usize)
    ensures
        rev_digit_chars(s.push(d)) == seq![digit_char(d as nat)] + rev_digit_chars(s),
    decreases s.len(),
{
    if s.len() == 0 {
        assert(s.push(d).drop_first() =~= Seq::<usize>::empty());
        assert(rev_digit_chars(Seq::<usize>::empty()) =~= Seq::<char>::empty());
        assert(rev_digit_chars(s.push(d)) =~= seq![digit_char(d as nat)] + rev_digit_chars(s));
    } else {
        assert(s.push(d).drop_first() =~= s.drop_first().push(d));
        lemma_rev_digit_chars_push(s.drop_first(), d);
        assert(s.push(d).first() == s.first());
        assert(rev_digit_chars(s.push(d)) =~= seq![digit_char(d as nat)] + rev_digit_chars(s));
    }
}

/// The decimal character of one digit.
fn digit_str(d: usize) -> (r: &'static str)
    requires
        d < 10,
    ensures
        r@ == seq![digit_char(d as nat)],
{
    proof {
        reveal_strlit("0");
        reveal_strlit("1");
        reveal_strlit("2");
        reveal_strlit("3");
        reveal_strlit("4");
        reveal_strlit("5");
        reveal_strlit("6");
        reveal_strlit("7");
        reveal_strlit("8");
        reveal_strlit("9");
    }
    if d == 0 {
        "0"
    } else if d == 1 {
        "1"
    } else if d == 2 {
        "2"
    } else if d == 3 {
        "3"
    } else if d == 4 {
        "4"
    } else if d == 5 {
        "5"
    } else if d == 6 {
        "6"
    } else if d == 7 {
        "7"
    } else if d == 8 {
        "8"
    } else {
        "9"
    }
}

/// Renders a number as its decimal digits, most significant first.
fn fmt_usize(n: usize) -> (r: String)
    ensures
        r@ == dec_str(n as nat),
{
    let mut digits: Vec<usize> = Vec::new();
    let mut rest: usize = n;
    while rest >= 10
        invariant
            dec_str(n as nat) == dec_str(rest as nat) + rev_digit_chars(digits@),
            forall|j: int| 0 <= j < digits@.len() ==> (#[trigger] digits@[j]) < 10,
        decreases rest,
    {
        let d = rest % 10;
        proof {
            lemma_rev_digit_chars_push(digits@, d);
            assert(dec_str(rest as nat) == dec_str((rest / 10) as nat).push(
                digit_char((rest % 10) as nat),
            ));
            assert(dec_str((rest / 10) as nat).push(digit_char(d as nat)) =~= dec_str(
                (rest / 10) as nat,
            ) + seq![digit_char(d as nat)]);
            assert(dec_str((rest / 10) as nat) + seq![digit_char(d as nat)] + rev_digit_chars(
                digits@,
            ) =~= dec_str((rest / 10) as nat) + (seq![digit_char(d as nat)] + rev_digit_chars(
                digits@,
            )));
        }
        digits.push(d);
        rest = rest / 10;
    }
    proof {
        lemma_rev_digit_chars_push(digits@, rest);
        assert(dec_str(rest as nat) =~= seq![digit_char(rest as nat)]);
        assert(dec_str(n as nat) =~= rev_digit_chars(digits@.push(rest)));
    }
    digits.push(rest);
    let mut s = String::new();
    let mut i: usize = digits.len();
    proof {
        assert(digits@.skip(i as int) =~= Seq::<usize>::empty());
    }
    while i > 0
        invariant
            i <= digits@.len(),
            forall|j: int| 0 <= j < digits@.len() ==> (#[trigger] digits@[j]) < 10,
            s@ == rev_digit_chars(digits@.skip(i as int)),
        decreases i,
    {
        i = i - 1;
        proof {
            assert(digits@.skip(i as int).drop_first() =~= digits@.skip(i + 1));
            assert(digits@.skip(i as int).first() == digits@[i as int]);
        }
        let d = digits[i];
        s.append(digit_str(d));
    }
    proof {
        assert(digits@.skip(0) =~= digits@);
    }
    s
}

impl PartialEq for Shape {
    /// Structural equality over the dimension count and the dimension
    /// entries.
    fn eq(&self, other: &Shape) -> (r: bool) {
        if self.num_dimensions != other.num_dimensions {
            return false;
        }
        let mut i: usize = 0;
        while i < 8
            invariant
                i <= 8,
                forall|j: int| 0 <= j < i ==> self.dimensions@[j] == other.dimensions@[j],
            decreases 8 - i,
        {
            if self.dimensions[i] != other.dimensions[i] {
                return false;
            }
            i = i + 1;
        }
        proof {
            assert(self.dimensions@ =~= other.dimensions@);
        }
        true
    }
}

impl vstd::std_specs::cmp::PartialEqSpecImpl for Shape {
    open spec fn obeys_eq_spec() -> bool {
        true
    }

    closed spec fn eq_spec(&self, other: &Shape) -> bool {
        self.num_dimensions == other.num_dimensions && self.dimensions@ == other.dimensions@
    }
}

/// The character of one decimal digit.
pub open spec fn digit_char(d: nat) -> char {
    if d == 0 {
        '0'
    } else if d == 1 {
        '1'
    } else if d == 2 {
        '2'
    } else if d == 3 {
        '3'
    } else if d == 4 {
        '4'
    } else if d == 5 {
        '5'
    } else if d == 6 {
        '6'
    } else if d == 7 {
        '7'
    } else if d == 8 {
        '8'
    } else {
        '9'
    }
}

/// The decimal digits of a number, most significant first.
pub open spec fn dec_str(n: nat) -> Seq<char>
    decreases n,
{
    if n < 10 {
        seq![digit_char(n)]
    } else {
        dec_str(n / 10).push(digit_char(n % 10))
    }
}

/// The comma-separated decimal forms of a dimension list.
pub open spec fn dims_str(dims: Seq<usize>) -> Seq<char>
    decreases dims.len(),
{
    if dims.len() == 0 {
        Seq::empty()
    } else if dims.len() == 1 {
        dec_str(dims[0] as nat)
    } else {
        dims_str(dims.drop_last()) + ", "@ + dec_str(dims.last() as nat)
    }
}

/// Two well-formed shapes with the same dimensions are the same value.
pub proof fn lemma_shape_dims_eq(s: Shape, t: Shape)
    requires
        s.wf(),
        t.wf(),
        s.dims() == t.dims(),
    ensures
        s == t,
{
    assert(s.num_dimensions == t.num_dimensions) by {
        assert(s.dims().len() == t.dims().len());
    }
    assert forall|i: int| 0 <= i < 8 implies s.dimensions@[i] == t.dimensions@[i] by {
        if i < s.num_dimensions {
            assert(s.dims()[i] == s.dimensions@[i]);
            assert(t.dims()[i] == t.dimensions@[i]);
        }
    }
    assert(s.dimensions@ =~= t.dimensions@);
    assert(s.dimensions =~= t.dimensions);
    assert(s.num_elements == t.num_elements);
}

/// Facts every well-formed shape satisfies, available wherever a shape's
/// well-formedness is known.
pub broadcast proof fn lemma_shape_wf_facts(s: Shape)
    ensures
        #[trigger] s.wf() ==> s.dims().len() == s.spec_num_dimensions()
            && s.spec_num_elements() == dims_product(s.dims()),
{
}

/// Shape law: the element count of a well-formed shape is the product of its
/// dimensions, and a scalar shape has exactly one element.
pub proof fn lemma_shape_num_elements(s: Shape)
    requires
        s.wf(),
    ensures
        s.spec_num_elements() == dims_product(s.dims()),
        s.dims().len() == 0 ==> s.spec_num_elements() == 1,
{
}

} // verus!
