use vstd::prelude::*;

verus! {

/// True when every allocation of `m1` is also present in `m2` with the same
/// contents.
pub open spec fn mem_extends(m1: Map<usize, Seq<u32>>, m2: Map<usize, Seq<u32>>) -> bool {
    forall|h: usize|
        #[trigger] m1.contains_key(h) ==> m2.contains_key(h) && m2[h] == m1[h]
}

/// Capability set that the engine requires of a computing device.
///
/// Device memory is managed in fixed-width value cells: every element is an
/// opaque 32-bit pattern that only the implementation interprets (the
/// reference host implementation reads them as single-precision values).
/// An allocation is identified by an opaque handle; the `mem` model maps
/// every live handle to its current contents.  Each instance carries an
/// identity used by colocation checks; implementations must give distinct
/// instances distinct identities.
///
/// The elementwise kernels are pure per-element functions of their inputs;
/// their value on a given element pattern is fixed by the implementation and
/// is not interpreted here.  Allocation may fail only fatally: none of these
/// operations reports an error.
pub trait Hardware: Sized {
    /// Identity of this hardware instance.  The placeholder default stands
    /// for the identity the implementation carries.
    open spec fn spec_id(&self) -> u64 {
        0
    }

    /// Model of the device memory: contents of each live allocation, keyed
    /// by handle.  The placeholder default stands for the implementation's
    /// own allocation registry.
    open spec fn mem(&self) -> Map<usize, Seq<u32>> {
        Map::empty()
    }

    /// Value of the elementwise negation kernel on one element.  The
    /// placeholder default stands for the implementation's kernel function.
    open spec fn neg_val(x: u32) -> u32 {
        x
    }

    /// Value of the elementwise addition kernel on one pair of elements.
    open spec fn add_val(x: u32, y: u32) -> u32 {
        x
    }

    /// Value of the elementwise subtraction kernel on one pair of elements.
    open spec fn sub_val(x: u32, y: u32) -> u32 {
        x
    }

    /// Value of the elementwise multiplication kernel on one pair of
    /// elements.
    open spec fn mul_val(x: u32, y: u32) -> u32 {
        x
    }

    /// Value of the elementwise division kernel on one pair of elements.
    open spec fn div_val(x: u32, y: u32) -> u32 {
        x
    }

    /// Returns the identity of this instance.
    fn id(&self) -> (r: u64)
        ensures
            r == self.spec_id(),
    ;

    /// Allocates an uninitialised memory block of `len` elements and returns
    /// its handle.  May abort fatally when allocation fails.
    fn allocate_memory(&mut self, len: usize) -> (h: usize)
        ensures
            final(self).spec_id() == old(self).spec_id(),
            !old(self).mem().contains_key(h),
            final(self).mem().contains_key(h),
            final(self).mem()[h].len() == len,
            final(self).mem() == old(self).mem().insert(h, final(self).mem()[h]),
            mem_extends(old(self).mem(), final(self).mem()),
    ;

    /// Releases the block behind `h`, which must be live with exactly `len`
    /// elements.
    fn deallocate_memory(&mut self, h: usize, len: usize)
        requires
            old(self).mem().contains_key(h),
            old(self).mem()[h].len() == len,
        ensures
            final(self).spec_id() == old(self).spec_id(),
            final(self).mem() == old(self).mem().remove(h),
    ;

    /// Copies host values into the block behind `dst`, replacing its whole
    /// contents.
    fn copy_host_to_hardware(&mut self, src: &[u32], dst: usize)
        requires
            old(self).mem().contains_key(dst),
            old(self).mem()[dst].len() == src@.len(),
        ensures
            final(self).spec_id() == old(self).spec_id(),
            final(self).mem() == old(self).mem().insert(dst, src@),
    ;

    /// Reads the whole contents of the block behind `src` back to the host.
    fn copy_hardware_to_host(&self, src: usize, len: usize) -> (r: Vec<u32>)
        requires
            self.mem().contains_key(src),
            self.mem()[src].len() == len,
        ensures
            r@ == self.mem()[src],
    ;

    /// Copies the contents of one block into another of the same length.
    fn copy_hardware_to_hardware(&mut self, src: usize, dst: usize, len: usize)
        requires
            old(self).mem().contains_key(src),
            old(self).mem().contains_key(dst),
            old(self).mem()[src].len() == len,
            old(self).mem()[dst].len() == len,
        ensures
            final(self).spec_id() == old(self).spec_id(),
            final(self).mem() == old(self).mem().insert(dst, old(self).mem()[src]),
    ;

    /// Fills the block behind `dst` with `len` copies of `value`.
    fn fill(&mut self, dst: usize, value: u32, len: usize)
        requires
            old(self).mem().contains_key(dst),
            old(self).mem()[dst].len() == len,
        ensures
            final(self).spec_id() == old(self).spec_id(),
            final(self).mem() == old(self).mem().insert(
                dst,
                Seq::new(len as nat, |i: int| value),
            ),
    ;

    /// Runs the elementwise negation kernel.
    fn elementwise_neg(&mut self, src: usize, dst: usize, len: usize)
        requires
            old(self).mem().contains_key(src),
            old(self).mem().contains_key(dst),
            old(self).mem()[src].len() == len,
            old(self).mem()[dst].len() == len,
        ensures
            final(self).spec_id() == old(self).spec_id(),
            final(self).mem() == old(self).mem().insert(
                dst,
                Seq::new(len as nat, |i: int| Self::neg_val(old(self).mem()[src][i])),
            ),
    ;

    /// Runs the elementwise addition kernel.
    fn elementwise_add(&mut self, lhs: usize, rhs: usize, dst: usize, len: usize)
        requires
            old(self).mem().contains_key(lhs),
            old(self).mem().contains_key(rhs),
            old(self).mem().contains_key(dst),
            old(self).mem()[lhs].len() == len,
            old(self).mem()[rhs].len() == len,
            old(self).mem()[dst].len() == len,
        ensures
            final(self).spec_id() == old(self).spec_id(),
            final(self).mem() == old(self).mem().insert(
                dst,
                Seq::new(
                    len as nat,
                    |i: int| Self::add_val(old(self).mem()[lhs][i], old(self).mem()[rhs][i]),
                ),
            ),
    ;

    /// Runs the elementwise subtraction kernel.
    fn elementwise_sub(&mut self, lhs: usize, rhs: usize, dst: usize, len: usize)
        requires
            old(self).mem().contains_key(lhs),
            old(self).mem().contains_key(rhs),
            old(self).mem().contains_key(dst),
            old(self).mem()[lhs].len() == len,
            old(self).mem()[rhs].len() == len,
            old(self).mem()[dst].len() == len,
        ensures
            final(self).spec_id() == old(self).spec_id(),
            final(self).mem() == old(self).mem().insert(
                dst,
                Seq::new(
                    len as nat,
                    |i: int| Self::sub_val(old(self).mem()[lhs][i], old(self).mem()[rhs][i]),
                ),
            ),
    ;

    /// Runs the elementwise multiplication kernel.
    fn elementwise_mul(&mut self, lhs: usize, rhs: usize, dst: usize, len: usize)
        requires
            old(self).mem().contains_key(lhs),
            old(self).mem().contains_key(rhs),
            old(self).mem().contains_key(dst),
            old(self).mem()[lhs].len() == len,
            old(self).mem()[rhs].len() == len,
            old(self).mem()[dst].len() == len,
        ensures
            final(self).spec_id() == old(self).spec_id(),
            final(self).mem() == old(self).mem().insert(
                dst,
                Seq::new(
                    len as nat,
                    |i: int| Self::mul_val(old(self).mem()[lhs][i], old(self).mem()[rhs][i]),
                ),
            ),
    ;

    /// Runs the elementwise division kernel.
    fn elementwise_div(&mut self, lhs: usize, rhs: usize, dst: usize, len: usize)
        requires
            old(self).mem().contains_key(lhs),
            old(self).mem().contains_key(rhs),
            old(self).mem().contains_key(dst),
            old(self).mem()[lhs].len() == len,
            old(self).mem()[rhs].len() == len,
            old(self).mem()[dst].len() == len,
        ensures
            final(self).spec_id() == old(self).spec_id(),
            final(self).mem() == old(self).mem().insert(
                dst,
                Seq::new(
                    len as nat,
                    |i: int| Self::div_val(old(self).mem()[lhs][i], old(self).mem()[rhs][i]),
                ),
            ),
    ;
}

} // verus!
