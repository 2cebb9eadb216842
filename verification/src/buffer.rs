use crate::error::Error;
use crate::hardware::mem_extends;
use crate::hardware::Hardware;
use vstd::prelude::*;

verus! {

/// Owned device allocation: the identity of the owning hardware, the element
/// count, and the opaque handle supplied by that hardware.
///
/// A buffer is released exactly once, through [`Buffer::free`], on the same
/// hardware that allocated it.  Zero-length buffers are legal.  Two buffers
/// are *colocated* when they carry the same hardware identity.
pub struct Buffer {
    /// Identity of the hardware that owns the allocation.
    hw_id: u64,
    /// Number of elements of the allocation.
    len: usize,
    /// Handle of the device-specific storage.
    handle: usize,
}

impl Buffer {
    /// Identity of the owning hardware.
    pub closed spec fn spec_hw_id(&self) -> u64 {
        self.hw_id
    }

    /// Element count of the allocation.
    pub closed spec fn spec_len(&self) -> nat {
        self.len as nat
    }

    /// Handle of the allocation.
    pub closed spec fn spec_handle(&self) -> usize {
        self.handle
    }

    /// The buffer is live on hardware `h`: it carries `h`'s identity and its
    /// handle maps to a block of its length.
    pub open spec fn valid<H: Hardware>(&self, h: &H) -> bool {
        &&& self.spec_hw_id() == h.spec_id()
        &&& h.mem().contains_key(self.spec_handle())
        &&& h.mem()[self.spec_handle()].len() == self.spec_len()
    }

    /// The element contents of the buffer on hardware `h`.
    pub open spec fn contents<H: Hardware>(&self, h: &H) -> Seq<u32> {
        h.mem()[self.spec_handle()]
    }

    /// Creates a new uninitialised buffer of `len` elements on `hw`.
    pub fn new_uninit<H: Hardware>(hw: &mut H, len: usize) -> (b: Buffer)
        ensures
            final(hw).spec_id() == old(hw).spec_id(),
            b.valid(final(hw)),
            b.spec_len() == len,
            b.spec_hw_id() == old(hw).spec_id(),
            !old(hw).mem().contains_key(b.spec_handle()),
            final(hw).mem() == old(hw).mem().insert(
                b.spec_handle(),
                final(hw).mem()[b.spec_handle()],
            ),
            mem_extends(old(hw).mem(), final(hw).mem()),
    {
        let handle = hw.allocate_memory(len);
        let hw_id = hw.id();
        Buffer { hw_id, len, handle }
    }

    /// Creates a new uninitialised buffer on the same hardware as `other`.
    pub fn colocated_uninit<H: Hardware>(other: &Buffer, len: usize, hw: &mut H) -> (b: Buffer)
        requires
            other.spec_hw_id() == old(hw).spec_id(),
        ensures
            final(hw).spec_id() == old(hw).spec_id(),
            b.valid(final(hw)),
            b.spec_len() == len,
            b.spec_hw_id() == other.spec_hw_id(),
            !old(hw).mem().contains_key(b.spec_handle()),
            final(hw).mem() == old(hw).mem().insert(
                b.spec_handle(),
                final(hw).mem()[b.spec_handle()],
            ),
            mem_extends(old(hw).mem(), final(hw).mem()),
    {
        Buffer::new_uninit(hw, len)
    }

    /// Handle of the allocation.  Only the owning hardware interprets it.
    pub(crate) fn handle(&self) -> (r: usize)
        ensures
            r == self.spec_handle(),
    {
        self.handle
    }

    /// Identity of the hardware that owns this buffer.
    pub fn hardware_id(&self) -> (r: u64)
        ensures
            r == self.spec_hw_id(),
    {
        self.hw_id
    }

    /// Element count of the allocation.
    pub fn size(&self) -> (r: usize)
        ensures
            r == self.spec_len(),
    {
        self.len
    }

    /// Checks whether both buffers live on the same hardware.
    pub fn is_colocated(&self, other: &Buffer) -> (r: bool)
        ensures
            r == (self.spec_hw_id() == other.spec_hw_id()),
    {
        self.hw_id == other.hw_id
    }

    /// Checks whether both buffers live on the same hardware, reporting an
    /// `InvalidHardware` error otherwise.
    pub fn check_colocated(&self, other: &Buffer) -> (r: Result<(), Error>)
        ensures
            r is Ok <==> self.spec_hw_id() == other.spec_hw_id(),
            r matches Err(e) ==> e is InvalidHardware,
    {
        if self.hw_id == other.hw_id {
            Ok(())
        } else {
            Err(
                Error::InvalidHardware(
                    "Buffers are not colocated on the same hardware.".to_owned(),
                ),
            )
        }
    }

    /// Releases the allocation through its owning hardware.
    pub fn free<H: Hardware>(self, hw: &mut H)
        requires
            self.valid(old(hw)),
        ensures
            final(hw).spec_id() == old(hw).spec_id(),
            final(hw).mem() == old(hw).mem().remove(self.spec_handle()),
    {
        hw.deallocate_memory(self.handle, self.len);
    }
}

} // verus!
