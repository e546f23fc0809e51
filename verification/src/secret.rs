//! Secret bytes.
use vstd::prelude::*;

verus! {

/// Payload bytes that are overwritten when dropped. Best effort: copies made
/// elsewhere are out of reach.
pub struct Secret(pub Vec<u8>);

impl View for Secret {
    type V = Seq<u8>;

    open spec fn view(&self) -> Seq<u8> {
        self.0@
    }
}

/// Sets every byte to zero with `slice::fill`, which does not panic on bytes.
#[verifier::external_body]
fn fill_with_zeros(bytes: &mut Vec<u8>)
    ensures
        final(bytes)@ == Seq::new(old(bytes)@.len(), |i: int| 0u8),
    opens_invariants none
    no_unwind
{
    bytes.fill(0);
}

/// Makes the compiler treat `bytes` as read, with `std::hint::black_box`, so that
/// writes to them before this are kept. Nothing is claimed of it.
#[verifier::external_body]
fn observe(bytes: &Vec<u8>)
    opens_invariants none
    no_unwind
{
    std::hint::black_box(bytes);
}

impl Secret {
    /// Overwrites every byte with zero.
    pub fn wipe(&mut self)
        ensures
            final(self)@ == Seq::new(old(self)@.len(), |i: int| 0u8),
        opens_invariants none
        no_unwind
    {
        fill_with_zeros(&mut self.0);
        observe(&self.0);
    }
}

impl Drop for Secret {
    fn drop(&mut self)
        ensures
            final(self)@ == Seq::new(old(self)@.len(), |i: int| 0u8),
        opens_invariants none
        no_unwind
    {
        self.wipe();
    }
}

} // verus!
