//! CPU vendor validation for templates that only fit one vendor's parts.

use vstd::prelude::*;

verus! {

#[derive(Clone, Copy, Debug, PartialEq, Eq, Structural)]
pub enum Error {
    /// The host CPU is not from the vendor the template is written for.
    InvalidVendor,
}

/// The twelve vendor-string bytes an Intel CPU reports: `GenuineIntel`.
pub open spec fn intel_vendor_id() -> Seq<u8> {
    seq![0x47u8, 0x65, 0x6e, 0x75, 0x69, 0x6e, 0x65, 0x49, 0x6e, 0x74, 0x65, 0x6c]
}

/// Accepts exactly the Intel vendor string. The caller reads the twelve
/// bytes from the host CPU and hands them in.
pub fn validate_vendor_id(vendor_id: &[u8; 12]) -> (r: Result<(), Error>)
    ensures
        r is Ok <==> vendor_id@ == intel_vendor_id(),
        r is Err ==> r == Err::<(), Error>(Error::InvalidVendor),
{
    let expected: [u8; 12] = [
        0x47,
        0x65,
        0x6e,
        0x75,
        0x69,
        0x6e,
        0x65,
        0x49,
        0x6e,
        0x74,
        0x65,
        0x6c,
    ];
    proof {
        assert(expected@ =~= intel_vendor_id());
    }
    let mut i: usize = 0;
    while i < 12
        invariant
            i <= 12,
            expected@ == intel_vendor_id(),
            vendor_id@.len() == 12,
            forall|k: int| 0 <= k < i ==> vendor_id@[k] == intel_vendor_id()[k],
        decreases 12 - i,
    {
        if vendor_id[i] != expected[i] {
            return Err(Error::InvalidVendor);
        }
        i = i + 1;
    }
    proof {
        assert(vendor_id@ =~= intel_vendor_id());
    }
    Ok(())
}

} // verus!
