//! Kernel notification descriptors.
//!
//! An interrupt is delivered by incrementing an `eventfd` counter that the
//! hypervisor (or a test) reads on the other side. The descriptor itself is
//! opaque to the verified code; these wrappers only create, increment and
//! duplicate it.

use vstd::prelude::*;

use vmm_sys_util::eventfd::EventFd;

verus! {

#[verifier::external_type_specification]
#[verifier::external_body]
pub struct ExEventFd(EventFd);

/// Relies on vmm_sys_util::eventfd::EventFd::new: creates a fresh,
/// non-blocking kernel notification descriptor; the kernel may refuse with an
/// OS error, returned here as the raw errno.
#[verifier::external_body]
pub fn eventfd_new_nonblocking() -> (r: Result<EventFd, i32>) {
    match EventFd::new(libc::EFD_NONBLOCK) {
        Ok(fd) => Ok(fd),
        Err(e) => Err(e.raw_os_error().unwrap_or(0)),
    }
}

/// Relies on vmm_sys_util::eventfd::EventFd::write: adds one to the
/// descriptor's counter; fails with the raw errno if the kernel refuses (for
/// a non-blocking descriptor, when the counter would overflow).
#[verifier::external_body]
pub fn eventfd_write_one(fd: &EventFd) -> (r: Result<(), i32>) {
    match fd.write(1) {
        Ok(()) => Ok(()),
        Err(e) => Err(e.raw_os_error().unwrap_or(0)),
    }
}

/// Relies on vmm_sys_util::eventfd::EventFd::try_clone: duplicates the
/// descriptor; both ends share one kernel counter.
#[verifier::external_body]
pub fn eventfd_try_clone(fd: &EventFd) -> (r: Result<EventFd, i32>) {
    match fd.try_clone() {
        Ok(clone) => Ok(clone),
        Err(e) => Err(e.raw_os_error().unwrap_or(0)),
    }
}

} // verus!
