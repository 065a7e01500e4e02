//! Interrupt routing core for a lightweight KVM-based virtual machine
//! monitor: per-chip pin allocators, a GSI/IRQ number allocator, a routing
//! table that keeps an in-kernel copy coherent through a hypervisor handle,
//! and the per-interrupt state machines layered on top.

use vstd::prelude::*;

pub mod arch;
pub mod byteorder_wrappers;
pub mod cpuid;
pub mod eventfd;
pub mod gsi;
pub mod hypervisor;
pub mod interrupts;
pub mod kvm_irq_routing;
pub mod kvm_irqchip;
pub mod pci;
pub mod wire;

verus! {

/// Returns a `Vec<T>` whose allocation holds at least `size_in_bytes` bytes:
/// enough contiguous, `T`-aligned room to view the buffer as one `T` followed
/// by raw tail data.
pub fn vec_with_size_in_bytes<T: Default>(size_in_bytes: usize) -> (v: Vec<T>)
    requires
        vstd::layout::size_of::<T>() > 0,
        size_in_bytes + vstd::layout::size_of::<T>() <= usize::MAX,
    ensures
        v@.len() == (size_in_bytes + vstd::layout::size_of::<T>() - 1) as int
            / vstd::layout::size_of::<T>() as int,
{
    let ts = core::mem::size_of::<T>();
    let rounded_size = (size_in_bytes + ts - 1) / ts;
    let mut v: Vec<T> = Vec::with_capacity(rounded_size);
    let mut i: usize = 0;
    while i < rounded_size
        invariant
            i <= rounded_size,
            v@.len() == i,
        decreases rounded_size - i,
    {
        v.push(T::default());
        i = i + 1;
    }
    v
}

/// The hypervisor API has structs that end in a flexible array member: a
/// header `T` directly followed by `count` entries of type `F`. A plain
/// `size_of::<T>()` allocation would have no room for the entries, so the
/// buffer is made as a `Vec<T>` large enough for the header and the array,
/// keeping `T`'s alignment; only its first element is used as a `T`.
pub fn vec_with_array_field<T: Default, F>(count: usize) -> (v: Vec<T>)
    requires
        vstd::layout::size_of::<T>() > 0,
        count * vstd::layout::size_of::<F>() + 2 * vstd::layout::size_of::<T>() <= usize::MAX,
    ensures
        v@.len() == (vstd::layout::size_of::<T>() + count * vstd::layout::size_of::<F>()
            + vstd::layout::size_of::<T>() - 1) as int / vstd::layout::size_of::<T>() as int,
{
    let element_space = count * core::mem::size_of::<F>();
    let vec_size_bytes = core::mem::size_of::<T>() + element_space;
    vec_with_size_in_bytes::<T>(vec_size_bytes)
}

} // verus!
