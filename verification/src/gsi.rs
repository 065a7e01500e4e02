//! Allocator for guest interrupt numbers.
//!
//! The GSI namespace is split in two on x86_64: `[IRQ_BASE, max_irq]` holds
//! legacy IRQ numbers, and `[IRQ_MAX + 1, u32::MAX]` holds the higher GSIs
//! used for MSI routing. Both cursors only move forward; numbers are never
//! reclaimed while the machine runs.

use vstd::prelude::*;

use crate::arch::{IRQ_BASE, IRQ_MAX};

verus! {

#[derive(Debug, PartialEq, Eq, Structural)]
pub enum Error {
    /// The requested range of numbers is exhausted.
    Overflow,
}

/// Generic interrupt number allocator: two independent, append-only cursors.
pub trait GsiAllocator {
    /// The next legacy IRQ number to hand out.
    spec fn next_irq(&self) -> u32;

    /// The next general GSI to hand out.
    spec fn next_gsi(&self) -> u32;

    /// The largest legacy IRQ number that may be handed out.
    spec fn max_irq(&self) -> u32;

    /// Allocate one global system interrupt: the numbers come out in
    /// ascending order and the allocation fails exactly when the cursor
    /// cannot advance any further.
    fn allocate_gsi(&mut self) -> (r: Result<u32, Error>)
        ensures
            final(self).next_irq() == old(self).next_irq(),
            final(self).max_irq() == old(self).max_irq(),
            old(self).next_gsi() < u32::MAX ==> r == Ok::<u32, Error>(old(self).next_gsi())
                && final(self).next_gsi() == old(self).next_gsi() + 1,
            old(self).next_gsi() == u32::MAX ==> r == Err::<u32, Error>(Error::Overflow)
                && final(self).next_gsi() == old(self).next_gsi(),
    ;

    /// Allocate one legacy IRQ number: ascending from `IRQ_BASE`, failing
    /// exactly when the cap is passed.
    fn allocate_irq(&mut self) -> (r: Result<u32, Error>)
        ensures
            final(self).next_gsi() == old(self).next_gsi(),
            final(self).max_irq() == old(self).max_irq(),
            old(self).next_irq() <= old(self).max_irq() ==> r == Ok::<u32, Error>(
                old(self).next_irq(),
            ) && final(self).next_irq() == old(self).next_irq() + 1,
            old(self).next_irq() > old(self).max_irq() ==> r == Err::<u32, Error>(Error::Overflow)
                && final(self).next_irq() == old(self).next_irq(),
    ;
}

/// Default implementation of [`GsiAllocator`] for the x86_64 layout.
pub struct DefaultGsiAllocator {
    next_irq: u32,
    next_gsi: u32,
    max_irq: u32,
}

impl DefaultGsiAllocator {
    /// The IRQ cap never reaches into the GSI range, so the IRQ cursor can
    /// always advance past it without wrapping.
    #[verifier::type_invariant]
    spec fn ranges_disjoint(self) -> bool {
        self.max_irq <= IRQ_MAX
    }
}

impl DefaultGsiAllocator {
    /// New GSI allocator. The IRQ range `[IRQ_BASE, max_irq]` must not reach
    /// into the GSI range `[IRQ_MAX + 1, ..]`, so the cap may not exceed
    /// `IRQ_MAX`.
    pub fn new(max_irq: u32) -> (r: Self)
        requires
            max_irq <= IRQ_MAX,
        ensures
            r.next_irq() == IRQ_BASE,
            r.next_gsi() == IRQ_MAX + 1,
            r.max_irq() == max_irq,
    {
        DefaultGsiAllocator { next_irq: IRQ_BASE, next_gsi: IRQ_MAX + 1, max_irq }
    }
}

impl GsiAllocator for DefaultGsiAllocator {
    closed spec fn next_irq(&self) -> u32 {
        self.next_irq
    }

    closed spec fn next_gsi(&self) -> u32 {
        self.next_gsi
    }

    closed spec fn max_irq(&self) -> u32 {
        self.max_irq
    }

    fn allocate_gsi(&mut self) -> (r: Result<u32, Error>) {
        proof {
            use_type_invariant(&*self);
        }
        let gsi = self.next_gsi;
        match self.next_gsi.checked_add(1) {
            Some(next) => {
                self.next_gsi = next;
                Ok(gsi)
            },
            None => Err(Error::Overflow),
        }
    }

    fn allocate_irq(&mut self) -> (r: Result<u32, Error>) {
        proof {
            use_type_invariant(&*self);
        }
        let irq = self.next_irq;
        if irq > self.max_irq {
            return Err(Error::Overflow);
        }
        self.next_irq = irq + 1;
        Ok(irq)
    }
}

} // verus!
