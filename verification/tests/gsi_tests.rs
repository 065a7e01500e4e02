use microvm_irq::arch::{IRQ_BASE, IRQ_MAX};
use microvm_irq::gsi::{DefaultGsiAllocator, Error, GsiAllocator};

#[test]
fn test_allocate_irq_range() {
    let mut allocator = DefaultGsiAllocator::new(IRQ_MAX);
    assert_eq!(allocator.allocate_irq(), Ok(IRQ_BASE));
    for expected in IRQ_BASE + 1..=IRQ_MAX {
        assert_eq!(allocator.allocate_irq(), Ok(expected));
    }
    // IRQ_MAX - IRQ_BASE + 1 calls succeeded; the next one overflows the cap.
    assert_eq!(allocator.allocate_irq(), Err(Error::Overflow));
}

#[test]
fn test_allocate_gsi_starts_past_irq_range() {
    let mut allocator = DefaultGsiAllocator::new(IRQ_MAX);
    assert_eq!(allocator.allocate_gsi(), Ok(IRQ_MAX + 1));
    assert_eq!(allocator.allocate_gsi(), Ok(IRQ_MAX + 2));
}

#[test]
fn test_cursors_are_independent() {
    let mut allocator = DefaultGsiAllocator::new(IRQ_MAX);
    assert_eq!(allocator.allocate_gsi(), Ok(IRQ_MAX + 1));
    assert_eq!(allocator.allocate_irq(), Ok(IRQ_BASE));
    assert_eq!(allocator.allocate_gsi(), Ok(IRQ_MAX + 2));
    assert_eq!(allocator.allocate_irq(), Ok(IRQ_BASE + 1));
}
