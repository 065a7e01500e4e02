use microvm_irq::arch::IRQ_MAX;
use microvm_irq::kvm_irqchip::{IoApic, XtPic};

#[test]
fn test_ioapic_first_exclusive_pins() {
    let mut ioapic = IoApic::new();
    assert_eq!(ioapic.allocate_pin(false, None), Some(1));
    assert_eq!(ioapic.allocate_pin(false, None), Some(3));
}

#[test]
fn test_ioapic_exclusive_exhaustion() {
    let mut ioapic = IoApic::new();
    let mut granted: Vec<u32> = Vec::new();
    while let Some(pin) = ioapic.allocate_pin(false, None) {
        granted.push(pin);
    }
    let mut expected: Vec<u32> = Vec::new();
    expected.push(1);
    for pin in 3..=IRQ_MAX {
        expected.push(pin);
    }
    assert_eq!(granted, expected);
    assert_eq!(granted.len(), (IRQ_MAX - 1) as usize);
}

#[test]
fn test_ioapic_exhausted_has_nothing_shareable() {
    let mut ioapic = IoApic::new();
    while ioapic.allocate_pin(false, None).is_some() {}
    assert_eq!(ioapic.allocate_pin(true, None), None);
}

#[test]
fn test_ioapic_shared_lru_rotation() {
    let mut ioapic = IoApic::new();
    let pool_size = (IRQ_MAX - 1) as usize;
    let mut granted: Vec<u32> = Vec::new();
    for _ in 0..pool_size + 1 {
        granted.push(ioapic.allocate_pin(true, None).unwrap());
    }
    // The first grants walk the free pool in ascending order...
    assert_eq!(granted[0], 1);
    assert_eq!(granted[1], 3);
    assert_eq!(granted[pool_size - 1], IRQ_MAX);
    // ...and one grant past the pool size reuses the oldest shared pin.
    assert_eq!(granted[pool_size], 1);
    // The next reuse takes the second-oldest.
    assert_eq!(ioapic.allocate_pin(true, None), Some(3));
}

#[test]
fn test_ioapic_requested_pin() {
    let mut ioapic = IoApic::new();
    // A free requested pin is granted.
    assert_eq!(ioapic.allocate_pin(false, Some(5)), Some(5));
    // A taken requested pin is refused for an exclusive consumer.
    assert_eq!(ioapic.allocate_pin(false, Some(5)), None);
    // The reserved cascade pin is never in the pool.
    assert_eq!(ioapic.allocate_pin(false, Some(2)), None);
    // A shareable consumer can join a pin that is in the shared queue...
    assert_eq!(ioapic.allocate_pin(true, Some(7)), Some(7));
    assert_eq!(ioapic.allocate_pin(true, Some(7)), Some(7));
    // ...but not one taken exclusively.
    assert_eq!(ioapic.allocate_pin(true, Some(5)), None);
}

#[test]
fn test_xtpic_monotonic_and_exhaustion() {
    let mut pic = XtPic::new();
    let mut granted: Vec<u32> = Vec::new();
    while let Some(pin) = pic.allocate_pin(None) {
        granted.push(pin);
    }
    let mut expected: Vec<u32> = Vec::new();
    expected.push(1);
    for pin in 3..=15 {
        expected.push(pin);
    }
    assert_eq!(granted, expected);
    for window in granted.windows(2) {
        assert!(window[0] < window[1]);
    }
}

#[test]
fn test_xtpic_requested_pin() {
    let mut pic = XtPic::new();
    assert_eq!(pic.allocate_pin(Some(5)), Some(5));
    assert_eq!(pic.allocate_pin(Some(5)), None);
    assert_eq!(pic.allocate_pin(Some(2)), None);
}
