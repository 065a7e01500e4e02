use microvm_irq::arch::{IRQ_BASE, IRQ_MAX};
use microvm_irq::hypervisor::InMemoryHypervisor;
use microvm_irq::interrupts::{
    InterruptError, KvmInterruptManager, KvmLegacyInterrupt, KvmMsiInterrupt, LegacyIrqConfig,
    MsiIrqConfig,
};
use microvm_irq::kvm_irq_routing::KvmIrqRoutingTable;

fn fresh() -> (InMemoryHypervisor, KvmIrqRoutingTable) {
    let mut vm = InMemoryHypervisor::new();
    let table = KvmIrqRoutingTable::new(&mut vm).unwrap();
    (vm, table)
}

#[test]
fn test_msi_interrupt_lifecycle() {
    let (mut vm, mut table) = fresh();
    let mut intr = KvmMsiInterrupt::new(24).unwrap();
    assert_eq!(intr.get_config(), Err(InterruptError::InvalidConfiguration));

    let cfg = MsiIrqConfig { high_addr: 0, low_addr: 0xfee0_0000, data: 0x4021, devid: 7 };
    intr.update(&mut table, &mut vm, &cfg).unwrap();
    assert_eq!(intr.get_config(), Ok(cfg));
    assert_eq!(table.routes().len(), 1);

    intr.enable(&mut vm).unwrap();
    assert!(vm.gsi_is_registered(24));
    // Reconfiguring a registered interrupt is refused outright.
    assert_eq!(
        intr.update(&mut table, &mut vm, &cfg),
        Err(InterruptError::InvalidConfiguration)
    );
    // Enable is idempotent.
    intr.enable(&mut vm).unwrap();
    assert!(vm.gsi_is_registered(24));

    intr.disable(&mut vm).unwrap();
    assert!(!vm.gsi_is_registered(24));
    // Disable is idempotent too.
    intr.disable(&mut vm).unwrap();
    assert!(!vm.gsi_is_registered(24));
}

#[test]
fn test_disable_then_enable_restores_registration() {
    let (mut vm, mut table) = fresh();
    let mut intr = KvmMsiInterrupt::new(24).unwrap();
    let cfg = MsiIrqConfig { high_addr: 0, low_addr: 1, data: 2, devid: 3 };
    intr.update(&mut table, &mut vm, &cfg).unwrap();
    intr.enable(&mut vm).unwrap();
    let routes_before = vm.routes().clone();

    intr.disable(&mut vm).unwrap();
    intr.enable(&mut vm).unwrap();

    // Registered again, same configuration, same routing table.
    assert!(vm.gsi_is_registered(24));
    assert_eq!(intr.get_config(), Ok(cfg));
    assert_eq!(vm.routes(), &routes_before);
}

#[test]
fn test_msi_mask_unmask() {
    let (mut vm, mut table) = fresh();
    let mut intr = KvmMsiInterrupt::new(30).unwrap();
    let cfg = MsiIrqConfig { high_addr: 0, low_addr: 1, data: 2, devid: 3 };
    intr.update(&mut table, &mut vm, &cfg).unwrap();
    intr.unmask(&mut vm).unwrap();
    assert!(vm.gsi_is_registered(30));
    intr.mask(&mut vm).unwrap();
    assert!(!vm.gsi_is_registered(30));
}

#[test]
fn test_trigger_and_notifier_share_a_counter() {
    let intr = KvmMsiInterrupt::new(24).unwrap();
    let notifier = intr.notifier().unwrap();
    intr.trigger().unwrap();
    assert_eq!(notifier.read().unwrap(), 1);
    intr.trigger().unwrap();
    intr.trigger().unwrap();
    assert_eq!(notifier.read().unwrap(), 2);
}

#[test]
fn test_legacy_enable_requires_configuration() {
    let (mut vm, mut table) = fresh();
    let mut intr = KvmLegacyInterrupt::new(4).unwrap();
    assert_eq!(intr.enable(&mut vm), Err(InterruptError::InterruptNotChanged));
    assert!(!vm.gsi_is_registered(4));

    let cfg = LegacyIrqConfig { interrupt_line: None, interrupt_pin: None };
    intr.update(&mut table, &mut vm, &cfg).unwrap();
    // The legacy path routes through both chips and reports the line.
    assert_eq!(
        intr.get_config(),
        Ok(LegacyIrqConfig { interrupt_line: Some(1), interrupt_pin: None })
    );
    intr.enable(&mut vm).unwrap();
    assert!(vm.gsi_is_registered(4));
}

#[test]
fn test_legacy_intx_update_stores_config() {
    let (mut vm, mut table) = fresh();
    let mut intr = KvmLegacyInterrupt::new(33).unwrap();
    let cfg = LegacyIrqConfig { interrupt_line: Some(5), interrupt_pin: Some(1) };
    intr.update(&mut table, &mut vm, &cfg).unwrap();
    assert_eq!(intr.get_config(), Ok(cfg));
    assert_eq!(table.routes().len(), 1);
    assert_eq!(table.routes()[0].gsi, 33);
}

#[test]
fn test_legacy_update_surfaces_routing_failure() {
    let (mut vm, mut table) = fresh();
    let mut intr = KvmLegacyInterrupt::new(33).unwrap();
    // Pin 2 is the cascade pin; asking for it shareably finds nothing.
    let cfg = LegacyIrqConfig { interrupt_line: Some(2), interrupt_pin: Some(1) };
    let r = intr.update(&mut table, &mut vm, &cfg);
    assert!(matches!(r, Err(InterruptError::Routing(_))));
    assert_eq!(intr.get_config(), Err(InterruptError::InvalidConfiguration));
}

#[test]
fn test_enable_failure_reported() {
    let (mut vm, mut table) = fresh();
    let mut intr = KvmMsiInterrupt::new(24).unwrap();
    let cfg = MsiIrqConfig { high_addr: 0, low_addr: 1, data: 2, devid: 3 };
    intr.update(&mut table, &mut vm, &cfg).unwrap();
    vm.set_deny_irqfd(true);
    assert_eq!(intr.enable(&mut vm), Err(InterruptError::InterruptNotChanged));
    assert!(!vm.gsi_is_registered(24));
    vm.set_deny_irqfd(false);
    intr.enable(&mut vm).unwrap();
    assert!(vm.gsi_is_registered(24));
}

#[test]
fn test_disable_failure_keeps_registration() {
    let (mut vm, mut table) = fresh();
    let mut intr = KvmMsiInterrupt::new(24).unwrap();
    let cfg = MsiIrqConfig { high_addr: 0, low_addr: 1, data: 2, devid: 3 };
    intr.update(&mut table, &mut vm, &cfg).unwrap();
    intr.enable(&mut vm).unwrap();
    vm.set_deny_irqfd(true);
    assert_eq!(intr.disable(&mut vm), Err(InterruptError::InterruptNotChanged));
    assert!(vm.gsi_is_registered(24));
}

#[test]
fn test_msi_group_lifecycle() {
    let mut mgr = KvmInterruptManager::new(InMemoryHypervisor::new()).unwrap();
    let mut group = mgr.get_new_msi_group().unwrap();
    assert!(group.is_empty());
    group.allocate_interrupts(&mut mgr.allocator, 3).unwrap();
    assert_eq!(group.len(), 3);
    // GSIs come out consecutively, starting past the legacy IRQ range.
    for i in 0..3 {
        let intr = group.get(i).unwrap();
        assert_eq!(intr.gsi_number(), IRQ_MAX + 1 + i as u32);
        assert!(!intr.is_configured());
        assert!(!intr.is_registered());
    }
    let cfg = MsiIrqConfig { high_addr: 0, low_addr: 1, data: 2, devid: 3 };
    for i in 0..3 {
        group.update_at(i, &mut mgr.routing_table, &mut mgr.vm, &cfg).unwrap();
    }
    assert_eq!(mgr.routing_table.routes().len(), 3);
    group.enable(&mut mgr.vm).unwrap();
    for gsi in IRQ_MAX + 1..=IRQ_MAX + 3 {
        assert!(mgr.vm.gsi_is_registered(gsi));
    }
    for i in 0..3 {
        assert!(group.get(i).unwrap().is_registered());
        assert!(group.get(i).unwrap().is_configured());
    }
    group.disable(&mut mgr.vm).unwrap();
    for gsi in IRQ_MAX + 1..=IRQ_MAX + 3 {
        assert!(!mgr.vm.gsi_is_registered(gsi));
    }
    group.free_interrupts().unwrap();
    assert_eq!(group.len(), 3);
}

#[test]
fn test_group_enable_failure_leaves_state() {
    let mut mgr = KvmInterruptManager::new(InMemoryHypervisor::new()).unwrap();
    let mut group = mgr.get_new_msi_group().unwrap();
    group.allocate_interrupts(&mut mgr.allocator, 2).unwrap();
    let cfg = MsiIrqConfig { high_addr: 0, low_addr: 1, data: 2, devid: 3 };
    for i in 0..2 {
        group.update_at(i, &mut mgr.routing_table, &mut mgr.vm, &cfg).unwrap();
    }
    mgr.vm.set_deny_irqfd(true);
    // The fold stops at the first failure; nothing was attached before it.
    assert!(group.enable(&mut mgr.vm).is_err());
    for i in 0..2 {
        assert!(!group.get(i).unwrap().is_registered());
        assert!(!mgr.vm.gsi_is_registered(IRQ_MAX + 1 + i as u32));
    }
    // An empty group always enables.
    let mut empty = mgr.get_new_msi_group().unwrap();
    assert_eq!(empty.enable(&mut mgr.vm), Ok(()));
    assert_eq!(empty.disable(&mut mgr.vm), Ok(()));
}

#[test]
fn test_legacy_groups_wire_serial_and_keyboard_lines() {
    // The interrupt wiring of the port I/O device setup: two serial lines
    // and one keyboard line, each on its legacy IRQ.
    let mut mgr = KvmInterruptManager::new(InMemoryHypervisor::new()).unwrap();

    let mut serial_group = mgr.get_new_legacy_group().unwrap();
    serial_group.allocate_interrupts(&mut mgr.allocator, 2).unwrap();
    let com_1_3 = LegacyIrqConfig { interrupt_line: Some(4), interrupt_pin: None };
    serial_group.update_at(0, &mut mgr.routing_table, &mut mgr.vm, &com_1_3).unwrap();
    let com_2_4 = LegacyIrqConfig { interrupt_line: Some(3), interrupt_pin: None };
    serial_group.update_at(1, &mut mgr.routing_table, &mut mgr.vm, &com_2_4).unwrap();

    let mut kbd_group = mgr.get_new_legacy_group().unwrap();
    kbd_group.allocate_interrupts(&mut mgr.allocator, 1).unwrap();
    let kbd = LegacyIrqConfig { interrupt_line: Some(1), interrupt_pin: None };
    kbd_group.update_at(0, &mut mgr.routing_table, &mut mgr.vm, &kbd).unwrap();

    // Each line lands on both chips: 3 lines, 6 entries.
    assert_eq!(mgr.routing_table.routes().len(), 6);
    assert_eq!(serial_group.get(0).unwrap().get_config(), Ok(com_1_3));
    assert_eq!(serial_group.get(1).unwrap().get_config(), Ok(com_2_4));
    assert!(serial_group.get(2).is_none());

    serial_group.enable(&mut mgr.vm).unwrap();
    kbd_group.enable(&mut mgr.vm).unwrap();
    for gsi in IRQ_BASE..IRQ_BASE + 3 {
        assert!(mgr.vm.gsi_is_registered(gsi + IRQ_MAX + 1 - IRQ_BASE));
    }
}

#[test]
fn test_group_allocation_exhausts_gsis_gracefully() {
    let mut mgr = KvmInterruptManager::new(InMemoryHypervisor::new()).unwrap();
    let mut group = mgr.get_new_msi_group().unwrap();
    // The GSI cursor is a u32; it cannot be exhausted in a test, but a short
    // allocation must leave the allocator advanced by exactly its size.
    group.allocate_interrupts(&mut mgr.allocator, 5).unwrap();
    let mut group2 = mgr.get_new_msi_group().unwrap();
    group2.allocate_interrupts(&mut mgr.allocator, 1).unwrap();
    // The sixth GSI overall follows the first five.
    let cfg = MsiIrqConfig { high_addr: 0, low_addr: 0, data: 0, devid: 0 };
    group2.update_at(0, &mut mgr.routing_table, &mut mgr.vm, &cfg).unwrap();
    assert_eq!(mgr.routing_table.routes()[0].gsi, IRQ_MAX + 6);
}
