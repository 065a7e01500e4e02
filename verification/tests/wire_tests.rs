use microvm_irq::hypervisor::InMemoryHypervisor;
use microvm_irq::kvm_irq_routing::{
    KvmIrqRoutingTable, RouteEntry, RouteKind, KVM_IRQCHIP_IOAPIC, KVM_IRQCHIP_PIC_MASTER,
    KVM_IRQCHIP_PIC_SLAVE, KVM_IRQ_ROUTING_IRQCHIP, KVM_IRQ_ROUTING_MSI, KVM_MSI_VALID_DEVID,
};
use microvm_irq::wire::serialize_routes;

#[test]
fn test_serialize_empty_table() {
    let entries: Vec<RouteEntry> = Vec::new();
    assert_eq!(serialize_routes(&entries), vec![0u8; 8]);
}

#[test]
fn test_serialize_msi_entry_exact_bytes() {
    let entries = vec![RouteEntry {
        gsi: 0x12345678,
        flags: KVM_MSI_VALID_DEVID,
        kind: RouteKind::Msi {
            address_hi: 0xAABBCCDD,
            address_lo: 0x11223344,
            data: 0x55667788,
            devid: 0x99AABBCC,
        },
    }];
    let mut expected: Vec<u8> = Vec::new();
    expected.extend_from_slice(&[0x01, 0, 0, 0]); // count
    expected.extend_from_slice(&[0, 0, 0, 0]); // flags
    expected.extend_from_slice(&[0x78, 0x56, 0x34, 0x12]); // gsi
    expected.extend_from_slice(&[0x02, 0, 0, 0]); // type: MSI
    expected.extend_from_slice(&[0x01, 0, 0, 0]); // entry flags
    expected.extend_from_slice(&[0, 0, 0, 0]); // pad
    expected.extend_from_slice(&[0x44, 0x33, 0x22, 0x11]); // address_lo
    expected.extend_from_slice(&[0xDD, 0xCC, 0xBB, 0xAA]); // address_hi
    expected.extend_from_slice(&[0x88, 0x77, 0x66, 0x55]); // data
    expected.extend_from_slice(&[0xCC, 0xBB, 0xAA, 0x99]); // devid
    expected.extend_from_slice(&[0u8; 16]); // union padding
    assert_eq!(serialize_routes(&entries), expected);
}

#[test]
fn test_serialize_irqchip_entry_exact_bytes() {
    let entries = vec![RouteEntry {
        gsi: 4,
        flags: 0,
        kind: RouteKind::Irqchip { chip: KVM_IRQCHIP_IOAPIC, pin: 4 },
    }];
    let mut expected: Vec<u8> = Vec::new();
    expected.extend_from_slice(&[0x01, 0, 0, 0]); // count
    expected.extend_from_slice(&[0, 0, 0, 0]); // flags
    expected.extend_from_slice(&[0x04, 0, 0, 0]); // gsi
    expected.extend_from_slice(&[0x01, 0, 0, 0]); // type: IRQCHIP
    expected.extend_from_slice(&[0, 0, 0, 0]); // entry flags
    expected.extend_from_slice(&[0, 0, 0, 0]); // pad
    expected.extend_from_slice(&[0x02, 0, 0, 0]); // chip: IO-APIC
    expected.extend_from_slice(&[0x04, 0, 0, 0]); // pin
    expected.extend_from_slice(&[0u8; 24]); // union padding
    assert_eq!(serialize_routes(&entries), expected);
}

#[test]
fn test_snapshot_round_trip_is_byte_identical() {
    let mut vm = InMemoryHypervisor::new();
    let mut table = KvmIrqRoutingTable::new(&mut vm).unwrap();
    table.route_msi(&mut vm, 40, 1, 2, 3, 4).unwrap();
    table.route_msi(&mut vm, 41, 5, 6, 7, 8).unwrap();
    table.route_intx(&mut vm, 33, 0, None).unwrap();

    // Persist the MSI entries; IRQCHIP entries are rebuilt from the
    // interrupts' configurations at restore.
    let snapshot = table.msi_entries();
    assert_eq!(snapshot.len(), 2);
    let image_before = serialize_routes(&snapshot);

    let mut vm2 = InMemoryHypervisor::new();
    let mut table2 = KvmIrqRoutingTable::new(&mut vm2).unwrap();
    for entry in &snapshot {
        table2.add(&mut vm2, *entry).unwrap();
    }
    assert_eq!(table2.routes(), &snapshot);
    assert_eq!(serialize_routes(table2.routes()), image_before);
    // The hypervisor's committed layout is the same image.
    assert_eq!(serialize_routes(vm2.routes()), image_before);
}

#[test]
fn test_constants_match_kvm_abi() {
    assert_eq!(KVM_IRQ_ROUTING_IRQCHIP, kvm_bindings::KVM_IRQ_ROUTING_IRQCHIP);
    assert_eq!(KVM_IRQ_ROUTING_MSI, kvm_bindings::KVM_IRQ_ROUTING_MSI);
    assert_eq!(KVM_IRQCHIP_PIC_MASTER, kvm_bindings::KVM_IRQCHIP_PIC_MASTER);
    assert_eq!(KVM_IRQCHIP_PIC_SLAVE, kvm_bindings::KVM_IRQCHIP_PIC_SLAVE);
    assert_eq!(KVM_IRQCHIP_IOAPIC, kvm_bindings::KVM_IRQCHIP_IOAPIC);
    assert_eq!(KVM_MSI_VALID_DEVID, kvm_bindings::KVM_MSI_VALID_DEVID);
    // One wire entry is 48 bytes, the header 8, matching the kernel structs.
    assert_eq!(std::mem::size_of::<kvm_bindings::kvm_irq_routing_entry>(), 48);
    assert_eq!(std::mem::size_of::<kvm_bindings::kvm_irq_routing>(), 8);
}
