use microvm_irq::hypervisor::{Hypervisor, HypervisorError, InMemoryHypervisor};
use microvm_irq::kvm_irq_routing::{
    Error, KvmIrqRoutingTable, RouteEntry, RouteKind, KVM_IRQCHIP_IOAPIC, KVM_IRQCHIP_PIC_MASTER,
    KVM_IRQCHIP_PIC_SLAVE, KVM_MSI_VALID_DEVID,
};

fn fresh() -> (InMemoryHypervisor, KvmIrqRoutingTable) {
    let mut vm = InMemoryHypervisor::new();
    let table = KvmIrqRoutingTable::new(&mut vm).unwrap();
    (vm, table)
}

fn msi(gsi: u32, hi: u32, lo: u32, data: u32, devid: u32) -> RouteEntry {
    RouteEntry {
        gsi,
        flags: KVM_MSI_VALID_DEVID,
        kind: RouteKind::Msi { address_hi: hi, address_lo: lo, data, devid },
    }
}

#[test]
fn test_new_commits_empty_table() {
    let (vm, table) = fresh();
    assert_eq!(vm.commit_total(), 1);
    assert!(vm.routes().is_empty());
    assert!(table.routes().is_empty());
}

#[test]
fn test_new_surfaces_commit_failure() {
    let mut vm = InMemoryHypervisor::new();
    vm.set_deny_commits(true);
    let r = KvmIrqRoutingTable::new(&mut vm);
    assert!(matches!(r, Err(Error::GsiRoutingError(HypervisorError::SetGsiRouting))));
    assert_eq!(vm.commit_total(), 0);
}

#[test]
fn test_route_msi_inserts_and_commits_once() {
    let (mut vm, mut table) = fresh();
    assert_eq!(table.route_msi(&mut vm, 40, 1, 2, 3, 4), Ok(()));
    assert_eq!(table.routes().len(), 1);
    assert_eq!(table.routes()[0], msi(40, 1, 2, 3, 4));
    assert_eq!(vm.routes(), table.routes());
    // Exactly one commit on top of the initial empty one.
    assert_eq!(vm.commit_total(), 2);
    // The same key is replaced, not duplicated.
    assert_eq!(table.route_msi(&mut vm, 40, 9, 8, 7, 6), Ok(()));
    assert_eq!(table.routes().len(), 1);
    assert_eq!(table.routes()[0], msi(40, 9, 8, 7, 6));
    assert_eq!(vm.commit_total(), 3);
    // A different GSI adds a second entry.
    assert_eq!(table.route_msi(&mut vm, 41, 0, 0, 0, 0), Ok(()));
    assert_eq!(table.routes().len(), 2);
    assert_eq!(vm.commit_total(), 4);
}

#[test]
fn test_route_msi_rolls_back_on_refused_commit() {
    let (mut vm, mut table) = fresh();
    vm.set_deny_commits(true);
    let r = table.route_msi(&mut vm, 40, 1, 2, 3, 4);
    assert_eq!(r, Err(Error::GsiRoutingError(HypervisorError::SetGsiRouting)));
    assert!(table.routes().is_empty());
    assert!(vm.routes().is_empty());
    assert_eq!(vm.commit_total(), 1);
}

#[test]
fn test_route_msi_rollback_restores_replaced_entry() {
    let (mut vm, mut table) = fresh();
    let first = msi(40, 1, 2, 3, 4);
    assert_eq!(table.route_msi(&mut vm, 40, 1, 2, 3, 4), Ok(()));
    vm.set_deny_commits(true);
    // Reconfiguring the same GSI fails at the hypervisor: the old entry must
    // come back, and memory and the hypervisor image must still agree.
    let r = table.route_msi(&mut vm, 40, 9, 8, 7, 6);
    assert_eq!(r, Err(Error::GsiRoutingError(HypervisorError::SetGsiRouting)));
    assert_eq!(table.routes().len(), 1);
    assert_eq!(table.routes()[0], first);
    assert_eq!(vm.routes(), table.routes());
    assert_eq!(vm.commit_total(), 2);
}

#[test]
fn test_route_intx_allocates_shareable_pins() {
    let (mut vm, mut table) = fresh();
    assert_eq!(table.route_intx(&mut vm, 33, 0, None), Ok(1));
    assert_eq!(table.route_intx(&mut vm, 34, 1, None), Ok(3));
    assert_eq!(table.routes().len(), 2);
    let e = table.routes()[0];
    assert_eq!(e.gsi, 33);
    assert_eq!(e.kind, RouteKind::Irqchip { chip: KVM_IRQCHIP_IOAPIC, pin: 1 });
    assert_eq!(vm.routes(), table.routes());
    assert_eq!(vm.commit_total(), 3);
}

#[test]
fn test_route_intx_refuses_unavailable_pin() {
    let (mut vm, mut table) = fresh();
    // Pin 2 cascades the PICs and is never in the pool.
    assert_eq!(table.route_intx(&mut vm, 33, 0, Some(2)), Err(Error::PinAllocationError));
    assert_eq!(vm.commit_total(), 1);
    assert!(table.routes().is_empty());
}

#[test]
fn test_route_generic_installs_both_chips() {
    let (mut vm, mut table) = fresh();
    assert_eq!(table.route_generic(&mut vm, 32, None), Ok(1));
    let entries = table.routes().clone();
    assert_eq!(entries.len(), 2);
    assert_eq!(entries[0].kind, RouteKind::Irqchip { chip: KVM_IRQCHIP_PIC_MASTER, pin: 1 });
    assert_eq!(entries[1].kind, RouteKind::Irqchip { chip: KVM_IRQCHIP_IOAPIC, pin: 1 });
    assert_eq!(vm.routes(), table.routes());
    // Re-invoking with the same GSI takes the next pin of both pools (pin 2
    // is skipped) and adds two more entries.
    assert_eq!(table.route_generic(&mut vm, 32, None), Ok(3));
    assert_eq!(table.routes().len(), 4);
}

#[test]
fn test_route_generic_slave_pic_pin() {
    let (mut vm, mut table) = fresh();
    // Raw pin 9 sits on the slave PIC as pin 1; the IO-APIC keeps the raw
    // number.
    assert_eq!(table.route_generic(&mut vm, 32, Some(9)), Ok(9));
    let entries = table.routes().clone();
    assert_eq!(entries.len(), 2);
    assert_eq!(
        entries[0].kind,
        RouteKind::Irqchip { chip: KVM_IRQCHIP_PIC_SLAVE, pin: 1 }
    );
    assert_eq!(entries[0].gsi, 9);
    assert_eq!(
        entries[1].kind,
        RouteKind::Irqchip { chip: KVM_IRQCHIP_IOAPIC, pin: 9 }
    );
}

#[test]
fn test_route_generic_fails_when_commits_fail() {
    let (mut vm, mut table) = fresh();
    vm.set_deny_commits(true);
    let r = table.route_generic(&mut vm, 32, None);
    assert_eq!(r, Err(Error::GsiRoutingError(HypervisorError::SetGsiRouting)));
    assert!(table.routes().is_empty());
    assert!(vm.routes().is_empty());
    assert_eq!(vm.commit_total(), 1);
}

#[test]
fn test_route_generic_pin_exhaustion() {
    let (mut vm, mut table) = fresh();
    // 14 legacy routes drain the XT-PIC; the IO-APIC still has pins after
    // them, so the 15th call succeeds through the IO-APIC alone.
    for _ in 0..14 {
        assert!(table.route_generic(&mut vm, 32, None).is_ok());
    }
    assert!(table.route_generic(&mut vm, 32, None).is_ok());
    // Drain the IO-APIC through exclusive INTx-less routes as well.
    loop {
        match table.route_generic(&mut vm, 32, None) {
            Ok(_) => {},
            Err(e) => {
                assert_eq!(e, Error::PinAllocationError);
                break;
            },
        }
    }
}

#[test]
fn test_add_modify_remove() {
    let (mut vm, mut table) = fresh();
    let e = msi(100, 1, 2, 3, 4);
    assert_eq!(table.add(&mut vm, e), Ok(()));
    assert_eq!(table.add(&mut vm, e), Err(Error::InvalidEntry));
    let e2 = msi(100, 5, 6, 7, 8);
    assert_eq!(table.modify(&mut vm, e2), Ok(()));
    assert_eq!(table.routes().len(), 1);
    assert_eq!(table.routes()[0], e2);
    assert_eq!(table.modify(&mut vm, msi(101, 0, 0, 0, 0)), Err(Error::NoSuchEntry));
    let batch = vec![e2, msi(102, 0, 0, 0, 0)];
    assert_eq!(table.remove(&mut vm, &batch), Ok(()));
    assert!(table.routes().is_empty());
    assert_eq!(vm.routes(), table.routes());
}

#[test]
fn test_modify_restores_entry_on_refused_commit() {
    let (mut vm, mut table) = fresh();
    let e = msi(100, 1, 2, 3, 4);
    assert_eq!(table.add(&mut vm, e), Ok(()));
    vm.set_deny_commits(true);
    let r = table.modify(&mut vm, msi(100, 9, 9, 9, 9));
    assert_eq!(r, Err(Error::GsiRoutingError(HypervisorError::SetGsiRouting)));
    assert_eq!(table.routes()[0], e);
    assert_eq!(vm.routes()[0], e);
}

#[test]
fn test_remove_restores_entries_on_refused_commit() {
    let (mut vm, mut table) = fresh();
    let e = msi(100, 1, 2, 3, 4);
    let f = msi(101, 5, 6, 7, 8);
    assert_eq!(table.add(&mut vm, e), Ok(()));
    assert_eq!(table.add(&mut vm, f), Ok(()));
    vm.set_deny_commits(true);
    let batch = vec![e, f];
    let r = table.remove(&mut vm, &batch);
    assert_eq!(r, Err(Error::GsiRoutingError(HypervisorError::SetGsiRouting)));
    assert_eq!(table.routes().len(), 2);
    assert_eq!(vm.routes().len(), 2);
}

#[test]
fn test_add_irqchip_entry_reserves_its_pin() {
    let (mut vm, mut table) = fresh();
    let e = RouteEntry {
        gsi: 50,
        flags: 0,
        kind: RouteKind::Irqchip { chip: KVM_IRQCHIP_IOAPIC, pin: 1 },
    };
    assert_eq!(table.add(&mut vm, e), Ok(()));
    // Pin 1 is now taken: an INTx route asking for it is refused.
    assert_eq!(table.route_intx(&mut vm, 51, 0, Some(1)), Err(Error::PinAllocationError));
    // The next free pin is 3.
    assert_eq!(table.route_intx(&mut vm, 51, 0, None), Ok(3));
}

#[test]
fn test_commit_count_tracks_successful_mutations() {
    let (mut vm, mut table) = fresh();
    assert_eq!(vm.commit_total(), 1);
    table.route_msi(&mut vm, 40, 0, 0, 0, 0).unwrap();
    assert_eq!(vm.commit_total(), 2);
    table.route_intx(&mut vm, 41, 0, None).unwrap();
    assert_eq!(vm.commit_total(), 3);
    table.add(&mut vm, msi(42, 0, 0, 0, 0)).unwrap();
    assert_eq!(vm.commit_total(), 4);
    table.modify(&mut vm, msi(42, 1, 1, 1, 1)).unwrap();
    assert_eq!(vm.commit_total(), 5);
    let batch = vec![msi(42, 1, 1, 1, 1)];
    table.remove(&mut vm, &batch).unwrap();
    assert_eq!(vm.commit_total(), 6);
    // A legacy route commits once per installed chip entry. The earlier
    // INTx route already holds IO-APIC pin 1, so only the PIC half of this
    // route lands: one commit.
    table.route_generic(&mut vm, 32, None).unwrap();
    assert_eq!(vm.commit_total(), 7);
    // On a fresh table both halves land: two commits.
    let (mut vm2, mut table2) = fresh();
    table2.route_generic(&mut vm2, 32, None).unwrap();
    assert_eq!(vm2.commit_total(), 3);
}
