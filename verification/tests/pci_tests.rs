use microvm_irq::cpuid::{validate_vendor_id, Error as CpuidError};
use microvm_irq::pci::{
    parse_io_config_address, parse_mmio_config_address, shift_and_mask, PciBus, PciConfigIo,
    PciConfigMmio, PciDevice, PciRootError,
};
use microvm_irq::vec_with_array_field;

struct DummyDevice {
    value: u32,
    written: Vec<(usize, u64, Vec<u8>)>,
}

impl DummyDevice {
    fn new(value: u32) -> Self {
        DummyDevice { value, written: Vec::new() }
    }
}

impl PciDevice for DummyDevice {
    fn read_config_register(&mut self, reg_idx: usize) -> u32 {
        self.value.wrapping_add(reg_idx as u32)
    }

    fn write_config_register(&mut self, reg_idx: usize, offset: u64, data: &[u8]) {
        self.written.push((reg_idx, offset, data.to_vec()));
    }
}

#[test]
fn test_bus_device_id_pool() {
    let mut bus = PciBus::new(DummyDevice::new(0));
    // Slot id 0 belongs to the host bridge.
    assert_eq!(bus.next_device_id(), Ok(1));
    assert_eq!(bus.next_device_id(), Ok(2));
    assert_eq!(bus.get_device_id(2), Err(PciRootError::AlreadyInUsePciDeviceSlot(2)));
    assert_eq!(bus.get_device_id(5), Ok(()));
    assert_eq!(bus.next_device_id(), Ok(3));
    assert_eq!(bus.put_device_id(5), Ok(()));
    assert_eq!(bus.get_device_id(5), Ok(()));
    assert_eq!(bus.get_device_id(40), Err(PciRootError::InvalidPciDeviceSlot(40)));
    assert_eq!(bus.put_device_id(40), Err(PciRootError::InvalidPciDeviceSlot(40)));
}

#[test]
fn test_bus_exhausts_device_ids() {
    let mut bus = PciBus::new(DummyDevice::new(0));
    for expected in 1..32 {
        assert_eq!(bus.next_device_id(), Ok(expected));
    }
    assert_eq!(bus.next_device_id(), Err(PciRootError::NoPciDeviceSlotAvailable));
}

#[test]
fn test_bus_add_and_remove_devices() {
    let mut bus = PciBus::new(DummyDevice::new(0));
    // BDF 1 << 3 is slot 1.
    assert_eq!(bus.add_device(1 << 3, DummyDevice::new(7)), Ok(()));
    assert_eq!(bus.remove_by_device(1), Ok(()));
    // Removing an empty slot is fine.
    assert_eq!(bus.remove_by_device(9), Ok(()));
}

#[test]
fn test_config_io_reads_addressed_device() {
    let mut bus = PciBus::new(DummyDevice::new(0x1000));
    bus.add_device(3 << 3, DummyDevice::new(0x2000)).unwrap();
    let mut io = PciConfigIo::new(bus);

    // Disabled address: all ones.
    assert_eq!(io.config_space_read(), 0xffff_ffff);

    // Enable bit + bus 0, device 3, function 0, register 2.
    let address: u32 = 0x8000_0000 | (3 << 11) | (2 << 2);
    io.set_config_address(0, &address.to_le_bytes());
    assert_eq!(io.config_space_read(), 0x2002);

    // Device 9 has no slot: all ones.
    let address: u32 = 0x8000_0000 | (9 << 11);
    io.set_config_address(0, &address.to_le_bytes());
    assert_eq!(io.config_space_read(), 0xffff_ffff);

    // A function other than 0 is not supported: all ones.
    let address: u32 = 0x8000_0000 | (3 << 11) | (1 << 8);
    io.set_config_address(0, &address.to_le_bytes());
    assert_eq!(io.config_space_read(), 0xffff_ffff);
}

#[test]
fn test_config_io_partial_address_writes() {
    let bus = PciBus::new(DummyDevice::new(0));
    let mut io = PciConfigIo::new(bus);
    io.set_config_address(0, &[0xEF, 0xBE, 0xAD, 0xDE]);
    // One byte at offset 1 replaces only that byte.
    io.set_config_address(1, &[0x00]);
    io.set_config_address(0, &[0x12]);
    // Reads go nowhere while the enable bit is off, but the register holds
    // the merged value: 0xDEAD0012.
    assert_eq!(io.config_space_read(), 0xffff_ffff);
    // Two bytes at half-word 1 replace the upper half.
    io.set_config_address(2, &[0x34, 0x12]);
    // A write crossing the register boundary is dropped.
    io.set_config_address(3, &[0x55, 0x66]);
    io.set_config_address(0, &[0x00, 0x00]);
    // The register is now 0x12340000; still disabled, so reads are all ones.
    assert_eq!(io.config_space_read(), 0xffff_ffff);
}

#[test]
fn test_config_mmio_dispatch() {
    let mut bus = PciBus::new(DummyDevice::new(0x1000));
    bus.add_device(5 << 3, DummyDevice::new(0x5000)).unwrap();
    let mut mmio = PciConfigMmio::new(bus);
    // ECAM: device 5, register 1.
    let address: u32 = (5 << 15) | (1 << 2);
    assert_eq!(mmio.config_space_read(address), 0x5001);
    // Bus 1 is not supported.
    let address: u32 = (1 << 20) | (5 << 15);
    assert_eq!(mmio.config_space_read(address), 0xffff_ffff);
    // A write lands on the addressed register.
    let address: u32 = (5 << 15) | (2 << 2);
    mmio.config_space_write(address, 0, &[0xAA, 0xBB]);
}

#[test]
fn test_parse_config_addresses() {
    // ECAM layout: bus 3, device 17, function 5, register 9.
    let ecam: u32 = (3 << 20) | (17 << 15) | (5 << 12) | (9 << 2);
    assert_eq!(parse_mmio_config_address(ecam), (3, 17, 5, 9));
    // Legacy layout: bus 2, device 11, function 3, register 7.
    let legacy: u32 = (2 << 16) | (11 << 11) | (3 << 8) | (7 << 2);
    assert_eq!(parse_io_config_address(legacy), (2, 11, 3, 7));
    assert_eq!(shift_and_mask(0xDEAD_BEEF, 16, 0xff), 0xAD);
}

#[test]
fn test_vec_with_array_field_rounds_up() {
    // Room for one u64 header plus five u32 entries: 28 bytes, rounded up to
    // four u64 elements.
    let v = vec_with_array_field::<u64, u32>(5);
    assert_eq!(v.len(), 4);
    assert!(v.iter().all(|x| *x == 0));
    // A header alone still takes one element.
    let v = vec_with_array_field::<u64, u32>(0);
    assert_eq!(v.len(), 1);
}

#[test]
fn test_validate_vendor_id() {
    assert_eq!(validate_vendor_id(b"GenuineIntel"), Ok(()));
    assert_eq!(validate_vendor_id(b"AuthenticAMD"), Err(CpuidError::InvalidVendor));
}
