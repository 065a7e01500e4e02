//! The PCI root bus: device slots and the two configuration-space access
//! mechanisms (the legacy `0xcf8`/`0xcfc` I/O ports and ECAM over MMIO).
//!
//! The bus holds one device per slot and dispatches configuration reads and
//! writes to it; what a device answers is its own affair — the host bridge
//! that sits on slot 0 is one more [`PciDevice`], its register file not
//! modeled here. Only one bus and only function 0 of each device are
//! supported.

use vstd::prelude::*;

use crate::byteorder_wrappers::read_u32_le;
use vstd::pervasive::VecAdditionalExecFns;

verus! {

/// Errors for the bus's slot management.
#[derive(Clone, Copy, Debug, PartialEq, Eq, Structural)]
pub enum PciRootError {
    /// Could not allocate an IRQ number.
    AllocateIrq,
    /// Could not find an available device slot on the PCI bus.
    NoPciDeviceSlotAvailable,
    /// Invalid PCI device identifier provided.
    InvalidPciDeviceSlot(usize),
    /// Valid PCI device identifier but already used.
    AlreadyInUsePciDeviceSlot(usize),
}

/// How many device slots the bus has.
pub const NUM_DEVICE_IDS: usize = 32;

/// A device the bus can dispatch configuration-space accesses to. What a
/// device returns or does with a write is not constrained here.
pub trait PciDevice {
    /// Read the 32-bit configuration register `reg_idx`.
    fn read_config_register(&mut self, reg_idx: usize) -> u32;

    /// Write `data` at `offset` into configuration register `reg_idx`.
    fn write_config_register(&mut self, reg_idx: usize, offset: u64, data: &[u8]);
}

/// True if some slot pair carries the key.
pub open spec fn has_slot<D>(s: Seq<(u32, D)>, key: u32) -> bool {
    exists|i: int| 0 <= i < s.len() && s[i].0 == key
}

/// Each slot key appears at most once.
pub open spec fn slots_unique<D>(s: Seq<(u32, D)>) -> bool {
    forall|i: int, j: int| 0 <= i < j < s.len() ==> s[i].0 != s[j].0
}

/// The devices attached to one PCI bus, slot 0 being the host bridge, plus
/// the bitmap of handed-out device ids.
pub struct PciBus<D: PciDevice> {
    devices: Vec<(u32, D)>,
    device_ids: Vec<bool>,
}

impl<D: PciDevice> PciBus<D> {
    /// The attached devices as (slot, device) pairs.
    pub closed spec fn slots(&self) -> Seq<(u32, D)> {
        self.devices@
    }

    /// Which device ids are handed out.
    pub closed spec fn ids(&self) -> Seq<bool> {
        self.device_ids@
    }

    /// Each slot key appears once, and there is one id bit per slot.
    pub open spec fn wf(&self) -> bool {
        &&& self.ids().len() == NUM_DEVICE_IDS
        &&& slots_unique(self.slots())
    }

    /// A bus carrying only the host bridge, on slot 0 with device id 0 taken.
    pub fn new(pci_root: D) -> (r: Self)
        ensures
            r.wf(),
            r.slots().len() == 1,
            r.slots()[0] == (0u32, pci_root),
            r.ids() == Seq::new(NUM_DEVICE_IDS as nat, |i: int| i == 0),
    {
        let mut devices: Vec<(u32, D)> = Vec::new();
        devices.push((0, pci_root));
        let mut device_ids: Vec<bool> = Vec::new();
        device_ids.push(true);
        let mut i: usize = 1;
        while i < NUM_DEVICE_IDS
            invariant
                1 <= i <= NUM_DEVICE_IDS,
                device_ids@.len() == i,
                forall|k: int| 0 <= k < i ==> device_ids@[k] == (k == 0),
            decreases NUM_DEVICE_IDS - i,
        {
            device_ids.push(false);
            i = i + 1;
        }
        proof {
            assert(device_ids@ =~= Seq::new(NUM_DEVICE_IDS as nat, |i: int| i == 0));
        }
        PciBus { devices, device_ids }
    }

    /// Attach `device` on the slot addressed by `pci_device_bdf` (the slot is
    /// the BDF shifted right by the three function bits), replacing whatever
    /// sat there.
    pub fn add_device(&mut self, pci_device_bdf: u32, device: D) -> (r: Result<(), PciRootError>)
        requires
            old(self).wf(),
        ensures
            final(self).wf(),
            r is Ok,
            final(self).ids() == old(self).ids(),
            has_slot(old(self).slots(), pci_device_bdf >> 3) ==> exists|i: int|
                0 <= i < old(self).slots().len() && old(self).slots()[i].0 == pci_device_bdf >> 3
                    && final(self).slots() == old(self).slots().update(
                    i,
                    (pci_device_bdf >> 3, device),
                ),
            !has_slot(old(self).slots(), pci_device_bdf >> 3) ==> final(self).slots() == old(self).slots().push((pci_device_bdf >> 3, device)),
    {
        let slot = pci_device_bdf >> 3;
        match find_slot_index(&self.devices, slot) {
            Some(i) => {
                self.devices.set(i, (slot, device));
                proof {
                    assert(slots_unique(self.devices@)) by {
                        assert forall|a: int, b: int|
                            0 <= a < b < self.devices@.len() implies self.devices@[a].0
                            != self.devices@[b].0 by {
                            assert(old(self).slots()[a].0 == self.devices@[a].0);
                            assert(old(self).slots()[b].0 == self.devices@[b].0);
                        }
                    }
                }
                Ok(())
            },
            None => {
                self.devices.push((slot, device));
                proof {
                    assert(slots_unique(self.devices@)) by {
                        assert forall|a: int, b: int|
                            0 <= a < b < self.devices@.len() implies self.devices@[a].0
                            != self.devices@[b].0 by {
                            if b == self.devices@.len() - 1 {
                                assert(self.devices@[a] == old(self).slots()[a]);
                                if self.devices@[a].0 == slot {
                                    assert(has_slot(old(self).slots(), slot));
                                }
                            } else {
                                assert(self.devices@[a] == old(self).slots()[a]);
                                assert(self.devices@[b] == old(self).slots()[b]);
                            }
                        }
                    }
                }
                Ok(())
            },
        }
    }

    /// Detach whatever device sits on `slot`; an empty slot is fine.
    pub fn remove_by_device(&mut self, slot: u32) -> (r: Result<(), PciRootError>)
        requires
            old(self).wf(),
        ensures
            final(self).wf(),
            r is Ok,
            final(self).ids() == old(self).ids(),
            forall|i: int|
                0 <= i < final(self).slots().len() ==> old(self).slots().contains(
                    #[trigger] final(self).slots()[i],
                ) && final(self).slots()[i].0 != slot,
            forall|k: u32|
                has_slot(old(self).slots(), k) && k != slot ==> #[trigger] has_slot(
                    final(self).slots(),
                    k,
                ),
    {
        match find_slot_index(&self.devices, slot) {
            Some(i) => {
                proof {
                    assert forall|a: int|
                        0 <= a < self.devices@.remove(i as int).len() implies old(self).slots().contains(#[trigger] self.devices@.remove(i as int)[a]) by {
                        self.devices@.remove_ensures(i as int);
                        if a < i {
                            assert(self.devices@.remove(i as int)[a] == self.devices@[a]);
                            assert(self.devices@.contains(self.devices@[a]));
                        } else {
                            assert(self.devices@.remove(i as int)[a] == self.devices@[a + 1]);
                            assert(self.devices@.contains(self.devices@[a + 1]));
                        }
                    }
                    assert forall|a: int|
                        0 <= a < self.devices@.remove(i as int).len() implies self.devices@.remove(
                        i as int,
                    )[a].0 != slot by {
                        self.devices@.remove_ensures(i as int);
                        let sa: int = if a < i {
                            a
                        } else {
                            a + 1
                        };
                        assert(self.devices@.remove(i as int)[a] == self.devices@[sa]);
                        if self.devices@[sa].0 == slot {
                            if sa < i {
                                assert(self.devices@[sa].0 != self.devices@[i as int].0);
                            } else {
                                assert(self.devices@[i as int].0 != self.devices@[sa].0);
                            }
                        }
                    }
                    assert forall|k: u32|
                        has_slot(self.devices@, k) && k != slot implies #[trigger] has_slot(
                        self.devices@.remove(i as int),
                        k,
                    ) by {
                        let m = choose|m: int|
                            0 <= m < self.devices@.len() && self.devices@[m].0 == k;
                        self.devices@.remove_ensures(i as int);
                        if m < i {
                            assert(self.devices@.remove(i as int)[m].0 == k);
                        } else {
                            assert(m != i);
                            assert(self.devices@.remove(i as int)[m - 1].0 == k);
                        }
                    }
                    assert(slots_unique(self.devices@.remove(i as int))) by {
                        assert forall|a: int, b: int|
                            0 <= a < b < self.devices@.remove(i as int).len()
                            implies self.devices@.remove(i as int)[a].0 != self.devices@.remove(
                            i as int,
                        )[b].0 by {
                            self.devices@.remove_ensures(i as int);
                            let sa: int = if a < i {
                                a
                            } else {
                                a + 1
                            };
                            let sb: int = if b < i {
                                b
                            } else {
                                b + 1
                            };
                            assert(self.devices@.remove(i as int)[a] == self.devices@[sa]);
                            assert(self.devices@.remove(i as int)[b] == self.devices@[sb]);
                        }
                    }
                }
                self.devices.remove(i);
                Ok(())
            },
            None => {
                proof {
                    assert forall|a: int|
                        0 <= a < self.devices@.len() implies old(self).slots().contains(
                        #[trigger] self.devices@[a],
                    ) && self.devices@[a].0 != slot by {
                        assert(self.devices@.contains(self.devices@[a]));
                        if self.devices@[a].0 == slot {
                            assert(has_slot(self.devices@, slot));
                        }
                    }
                }
                Ok(())
            },
        }
    }

    /// Hand out the lowest free device id, or fail if all are taken.
    pub fn next_device_id(&mut self) -> (r: Result<u32, PciRootError>)
        requires
            old(self).wf(),
        ensures
            final(self).wf(),
            final(self).slots() == old(self).slots(),
            r is Ok ==> ({
                let i = r->Ok_0 as int;
                &&& 0 <= i < NUM_DEVICE_IDS
                &&& old(self).ids()[i] == false
                &&& forall|k: int| 0 <= k < i ==> old(self).ids()[k] == true
                &&& final(self).ids() == old(self).ids().update(i, true)
            }),
            r is Err ==> r == Err::<u32, PciRootError>(PciRootError::NoPciDeviceSlotAvailable) && (
            forall|k: int| 0 <= k < NUM_DEVICE_IDS ==> old(self).ids()[k] == true) && final(self).ids() == old(self).ids(),
    {
        let mut idx: usize = 0;
        while idx < NUM_DEVICE_IDS
            invariant
                idx <= NUM_DEVICE_IDS,
                self.device_ids@ == old(self).ids(),
                self.devices@ == old(self).slots(),
                self.device_ids@.len() == NUM_DEVICE_IDS,
                old(self).wf(),
                forall|k: int| 0 <= k < idx ==> self.device_ids@[k] == true,
            decreases NUM_DEVICE_IDS - idx,
        {
            if !self.device_ids[idx] {
                self.device_ids.set(idx, true);
                return Ok(idx as u32);
            }
            idx = idx + 1;
        }
        Err(PciRootError::NoPciDeviceSlotAvailable)
    }

    /// Claim device id `id`; refused if it is out of range or already taken.
    pub fn get_device_id(&mut self, id: usize) -> (r: Result<(), PciRootError>)
        requires
            old(self).wf(),
        ensures
            final(self).wf(),
            final(self).slots() == old(self).slots(),
            id >= NUM_DEVICE_IDS ==> r == Err::<(), PciRootError>(
                PciRootError::InvalidPciDeviceSlot(id),
            ) && final(self).ids() == old(self).ids(),
            id < NUM_DEVICE_IDS && old(self).ids()[id as int] ==> r == Err::<(), PciRootError>(
                PciRootError::AlreadyInUsePciDeviceSlot(id),
            ) && final(self).ids() == old(self).ids(),
            id < NUM_DEVICE_IDS && !old(self).ids()[id as int] ==> r is Ok && final(self).ids()
                == old(self).ids().update(id as int, true),
    {
        if id < NUM_DEVICE_IDS {
            if !self.device_ids[id] {
                self.device_ids.set(id, true);
                Ok(())
            } else {
                Err(PciRootError::AlreadyInUsePciDeviceSlot(id))
            }
        } else {
            Err(PciRootError::InvalidPciDeviceSlot(id))
        }
    }

    /// Return device id `id` to the pool; refused if it is out of range.
    pub fn put_device_id(&mut self, id: usize) -> (r: Result<(), PciRootError>)
        requires
            old(self).wf(),
        ensures
            final(self).wf(),
            final(self).slots() == old(self).slots(),
            id >= NUM_DEVICE_IDS ==> r == Err::<(), PciRootError>(
                PciRootError::InvalidPciDeviceSlot(id),
            ) && final(self).ids() == old(self).ids(),
            id < NUM_DEVICE_IDS ==> r is Ok && final(self).ids() == old(self).ids().update(
                id as int,
                false,
            ),
    {
        if id < NUM_DEVICE_IDS {
            self.device_ids.set(id, false);
            Ok(())
        } else {
            Err(PciRootError::InvalidPciDeviceSlot(id))
        }
    }
}

/// The index of the pair carrying `key`, if any.
fn find_slot_index<D: PciDevice>(v: &Vec<(u32, D)>, key: u32) -> (r: Option<usize>)
    ensures
        match r {
            Some(i) => i < v@.len() && v@[i as int].0 == key,
            None => !has_slot(v@, key),
        },
{
    let mut i: usize = 0;
    while i < v.len()
        invariant
            i <= v@.len(),
            forall|k: int| 0 <= k < i ==> v@[k].0 != key,
        decreases v@.len() - i,
    {
        if v[i].0 == key {
            return Some(i);
        }
        i = i + 1;
    }
    proof {
        if has_slot(v@, key) {
            let m = choose|m: int| 0 <= m < v@.len() && v@[m].0 == key;
        }
    }
    None
}

/// Emulates the PCI configuration access mechanism over the `0xcf8` address
/// and `0xcfc` data I/O ports.
pub struct PciConfigIo<D: PciDevice> {
    /// Config space register.
    config_address: u32,
    pci_bus: PciBus<D>,
}

impl<D: PciDevice> PciConfigIo<D> {
    pub closed spec fn address(&self) -> u32 {
        self.config_address
    }

    pub closed spec fn bus_slots(&self) -> Seq<(u32, D)> {
        self.pci_bus.slots()
    }

    pub closed spec fn bus_ids(&self) -> Seq<bool> {
        self.pci_bus.ids()
    }

    pub open spec fn wf(&self) -> bool {
        &&& self.bus_ids().len() == NUM_DEVICE_IDS
        &&& slots_unique(self.bus_slots())
    }

    pub fn new(pci_bus: PciBus<D>) -> (r: Self)
        requires
            pci_bus.wf(),
        ensures
            r.wf(),
            r.address() == 0,
            r.bus_slots() == pci_bus.slots(),
            r.bus_ids() == pci_bus.ids(),
    {
        PciConfigIo { pci_bus, config_address: 0 }
    }

    /// Read the register the config address selects from the addressed
    /// device. Disabled addresses, buses other than 0, functions other than
    /// 0 and empty slots all read as all-ones. What an addressed device
    /// answers is its own; the bus keeps its shape either way.
    pub fn config_space_read(&mut self) -> (r: u32)
        requires
            old(self).wf(),
        ensures
            final(self).wf(),
            final(self).address() == old(self).address(),
            final(self).bus_ids() == old(self).bus_ids(),
            final(self).bus_slots().len() == old(self).bus_slots().len(),
            forall|i: int|
                0 <= i < old(self).bus_slots().len() ==> #[trigger] final(self).bus_slots()[i].0
                    == old(self).bus_slots()[i].0,
            old(self).address() & 0x8000_0000 == 0 ==> r == 0xffff_ffff && final(self).bus_slots()
                == old(self).bus_slots(),
            ({
                let a = old(self).address() & !0x8000_0000;
                old(self).address() & 0x8000_0000 != 0 && (((a >> 16) & 0xff != 0) || ((a >> 8)
                    & 0x07 != 0) || !has_slot(old(self).bus_slots(), (a >> 11) & 0x1f)) ==> r
                    == 0xffff_ffff && final(self).bus_slots() == old(self).bus_slots()
            }),
    {
        let enabled = (self.config_address & 0x8000_0000) != 0;
        if !enabled {
            return 0xffff_ffff;
        }
        let (bus, device, function, register) = parse_io_config_address(
            self.config_address & !0x8000_0000,
        );
        if bus != 0 {
            return 0xffff_ffff;
        }
        if function > 0 {
            return 0xffff_ffff;
        }
        #[verifier::truncate]
        let slot = device as u32;
        match find_slot_index(&self.pci_bus.devices, slot) {
            Some(i) => {
                let ghost pre = self.pci_bus.devices@;
                let value = self.pci_bus.devices[i].1.read_config_register(register);
                proof {
                    assert(slots_unique(self.pci_bus.devices@)) by {
                        assert forall|a: int, b: int|
                            0 <= a < b < self.pci_bus.devices@.len()
                            implies self.pci_bus.devices@[a].0 != self.pci_bus.devices@[b].0 by {
                            assert(self.pci_bus.devices@[a].0 == pre[a].0);
                            assert(self.pci_bus.devices@[b].0 == pre[b].0);
                        }
                    }
                }
                value
            },
            None => 0xffff_ffff,
        }
    }

    /// Write `data` through to the register the config address selects on
    /// the addressed device. Writes crossing the register boundary, disabled
    /// addresses, buses other than 0 and empty slots are dropped.
    pub fn config_space_write(&mut self, offset: u64, data: &[u8])
        requires
            old(self).wf(),
        ensures
            final(self).wf(),
            final(self).address() == old(self).address(),
            final(self).bus_ids() == old(self).bus_ids(),
            final(self).bus_slots().len() == old(self).bus_slots().len(),
            forall|i: int|
                0 <= i < old(self).bus_slots().len() ==> #[trigger] final(self).bus_slots()[i].0
                    == old(self).bus_slots()[i].0,
            offset > 4 || offset as int + data@.len() > 4 || old(self).address() & 0x8000_0000 == 0
                ==> final(self).bus_slots() == old(self).bus_slots(),
    {
        if offset > 4 || data.len() > 4 || offset as usize + data.len() > 4 {
            return ;
        }
        let enabled = (self.config_address & 0x8000_0000) != 0;
        if !enabled {
            return ;
        }
        let (bus, device, _function, register) = parse_io_config_address(
            self.config_address & !0x8000_0000,
        );
        if bus != 0 {
            return ;
        }
        #[verifier::truncate]
        let slot = device as u32;
        match find_slot_index(&self.pci_bus.devices, slot) {
            Some(i) => {
                let ghost pre = self.pci_bus.devices@;
                self.pci_bus.devices[i].1.write_config_register(register, offset, data);
                proof {
                    assert(slots_unique(self.pci_bus.devices@)) by {
                        assert forall|a: int, b: int|
                            0 <= a < b < self.pci_bus.devices@.len()
                            implies self.pci_bus.devices@[a].0 != self.pci_bus.devices@[b].0 by {
                            assert(self.pci_bus.devices@[a].0 == pre[a].0);
                            assert(self.pci_bus.devices@[b].0 == pre[b].0);
                        }
                    }
                }
            },
            None => {},
        }
    }

    /// Merge `data` into the config address register at `offset`: one, two or
    /// four bytes, little-endian; anything else, or a write past the register
    /// boundary, is dropped. A two-byte write lands on the half-word its
    /// offset selects.
    pub fn set_config_address(&mut self, offset: u64, data: &[u8])
        requires
            old(self).wf(),
        ensures
            final(self).wf(),
            final(self).bus_slots() == old(self).bus_slots(),
            final(self).bus_ids() == old(self).bus_ids(),
            offset as int + data@.len() > 4 ==> final(self).address() == old(self).address(),
            offset as int + data@.len() <= 4 ==> ({
                &&& data@.len() == 1 ==> final(self).address() == ((old(self).address() & !(0xffu32
                    << (8 * offset as u32))) | ((data@[0] as u32) << (8 * offset as u32)))
                &&& data@.len() == 2 && offset <= 1 ==> final(self).address() == ((old(self).address() & !(0xffffu32 << (16 * offset as u32))) | ((((data@[1] as u32) << 8) | (
                data@[0] as u32)) << (16 * offset as u32)))
                &&& data@.len() == 4 ==> final(self).address() as int == data@[0] + 0x100 * data@[1]
                    + 0x1_0000 * data@[2] + 0x100_0000 * data@[3]
                &&& (data@.len() == 0 || data@.len() == 3 || (data@.len() == 2 && offset > 1))
                    ==> final(self).address() == old(self).address()
            }),
    {
        if offset > 4 || data.len() > 4 || offset as usize + data.len() > 4 {
            return ;
        }
        if data.len() == 1 {
            let shift: u32 = 8 * (offset as u32);
            let mask: u32 = 0xffu32 << shift;
            let value: u32 = (data[0] as u32) << shift;
            self.config_address = (self.config_address & !mask) | value;
        } else if data.len() == 2 {
            if offset <= 1 {
                let shift: u32 = 16 * (offset as u32);
                let mask: u32 = 0xffffu32 << shift;
                let value: u32 = (((data[1] as u32) << 8u32) | (data[0] as u32)) << shift;
                self.config_address = (self.config_address & !mask) | value;
            }
        } else if data.len() == 4 {
            self.config_address = read_u32_le(data);
        }
    }
}

/// Emulates the PCI Express enhanced configuration access mechanism (ECAM)
/// over MMIO.
pub struct PciConfigMmio<D: PciDevice> {
    pci_bus: PciBus<D>,
}

impl<D: PciDevice> PciConfigMmio<D> {
    pub closed spec fn bus_slots(&self) -> Seq<(u32, D)> {
        self.pci_bus.slots()
    }

    pub closed spec fn bus_ids(&self) -> Seq<bool> {
        self.pci_bus.ids()
    }

    pub open spec fn wf(&self) -> bool {
        &&& self.bus_ids().len() == NUM_DEVICE_IDS
        &&& slots_unique(self.bus_slots())
    }

    pub fn new(pci_bus: PciBus<D>) -> (r: Self)
        requires
            pci_bus.wf(),
        ensures
            r.wf(),
            r.bus_slots() == pci_bus.slots(),
            r.bus_ids() == pci_bus.ids(),
    {
        PciConfigMmio { pci_bus }
    }

    /// Read the register the ECAM address selects. Buses other than 0 and
    /// empty slots read as all-ones.
    pub fn config_space_read(&mut self, config_address: u32) -> (r: u32)
        requires
            old(self).wf(),
        ensures
            final(self).wf(),
            final(self).bus_ids() == old(self).bus_ids(),
            final(self).bus_slots().len() == old(self).bus_slots().len(),
            forall|i: int|
                0 <= i < old(self).bus_slots().len() ==> #[trigger] final(self).bus_slots()[i].0
                    == old(self).bus_slots()[i].0,
            ((config_address >> 20) & 0xff != 0 || !has_slot(
                old(self).bus_slots(),
                (config_address >> 15) & 0x1f,
            )) ==> r == 0xffff_ffff && final(self).bus_slots() == old(self).bus_slots(),
    {
        let (bus, device, _function, register) = parse_mmio_config_address(config_address);
        if bus != 0 {
            return 0xffff_ffff;
        }
        #[verifier::truncate]
        let slot = device as u32;
        match find_slot_index(&self.pci_bus.devices, slot) {
            Some(i) => {
                let ghost pre = self.pci_bus.devices@;
                let value = self.pci_bus.devices[i].1.read_config_register(register);
                proof {
                    assert(slots_unique(self.pci_bus.devices@)) by {
                        assert forall|a: int, b: int|
                            0 <= a < b < self.pci_bus.devices@.len()
                            implies self.pci_bus.devices@[a].0 != self.pci_bus.devices@[b].0 by {
                            assert(self.pci_bus.devices@[a].0 == pre[a].0);
                            assert(self.pci_bus.devices@[b].0 == pre[b].0);
                        }
                    }
                }
                value
            },
            None => 0xffff_ffff,
        }
    }

    /// Write `data` through to the register the ECAM address selects. Writes
    /// crossing the register boundary, buses other than 0 and empty slots are
    /// dropped.
    pub fn config_space_write(&mut self, config_address: u32, offset: u64, data: &[u8])
        requires
            old(self).wf(),
        ensures
            final(self).wf(),
            final(self).bus_ids() == old(self).bus_ids(),
            final(self).bus_slots().len() == old(self).bus_slots().len(),
            forall|i: int|
                0 <= i < old(self).bus_slots().len() ==> #[trigger] final(self).bus_slots()[i].0
                    == old(self).bus_slots()[i].0,
    {
        if offset > 4 || data.len() > 4 || offset as usize + data.len() > 4 {
            return ;
        }
        let (bus, device, _function, register) = parse_mmio_config_address(config_address);
        if bus != 0 {
            return ;
        }
        #[verifier::truncate]
        let slot = device as u32;
        match find_slot_index(&self.pci_bus.devices, slot) {
            Some(i) => {
                let ghost pre = self.pci_bus.devices@;
                self.pci_bus.devices[i].1.write_config_register(register, offset, data);
                proof {
                    assert(slots_unique(self.pci_bus.devices@)) by {
                        assert forall|a: int, b: int|
                            0 <= a < b < self.pci_bus.devices@.len()
                            implies self.pci_bus.devices@[a].0 != self.pci_bus.devices@[b].0 by {
                            assert(self.pci_bus.devices@[a].0 == pre[a].0);
                            assert(self.pci_bus.devices@[b].0 == pre[b].0);
                        }
                    }
                }
            },
            None => {},
        }
    }
}

/// The bit field of `value` starting at `offset` under `mask`.
pub fn shift_and_mask(value: u32, offset: usize, mask: u32) -> (r: usize)
    requires
        offset < 32,
    ensures
        r == ((value >> offset as u32) & mask) as usize,
{
    ((value >> (offset as u32)) & mask) as usize
}

/// Parse an ECAM MMIO offset into `(bus, device, function, register)`, per
/// the enhanced configuration access mechanism's bit layout.
pub fn parse_mmio_config_address(config_address: u32) -> (r: (usize, usize, usize, usize))
    ensures
        r.0 == ((config_address >> 20) & 0xff) as usize,
        r.1 == ((config_address >> 15) & 0x1f) as usize,
        r.2 == ((config_address >> 12) & 0x07) as usize,
        r.3 == ((config_address >> 2) & 0x3ff) as usize,
{
    (
        shift_and_mask(config_address, 20, 0x00ff),
        shift_and_mask(config_address, 15, 0x1f),
        shift_and_mask(config_address, 12, 0x07),
        shift_and_mask(config_address, 2, 0x3ff),
    )
}

/// Parse the legacy CONFIG_ADDRESS register into `(bus, device, function,
/// register)`.
pub fn parse_io_config_address(config_address: u32) -> (r: (usize, usize, usize, usize))
    ensures
        r.0 == ((config_address >> 16) & 0xff) as usize,
        r.1 == ((config_address >> 11) & 0x1f) as usize,
        r.2 == ((config_address >> 8) & 0x07) as usize,
        r.3 == ((config_address >> 2) & 0x3f) as usize,
{
    (
        shift_and_mask(config_address, 16, 0x00ff),
        shift_and_mask(config_address, 11, 0x1f),
        shift_and_mask(config_address, 8, 0x07),
        shift_and_mask(config_address, 2, 0x3f),
    )
}

} // verus!
