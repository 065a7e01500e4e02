//! Per-interrupt state machines and their groups.
//!
//! Each interrupt ties a GSI, a kernel notification descriptor, and two
//! flags to the routing table: `configured` is set by the first successful
//! `update` and never cleared; `registered` follows `enable` and `disable`.
//! Groups batch-allocate interrupts of one kind and enable or disable them
//! together.

use vstd::prelude::*;

use vmm_sys_util::eventfd::EventFd;

use crate::eventfd::{eventfd_new_nonblocking, eventfd_try_clone, eventfd_write_one};
use crate::gsi::{DefaultGsiAllocator, GsiAllocator};
use crate::hypervisor::Hypervisor;
use crate::kvm_irq_routing::{
    irqchip_entry, msi_entry, route_generic_full_post, upsert, Error, KvmIrqRoutingTable,
    KVM_IRQCHIP_IOAPIC,
};
use crate::kvm_irqchip::ioapic_alloc;

verus! {

/// Configuration of a message-signaled interrupt.
#[derive(Clone, Copy, Debug, PartialEq, Eq, Structural)]
pub struct MsiIrqConfig {
    pub high_addr: u32,
    pub low_addr: u32,
    pub data: u32,
    pub devid: u32,
}

/// Configuration of a legacy (line-based) interrupt.
#[derive(Clone, Copy, Debug, PartialEq, Eq, Structural)]
pub struct LegacyIrqConfig {
    pub interrupt_line: Option<u32>,
    pub interrupt_pin: Option<u32>,
}

#[derive(Clone, Copy, Debug, PartialEq, Eq, Structural)]
pub enum InterruptError {
    /// Writing the notification descriptor failed.
    InterruptNotTriggered,
    /// The interrupt could not be enabled or disabled.
    InterruptNotChanged,
    /// The operation does not fit the interrupt's state: updating while
    /// registered, or reading a configuration never set.
    InvalidConfiguration,
    /// The routing table refused the update.
    Routing(Error),
    /// No GSI was left for a new interrupt.
    GsiExhausted,
    /// The kernel refused a new notification descriptor (raw errno).
    NotifierFd(i32),
}

/// The common core of an interrupt: a GSI, a notification descriptor and the
/// two state flags.
pub struct KvmInterrupt {
    gsi: u32,
    irq_fd: EventFd,
    registered: bool,
    configured: bool,
}

impl KvmInterrupt {
    /// The GSI this interrupt delivers on; fixed at construction.
    pub closed spec fn gsi(&self) -> u32 {
        self.gsi
    }

    /// Whether the descriptor is currently attached to the GSI.
    pub closed spec fn registered(&self) -> bool {
        self.registered
    }

    /// Whether a first `update` has succeeded.
    pub closed spec fn configured(&self) -> bool {
        self.configured
    }

    /// A fresh interrupt on `gsi` with a new non-blocking notification
    /// descriptor; fails with the raw errno if the kernel refuses one.
    pub fn new(gsi: u32) -> (r: Result<KvmInterrupt, i32>)
        ensures
            r is Ok ==> r->Ok_0.gsi() == gsi && !r->Ok_0.registered() && !r->Ok_0.configured(),
    {
        match eventfd_new_nonblocking() {
            Ok(irq_fd) => Ok(KvmInterrupt { gsi, irq_fd, registered: false, configured: false }),
            Err(e) => Err(e),
        }
    }

    /// Deliver the interrupt by adding one to the descriptor's counter.
    pub fn trigger(&self) -> (r: Result<(), InterruptError>)
        ensures
            r is Err ==> r == Err::<(), InterruptError>(InterruptError::InterruptNotTriggered),
    {
        match eventfd_write_one(&self.irq_fd) {
            Ok(()) => Ok(()),
            Err(_) => Err(InterruptError::InterruptNotTriggered),
        }
    }

    /// A duplicate of the notification descriptor, for the device to write;
    /// `None` if the kernel refuses the duplicate.
    pub fn notifier(&self) -> Option<EventFd> {
        match eventfd_try_clone(&self.irq_fd) {
            Ok(fd) => Some(fd),
            Err(_) => None,
        }
    }

    /// Mark the interrupt configured.
    fn set_configured(&mut self)
        ensures
            final(self).gsi() == old(self).gsi(),
            final(self).registered() == old(self).registered(),
            final(self).configured(),
    {
        self.configured = true;
    }

    /// Attach the descriptor to the GSI at the hypervisor, once: a second
    /// call is a no-op.
    fn register_irqfd<H: Hypervisor>(&mut self, vm: &mut H) -> (r: Result<(), InterruptError>)
        ensures
            final(self).gsi() == old(self).gsi(),
            final(self).configured() == old(self).configured(),
            final(vm).gsi_routes() == old(vm).gsi_routes(),
            final(vm).commit_count() == old(vm).commit_count(),
            old(self).registered() ==> r is Ok && final(self).registered() && final(vm).registered_gsis() == old(vm).registered_gsis(),
            !old(self).registered() && r is Ok ==> final(self).registered() && final(vm).registered_gsis() == old(vm).registered_gsis().insert(old(self).gsi()),
            r is Err ==> r == Err::<(), InterruptError>(InterruptError::InterruptNotChanged)
                && final(self).registered() == old(self).registered() && final(vm).registered_gsis() == old(vm).registered_gsis(),
    {
        if !self.registered {
            match vm.register_irqfd(&self.irq_fd, self.gsi) {
                Ok(()) => {
                    self.registered = true;
                    Ok(())
                },
                Err(_) => Err(InterruptError::InterruptNotChanged),
            }
        } else {
            Ok(())
        }
    }

    /// Detach the descriptor from the GSI at the hypervisor, once: a second
    /// call is a no-op.
    fn unregister_irqfd<H: Hypervisor>(&mut self, vm: &mut H) -> (r: Result<(), InterruptError>)
        ensures
            final(self).gsi() == old(self).gsi(),
            final(self).configured() == old(self).configured(),
            final(vm).gsi_routes() == old(vm).gsi_routes(),
            final(vm).commit_count() == old(vm).commit_count(),
            !old(self).registered() ==> r is Ok && !final(self).registered() && final(vm).registered_gsis() == old(vm).registered_gsis(),
            old(self).registered() && r is Ok ==> !final(self).registered() && final(vm).registered_gsis() == old(vm).registered_gsis().remove(old(self).gsi()),
            r is Err ==> r == Err::<(), InterruptError>(InterruptError::InterruptNotChanged)
                && final(self).registered() == old(self).registered() && final(vm).registered_gsis() == old(vm).registered_gsis(),
    {
        if self.registered {
            match vm.unregister_irqfd(&self.irq_fd, self.gsi) {
                Ok(()) => {
                    self.registered = false;
                    Ok(())
                },
                Err(_) => Err(InterruptError::InterruptNotChanged),
            }
        } else {
            Ok(())
        }
    }
}

/// A message-signaled interrupt.
pub struct KvmMsiInterrupt {
    irq: KvmInterrupt,
    config: Option<MsiIrqConfig>,
}

impl KvmMsiInterrupt {
    pub closed spec fn gsi(&self) -> u32 {
        self.irq.gsi()
    }

    pub closed spec fn registered(&self) -> bool {
        self.irq.registered()
    }

    pub closed spec fn configured(&self) -> bool {
        self.irq.configured()
    }

    /// The last configuration a successful `update` installed.
    pub closed spec fn config(&self) -> Option<MsiIrqConfig> {
        self.config
    }

    /// A fresh MSI interrupt on `gsi`; fails with the raw errno if the kernel
    /// refuses a notification descriptor.
    pub fn new(gsi: u32) -> (r: Result<KvmMsiInterrupt, i32>)
        ensures
            r is Ok ==> r->Ok_0.gsi() == gsi && !r->Ok_0.registered() && !r->Ok_0.configured()
                && r->Ok_0.config() is None,
    {
        match KvmInterrupt::new(gsi) {
            Ok(irq) => Ok(KvmMsiInterrupt { irq, config: None }),
            Err(e) => Err(e),
        }
    }

    /// Deliver the interrupt.
    pub fn trigger(&self) -> (r: Result<(), InterruptError>)
        ensures
            r is Err ==> r == Err::<(), InterruptError>(InterruptError::InterruptNotTriggered),
    {
        self.irq.trigger()
    }

    /// The GSI this interrupt delivers on — part of the persisted state.
    pub fn gsi_number(&self) -> (r: u32)
        ensures
            r == self.gsi(),
    {
        self.irq.gsi
    }

    /// Whether a first `update` has succeeded — part of the persisted state.
    pub fn is_configured(&self) -> (r: bool)
        ensures
            r == self.configured(),
    {
        self.irq.configured
    }

    /// Whether the descriptor is attached to the GSI — part of the persisted
    /// state.
    pub fn is_registered(&self) -> (r: bool)
        ensures
            r == self.registered(),
    {
        self.irq.registered
    }


    /// A duplicate of the notification descriptor.
    pub fn notifier(&self) -> Option<EventFd> {
        self.irq.notifier()
    }

    /// Attach the interrupt's descriptor to its GSI (idempotent).
    pub fn enable<H: Hypervisor>(&mut self, vm: &mut H) -> (r: Result<(), InterruptError>)
        ensures
            final(self).gsi() == old(self).gsi(),
            final(self).configured() == old(self).configured(),
            final(self).config() == old(self).config(),
            final(vm).gsi_routes() == old(vm).gsi_routes(),
            final(vm).commit_count() == old(vm).commit_count(),
            old(self).registered() ==> r is Ok && final(self).registered() && final(vm).registered_gsis() == old(vm).registered_gsis(),
            !old(self).registered() && r is Ok ==> final(self).registered() && final(vm).registered_gsis() == old(vm).registered_gsis().insert(old(self).gsi()),
            r is Err ==> r == Err::<(), InterruptError>(InterruptError::InterruptNotChanged)
                && final(self).registered() == old(self).registered() && final(vm).registered_gsis() == old(vm).registered_gsis(),
    {
        self.irq.register_irqfd(vm)
    }

    /// Detach the interrupt's descriptor from its GSI (idempotent).
    pub fn disable<H: Hypervisor>(&mut self, vm: &mut H) -> (r: Result<(), InterruptError>)
        ensures
            final(self).gsi() == old(self).gsi(),
            final(self).configured() == old(self).configured(),
            final(self).config() == old(self).config(),
            final(vm).gsi_routes() == old(vm).gsi_routes(),
            final(vm).commit_count() == old(vm).commit_count(),
            !old(self).registered() ==> r is Ok && !final(self).registered() && final(vm).registered_gsis() == old(vm).registered_gsis(),
            old(self).registered() && r is Ok ==> !final(self).registered() && final(vm).registered_gsis() == old(vm).registered_gsis().remove(old(self).gsi()),
            r is Err ==> r == Err::<(), InterruptError>(InterruptError::InterruptNotChanged)
                && final(self).registered() == old(self).registered() && final(vm).registered_gsis() == old(vm).registered_gsis(),
    {
        self.irq.unregister_irqfd(vm)
    }

    /// Alias for [`Self::disable`]: a masked MSI delivers nothing.
    pub fn mask<H: Hypervisor>(&mut self, vm: &mut H) -> (r: Result<(), InterruptError>)
        ensures
            final(self).gsi() == old(self).gsi(),
            final(self).configured() == old(self).configured(),
            final(self).config() == old(self).config(),
            final(vm).gsi_routes() == old(vm).gsi_routes(),
            final(vm).commit_count() == old(vm).commit_count(),
            !old(self).registered() ==> r is Ok && !final(self).registered() && final(vm).registered_gsis() == old(vm).registered_gsis(),
            old(self).registered() && r is Ok ==> !final(self).registered() && final(vm).registered_gsis() == old(vm).registered_gsis().remove(old(self).gsi()),
            r is Err ==> r == Err::<(), InterruptError>(InterruptError::InterruptNotChanged)
                && final(self).registered() == old(self).registered() && final(vm).registered_gsis() == old(vm).registered_gsis(),
    {
        self.disable(vm)
    }

    /// Alias for [`Self::enable`].
    pub fn unmask<H: Hypervisor>(&mut self, vm: &mut H) -> (r: Result<(), InterruptError>)
        ensures
            final(self).gsi() == old(self).gsi(),
            final(self).configured() == old(self).configured(),
            final(self).config() == old(self).config(),
            final(vm).gsi_routes() == old(vm).gsi_routes(),
            final(vm).commit_count() == old(vm).commit_count(),
            old(self).registered() ==> r is Ok && final(self).registered() && final(vm).registered_gsis() == old(vm).registered_gsis(),
            !old(self).registered() && r is Ok ==> final(self).registered() && final(vm).registered_gsis() == old(vm).registered_gsis().insert(old(self).gsi()),
            r is Err ==> r == Err::<(), InterruptError>(InterruptError::InterruptNotChanged)
                && final(self).registered() == old(self).registered() && final(vm).registered_gsis() == old(vm).registered_gsis(),
    {
        self.enable(vm)
    }

    /// Install the MSI route for this interrupt: refused outright while the
    /// interrupt is registered; otherwise `route_msi` runs under the
    /// interrupt's GSI and, on success, the configuration is stored and the
    /// interrupt counts as configured.
    pub fn update<H: Hypervisor>(
        &mut self,
        table: &mut KvmIrqRoutingTable,
        vm: &mut H,
        cfg: &MsiIrqConfig,
    ) -> (r: Result<(), InterruptError>)
        requires
            old(table).wf(),
        ensures
            final(table).wf(),
            final(self).gsi() == old(self).gsi(),
            final(self).registered() == old(self).registered(),
            final(vm).registered_gsis() == old(vm).registered_gsis(),
            final(table).ioapic_avail() == old(table).ioapic_avail(),
            final(table).ioapic_shared() == old(table).ioapic_shared(),
            final(table).pic_avail() == old(table).pic_avail(),
            old(self).registered() ==> r == Err::<(), InterruptError>(
                InterruptError::InvalidConfiguration,
            ) && final(self).configured() == old(self).configured() && final(self).config() == old(self).config() && final(table).entries() == old(table).entries() && final(vm).gsi_routes()
                == old(vm).gsi_routes() && final(vm).commit_count() == old(vm).commit_count(),
            !old(self).registered() && r is Ok ==> final(self).configured() && final(self).config()
                == Some(*cfg) && final(table).entries() == upsert(
                old(table).entries(),
                msi_entry(old(self).gsi(), cfg.high_addr, cfg.low_addr, cfg.data, cfg.devid),
            ) && final(vm).gsi_routes() == final(table).entries() && final(vm).commit_count()
                == old(vm).commit_count() + 1,
            !old(self).registered() && r is Err ==> (exists|e: Error|
                r == Err::<(), InterruptError>(InterruptError::Routing(e))) && final(self).configured() == old(self).configured() && final(self).config() == old(self).config()
                && final(table).entries() == old(table).entries()
                && final(vm).gsi_routes() == old(vm).gsi_routes() && final(vm).commit_count()
                == old(vm).commit_count(),
    {
        if self.irq.registered {
            return Err(InterruptError::InvalidConfiguration);
        }
        match table.route_msi(vm, self.irq.gsi, cfg.high_addr, cfg.low_addr, cfg.data, cfg.devid) {
            Ok(()) => {
                self.config = Some(*cfg);
                self.irq.set_configured();
                Ok(())
            },
            Err(e) => Err(InterruptError::Routing(e)),
        }
    }

    /// The configuration of the last successful `update`, or
    /// `InvalidConfiguration` if none happened yet.
    pub fn get_config(&self) -> (r: Result<MsiIrqConfig, InterruptError>)
        ensures
            self.config() is Some ==> r == Ok::<MsiIrqConfig, InterruptError>(self.config()->0),
            self.config() is None ==> r == Err::<MsiIrqConfig, InterruptError>(
                InterruptError::InvalidConfiguration,
            ),
    {
        match self.config {
            Some(cfg) => Ok(cfg),
            None => Err(InterruptError::InvalidConfiguration),
        }
    }
}

/// A legacy (line-based) interrupt.
pub struct KvmLegacyInterrupt {
    irq: KvmInterrupt,
    config: Option<LegacyIrqConfig>,
}

impl KvmLegacyInterrupt {
    pub closed spec fn gsi(&self) -> u32 {
        self.irq.gsi()
    }

    pub closed spec fn registered(&self) -> bool {
        self.irq.registered()
    }

    pub closed spec fn configured(&self) -> bool {
        self.irq.configured()
    }

    /// The configuration snapshot of the last successful `update`, with the
    /// routed line filled in.
    pub closed spec fn config(&self) -> Option<LegacyIrqConfig> {
        self.config
    }

    /// A fresh legacy interrupt on `gsi`; fails with the raw errno if the
    /// kernel refuses a notification descriptor.
    pub fn new(gsi: u32) -> (r: Result<KvmLegacyInterrupt, i32>)
        ensures
            r is Ok ==> r->Ok_0.gsi() == gsi && !r->Ok_0.registered() && !r->Ok_0.configured()
                && r->Ok_0.config() is None,
    {
        match KvmInterrupt::new(gsi) {
            Ok(irq) => Ok(KvmLegacyInterrupt { irq, config: None }),
            Err(e) => Err(e),
        }
    }

    /// Deliver the interrupt.
    pub fn trigger(&self) -> (r: Result<(), InterruptError>)
        ensures
            r is Err ==> r == Err::<(), InterruptError>(InterruptError::InterruptNotTriggered),
    {
        self.irq.trigger()
    }

    /// The GSI this interrupt delivers on — part of the persisted state.
    pub fn gsi_number(&self) -> (r: u32)
        ensures
            r == self.gsi(),
    {
        self.irq.gsi
    }

    /// Whether a first `update` has succeeded — part of the persisted state.
    pub fn is_configured(&self) -> (r: bool)
        ensures
            r == self.configured(),
    {
        self.irq.configured
    }

    /// Whether the descriptor is attached to the GSI — part of the persisted
    /// state.
    pub fn is_registered(&self) -> (r: bool)
        ensures
            r == self.registered(),
    {
        self.irq.registered
    }


    /// A duplicate of the notification descriptor.
    pub fn notifier(&self) -> Option<EventFd> {
        self.irq.notifier()
    }

    /// Attach the interrupt's descriptor to its GSI. A legacy interrupt must
    /// be configured first; enabling an unconfigured one is refused with
    /// `InterruptNotChanged` and has no effect.
    pub fn enable<H: Hypervisor>(&mut self, vm: &mut H) -> (r: Result<(), InterruptError>)
        ensures
            final(self).gsi() == old(self).gsi(),
            final(self).configured() == old(self).configured(),
            final(self).config() == old(self).config(),
            final(vm).gsi_routes() == old(vm).gsi_routes(),
            final(vm).commit_count() == old(vm).commit_count(),
            !old(self).configured() ==> r == Err::<(), InterruptError>(
                InterruptError::InterruptNotChanged,
            ) && final(self).registered() == old(self).registered() && final(vm).registered_gsis() == old(vm).registered_gsis(),
            old(self).configured() && old(self).registered() ==> r is Ok && final(self).registered() && final(vm).registered_gsis() == old(vm).registered_gsis(),
            old(self).configured() && !old(self).registered() && r is Ok ==> final(self).registered() && final(vm).registered_gsis() == old(vm).registered_gsis().insert(
                old(self).gsi(),
            ),
            r is Err ==> r == Err::<(), InterruptError>(InterruptError::InterruptNotChanged)
                && final(self).registered() == old(self).registered() && final(vm).registered_gsis() == old(vm).registered_gsis(),
    {
        if !self.irq.configured {
            return Err(InterruptError::InterruptNotChanged);
        }
        self.irq.register_irqfd(vm)
    }

    /// Detach the interrupt's descriptor from its GSI (idempotent).
    pub fn disable<H: Hypervisor>(&mut self, vm: &mut H) -> (r: Result<(), InterruptError>)
        ensures
            final(self).gsi() == old(self).gsi(),
            final(self).configured() == old(self).configured(),
            final(self).config() == old(self).config(),
            final(vm).gsi_routes() == old(vm).gsi_routes(),
            final(vm).commit_count() == old(vm).commit_count(),
            !old(self).registered() ==> r is Ok && !final(self).registered() && final(vm).registered_gsis() == old(vm).registered_gsis(),
            old(self).registered() && r is Ok ==> !final(self).registered() && final(vm).registered_gsis() == old(vm).registered_gsis().remove(old(self).gsi()),
            r is Err ==> r == Err::<(), InterruptError>(InterruptError::InterruptNotChanged)
                && final(self).registered() == old(self).registered() && final(vm).registered_gsis() == old(vm).registered_gsis(),
    {
        self.irq.unregister_irqfd(vm)
    }

    /// Route this interrupt. With a PCI pin in the configuration the route
    /// goes through the shareable IO-APIC path (`route_intx`); otherwise the
    /// legacy two-chip path (`route_generic`) runs and the line it reports is
    /// stored back into the configuration snapshot. On success the interrupt
    /// counts as configured.
    pub fn update<H: Hypervisor>(
        &mut self,
        table: &mut KvmIrqRoutingTable,
        vm: &mut H,
        cfg: &LegacyIrqConfig,
    ) -> (r: Result<(), InterruptError>)
        requires
            old(table).wf(),
        ensures
            final(table).wf(),
            final(self).gsi() == old(self).gsi(),
            final(self).registered() == old(self).registered(),
            final(vm).registered_gsis() == old(vm).registered_gsis(),
            r is Ok ==> final(self).configured(),
            r is Err ==> final(self).configured() == old(self).configured() && final(self).config()
                == old(self).config() && final(table).entries() == old(table).entries() && final(vm).gsi_routes() == old(vm).gsi_routes() && final(vm).commit_count() == old(vm).commit_count() && (exists|e: Error|
                r == Err::<(), InterruptError>(InterruptError::Routing(e))),
            cfg.interrupt_pin is Some ==> ({
                let (pr, pa, ps) = ioapic_alloc(
                    old(table).ioapic_avail(),
                    old(table).ioapic_shared(),
                    true,
                    cfg.interrupt_line,
                );
                &&& final(table).pic_avail() == old(table).pic_avail()
                &&& (r is Ok ==> pr is Some && final(self).config() == Some(*cfg) && final(table).entries() == upsert(
                    old(table).entries(),
                    irqchip_entry(KVM_IRQCHIP_IOAPIC, old(self).gsi(), pr->0),
                ) && final(vm).gsi_routes() == final(table).entries() && final(vm).commit_count()
                    == old(vm).commit_count() + 1)
                &&& (r is Err ==> final(vm).gsi_routes() == old(vm).gsi_routes() && final(vm).commit_count() == old(vm).commit_count())
            }),
            cfg.interrupt_pin is None ==> ({
                &&& (r is Ok ==> final(self).config() is Some && final(self).config()->0.interrupt_pin
                    is None && final(self).config()->0.interrupt_line is Some)
                &&& exists|rr: Result<u32, Error>|
                    route_generic_full_post(
                        old(table).entries(),
                        old(table).ioapic_avail(),
                        old(table).ioapic_shared(),
                        old(table).pic_avail(),
                        old(vm).gsi_routes(),
                        old(vm).commit_count(),
                        final(table).entries(),
                        final(table).ioapic_avail(),
                        final(table).ioapic_shared(),
                        final(table).pic_avail(),
                        final(vm).gsi_routes(),
                        final(vm).commit_count(),
                        cfg.interrupt_line,
                        rr,
                    ) && (rr is Ok <==> r is Ok) && (rr is Ok ==> final(self).config() == Some(
                        LegacyIrqConfig {
                            interrupt_line: Some(rr->Ok_0),
                            interrupt_pin: None,
                        },
                    )) && (rr is Err ==> r == Err::<(), InterruptError>(
                        InterruptError::Routing(rr->Err_0),
                    ))
            }),
    {
        if let Some(intx) = cfg.interrupt_pin {
            #[verifier::truncate]
            let intx8 = intx as u8;
            match table.route_intx(vm, self.irq.gsi, intx8, cfg.interrupt_line) {
                Ok(_pin) => {
                    self.config = Some(*cfg);
                    self.irq.set_configured();
                    Ok(())
                },
                Err(e) => Err(InterruptError::Routing(e)),
            }
        } else {
            let rr = table.route_generic(vm, self.irq.gsi, cfg.interrupt_line);
            match rr {
                Ok(line) => {
                    self.config = Some(
                        LegacyIrqConfig { interrupt_line: Some(line), interrupt_pin: None },
                    );
                    self.irq.set_configured();
                    Ok(())
                },
                Err(e) => Err(InterruptError::Routing(e)),
            }
        }
    }

    /// The configuration of the last successful `update`, or
    /// `InvalidConfiguration` if none happened yet.
    pub fn get_config(&self) -> (r: Result<LegacyIrqConfig, InterruptError>)
        ensures
            self.config() is Some ==> r == Ok::<LegacyIrqConfig, InterruptError>(self.config()->0),
            self.config() is None ==> r == Err::<LegacyIrqConfig, InterruptError>(
                InterruptError::InvalidConfiguration,
            ),
    {
        match self.config {
            Some(cfg) => Ok(cfg),
            None => Err(InterruptError::InvalidConfiguration),
        }
    }
}


/// A group `enable` stopped at index `m`: everything before `m` is attached,
/// and from `m` on every `registered` flag is as it was.
pub open spec fn msi_enable_stopped(
    pre: Seq<KvmMsiInterrupt>,
    post: Seq<KvmMsiInterrupt>,
    m: int,
) -> bool {
    &&& 0 <= m < pre.len()
    &&& forall|j: int| 0 <= j < m ==> #[trigger] post[j].registered()
    &&& forall|j: int| m <= j < pre.len() ==> #[trigger] post[j].registered() == pre[j].registered()
}

/// A group `disable` stopped at index `m`: everything before `m` is detached,
/// and from `m` on every `registered` flag is as it was.
pub open spec fn msi_disable_stopped(
    pre: Seq<KvmMsiInterrupt>,
    post: Seq<KvmMsiInterrupt>,
    m: int,
) -> bool {
    &&& 0 <= m < pre.len()
    &&& forall|j: int| 0 <= j < m ==> !(#[trigger] post[j].registered())
    &&& forall|j: int| m <= j < pre.len() ==> #[trigger] post[j].registered() == pre[j].registered()
}

/// A batch of MSI interrupts serving one device.
pub struct KvmMsiInterruptGroup {
    interrupts: Vec<KvmMsiInterrupt>,
}

impl KvmMsiInterruptGroup {
    /// The interrupts of the group, in allocation order.
    pub closed spec fn interrupts_seq(&self) -> Seq<KvmMsiInterrupt> {
        self.interrupts@
    }

    /// An empty group.
    pub fn new() -> (r: Self)
        ensures
            r.interrupts_seq().len() == 0,
    {
        KvmMsiInterruptGroup { interrupts: Vec::new() }
    }

    pub fn is_empty(&self) -> (r: bool)
        ensures
            r == (self.interrupts_seq().len() == 0),
    {
        self.interrupts.len() == 0
    }

    pub fn len(&self) -> (r: usize)
        ensures
            r == self.interrupts_seq().len(),
    {
        self.interrupts.len()
    }

    /// The interrupt at `index`, or `None` past the end.
    pub fn get(&self, index: usize) -> (r: Option<&KvmMsiInterrupt>)
        ensures
            index < self.interrupts_seq().len() ==> r is Some && *r->0
                == self.interrupts_seq()[index as int],
            index >= self.interrupts_seq().len() ==> r is None,
    {
        if index < self.interrupts.len() {
            Some(&self.interrupts[index])
        } else {
            None
        }
    }

    /// Draw `size` fresh GSIs and add one interrupt for each; the GSIs come
    /// out consecutively. On an error (no GSI left, or the kernel refused a
    /// descriptor) the interrupts made so far stay in the group.
    pub fn allocate_interrupts<A: GsiAllocator>(
        &mut self,
        allocator: &mut A,
        size: usize,
    ) -> (r: Result<(), InterruptError>)
        ensures
            final(allocator).next_irq() == old(allocator).next_irq(),
            final(allocator).max_irq() == old(allocator).max_irq(),
            forall|j: int|
                0 <= j < old(self).interrupts_seq().len() ==> final(self).interrupts_seq()[j]
                    == old(self).interrupts_seq()[j],
            forall|j: int|
                old(self).interrupts_seq().len() <= j < final(self).interrupts_seq().len() ==> ({
                    let it = #[trigger] final(self).interrupts_seq()[j];
                    &&& it.gsi() == old(allocator).next_gsi() + (j - old(self).interrupts_seq().len())
                    &&& !it.registered()
                    &&& !it.configured()
                    &&& it.config() is None
                }),
            r is Ok ==> final(self).interrupts_seq().len() == old(self).interrupts_seq().len()
                + size && final(allocator).next_gsi() == old(allocator).next_gsi() + size,
            r is Err ==> final(self).interrupts_seq().len() <= old(self).interrupts_seq().len()
                + size,
            size == 0 ==> r is Ok,
            r is Err ==> r == Err::<(), InterruptError>(InterruptError::GsiExhausted)
                || r->Err_0 is NotifierFd,
            r == Err::<(), InterruptError>(InterruptError::GsiExhausted) ==> final(allocator).next_gsi() == old(allocator).next_gsi() + (final(self).interrupts_seq().len()
                - old(self).interrupts_seq().len()) && old(allocator).next_gsi() + (final(self).interrupts_seq().len() - old(self).interrupts_seq().len()) == u32::MAX,
            r is Err && r->Err_0 is NotifierFd ==> final(allocator).next_gsi() == old(allocator).next_gsi() + (final(self).interrupts_seq().len() - old(self).interrupts_seq().len())
                + 1,
    {
        let ghost n0 = self.interrupts@.len();
        let ghost g0 = allocator.next_gsi();
        let mut made: usize = 0;
        while made < size
            invariant
                made <= size,
                n0 == old(self).interrupts_seq().len(),
                g0 == old(allocator).next_gsi(),
                self.interrupts@.len() == n0 + made,
                allocator.next_gsi() == g0 + made,
                allocator.next_irq() == old(allocator).next_irq(),
                allocator.max_irq() == old(allocator).max_irq(),
                forall|j: int|
                    0 <= j < n0 ==> self.interrupts@[j] == old(self).interrupts_seq()[j],
                forall|j: int|
                    n0 <= j < self.interrupts@.len() ==> ({
                        let it = #[trigger] self.interrupts@[j];
                        &&& it.gsi() == g0 + (j - n0)
                        &&& !it.registered()
                        &&& !it.configured()
                        &&& it.config() is None
                    }),
            decreases size - made,
        {
            let gsi = match allocator.allocate_gsi() {
                Ok(gsi) => gsi,
                Err(_) => {
                    return Err(InterruptError::GsiExhausted);
                },
            };
            let interrupt = match KvmMsiInterrupt::new(gsi) {
                Ok(interrupt) => interrupt,
                Err(e) => {
                    return Err(InterruptError::NotifierFd(e));
                },
            };
            self.interrupts.push(interrupt);
            made = made + 1;
        }
        Ok(())
    }

    /// Route the interrupt at `index`: see [`KvmMsiInterrupt::update`].
    pub fn update_at<H: Hypervisor>(
        &mut self,
        index: usize,
        table: &mut KvmIrqRoutingTable,
        vm: &mut H,
        cfg: &MsiIrqConfig,
    ) -> (r: Result<(), InterruptError>)
        requires
            index < old(self).interrupts_seq().len(),
            old(table).wf(),
        ensures
            final(table).wf(),
            final(self).interrupts_seq().len() == old(self).interrupts_seq().len(),
            forall|j: int|
                0 <= j < old(self).interrupts_seq().len() && j != index
                    ==> final(self).interrupts_seq()[j] == old(self).interrupts_seq()[j],
            final(vm).registered_gsis() == old(vm).registered_gsis(),
            ({
                let pre = old(self).interrupts_seq()[index as int];
                let post = final(self).interrupts_seq()[index as int];
                &&& post.gsi() == pre.gsi()
                &&& post.registered() == pre.registered()
                &&& (pre.registered() ==> r == Err::<(), InterruptError>(
                    InterruptError::InvalidConfiguration,
                ) && post.configured() == pre.configured() && post.config() == pre.config()
                    && final(table).entries() == old(table).entries() && final(vm).gsi_routes()
                    == old(vm).gsi_routes() && final(vm).commit_count() == old(vm).commit_count())
                &&& (!pre.registered() && r is Ok ==> post.configured() && post.config() == Some(
                    *cfg,
                ) && final(table).entries() == upsert(
                    old(table).entries(),
                    msi_entry(pre.gsi(), cfg.high_addr, cfg.low_addr, cfg.data, cfg.devid),
                ) && final(vm).gsi_routes() == final(table).entries() && final(vm).commit_count()
                    == old(vm).commit_count() + 1)
                &&& (!pre.registered() && r is Err ==> post.configured() == pre.configured()
                    && post.config() == pre.config() && final(table).entries() == old(table).entries() && final(vm).gsi_routes() == old(vm).gsi_routes() && final(vm).commit_count() == old(vm).commit_count())
            }),
    {
        self.interrupts[index].update(table, vm, cfg)
    }

    /// Attach every interrupt of the group, in order, stopping at the first
    /// failure.
    pub fn enable<H: Hypervisor>(&mut self, vm: &mut H) -> (r: Result<(), InterruptError>)
        ensures
            final(self).interrupts_seq().len() == old(self).interrupts_seq().len(),
            final(vm).gsi_routes() == old(vm).gsi_routes(),
            final(vm).commit_count() == old(vm).commit_count(),
            forall|j: int|
                0 <= j < old(self).interrupts_seq().len() ==> ({
                    let pre = old(self).interrupts_seq()[j];
                    let post = #[trigger] final(self).interrupts_seq()[j];
                    post.gsi() == pre.gsi() && post.configured() == pre.configured()
                        && post.config() == pre.config()
                }),
            r is Ok ==> forall|j: int|
                0 <= j < final(self).interrupts_seq().len() ==> #[trigger] final(self).interrupts_seq()[j].registered(),
            r is Ok ==> forall|j: int|
                0 <= j < final(self).interrupts_seq().len() && !old(self).interrupts_seq()[j].registered()
                    ==> final(vm).registered_gsis().contains(
                    #[trigger] final(self).interrupts_seq()[j].gsi(),
                ),
            old(self).interrupts_seq().len() == 0 ==> r is Ok,
            (forall|j: int|
                0 <= j < old(self).interrupts_seq().len()
                    ==> old(self).interrupts_seq()[j].registered()) ==> r is Ok,
            r is Err ==> exists|m: int|
                msi_enable_stopped(old(self).interrupts_seq(), final(self).interrupts_seq(), m),
            forall|g: u32|
                (forall|j: int|
                    0 <= j < old(self).interrupts_seq().len()
                        ==> old(self).interrupts_seq()[j].gsi() != g) ==> final(vm).registered_gsis().contains(g) == old(vm).registered_gsis().contains(g),
    {
        let n = self.interrupts.len();
        let mut i: usize = 0;
        while i < n
            invariant
                i <= n,
                n == self.interrupts@.len(),
                self.interrupts@.len() == old(self).interrupts_seq().len(),
                vm.gsi_routes() == old(vm).gsi_routes(),
                vm.commit_count() == old(vm).commit_count(),
                forall|j: int|
                    0 <= j < old(self).interrupts_seq().len() ==> ({
                        let pre = old(self).interrupts_seq()[j];
                        let post = #[trigger] self.interrupts@[j];
                        post.gsi() == pre.gsi() && post.configured() == pre.configured()
                            && post.config() == pre.config()
                    }),
                forall|j: int| 0 <= j < i ==> #[trigger] self.interrupts@[j].registered(),
                forall|j: int|
                    i <= j < n ==> #[trigger] self.interrupts@[j].registered() == old(self).interrupts_seq()[j].registered(),
                forall|j: int|
                    0 <= j < i && !old(self).interrupts_seq()[j].registered()
                        ==> vm.registered_gsis().contains(
                        #[trigger] self.interrupts@[j].gsi(),
                    ),
                forall|g: u32|
                    (forall|j: int|
                        0 <= j < old(self).interrupts_seq().len()
                            ==> old(self).interrupts_seq()[j].gsi() != g)
                        ==> vm.registered_gsis().contains(g) == old(vm).registered_gsis().contains(
                        g,
                    ),
            decreases n - i,
        {
            match self.interrupts[i].enable(vm) {
                Ok(()) => {},
                Err(e) => {
                    proof {
                        assert(msi_enable_stopped(
                            old(self).interrupts_seq(),
                            self.interrupts@,
                            i as int,
                        ));
                    }
                    return Err(e);
                },
            }
            i = i + 1;
        }
        Ok(())
    }

    /// Detach every interrupt of the group, in order, stopping at the first
    /// failure.
    pub fn disable<H: Hypervisor>(&mut self, vm: &mut H) -> (r: Result<(), InterruptError>)
        ensures
            final(self).interrupts_seq().len() == old(self).interrupts_seq().len(),
            final(vm).gsi_routes() == old(vm).gsi_routes(),
            final(vm).commit_count() == old(vm).commit_count(),
            forall|j: int|
                0 <= j < old(self).interrupts_seq().len() ==> ({
                    let pre = old(self).interrupts_seq()[j];
                    let post = #[trigger] final(self).interrupts_seq()[j];
                    post.gsi() == pre.gsi() && post.configured() == pre.configured()
                        && post.config() == pre.config()
                }),
            r is Ok ==> forall|j: int|
                0 <= j < final(self).interrupts_seq().len() ==> !(#[trigger] final(self).interrupts_seq()[j].registered()),
            old(self).interrupts_seq().len() == 0 ==> r is Ok,
            (forall|j: int|
                0 <= j < old(self).interrupts_seq().len()
                    ==> !old(self).interrupts_seq()[j].registered()) ==> r is Ok,
            r is Err ==> exists|m: int|
                msi_disable_stopped(old(self).interrupts_seq(), final(self).interrupts_seq(), m),
            forall|g: u32|
                (forall|j: int|
                    0 <= j < old(self).interrupts_seq().len()
                        ==> old(self).interrupts_seq()[j].gsi() != g) ==> final(vm).registered_gsis().contains(g) == old(vm).registered_gsis().contains(g),
    {
        let n = self.interrupts.len();
        let mut i: usize = 0;
        while i < n
            invariant
                i <= n,
                n == self.interrupts@.len(),
                self.interrupts@.len() == old(self).interrupts_seq().len(),
                vm.gsi_routes() == old(vm).gsi_routes(),
                vm.commit_count() == old(vm).commit_count(),
                forall|j: int|
                    0 <= j < old(self).interrupts_seq().len() ==> ({
                        let pre = old(self).interrupts_seq()[j];
                        let post = #[trigger] self.interrupts@[j];
                        post.gsi() == pre.gsi() && post.configured() == pre.configured()
                            && post.config() == pre.config()
                    }),
                forall|j: int| 0 <= j < i ==> !(#[trigger] self.interrupts@[j].registered()),
                forall|j: int|
                    i <= j < n ==> #[trigger] self.interrupts@[j].registered() == old(self).interrupts_seq()[j].registered(),
                forall|g: u32|
                    (forall|j: int|
                        0 <= j < old(self).interrupts_seq().len()
                            ==> old(self).interrupts_seq()[j].gsi() != g)
                        ==> vm.registered_gsis().contains(g) == old(vm).registered_gsis().contains(
                        g,
                    ),
            decreases n - i,
        {
            match self.interrupts[i].disable(vm) {
                Ok(()) => {},
                Err(e) => {
                    proof {
                        assert(msi_disable_stopped(
                            old(self).interrupts_seq(),
                            self.interrupts@,
                            i as int,
                        ));
                    }
                    return Err(e);
                },
            }
            i = i + 1;
        }
        Ok(())
    }

    /// Nothing to do: interrupts are reclaimed when the group is dropped.
    pub fn free_interrupts(&mut self) -> (r: Result<(), InterruptError>)
        ensures
            r is Ok,
            final(self).interrupts_seq() == old(self).interrupts_seq(),
    {
        Ok(())
    }
}

/// A group `enable` stopped at index `m`: everything before `m` is attached,
/// and from `m` on every `registered` flag is as it was.
pub open spec fn legacy_enable_stopped(
    pre: Seq<KvmLegacyInterrupt>,
    post: Seq<KvmLegacyInterrupt>,
    m: int,
) -> bool {
    &&& 0 <= m < pre.len()
    &&& forall|j: int| 0 <= j < m ==> #[trigger] post[j].registered()
    &&& forall|j: int| m <= j < pre.len() ==> #[trigger] post[j].registered() == pre[j].registered()
}

/// A group `disable` stopped at index `m`: everything before `m` is detached,
/// and from `m` on every `registered` flag is as it was.
pub open spec fn legacy_disable_stopped(
    pre: Seq<KvmLegacyInterrupt>,
    post: Seq<KvmLegacyInterrupt>,
    m: int,
) -> bool {
    &&& 0 <= m < pre.len()
    &&& forall|j: int| 0 <= j < m ==> !(#[trigger] post[j].registered())
    &&& forall|j: int| m <= j < pre.len() ==> #[trigger] post[j].registered() == pre[j].registered()
}

/// A batch of legacy interrupts serving one device.
pub struct KvmLegacyInterruptGroup {
    interrupts: Vec<KvmLegacyInterrupt>,
}

impl KvmLegacyInterruptGroup {
    /// The interrupts of the group, in allocation order.
    pub closed spec fn interrupts_seq(&self) -> Seq<KvmLegacyInterrupt> {
        self.interrupts@
    }

    /// An empty group.
    pub fn new() -> (r: Self)
        ensures
            r.interrupts_seq().len() == 0,
    {
        KvmLegacyInterruptGroup { interrupts: Vec::new() }
    }

    pub fn is_empty(&self) -> (r: bool)
        ensures
            r == (self.interrupts_seq().len() == 0),
    {
        self.interrupts.len() == 0
    }

    pub fn len(&self) -> (r: usize)
        ensures
            r == self.interrupts_seq().len(),
    {
        self.interrupts.len()
    }

    /// The interrupt at `index`, or `None` past the end.
    pub fn get(&self, index: usize) -> (r: Option<&KvmLegacyInterrupt>)
        ensures
            index < self.interrupts_seq().len() ==> r is Some && *r->0
                == self.interrupts_seq()[index as int],
            index >= self.interrupts_seq().len() ==> r is None,
    {
        if index < self.interrupts.len() {
            Some(&self.interrupts[index])
        } else {
            None
        }
    }

    /// Draw `size` fresh GSIs and add one interrupt for each; the GSIs come
    /// out consecutively. On an error (no GSI left, or the kernel refused a
    /// descriptor) the interrupts made so far stay in the group.
    pub fn allocate_interrupts<A: GsiAllocator>(
        &mut self,
        allocator: &mut A,
        size: usize,
    ) -> (r: Result<(), InterruptError>)
        ensures
            final(allocator).next_irq() == old(allocator).next_irq(),
            final(allocator).max_irq() == old(allocator).max_irq(),
            forall|j: int|
                0 <= j < old(self).interrupts_seq().len() ==> final(self).interrupts_seq()[j]
                    == old(self).interrupts_seq()[j],
            forall|j: int|
                old(self).interrupts_seq().len() <= j < final(self).interrupts_seq().len() ==> ({
                    let it = #[trigger] final(self).interrupts_seq()[j];
                    &&& it.gsi() == old(allocator).next_gsi() + (j - old(self).interrupts_seq().len())
                    &&& !it.registered()
                    &&& !it.configured()
                    &&& it.config() is None
                }),
            r is Ok ==> final(self).interrupts_seq().len() == old(self).interrupts_seq().len()
                + size && final(allocator).next_gsi() == old(allocator).next_gsi() + size,
            r is Err ==> final(self).interrupts_seq().len() <= old(self).interrupts_seq().len()
                + size,
            size == 0 ==> r is Ok,
            r is Err ==> r == Err::<(), InterruptError>(InterruptError::GsiExhausted)
                || r->Err_0 is NotifierFd,
            r == Err::<(), InterruptError>(InterruptError::GsiExhausted) ==> final(allocator).next_gsi() == old(allocator).next_gsi() + (final(self).interrupts_seq().len()
                - old(self).interrupts_seq().len()) && old(allocator).next_gsi() + (final(self).interrupts_seq().len() - old(self).interrupts_seq().len()) == u32::MAX,
            r is Err && r->Err_0 is NotifierFd ==> final(allocator).next_gsi() == old(allocator).next_gsi() + (final(self).interrupts_seq().len() - old(self).interrupts_seq().len())
                + 1,
    {
        let ghost n0 = self.interrupts@.len();
        let ghost g0 = allocator.next_gsi();
        let mut made: usize = 0;
        while made < size
            invariant
                made <= size,
                n0 == old(self).interrupts_seq().len(),
                g0 == old(allocator).next_gsi(),
                self.interrupts@.len() == n0 + made,
                allocator.next_gsi() == g0 + made,
                allocator.next_irq() == old(allocator).next_irq(),
                allocator.max_irq() == old(allocator).max_irq(),
                forall|j: int|
                    0 <= j < n0 ==> self.interrupts@[j] == old(self).interrupts_seq()[j],
                forall|j: int|
                    n0 <= j < self.interrupts@.len() ==> ({
                        let it = #[trigger] self.interrupts@[j];
                        &&& it.gsi() == g0 + (j - n0)
                        &&& !it.registered()
                        &&& !it.configured()
                        &&& it.config() is None
                    }),
            decreases size - made,
        {
            let gsi = match allocator.allocate_gsi() {
                Ok(gsi) => gsi,
                Err(_) => {
                    return Err(InterruptError::GsiExhausted);
                },
            };
            let interrupt = match KvmLegacyInterrupt::new(gsi) {
                Ok(interrupt) => interrupt,
                Err(e) => {
                    return Err(InterruptError::NotifierFd(e));
                },
            };
            self.interrupts.push(interrupt);
            made = made + 1;
        }
        Ok(())
    }

    /// Route the interrupt at `index`: see [`KvmLegacyInterrupt::update`].
    pub fn update_at<H: Hypervisor>(
        &mut self,
        index: usize,
        table: &mut KvmIrqRoutingTable,
        vm: &mut H,
        cfg: &LegacyIrqConfig,
    ) -> (r: Result<(), InterruptError>)
        requires
            index < old(self).interrupts_seq().len(),
            old(table).wf(),
        ensures
            final(table).wf(),
            final(self).interrupts_seq().len() == old(self).interrupts_seq().len(),
            forall|j: int|
                0 <= j < old(self).interrupts_seq().len() && j != index
                    ==> final(self).interrupts_seq()[j] == old(self).interrupts_seq()[j],
            final(vm).registered_gsis() == old(vm).registered_gsis(),
            ({
                let pre = old(self).interrupts_seq()[index as int];
                let post = final(self).interrupts_seq()[index as int];
                &&& post.gsi() == pre.gsi()
                &&& post.registered() == pre.registered()
                &&& (r is Ok ==> post.configured())
                &&& (r is Err ==> post.configured() == pre.configured() && post.config()
                    == pre.config())
            }),
    {
        self.interrupts[index].update(table, vm, cfg)
    }

    /// Attach every interrupt of the group, in order, stopping at the first
    /// failure.
    pub fn enable<H: Hypervisor>(&mut self, vm: &mut H) -> (r: Result<(), InterruptError>)
        ensures
            final(self).interrupts_seq().len() == old(self).interrupts_seq().len(),
            final(vm).gsi_routes() == old(vm).gsi_routes(),
            final(vm).commit_count() == old(vm).commit_count(),
            forall|j: int|
                0 <= j < old(self).interrupts_seq().len() ==> ({
                    let pre = old(self).interrupts_seq()[j];
                    let post = #[trigger] final(self).interrupts_seq()[j];
                    post.gsi() == pre.gsi() && post.configured() == pre.configured()
                        && post.config() == pre.config()
                }),
            r is Ok ==> forall|j: int|
                0 <= j < final(self).interrupts_seq().len() ==> #[trigger] final(self).interrupts_seq()[j].registered(),
            r is Ok ==> forall|j: int|
                0 <= j < final(self).interrupts_seq().len() && !old(self).interrupts_seq()[j].registered()
                    ==> final(vm).registered_gsis().contains(
                    #[trigger] final(self).interrupts_seq()[j].gsi(),
                ),
            old(self).interrupts_seq().len() == 0 ==> r is Ok,
            (forall|j: int|
                0 <= j < old(self).interrupts_seq().len()
                    ==> old(self).interrupts_seq()[j].registered() && old(self).interrupts_seq()[j].configured()) ==> r is Ok,
            r is Err ==> exists|m: int|
                legacy_enable_stopped(old(self).interrupts_seq(), final(self).interrupts_seq(), m),
            forall|g: u32|
                (forall|j: int|
                    0 <= j < old(self).interrupts_seq().len()
                        ==> old(self).interrupts_seq()[j].gsi() != g) ==> final(vm).registered_gsis().contains(g) == old(vm).registered_gsis().contains(g),
    {
        let n = self.interrupts.len();
        let mut i: usize = 0;
        while i < n
            invariant
                i <= n,
                n == self.interrupts@.len(),
                self.interrupts@.len() == old(self).interrupts_seq().len(),
                vm.gsi_routes() == old(vm).gsi_routes(),
                vm.commit_count() == old(vm).commit_count(),
                forall|j: int|
                    0 <= j < old(self).interrupts_seq().len() ==> ({
                        let pre = old(self).interrupts_seq()[j];
                        let post = #[trigger] self.interrupts@[j];
                        post.gsi() == pre.gsi() && post.configured() == pre.configured()
                            && post.config() == pre.config()
                    }),
                forall|j: int| 0 <= j < i ==> #[trigger] self.interrupts@[j].registered(),
                forall|j: int|
                    i <= j < n ==> #[trigger] self.interrupts@[j].registered() == old(self).interrupts_seq()[j].registered(),
                forall|j: int|
                    0 <= j < i && !old(self).interrupts_seq()[j].registered()
                        ==> vm.registered_gsis().contains(
                        #[trigger] self.interrupts@[j].gsi(),
                    ),
                forall|g: u32|
                    (forall|j: int|
                        0 <= j < old(self).interrupts_seq().len()
                            ==> old(self).interrupts_seq()[j].gsi() != g)
                        ==> vm.registered_gsis().contains(g) == old(vm).registered_gsis().contains(
                        g,
                    ),
            decreases n - i,
        {
            match self.interrupts[i].enable(vm) {
                Ok(()) => {},
                Err(e) => {
                    proof {
                        assert(legacy_enable_stopped(
                            old(self).interrupts_seq(),
                            self.interrupts@,
                            i as int,
                        ));
                    }
                    return Err(e);
                },
            }
            i = i + 1;
        }
        Ok(())
    }

    /// Detach every interrupt of the group, in order, stopping at the first
    /// failure.
    pub fn disable<H: Hypervisor>(&mut self, vm: &mut H) -> (r: Result<(), InterruptError>)
        ensures
            final(self).interrupts_seq().len() == old(self).interrupts_seq().len(),
            final(vm).gsi_routes() == old(vm).gsi_routes(),
            final(vm).commit_count() == old(vm).commit_count(),
            forall|j: int|
                0 <= j < old(self).interrupts_seq().len() ==> ({
                    let pre = old(self).interrupts_seq()[j];
                    let post = #[trigger] final(self).interrupts_seq()[j];
                    post.gsi() == pre.gsi() && post.configured() == pre.configured()
                        && post.config() == pre.config()
                }),
            r is Ok ==> forall|j: int|
                0 <= j < final(self).interrupts_seq().len() ==> !(#[trigger] final(self).interrupts_seq()[j].registered()),
            old(self).interrupts_seq().len() == 0 ==> r is Ok,
            (forall|j: int|
                0 <= j < old(self).interrupts_seq().len()
                    ==> !old(self).interrupts_seq()[j].registered()) ==> r is Ok,
            r is Err ==> exists|m: int|
                legacy_disable_stopped(old(self).interrupts_seq(), final(self).interrupts_seq(), m),
            forall|g: u32|
                (forall|j: int|
                    0 <= j < old(self).interrupts_seq().len()
                        ==> old(self).interrupts_seq()[j].gsi() != g) ==> final(vm).registered_gsis().contains(g) == old(vm).registered_gsis().contains(g),
    {
        let n = self.interrupts.len();
        let mut i: usize = 0;
        while i < n
            invariant
                i <= n,
                n == self.interrupts@.len(),
                self.interrupts@.len() == old(self).interrupts_seq().len(),
                vm.gsi_routes() == old(vm).gsi_routes(),
                vm.commit_count() == old(vm).commit_count(),
                forall|j: int|
                    0 <= j < old(self).interrupts_seq().len() ==> ({
                        let pre = old(self).interrupts_seq()[j];
                        let post = #[trigger] self.interrupts@[j];
                        post.gsi() == pre.gsi() && post.configured() == pre.configured()
                            && post.config() == pre.config()
                    }),
                forall|j: int| 0 <= j < i ==> !(#[trigger] self.interrupts@[j].registered()),
                forall|j: int|
                    i <= j < n ==> #[trigger] self.interrupts@[j].registered() == old(self).interrupts_seq()[j].registered(),
                forall|g: u32|
                    (forall|j: int|
                        0 <= j < old(self).interrupts_seq().len()
                            ==> old(self).interrupts_seq()[j].gsi() != g)
                        ==> vm.registered_gsis().contains(g) == old(vm).registered_gsis().contains(
                        g,
                    ),
            decreases n - i,
        {
            match self.interrupts[i].disable(vm) {
                Ok(()) => {},
                Err(e) => {
                    proof {
                        assert(legacy_disable_stopped(
                            old(self).interrupts_seq(),
                            self.interrupts@,
                            i as int,
                        ));
                    }
                    return Err(e);
                },
            }
            i = i + 1;
        }
        Ok(())
    }

    /// Nothing to do: interrupts are reclaimed when the group is dropped.
    pub fn free_interrupts(&mut self) -> (r: Result<(), InterruptError>)
        ensures
            r is Ok,
            final(self).interrupts_seq() == old(self).interrupts_seq(),
    {
        Ok(())
    }
}

/// Owns the machine-wide interrupt state: the hypervisor handle, the GSI
/// allocator and the routing table. Devices take groups from it and route
/// them against its table.
pub struct KvmInterruptManager<H: Hypervisor> {
    pub vm: H,
    pub allocator: DefaultGsiAllocator,
    pub routing_table: KvmIrqRoutingTable,
}

impl<H: Hypervisor> KvmInterruptManager<H> {
    /// Build the manager around a hypervisor handle: a fresh GSI allocator
    /// capped at `IRQ_MAX`, and an empty routing table committed once.
    pub fn new(vm: H) -> (r: Result<KvmInterruptManager<H>, Error>)
        ensures
            r is Ok ==> ({
                let m = r->Ok_0;
                &&& m.routing_table.wf()
                &&& m.routing_table.entries() == Seq::<crate::kvm_irq_routing::RouteEntry>::empty()
                &&& m.allocator.next_irq() == crate::arch::IRQ_BASE
                &&& m.allocator.next_gsi() == crate::arch::IRQ_MAX + 1
                &&& m.vm.gsi_routes() == Seq::<crate::kvm_irq_routing::RouteEntry>::empty()
                &&& m.vm.commit_count() == vm.commit_count() + 1
                &&& m.vm.registered_gsis() == vm.registered_gsis()
            }),
            r is Err ==> r == Err::<KvmInterruptManager<H>, Error>(
                Error::GsiRoutingError(crate::hypervisor::HypervisorError::SetGsiRouting),
            ),
    {
        let mut vm = vm;
        let routing_table = match KvmIrqRoutingTable::new(&mut vm) {
            Ok(t) => t,
            Err(e) => {
                return Err(e);
            },
        };
        let allocator = DefaultGsiAllocator::new(crate::arch::IRQ_MAX);
        Ok(KvmInterruptManager { vm, allocator, routing_table })
    }

    /// A fresh, empty MSI group.
    pub fn get_new_msi_group(&self) -> (r: Result<KvmMsiInterruptGroup, Error>)
        ensures
            r is Ok && r->Ok_0.interrupts_seq().len() == 0,
    {
        Ok(KvmMsiInterruptGroup::new())
    }

    /// A fresh, empty legacy group.
    pub fn get_new_legacy_group(&self) -> (r: Result<KvmLegacyInterruptGroup, Error>)
        ensures
            r is Ok && r->Ok_0.interrupts_seq().len() == 0,
    {
        Ok(KvmLegacyInterruptGroup::new())
    }
}

/// Law: `disable` followed by `enable`, with no `update` in between, leaves
/// the hypervisor's set of attached GSIs exactly as it was before the
/// `disable`. Together with the contracts of `disable` and `enable` — which
/// keep `gsi`, `configured` and the stored configuration untouched and flip
/// only `registered` — a registered interrupt is equivalent to its
/// pre-disable state after the pair.
pub proof fn lemma_disable_enable_restores(fds0: Set<u32>, gsi: u32, fds1: Set<u32>, fds2: Set<
    u32,
>)
    requires
        fds0.contains(gsi),
        fds1 == fds0.remove(gsi),
        fds2 == fds1.insert(gsi),
    ensures
        fds2 == fds0,
{
    assert(fds2 =~= fds0);
}

} // verus!
