//! The GSI routing table.
//!
//! Routing entries bind a GSI either to a pin of an in-kernel interrupt chip
//! or to an MSI message. The table keyed by [`route_key`] is mirrored to the
//! hypervisor after every change: each mutation rewrites the in-memory table,
//! commits the whole table in one call, and rolls the memory image back if
//! the commit is refused.

use vstd::prelude::*;

use crate::arch::IRQ_MAX;
use crate::hypervisor::{Hypervisor, HypervisorError};
use crate::kvm_irqchip::{
    ioapic_alloc, lemma_ioapic_alloc_shrinks, lemma_pic_alloc_shrinks, pic_alloc,
    pins_without_two, pools_wf, IoApic, XtPic,
};
use vstd::pervasive::VecAdditionalExecFns;

verus! {

/// Entry type tag for a route into an in-kernel interrupt chip.
pub const KVM_IRQ_ROUTING_IRQCHIP: u32 = 1;

/// Entry type tag for a message-signaled interrupt route.
pub const KVM_IRQ_ROUTING_MSI: u32 = 2;

/// The master 8259 PIC.
pub const KVM_IRQCHIP_PIC_MASTER: u32 = 0;

/// The slave 8259 PIC, cascaded into pin 2 of the master.
pub const KVM_IRQCHIP_PIC_SLAVE: u32 = 1;

/// The IO-APIC.
pub const KVM_IRQCHIP_IOAPIC: u32 = 2;

/// Flag on an MSI entry saying that its `devid` field is meaningful.
pub const KVM_MSI_VALID_DEVID: u32 = 1;

/// Maximum number of GSI routes the hypervisor accepts.
pub const MAX_ROUTES: usize = 4096;

#[derive(Clone, Copy, Debug, PartialEq, Eq, Structural)]
pub enum RouteKind {
    /// A route into an in-kernel interrupt chip: deliver on `pin` of `chip`.
    Irqchip { chip: u32, pin: u32 },
    /// A message-signaled interrupt: deliver by writing `data` to the
    /// address `address_hi:address_lo` on behalf of device `devid`.
    Msi { address_hi: u32, address_lo: u32, data: u32, devid: u32 },
}

/// One routing rule, owned by `gsi`.
#[derive(Clone, Copy, Debug, PartialEq, Eq, Structural)]
pub struct RouteEntry {
    pub gsi: u32,
    pub flags: u32,
    pub kind: RouteKind,
}

#[derive(Clone, Copy, Debug, PartialEq, Eq, Structural)]
pub enum Error {
    /// The hypervisor rejected the routing table; the in-memory image was
    /// rolled back.
    GsiRoutingError(HypervisorError),
    /// No free pin was found for the interrupt.
    PinAllocationError,
    /// The entry cannot be added: its key is already taken or the table is
    /// full (the kernel would say `EINVAL`).
    InvalidEntry,
    /// No entry with this key exists (the kernel would say `ENOENT`).
    NoSuchEntry,
}

/// The on-wire entry type of an entry.
pub open spec fn entry_type(e: RouteEntry) -> u32 {
    match e.kind {
        RouteKind::Irqchip { .. } => KVM_IRQ_ROUTING_IRQCHIP,
        RouteKind::Msi { .. } => KVM_IRQ_ROUTING_MSI,
    }
}

/// The chip field that keys an entry: the concrete chip for IRQCHIP entries
/// and zero otherwise.
pub open spec fn entry_chip(e: RouteEntry) -> u32 {
    match e.kind {
        RouteKind::Irqchip { chip, .. } => chip,
        RouteKind::Msi { .. } => 0u32,
    }
}

/// The composite key an entry is stored under:
/// `(chip << 48) | (type << 32) | gsi`. The chip takes part so that one GSI
/// may be routed at once to the master PIC and to the IO-APIC without the two
/// entries colliding.
pub open spec fn route_key(e: RouteEntry) -> u64 {
    ((entry_chip(e) as u64) << 48) | ((entry_type(e) as u64) << 32) | (e.gsi as u64)
}

/// Builds the MSI entry `route_msi` installs.
pub open spec fn msi_entry(gsi: u32, high_addr: u32, low_addr: u32, data: u32, devid: u32)
    -> RouteEntry {
    RouteEntry {
        gsi,
        flags: KVM_MSI_VALID_DEVID,
        kind: RouteKind::Msi { address_hi: high_addr, address_lo: low_addr, data, devid },
    }
}

/// Builds an IRQCHIP entry.
pub open spec fn irqchip_entry(chip: u32, gsi: u32, pin: u32) -> RouteEntry {
    RouteEntry { gsi, flags: 0, kind: RouteKind::Irqchip { chip, pin } }
}

pub open spec fn sorted_by_key(s: Seq<RouteEntry>) -> bool {
    forall|i: int, j: int| 0 <= i < j < s.len() ==> route_key(s[i]) < route_key(s[j])
}

pub open spec fn contains_key(s: Seq<RouteEntry>, k: u64) -> bool {
    exists|i: int| 0 <= i < s.len() && route_key(s[i]) == k
}

/// Insert `e` in key order, replacing the entry under the same key if one
/// exists.
pub open spec fn upsert(s: Seq<RouteEntry>, e: RouteEntry) -> Seq<RouteEntry>
    decreases s.len(),
{
    if s.len() == 0 {
        seq![e]
    } else if route_key(e) < route_key(s[0]) {
        seq![e] + s
    } else if route_key(e) == route_key(s[0]) {
        seq![e] + s.drop_first()
    } else {
        seq![s[0]] + upsert(s.drop_first(), e)
    }
}

/// Delete the entry under key `k`, if any.
pub open spec fn remove_key(s: Seq<RouteEntry>, k: u64) -> Seq<RouteEntry>
    decreases s.len(),
{
    if s.len() == 0 {
        s
    } else if route_key(s[0]) == k {
        s.drop_first()
    } else {
        seq![s[0]] + remove_key(s.drop_first(), k)
    }
}

/// What `upsert` does: it keeps the order, grows the table only for a fresh
/// key, holds exactly the new entry and the old ones under other keys, and
/// afterwards the new key is present.
#[verifier::rlimit(60)]
pub proof fn lemma_upsert_properties(s: Seq<RouteEntry>, e: RouteEntry)
    requires
        sorted_by_key(s),
    ensures
        sorted_by_key(upsert(s, e)),
        upsert(s, e).len() == if contains_key(s, route_key(e)) { s.len() } else { s.len() + 1 },
        forall|i: int|
            0 <= i < upsert(s, e).len() ==> upsert(s, e)[i] == e || s.contains(
                #[trigger] upsert(s, e)[i],
            ),
        forall|k: u64|
            #[trigger] contains_key(upsert(s, e), k) <==> contains_key(s, k) || k == route_key(e),
    decreases s.len(),
{
    let t = upsert(s, e);
    let ke = route_key(e);
    if s.len() == 0 {
        assert forall|k: u64| #[trigger] contains_key(t, k) implies contains_key(s, k) || k == ke by {
            let i = choose|i: int| 0 <= i < t.len() && route_key(t[i]) == k;
            assert(t[i] == e);
        }
        assert(route_key(t[0]) == ke);
    } else if ke < route_key(s[0]) {
        assert(!contains_key(s, ke)) by {
            if contains_key(s, ke) {
                let i = choose|i: int| 0 <= i < s.len() && route_key(s[i]) == ke;
                if i > 0 {
                    assert(route_key(s[0]) < route_key(s[i]));
                }
            }
        }
        assert(sorted_by_key(t)) by {
            assert forall|i: int, j: int| 0 <= i < j < t.len() implies route_key(t[i]) < route_key(
                t[j],
            ) by {
                if i == 0 {
                    assert(t[j] == s[j - 1]);
                    if j > 1 {
                        assert(route_key(s[0]) < route_key(s[j - 1]));
                    }
                } else {
                    assert(t[i] == s[i - 1] && t[j] == s[j - 1]);
                }
            }
        }
        assert(route_key(t[0]) == ke);
        assert forall|k: u64| #[trigger] contains_key(t, k) implies contains_key(s, k) || k == ke by {
            let i = choose|i: int| 0 <= i < t.len() && route_key(t[i]) == k;
            if i > 0 {
                assert(t[i] == s[i - 1]);
            }
        }
        assert forall|k: u64| contains_key(s, k) implies #[trigger] contains_key(t, k) by {
            let i = choose|i: int| 0 <= i < s.len() && route_key(s[i]) == k;
            assert(t[i + 1] == s[i]);
        }
    } else if ke == route_key(s[0]) {
        assert(contains_key(s, ke));
        assert(route_key(t[0]) == ke);
        assert forall|i: int, j: int| 0 <= i < j < t.len() implies route_key(t[i]) < route_key(
            t[j],
        ) by {
            if i == 0 {
                assert(t[j] == s[j]);
                assert(route_key(s[0]) < route_key(s[j]));
            } else {
                assert(t[i] == s[i] && t[j] == s[j]);
            }
        }
        assert forall|i: int| 0 <= i < t.len() && i > 0 implies s.contains(t[i]) by {
            assert(t[i] == s[i]);
        }
        assert forall|k: u64| #[trigger] contains_key(t, k) implies contains_key(s, k) || k == ke by {
            let i = choose|i: int| 0 <= i < t.len() && route_key(t[i]) == k;
            if i > 0 {
                assert(t[i] == s[i]);
            }
        }
        assert forall|k: u64| contains_key(s, k) implies #[trigger] contains_key(t, k) by {
            let i = choose|i: int| 0 <= i < s.len() && route_key(s[i]) == k;
            if i > 0 {
                assert(t[i] == s[i]);
            } else {
                assert(route_key(t[0]) == k);
            }
        }
    } else {
        let rest = s.drop_first();
        assert(sorted_by_key(rest)) by {
            assert forall|i: int, j: int|
                0 <= i < j < rest.len() implies route_key(rest[i]) < route_key(rest[j]) by {
                assert(rest[i] == s[i + 1] && rest[j] == s[j + 1]);
            }
        }
        lemma_upsert_properties(rest, e);
        let tr = upsert(rest, e);
        assert(t == seq![s[0]] + tr);
        assert(t[0] == s[0]);
        assert forall|i: int| 0 < i < t.len() implies t[i] == tr[i - 1] by {
        }
        // Every element of the result is e or an element of s.
        assert forall|i: int|
            0 <= i < t.len() implies t[i] == e || s.contains(#[trigger] t[i]) by {
            if i == 0 {
                assert(s[0] == t[0]);
                assert(s.contains(s[0]));
            } else {
                assert(t[i] == tr[i - 1]);
                if tr[i - 1] == e {
                } else {
                    assert(rest.contains(tr[i - 1]));
                    let j = choose|j: int| 0 <= j < rest.len() && rest[j] == tr[i - 1];
                    assert(s[j + 1] == rest[j]);
                }
            }
        }
        // Sortedness: s[0] is below everything in tr.
        assert forall|i: int, j: int| 0 <= i < j < t.len() implies route_key(t[i]) < route_key(
            t[j],
        ) by {
            if i == 0 {
                assert(t[j] == tr[j - 1]);
                if tr[j - 1] == e {
                    assert(route_key(s[0]) < ke);
                } else {
                    assert(rest.contains(tr[j - 1]));
                    let m = choose|m: int| 0 <= m < rest.len() && rest[m] == tr[j - 1];
                    assert(s[m + 1] == rest[m]);
                    assert(route_key(s[0]) < route_key(s[m + 1]));
                }
            } else {
                assert(t[i] == tr[i - 1] && t[j] == tr[j - 1]);
            }
        }
        // Key membership.
        assert(!contains_key(s, ke) ==> !contains_key(rest, ke)) by {
            if contains_key(rest, ke) {
                let i = choose|i: int| 0 <= i < rest.len() && route_key(rest[i]) == ke;
                assert(s[i + 1] == rest[i]);
            }
        }
        assert(contains_key(s, ke) ==> contains_key(rest, ke)) by {
            if contains_key(s, ke) {
                let i = choose|i: int| 0 <= i < s.len() && route_key(s[i]) == ke;
                assert(i > 0);
                assert(rest[i - 1] == s[i]);
            }
        }
        assert forall|k: u64| #[trigger] contains_key(t, k) implies contains_key(s, k) || k == ke by {
            let i = choose|i: int| 0 <= i < t.len() && route_key(t[i]) == k;
            if i == 0 {
                assert(route_key(s[0]) == k);
            } else {
                assert(t[i] == tr[i - 1]);
                assert(contains_key(tr, k));
                if contains_key(rest, k) {
                    let m = choose|m: int| 0 <= m < rest.len() && route_key(rest[m]) == k;
                    assert(s[m + 1] == rest[m]);
                }
            }
        }
        assert forall|k: u64|
            contains_key(s, k) || k == ke implies #[trigger] contains_key(t, k) by {
            if k == ke {
                assert(contains_key(tr, ke));
                let m = choose|m: int| 0 <= m < tr.len() && route_key(tr[m]) == ke;
                assert(t[m + 1] == tr[m]);
            } else {
                let i = choose|i: int| 0 <= i < s.len() && route_key(s[i]) == k;
                if i == 0 {
                    assert(route_key(t[0]) == k);
                } else {
                    assert(rest[i - 1] == s[i]);
                    assert(contains_key(rest, k));
                    assert(contains_key(tr, k));
                    let m = choose|m: int| 0 <= m < tr.len() && route_key(tr[m]) == k;
                    assert(t[m + 1] == tr[m]);
                }
            }
        }
    }
}

/// What `remove_key` does: it keeps the order, shrinks the table exactly when
/// the key was present, keeps every entry under another key, and afterwards
/// the key is gone.
#[verifier::rlimit(60)]
pub proof fn lemma_remove_key_properties(s: Seq<RouteEntry>, k: u64)
    requires
        sorted_by_key(s),
    ensures
        sorted_by_key(remove_key(s, k)),
        remove_key(s, k).len() == if contains_key(s, k) { s.len() - 1 } else { s.len() as int },
        forall|i: int| 0 <= i < remove_key(s, k).len() ==> s.contains(#[trigger] remove_key(s, k)[i]),
        !contains_key(remove_key(s, k), k),
        forall|k2: u64|
            #[trigger] contains_key(remove_key(s, k), k2) <==> contains_key(s, k2) && k2 != k,
    decreases s.len(),
{
    let t = remove_key(s, k);
    if s.len() == 0 {
    } else if route_key(s[0]) == k {
        assert(t == s.drop_first());
        assert(contains_key(s, k));
        assert forall|i: int| 0 <= i < t.len() implies s.contains(#[trigger] t[i]) by {
            assert(t[i] == s[i + 1]);
        }
        assert forall|i: int, j: int| 0 <= i < j < t.len() implies route_key(t[i]) < route_key(
            t[j],
        ) by {
            assert(t[i] == s[i + 1] && t[j] == s[j + 1]);
        }
        assert(!contains_key(t, k)) by {
            if contains_key(t, k) {
                let i = choose|i: int| 0 <= i < t.len() && route_key(t[i]) == k;
                assert(t[i] == s[i + 1]);
                assert(route_key(s[0]) < route_key(s[i + 1]));
            }
        }
        assert forall|k2: u64|
            #[trigger] contains_key(t, k2) implies contains_key(s, k2) && k2 != k by {
            let i = choose|i: int| 0 <= i < t.len() && route_key(t[i]) == k2;
            assert(t[i] == s[i + 1]);
            assert(route_key(s[0]) < route_key(s[i + 1]));
        }
        assert forall|k2: u64|
            contains_key(s, k2) && k2 != k implies #[trigger] contains_key(t, k2) by {
            let i = choose|i: int| 0 <= i < s.len() && route_key(s[i]) == k2;
            assert(i > 0);
            assert(t[i - 1] == s[i]);
        }
    } else {
        let rest = s.drop_first();
        assert(sorted_by_key(rest)) by {
            assert forall|i: int, j: int|
                0 <= i < j < rest.len() implies route_key(rest[i]) < route_key(rest[j]) by {
                assert(rest[i] == s[i + 1] && rest[j] == s[j + 1]);
            }
        }
        lemma_remove_key_properties(rest, k);
        let tr = remove_key(rest, k);
        assert(t == seq![s[0]] + tr);
        assert(contains_key(s, k) <==> contains_key(rest, k)) by {
            if contains_key(s, k) {
                let i = choose|i: int| 0 <= i < s.len() && route_key(s[i]) == k;
                assert(i > 0);
                assert(rest[i - 1] == s[i]);
            }
            if contains_key(rest, k) {
                let i = choose|i: int| 0 <= i < rest.len() && route_key(rest[i]) == k;
                assert(s[i + 1] == rest[i]);
            }
        }
        assert forall|i: int| 0 <= i < t.len() implies s.contains(#[trigger] t[i]) by {
            if i == 0 {
                assert(t[0] == s[0]);
                assert(s.contains(s[0]));
            } else {
                assert(t[i] == tr[i - 1]);
                assert(rest.contains(tr[i - 1]));
                let m = choose|m: int| 0 <= m < rest.len() && rest[m] == tr[i - 1];
                assert(s[m + 1] == rest[m]);
            }
        }
        assert forall|i: int, j: int| 0 <= i < j < t.len() implies route_key(t[i]) < route_key(
            t[j],
        ) by {
            if i == 0 {
                assert(t[j] == tr[j - 1]);
                assert(rest.contains(tr[j - 1]));
                let m = choose|m: int| 0 <= m < rest.len() && rest[m] == tr[j - 1];
                assert(s[m + 1] == rest[m]);
                assert(route_key(s[0]) < route_key(s[m + 1]));
            } else {
                assert(t[i] == tr[i - 1] && t[j] == tr[j - 1]);
            }
        }
        assert(!contains_key(t, k)) by {
            if contains_key(t, k) {
                let i = choose|i: int| 0 <= i < t.len() && route_key(t[i]) == k;
                if i > 0 {
                    assert(t[i] == tr[i - 1]);
                    assert(contains_key(tr, k));
                }
            }
        }
        assert forall|k2: u64|
            #[trigger] contains_key(t, k2) implies contains_key(s, k2) && k2 != k by {
            let i = choose|i: int| 0 <= i < t.len() && route_key(t[i]) == k2;
            if i == 0 {
                assert(route_key(s[0]) == k2);
            } else {
                assert(t[i] == tr[i - 1]);
                assert(contains_key(tr, k2));
                let m = choose|m: int| 0 <= m < rest.len() && route_key(rest[m]) == k2;
                assert(s[m + 1] == rest[m]);
            }
        }
        assert forall|k2: u64|
            contains_key(s, k2) && k2 != k implies #[trigger] contains_key(t, k2) by {
            let i = choose|i: int| 0 <= i < s.len() && route_key(s[i]) == k2;
            if i == 0 {
                assert(route_key(t[0]) == k2);
            } else {
                assert(rest[i - 1] == s[i]);
                assert(contains_key(rest, k2));
                assert(contains_key(tr, k2));
                let m = choose|m: int| 0 <= m < tr.len() && route_key(tr[m]) == k2;
                assert(t[m + 1] == tr[m]);
            }
        }
    }
}

/// `remove_key` of an absent key changes nothing.
pub proof fn lemma_remove_key_noop(s: Seq<RouteEntry>, k: u64)
    requires
        !contains_key(s, k),
    ensures
        remove_key(s, k) == s,
    decreases s.len(),
{
    if s.len() > 0 {
        assert(route_key(s[0]) != k);
        let rest = s.drop_first();
        assert(!contains_key(rest, k)) by {
            if contains_key(rest, k) {
                let i = choose|i: int| 0 <= i < rest.len() && route_key(rest[i]) == k;
                assert(s[i + 1] == rest[i]);
            }
        }
        lemma_remove_key_noop(rest, k);
        assert(remove_key(s, k) == seq![s[0]] + rest);
        assert(seq![s[0]] + rest =~= s);
    }
}

/// Distinct `(chip, type, gsi)` triples give distinct keys, as long as chip
/// and type fit in 16 bits (the chips and types here are all below 3).
pub proof fn lemma_route_key_injective(e1: RouteEntry, e2: RouteEntry)
    requires
        entry_chip(e1) < 0x10000,
        entry_chip(e2) < 0x10000,
        entry_type(e1) < 0x10000,
        entry_type(e2) < 0x10000,
        route_key(e1) == route_key(e2),
    ensures
        entry_chip(e1) == entry_chip(e2),
        entry_type(e1) == entry_type(e2),
        e1.gsi == e2.gsi,
{
    let c1 = entry_chip(e1) as u64;
    let t1 = entry_type(e1) as u64;
    let g1 = e1.gsi as u64;
    let c2 = entry_chip(e2) as u64;
    let t2 = entry_type(e2) as u64;
    let g2 = e2.gsi as u64;
    assert((c1 < 0x10000 && c2 < 0x10000 && t1 < 0x10000 && t2 < 0x10000 && g1 <= 0xffff_ffff
        && g2 <= 0xffff_ffff && ((c1 << 48) | (t1 << 32) | g1) == ((c2 << 48) | (t2 << 32) | g2))
        ==> (c1 == c2 && t1 == t2 && g1 == g2)) by (bit_vector);
}

/// Law: over the entries this library installs — MSI entries (whose chip
/// field is zero) and IRQCHIP entries on the master PIC, the slave PIC or the
/// IO-APIC — the key is injective in `(chip, type, gsi)`. One GSI routed to
/// both a PIC chip and the IO-APIC therefore occupies two distinct slots.
pub proof fn lemma_route_key_injective_installed(e1: RouteEntry, e2: RouteEntry)
    requires
        entry_chip(e1) <= KVM_IRQCHIP_IOAPIC,
        entry_chip(e2) <= KVM_IRQCHIP_IOAPIC,
        route_key(e1) == route_key(e2),
    ensures
        entry_chip(e1) == entry_chip(e2),
        entry_type(e1) == entry_type(e2),
        e1.gsi == e2.gsi,
{
    lemma_route_key_injective(e1, e2);
}

/// An IRQCHIP entry's pin counts as taken in the matching allocator: it no
/// longer sits in that chip's free pool. Slave PIC entries store `pin - 8`,
/// so the reserved raw pin is `pin + 8`. MSI entries take no pin.
pub open spec fn pin_reserved(e: RouteEntry, ioapic_avail: Seq<u32>, pic_avail: Seq<u32>) -> bool {
    match e.kind {
        RouteKind::Irqchip { chip, pin } => {
            if chip == KVM_IRQCHIP_IOAPIC {
                !ioapic_avail.contains(pin)
            } else if chip == KVM_IRQCHIP_PIC_MASTER {
                !pic_avail.contains(pin)
            } else if chip == KVM_IRQCHIP_PIC_SLAVE {
                forall|q: u32| pic_avail.contains(q) ==> q as int != pin as int + 8
            } else {
                true
            }
        },
        RouteKind::Msi { .. } => true,
    }
}

/// A reserved pin stays reserved when the free pools only shrink.
pub proof fn lemma_pin_reserved_monotone(
    e: RouteEntry,
    ia: Seq<u32>,
    pa: Seq<u32>,
    ia2: Seq<u32>,
    pa2: Seq<u32>,
)
    requires
        pin_reserved(e, ia, pa),
        forall|q: u32| #[trigger] ia2.contains(q) ==> ia.contains(q),
        forall|q: u32| #[trigger] pa2.contains(q) ==> pa.contains(q),
    ensures
        pin_reserved(e, ia2, pa2),
{
}

/// Every entry of a table stays reserved when the free pools only shrink.
pub proof fn lemma_all_reserved_monotone(
    s: Seq<RouteEntry>,
    ia: Seq<u32>,
    pa: Seq<u32>,
    ia2: Seq<u32>,
    pa2: Seq<u32>,
)
    requires
        forall|i: int| 0 <= i < s.len() ==> pin_reserved(#[trigger] s[i], ia, pa),
        forall|q: u32| #[trigger] ia2.contains(q) ==> ia.contains(q),
        forall|q: u32| #[trigger] pa2.contains(q) ==> pa.contains(q),
    ensures
        forall|i: int| 0 <= i < s.len() ==> pin_reserved(#[trigger] s[i], ia2, pa2),
{
    assert forall|i: int| 0 <= i < s.len() implies pin_reserved(#[trigger] s[i], ia2, pa2) by {
        lemma_pin_reserved_monotone(s[i], ia, pa, ia2, pa2);
    }
}

/// Every entry of a table made of `e` and entries of `s` is reserved, when
/// those of `s` are and `e` is.
pub proof fn lemma_all_reserved_elements(
    s: Seq<RouteEntry>,
    t: Seq<RouteEntry>,
    e: RouteEntry,
    ia: Seq<u32>,
    pa: Seq<u32>,
)
    requires
        forall|i: int| 0 <= i < s.len() ==> pin_reserved(#[trigger] s[i], ia, pa),
        pin_reserved(e, ia, pa),
        forall|i: int| 0 <= i < t.len() ==> #[trigger] t[i] == e || s.contains(t[i]),
    ensures
        forall|i: int| 0 <= i < t.len() ==> pin_reserved(#[trigger] t[i], ia, pa),
{
    assert forall|i: int| 0 <= i < t.len() implies pin_reserved(#[trigger] t[i], ia, pa) by {
        if t[i] == e {
        } else {
            let j = choose|j: int| 0 <= j < s.len() && s[j] == t[i];
            assert(pin_reserved(s[j], ia, pa));
        }
    }
}

/// With the insertion point known, `upsert` is an update (key present at that
/// point) or an insert (key absent).
pub proof fn lemma_upsert_at_pos(s: Seq<RouteEntry>, e: RouteEntry, pos: int)
    requires
        sorted_by_key(s),
        0 <= pos <= s.len(),
        forall|i: int| 0 <= i < pos ==> route_key(#[trigger] s[i]) < route_key(e),
        pos < s.len() ==> route_key(s[pos]) >= route_key(e),
    ensures
        pos < s.len() && route_key(s[pos]) == route_key(e) ==> upsert(s, e) == s.update(pos, e),
        (pos == s.len() || route_key(s[pos]) > route_key(e)) ==> upsert(s, e) == s.insert(pos, e),
    decreases s.len(),
{
    let ke = route_key(e);
    if s.len() == 0 {
        assert(upsert(s, e) == seq![e]);
        assert(s.insert(0, e) =~= seq![e]);
    } else if ke < route_key(s[0]) {
        assert(pos == 0) by {
            if pos > 0 {
                assert(route_key(s[0]) < ke);
            }
        }
        assert(upsert(s, e) == seq![e] + s);
        assert(s.insert(0, e) =~= seq![e] + s);
    } else if ke == route_key(s[0]) {
        assert(pos == 0) by {
            if pos > 0 {
                assert(route_key(s[0]) < ke);
            }
        }
        assert(upsert(s, e) == seq![e] + s.drop_first());
        assert(s.update(0, e) =~= seq![e] + s.drop_first());
    } else {
        assert(pos > 0) by {
            if pos == 0 {
                assert(route_key(s[0]) >= ke);
            }
        }
        let rest = s.drop_first();
        assert(sorted_by_key(rest)) by {
            assert forall|i: int, j: int|
                0 <= i < j < rest.len() implies route_key(rest[i]) < route_key(rest[j]) by {
                assert(rest[i] == s[i + 1] && rest[j] == s[j + 1]);
            }
        }
        assert forall|i: int| 0 <= i < pos - 1 implies route_key(#[trigger] rest[i]) < ke by {
            assert(rest[i] == s[i + 1]);
        }
        assert(pos - 1 < rest.len() ==> route_key(rest[pos - 1]) >= ke) by {
            if pos - 1 < rest.len() {
                assert(rest[pos - 1] == s[pos]);
            }
        }
        lemma_upsert_at_pos(rest, e, pos - 1);
        assert(upsert(s, e) == seq![s[0]] + upsert(rest, e));
        if pos < s.len() && route_key(s[pos]) == ke {
            assert(rest[pos - 1] == s[pos]);
            assert(upsert(rest, e) == rest.update(pos - 1, e));
            assert(seq![s[0]] + rest.update(pos - 1, e) =~= s.update(pos, e));
        } else {
            assert(pos - 1 == rest.len() || route_key(rest[pos - 1]) > ke) by {
                if pos - 1 < rest.len() {
                    assert(rest[pos - 1] == s[pos]);
                }
            }
            assert(upsert(rest, e) == rest.insert(pos - 1, e));
            assert(seq![s[0]] + rest.insert(pos - 1, e) =~= s.insert(pos, e));
        }
    }
}

/// Removing the key found at a known position is removing that position.
pub proof fn lemma_remove_key_at_pos(s: Seq<RouteEntry>, pos: int)
    requires
        sorted_by_key(s),
        0 <= pos < s.len(),
    ensures
        remove_key(s, route_key(s[pos])) == s.remove(pos),
    decreases s.len(),
{
    let k = route_key(s[pos]);
    if pos == 0 {
        assert(remove_key(s, k) == s.drop_first());
        assert(s.remove(0) =~= s.drop_first());
    } else {
        assert(route_key(s[0]) < k);
        let rest = s.drop_first();
        assert(sorted_by_key(rest)) by {
            assert forall|i: int, j: int|
                0 <= i < j < rest.len() implies route_key(rest[i]) < route_key(rest[j]) by {
                assert(rest[i] == s[i + 1] && rest[j] == s[j + 1]);
            }
        }
        assert(rest[pos - 1] == s[pos]);
        lemma_remove_key_at_pos(rest, pos - 1);
        assert(remove_key(s, k) == seq![s[0]] + remove_key(rest, k));
        assert(seq![s[0]] + rest.remove(pos - 1) =~= s.remove(pos));
    }
}

/// How one half (PIC or IO-APIC) of the legacy routing algorithm ended: its
/// pin allocation found nothing, the table was full, the hypervisor refused
/// the commit (and the table was put back), or the entry is installed.
pub enum HalfOutcome {
    NotTried,
    Refused,
    CommitFailed,
    Installed,
}

/// The table after one half of the legacy routing algorithm: only an
/// installed entry changes it; a refused commit is rolled back in full.
pub open spec fn half_result(s: Seq<RouteEntry>, e: RouteEntry, oc: HalfOutcome) -> Seq<
    RouteEntry,
> {
    match oc {
        HalfOutcome::NotTried => s,
        HalfOutcome::Refused => s,
        HalfOutcome::CommitFailed => s,
        HalfOutcome::Installed => upsert(s, e),
    }
}

/// How many commits the hypervisor accepted in one half.
pub open spec fn half_commits(oc: HalfOutcome) -> nat {
    if oc is Installed {
        1nat
    } else {
        0nat
    }
}

/// The entry the PIC half of `route_generic` installs for raw pin `p`: pins
/// 0 to 7 sit on the master chip, 8 to 15 on the slave as `p - 8`. The entry
/// is keyed by the pin itself: the legacy GSI space is identified with the
/// chips' pins.
pub open spec fn pic_route_entry(p: u32) -> RouteEntry {
    if p <= 7 {
        irqchip_entry(KVM_IRQCHIP_PIC_MASTER, p, p)
    } else {
        irqchip_entry(KVM_IRQCHIP_PIC_SLAVE, p, (p - 8) as u32)
    }
}

/// The entry the IO-APIC half of `route_generic` installs for pin `p`.
pub open spec fn ioapic_route_entry(p: u32) -> RouteEntry {
    irqchip_entry(KVM_IRQCHIP_IOAPIC, p, p)
}

/// Everything `route_generic` guarantees of the table, the hypervisor image
/// and the result, given the two allocation results and how each half ended:
/// the PIC half acts on the table first, the IO-APIC half second; each
/// accepted commit shows the table of its moment to the hypervisor; and the
/// reported line prefers the PIC pin. A half is `Refused` only against a full
/// table.
pub open spec fn generic_post(
    s0: Seq<RouteEntry>,
    vmr0: Seq<RouteEntry>,
    c0: nat,
    picr: Option<u32>,
    ior: Option<u32>,
    oc1: HalfOutcome,
    oc2: HalfOutcome,
    s2: Seq<RouteEntry>,
    vmr2: Seq<RouteEntry>,
    c2: nat,
    r: Result<u32, Error>,
) -> bool {
    let e1 = pic_route_entry(picr->0);
    let e2 = ioapic_route_entry(ior->0);
    let s1 = if picr is Some {
        half_result(s0, e1, oc1)
    } else {
        s0
    };
    &&& (picr is None <==> oc1 is NotTried)
    &&& (ior is None <==> oc2 is NotTried)
    &&& (oc1 is Refused ==> !contains_key(s0, route_key(e1)) && s0.len() == MAX_ROUTES)
    &&& (oc2 is Refused ==> !contains_key(s1, route_key(e2)) && s1.len() == MAX_ROUTES)
    &&& s2 == (if ior is Some {
        half_result(s1, e2, oc2)
    } else {
        s1
    })
    &&& c2 == c0 + half_commits(oc1) + half_commits(oc2)
    &&& (oc2 is Installed ==> vmr2 == s2)
    &&& (!(oc2 is Installed) && oc1 is Installed ==> vmr2 == s1)
    &&& (!(oc1 is Installed) && !(oc2 is Installed) ==> vmr2 == vmr0)
    &&& r == (if oc1 is Installed {
        Ok::<u32, Error>(picr->0)
    } else if oc2 is Installed {
        Ok::<u32, Error>(ior->0)
    } else if oc2 is CommitFailed {
        Err::<u32, Error>(Error::GsiRoutingError(HypervisorError::SetGsiRouting))
    } else if oc2 is Refused {
        Err::<u32, Error>(Error::InvalidEntry)
    } else if oc1 is CommitFailed {
        Err::<u32, Error>(Error::GsiRoutingError(HypervisorError::SetGsiRouting))
    } else if oc1 is Refused {
        Err::<u32, Error>(Error::InvalidEntry)
    } else {
        Err::<u32, Error>(Error::PinAllocationError)
    })
}

/// Some pair of half-outcomes explains the observed change of the table, the
/// hypervisor image and the result.
pub open spec fn some_outcomes(
    s0: Seq<RouteEntry>,
    vmr0: Seq<RouteEntry>,
    c0: nat,
    picr: Option<u32>,
    ior: Option<u32>,
    s2: Seq<RouteEntry>,
    vmr2: Seq<RouteEntry>,
    c2: nat,
    r: Result<u32, Error>,
) -> bool {
    exists|oc1: HalfOutcome, oc2: HalfOutcome|
        generic_post(s0, vmr0, c0, picr, ior, oc1, oc2, s2, vmr2, c2, r)
}

/// The whole contract of `route_generic` over the values before and after
/// the call: both pools advance by their allocation policy (the IO-APIC is
/// asked for the PIC's pin when the PIC granted one), a pin allocation
/// failure on both chips is reported exactly as `PinAllocationError`, and the
/// table, the hypervisor image and the result follow [`generic_post`] for
/// the way the two halves ended.
pub open spec fn route_generic_full_post(
    s0: Seq<RouteEntry>,
    ia0: Seq<u32>,
    is0: Seq<u32>,
    pa0: Seq<u32>,
    vmr0: Seq<RouteEntry>,
    c0: nat,
    s2: Seq<RouteEntry>,
    ia_f: Seq<u32>,
    is_f: Seq<u32>,
    pa_f: Seq<u32>,
    vmr2: Seq<RouteEntry>,
    c2: nat,
    pin: Option<u32>,
    r: Result<u32, Error>,
) -> bool {
    let (picr, pa2) = pic_alloc(pa0, pin);
    let req2 = if picr is Some {
        Some(picr->0)
    } else {
        pin
    };
    let (ior, ia2, is2) = ioapic_alloc(ia0, is0, false, req2);
    &&& pa_f == pa2
    &&& ia_f == ia2
    &&& is_f == is2
    &&& (r == Err::<u32, Error>(Error::PinAllocationError) <==> (picr is None && ior is None))
    &&& some_outcomes(s0, vmr0, c0, picr, ior, s2, vmr2, c2, r)
}

/// The pools after marking an entry's pin as taken.
pub open spec fn reserve_effect(e: RouteEntry, ia: Seq<u32>, pa: Seq<u32>) -> (Seq<u32>, Seq<
    u32,
>) {
    match e.kind {
        RouteKind::Irqchip { chip, pin } => {
            if chip == KVM_IRQCHIP_IOAPIC {
                (ia.remove_value(pin), pa)
            } else if chip == KVM_IRQCHIP_PIC_MASTER {
                (ia, pa.remove_value(pin))
            } else if chip == KVM_IRQCHIP_PIC_SLAVE {
                if pin <= 7 {
                    (ia, pa.remove_value((pin + 8) as u32))
                } else {
                    (ia, pa)
                }
            } else {
                (ia, pa)
            }
        },
        RouteKind::Msi { .. } => (ia, pa),
    }
}

/// Delete the entries under the given keys, left to right.
pub open spec fn remove_keys(s: Seq<RouteEntry>, ks: Seq<u64>) -> Seq<RouteEntry>
    decreases ks.len(),
{
    if ks.len() == 0 {
        s
    } else {
        remove_keys(remove_key(s, ks[0]), ks.drop_first())
    }
}

/// `remove_keys` peels keys off either end.
pub proof fn lemma_remove_keys_snoc(s: Seq<RouteEntry>, ks: Seq<u64>, k: u64)
    ensures
        remove_keys(s, ks.push(k)) == remove_key(remove_keys(s, ks), k),
    decreases ks.len(),
{
    if ks.len() == 0 {
        assert(ks.push(k)[0] == k);
        assert(ks.push(k).drop_first() =~= Seq::<u64>::empty());
        assert(remove_keys(s, ks) == s);
        assert(remove_keys(s, ks.push(k)) == remove_keys(
            remove_key(s, k),
            ks.push(k).drop_first(),
        ));
        assert(remove_keys(remove_key(s, k), Seq::<u64>::empty()) == remove_key(s, k));
    } else {
        assert(ks.push(k)[0] == ks[0]);
        assert(ks.push(k).drop_first() =~= ks.drop_first().push(k));
        lemma_remove_keys_snoc(remove_key(s, ks[0]), ks.drop_first(), k);
        assert(remove_keys(s, ks.push(k)) == remove_keys(
            remove_key(s, ks[0]),
            ks.push(k).drop_first(),
        ));
        assert(remove_keys(s, ks) == remove_keys(remove_key(s, ks[0]), ks.drop_first()));
    }
}

/// Law: the table never outgrows what the hypervisor accepts.
pub proof fn lemma_routes_bounded(t: &KvmIrqRoutingTable)
    requires
        t.wf(),
    ensures
        t.entries().len() <= MAX_ROUTES,
{
}

/// A copy of a routing entry vector.
pub(crate) fn clone_entries(v: &Vec<RouteEntry>) -> (c: Vec<RouteEntry>)
    ensures
        c@ == v@,
{
    let mut c: Vec<RouteEntry> = Vec::new();
    let mut i: usize = 0;
    while i < v.len()
        invariant
            i <= v@.len(),
            c@ == v@.take(i as int),
        decreases v@.len() - i,
    {
        c.push(v[i]);
        proof {
            assert(c@ =~= v@.take(i + 1));
        }
        i = i + 1;
    }
    proof {
        assert(v@.take(v@.len() as int) =~= v@);
    }
    c
}

/// Manages the hypervisor's GSI routing table entries together with the two
/// pin allocators that its IRQCHIP entries draw from.
pub struct KvmIrqRoutingTable {
    /// The routing entries, ascending by [`route_key`].
    routes: Vec<RouteEntry>,
    /// Allocator for IO-APIC pins.
    ioapic: IoApic,
    /// Allocator for XT-PIC pins.
    xt_pic: XtPic,
}

impl KvmIrqRoutingTable {
    /// The routing entries, ascending by [`route_key`].
    pub closed spec fn entries(&self) -> Seq<RouteEntry> {
        self.routes@
    }

    /// Free pins of the IO-APIC pool.
    pub closed spec fn ioapic_avail(&self) -> Seq<u32> {
        self.ioapic.available()
    }

    /// Shared-pin queue of the IO-APIC pool.
    pub closed spec fn ioapic_shared(&self) -> Seq<u32> {
        self.ioapic.shared()
    }

    /// Free pins of the XT-PIC pool.
    pub closed spec fn pic_avail(&self) -> Seq<u32> {
        self.xt_pic.available()
    }

    /// The table invariant: entries ascend by key (so each key appears once),
    /// the table never outgrows what the hypervisor accepts, both pools are
    /// well-formed, and every IRQCHIP entry's pin is reserved in its chip's
    /// allocator.
    pub open spec fn wf(&self) -> bool {
        &&& sorted_by_key(self.entries())
        &&& self.entries().len() <= MAX_ROUTES
        &&& pools_wf(self.ioapic_avail(), self.ioapic_shared(), IRQ_MAX)
        &&& pools_wf(self.pic_avail(), Seq::<u32>::empty(), 15)
        &&& forall|i: int|
            0 <= i < self.entries().len() ==> pin_reserved(
                #[trigger] self.entries()[i],
                self.ioapic_avail(),
                self.pic_avail(),
            )
    }

    /// The key an entry is stored under.
    fn hash_key(entry: &RouteEntry) -> (k: u64)
        ensures
            k == route_key(*entry),
    {
        let chip: u32 = match entry.kind {
            RouteKind::Irqchip { chip, .. } => chip,
            RouteKind::Msi { .. } => 0,
        };
        let ty: u32 = match entry.kind {
            RouteKind::Irqchip { .. } => KVM_IRQ_ROUTING_IRQCHIP,
            RouteKind::Msi { .. } => KVM_IRQ_ROUTING_MSI,
        };
        ((chip as u64) << 48) | ((ty as u64) << 32) | (entry.gsi as u64)
    }

    /// Where key `k` sits, or where it would be inserted: returns whether the
    /// key is present and the position.
    fn find_pos(&self, k: u64) -> (r: (bool, usize))
        requires
            self.wf(),
        ensures
            r.1 <= self.entries().len(),
            forall|i: int| 0 <= i < r.1 ==> route_key(#[trigger] self.entries()[i]) < k,
            r.0 ==> r.1 < self.entries().len() && route_key(self.entries()[r.1 as int]) == k,
            !r.0 ==> !contains_key(self.entries(), k),
            !r.0 ==> r.1 == self.entries().len() || route_key(self.entries()[r.1 as int]) > k,
    {
        let n = self.routes.len();
        let mut i: usize = 0;
        while i < n
            invariant
                n == self.routes@.len(),
                i <= n,
                sorted_by_key(self.routes@),
                forall|j: int| 0 <= j < i ==> route_key(#[trigger] self.routes@[j]) < k,
            decreases n - i,
        {
            let ei = self.routes[i];
            let key_i = Self::hash_key(&ei);
            if key_i == k {
                return (true, i);
            }
            if key_i > k {
                proof {
                    if contains_key(self.routes@, k) {
                        let j = choose|j: int|
                            0 <= j < self.routes@.len() && route_key(self.routes@[j]) == k;
                        if j > i {
                            assert(route_key(self.routes@[i as int]) < route_key(self.routes@[j]));
                        }
                    }
                }
                return (false, i);
            }
            i = i + 1;
        }
        proof {
            if contains_key(self.routes@, k) {
                let j = choose|j: int|
                    0 <= j < self.routes@.len() && route_key(self.routes@[j]) == k;
            }
        }
        (false, n)
    }

    /// The routing entries, ascending by key.
    pub fn routes(&self) -> (r: &Vec<RouteEntry>)
        ensures
            r@ == self.entries(),
    {
        &self.routes
    }

    /// Create a new empty routing table and commit the empty table, resetting
    /// whatever routing the hypervisor held before.
    pub fn new<H: Hypervisor>(vm: &mut H) -> (r: Result<KvmIrqRoutingTable, Error>)
        ensures
            final(vm).registered_gsis() == old(vm).registered_gsis(),
            r is Ok ==> ({
                let t = r->Ok_0;
                &&& t.wf()
                &&& t.entries() == Seq::<RouteEntry>::empty()
                &&& t.ioapic_avail() == pins_without_two(IRQ_MAX)
                &&& t.ioapic_shared() == Seq::<u32>::empty()
                &&& t.pic_avail() == pins_without_two(15)
                &&& final(vm).gsi_routes() == Seq::<RouteEntry>::empty()
                &&& final(vm).commit_count() == old(vm).commit_count() + 1
            }),
            r is Err ==> r == Err::<KvmIrqRoutingTable, Error>(
                Error::GsiRoutingError(HypervisorError::SetGsiRouting),
            ) && final(vm).gsi_routes() == old(vm).gsi_routes() && final(vm).commit_count() == old(vm).commit_count(),
    {
        let table = KvmIrqRoutingTable {
            routes: Vec::new(),
            ioapic: IoApic::new(),
            xt_pic: XtPic::new(),
        };
        match vm.set_gsi_routing(&table.routes) {
            Ok(()) => Ok(table),
            Err(_) => Err(Error::GsiRoutingError(HypervisorError::SetGsiRouting)),
        }
    }

    /// Upsert `e`, commit, and on a refused commit put the table back as it
    /// was: a fresh key is removed again, a replaced entry is restored.
    /// Refuses outright when a fresh key would grow the table past
    /// [`MAX_ROUTES`].
    fn upsert_commit_rollback<H: Hypervisor>(&mut self, vm: &mut H, e: RouteEntry) -> (r: Result<
        (),
        Error,
    >)
        requires
            old(self).wf(),
            pin_reserved(e, old(self).ioapic_avail(), old(self).pic_avail()),
        ensures
            final(self).wf(),
            final(self).ioapic_avail() == old(self).ioapic_avail(),
            final(self).ioapic_shared() == old(self).ioapic_shared(),
            final(self).pic_avail() == old(self).pic_avail(),
            final(vm).registered_gsis() == old(vm).registered_gsis(),
            r is Ok ==> final(self).entries() == upsert(old(self).entries(), e) && final(vm).gsi_routes() == final(self).entries() && final(vm).commit_count() == old(vm).commit_count() + 1,
            r is Err ==> final(vm).gsi_routes() == old(vm).gsi_routes() && final(vm).commit_count()
                == old(vm).commit_count(),
            r == Err::<(), Error>(Error::InvalidEntry) <==> (!contains_key(
                old(self).entries(),
                route_key(e),
            ) && old(self).entries().len() == MAX_ROUTES),
            r is Err ==> final(self).entries() == old(self).entries(),
            r is Ok || r == Err::<(), Error>(Error::InvalidEntry) || r == Err::<(), Error>(
                Error::GsiRoutingError(HypervisorError::SetGsiRouting),
            ),
            (contains_key(old(self).entries(), route_key(e)) || old(self).entries().len()
                < MAX_ROUTES) ==> (r is Ok <==> final(vm).commit_count() == old(vm).commit_count()
                + 1),
    {
        let k = Self::hash_key(&e);
        let (found, idx) = self.find_pos(k);
        if !found && self.routes.len() == MAX_ROUTES {
            return Err(Error::InvalidEntry);
        }
        let ghost s0 = self.routes@;
        proof {
            lemma_upsert_at_pos(s0, e, idx as int);
            lemma_upsert_properties(s0, e);
        }
        let mut replaced = e;
        if found {
            replaced = self.routes[idx];
            self.routes.set(idx, e);
        } else {
            self.routes.insert(idx, e);
        }
        proof {
            lemma_all_reserved_elements(
                s0,
                self.routes@,
                e,
                self.ioapic.available(),
                self.xt_pic.available(),
            );
        }
        match vm.set_gsi_routing(&self.routes) {
            Ok(()) => Ok(()),
            Err(_) => {
                if found {
                    proof {
                        assert(s0.update(idx as int, e).update(idx as int, replaced) =~= s0);
                    }
                    self.routes.set(idx, replaced);
                } else {
                    proof {
                        assert(s0.insert(idx as int, e).remove(idx as int) =~= s0);
                    }
                    self.routes.remove(idx);
                }
                Err(Error::GsiRoutingError(HypervisorError::SetGsiRouting))
            },
        }
    }

    /// Add or replace the routing entry for an MSI interrupt: the entry is
    /// keyed under `gsi`, carries the `MSI_VALID_DEVID` flag, and the whole
    /// table is committed. On a refused commit the table is put back as it
    /// was — a replaced entry is restored — so memory and the hypervisor
    /// image never diverge.
    pub fn route_msi<H: Hypervisor>(
        &mut self,
        vm: &mut H,
        gsi: u32,
        high_addr: u32,
        low_addr: u32,
        data: u32,
        devid: u32,
    ) -> (r: Result<(), Error>)
        requires
            old(self).wf(),
        ensures
            final(self).wf(),
            final(self).ioapic_avail() == old(self).ioapic_avail(),
            final(self).ioapic_shared() == old(self).ioapic_shared(),
            final(self).pic_avail() == old(self).pic_avail(),
            final(vm).registered_gsis() == old(vm).registered_gsis(),
            ({
                let e = msi_entry(gsi, high_addr, low_addr, data, devid);
                let k = route_key(e);
                &&& (r is Ok ==> final(self).entries() == upsert(old(self).entries(), e) && final(vm).gsi_routes() == final(self).entries() && final(vm).commit_count() == old(vm).commit_count() + 1)
                &&& (r is Err ==> final(vm).gsi_routes() == old(vm).gsi_routes() && final(vm).commit_count() == old(vm).commit_count())
                &&& (r == Err::<(), Error>(Error::InvalidEntry) <==> (!contains_key(
                    old(self).entries(),
                    k,
                ) && old(self).entries().len() == MAX_ROUTES))
                &&& (r is Err ==> final(self).entries() == old(self).entries())
                &&& (r is Ok || r == Err::<(), Error>(Error::InvalidEntry) || r == Err::<(), Error>(
                    Error::GsiRoutingError(HypervisorError::SetGsiRouting),
                ))
                &&& ((contains_key(old(self).entries(), k) || old(self).entries().len()
                    < MAX_ROUTES) ==> (r is Ok <==> final(vm).commit_count() == old(vm).commit_count() + 1))
            }),
    {
        let e = RouteEntry {
            gsi,
            flags: KVM_MSI_VALID_DEVID,
            kind: RouteKind::Msi { address_hi: high_addr, address_lo: low_addr, data, devid },
        };
        self.upsert_commit_rollback(vm, e)
    }

    /// Add a routing entry for an INTx interrupt: a shareable IO-APIC pin is
    /// allocated (preferring `pin` if given), the entry is installed under
    /// `gsi` on the IO-APIC, and the table is committed. Returns the pin. On
    /// a refused commit the table is put back as it was, but the pin stays
    /// taken: pins return only with the machine.
    pub fn route_intx<H: Hypervisor>(
        &mut self,
        vm: &mut H,
        gsi: u32,
        _intx: u8,
        pin: Option<u32>,
    ) -> (r: Result<u32, Error>)
        requires
            old(self).wf(),
        ensures
            final(self).wf(),
            final(self).pic_avail() == old(self).pic_avail(),
            final(vm).registered_gsis() == old(vm).registered_gsis(),
            ({
                let (pr, pa, ps) = ioapic_alloc(
                    old(self).ioapic_avail(),
                    old(self).ioapic_shared(),
                    true,
                    pin,
                );
                &&& (r == Err::<u32, Error>(Error::PinAllocationError) <==> pr is None)
                &&& (pr is None ==> final(self).entries() == old(self).entries() && final(self).ioapic_avail() == old(self).ioapic_avail() && final(self).ioapic_shared() == old(self).ioapic_shared() && final(vm).gsi_routes() == old(vm).gsi_routes() && final(vm).commit_count() == old(vm).commit_count())
                &&& (pr is Some ==> ({
                    let e = irqchip_entry(KVM_IRQCHIP_IOAPIC, gsi, pr->0);
                    let k = route_key(e);
                    &&& final(self).ioapic_avail() == pa
                    &&& final(self).ioapic_shared() == ps
                    &&& (r is Ok ==> r->Ok_0 == pr->0 && final(self).entries() == upsert(
                        old(self).entries(),
                        e,
                    ) && final(vm).gsi_routes() == final(self).entries() && final(vm).commit_count() == old(vm).commit_count() + 1)
                    &&& (r is Err ==> final(vm).gsi_routes() == old(vm).gsi_routes() && final(vm).commit_count() == old(vm).commit_count())
                    &&& (r == Err::<u32, Error>(Error::InvalidEntry) <==> (!contains_key(
                        old(self).entries(),
                        k,
                    ) && old(self).entries().len() == MAX_ROUTES))
                    &&& (r is Err ==> final(self).entries() == old(self).entries())
                    &&& ((contains_key(old(self).entries(), k) || old(self).entries().len()
                        < MAX_ROUTES) ==> (r is Ok <==> final(vm).commit_count() == old(vm).commit_count() + 1))
                }))
            }),
    {
        let ghost ia0 = self.ioapic.available();
        let ghost pa0 = self.xt_pic.available();
        let allocated = self.ioapic.allocate_pin(true, pin);
        match allocated {
            None => Err(Error::PinAllocationError),
            Some(p) => {
                proof {
                    lemma_ioapic_alloc_shrinks(ia0, old(self).ioapic_shared(), true, pin);
                    lemma_all_reserved_monotone(
                        self.routes@,
                        ia0,
                        pa0,
                        self.ioapic.available(),
                        self.xt_pic.available(),
                    );
                }
                let e = RouteEntry {
                    gsi,
                    flags: 0,
                    kind: RouteKind::Irqchip { chip: KVM_IRQCHIP_IOAPIC, pin: p },
                };
                match self.upsert_commit_rollback(vm, e) {
                    Ok(()) => Ok(p),
                    Err(err) => Err(err),
                }
            },
        }
    }

    /// Mark an entry's pin as taken in the matching chip's allocator, so
    /// that restored routes and freshly allocated ones draw from one pool.
    fn reserve_for_entry(&mut self, entry: &RouteEntry)
        requires
            old(self).wf(),
        ensures
            final(self).wf(),
            final(self).entries() == old(self).entries(),
            final(self).ioapic_shared() == old(self).ioapic_shared(),
            ({
                let (ia2, pa2) = reserve_effect(
                    *entry,
                    old(self).ioapic_avail(),
                    old(self).pic_avail(),
                );
                final(self).ioapic_avail() == ia2 && final(self).pic_avail() == pa2
            }),
            pin_reserved(*entry, final(self).ioapic_avail(), final(self).pic_avail()),
    {
        let ghost ia0 = self.ioapic.available();
        let ghost pa0 = self.xt_pic.available();
        match entry.kind {
            RouteKind::Msi { .. } => {},
            RouteKind::Irqchip { chip, pin } => {
                if chip == KVM_IRQCHIP_IOAPIC {
                    self.ioapic.reserve_pin(pin);
                    proof {
                        crate::kvm_irqchip::lemma_remove_value_subset(ia0, pin);
                        lemma_all_reserved_monotone(
                            self.routes@,
                            ia0,
                            pa0,
                            self.ioapic.available(),
                            self.xt_pic.available(),
                        );
                    }
                } else if chip == KVM_IRQCHIP_PIC_MASTER {
                    self.xt_pic.reserve_pin(pin);
                    proof {
                        crate::kvm_irqchip::lemma_remove_value_subset(pa0, pin);
                        lemma_all_reserved_monotone(
                            self.routes@,
                            ia0,
                            pa0,
                            self.ioapic.available(),
                            self.xt_pic.available(),
                        );
                    }
                } else if chip == KVM_IRQCHIP_PIC_SLAVE {
                    if pin <= 7 {
                        self.xt_pic.reserve_pin(pin + 8);
                        proof {
                            crate::kvm_irqchip::lemma_remove_value_subset(pa0, (pin + 8) as u32);
                            lemma_all_reserved_monotone(
                                self.routes@,
                                ia0,
                                pa0,
                                self.ioapic.available(),
                                self.xt_pic.available(),
                            );
                            assert forall|q: u32|
                                self.xt_pic.available().contains(q) implies q as int != pin as int
                                + 8 by {
                                if q as int == pin as int + 8 {
                                    assert(!self.xt_pic.available().contains((pin + 8) as u32));
                                }
                            }
                        }
                    } else {
                        proof {
                            assert forall|q: u32|
                                self.xt_pic.available().contains(q) implies q as int != pin as int
                                + 8 by {
                                let i = choose|i: int|
                                    0 <= i < self.xt_pic.available().len()
                                        && self.xt_pic.available()[i] == q;
                                assert(q <= 15);
                            }
                        }
                    }
                } else {
                }
            },
        }
    }

    /// Add a routing entry under its own key. Refused when an entry with the
    /// same key exists or the table is full; otherwise the entry's pin is
    /// marked taken, the entry inserted, and the table committed. On a
    /// refused commit the entry is removed again (the pin stays taken).
    pub fn add<H: Hypervisor>(&mut self, vm: &mut H, entry: RouteEntry) -> (r: Result<(), Error>)
        requires
            old(self).wf(),
        ensures
            final(self).wf(),
            final(vm).registered_gsis() == old(vm).registered_gsis(),
            final(self).ioapic_shared() == old(self).ioapic_shared(),
            ({
                let k = route_key(entry);
                let (ia2, pa2) = reserve_effect(
                    entry,
                    old(self).ioapic_avail(),
                    old(self).pic_avail(),
                );
                &&& (r == Err::<(), Error>(Error::InvalidEntry) <==> (contains_key(
                    old(self).entries(),
                    k,
                ) || old(self).entries().len() == MAX_ROUTES))
                &&& (r == Err::<(), Error>(Error::InvalidEntry) ==> final(self).entries() == old(self).entries() && final(self).ioapic_avail() == old(self).ioapic_avail() && final(self).pic_avail() == old(self).pic_avail() && final(vm).gsi_routes() == old(vm).gsi_routes() && final(vm).commit_count() == old(vm).commit_count())
                &&& (r != Err::<(), Error>(Error::InvalidEntry) ==> final(self).ioapic_avail()
                    == ia2 && final(self).pic_avail() == pa2)
                &&& (r is Ok ==> final(self).entries() == upsert(old(self).entries(), entry)
                    && final(vm).gsi_routes() == final(self).entries() && final(vm).commit_count()
                    == old(vm).commit_count() + 1)
                &&& (r == Err::<(), Error>(Error::GsiRoutingError(HypervisorError::SetGsiRouting))
                    ==> final(self).entries() == old(self).entries() && final(vm).gsi_routes()
                    == old(vm).gsi_routes() && final(vm).commit_count() == old(vm).commit_count())
                &&& (r is Ok || r == Err::<(), Error>(Error::InvalidEntry) || r == Err::<(), Error>(
                    Error::GsiRoutingError(HypervisorError::SetGsiRouting),
                ))
                &&& (!(contains_key(old(self).entries(), k) || old(self).entries().len()
                    == MAX_ROUTES) ==> (r is Ok <==> final(vm).commit_count() == old(vm).commit_count() + 1))
            }),
    {
        let k = Self::hash_key(&entry);
        let (found, _idx) = self.find_pos(k);
        if found || self.routes.len() == MAX_ROUTES {
            return Err(Error::InvalidEntry);
        }
        self.reserve_for_entry(&entry);
        self.upsert_commit_rollback(vm, entry)
    }

    /// Overwrite the routing entry under `entry`'s key. Refused when no such
    /// entry exists; otherwise the entry's pin is marked taken, the entry
    /// written, and the table committed. On a refused commit the previous
    /// entry is restored (the pin stays taken).
    pub fn modify<H: Hypervisor>(&mut self, vm: &mut H, entry: RouteEntry) -> (r: Result<
        (),
        Error,
    >)
        requires
            old(self).wf(),
        ensures
            final(self).wf(),
            final(vm).registered_gsis() == old(vm).registered_gsis(),
            final(self).ioapic_shared() == old(self).ioapic_shared(),
            ({
                let k = route_key(entry);
                let (ia2, pa2) = reserve_effect(
                    entry,
                    old(self).ioapic_avail(),
                    old(self).pic_avail(),
                );
                &&& (r == Err::<(), Error>(Error::NoSuchEntry) <==> !contains_key(
                    old(self).entries(),
                    k,
                ))
                &&& (r == Err::<(), Error>(Error::NoSuchEntry) ==> final(self).entries() == old(self).entries() && final(self).ioapic_avail() == old(self).ioapic_avail() && final(self).pic_avail() == old(self).pic_avail() && final(vm).gsi_routes() == old(vm).gsi_routes() && final(vm).commit_count() == old(vm).commit_count())
                &&& (r != Err::<(), Error>(Error::NoSuchEntry) ==> final(self).ioapic_avail()
                    == ia2 && final(self).pic_avail() == pa2)
                &&& (r is Ok ==> final(self).entries() == upsert(old(self).entries(), entry)
                    && final(vm).gsi_routes() == final(self).entries() && final(vm).commit_count()
                    == old(vm).commit_count() + 1)
                &&& (r == Err::<(), Error>(Error::GsiRoutingError(HypervisorError::SetGsiRouting))
                    ==> final(self).entries() == old(self).entries() && final(vm).gsi_routes()
                    == old(vm).gsi_routes() && final(vm).commit_count() == old(vm).commit_count())
                &&& (r is Ok || r == Err::<(), Error>(Error::NoSuchEntry) || r == Err::<(), Error>(
                    Error::GsiRoutingError(HypervisorError::SetGsiRouting),
                ))
                &&& (contains_key(old(self).entries(), k) ==> (r is Ok <==> final(vm).commit_count() == old(vm).commit_count() + 1))
            }),
    {
        let k = Self::hash_key(&entry);
        let (found, idx) = self.find_pos(k);
        if !found {
            return Err(Error::NoSuchEntry);
        }
        self.reserve_for_entry(&entry);
        let ghost s0 = self.routes@;
        let old_e = self.routes[idx];
        proof {
            lemma_upsert_at_pos(s0, entry, idx as int);
            lemma_upsert_properties(s0, entry);
            assert forall|i: int|
                0 <= i < s0.update(idx as int, entry).len() implies #[trigger] s0.update(
                idx as int,
                entry,
            )[i] == entry || s0.contains(s0.update(idx as int, entry)[i]) by {
                if i != idx {
                    assert(s0.update(idx as int, entry)[i] == s0[i]);
                    assert(s0.contains(s0[i]));
                }
            }
            lemma_all_reserved_elements(
                s0,
                s0.update(idx as int, entry),
                entry,
                self.ioapic.available(),
                self.xt_pic.available(),
            );
        }
        self.routes.set(idx, entry);
        match vm.set_gsi_routing(&self.routes) {
            Ok(()) => Ok(()),
            Err(_) => {
                proof {
                    assert(s0.update(idx as int, entry).update(idx as int, old_e) =~= s0);
                }
                self.routes.set(idx, old_e);
                Err(Error::GsiRoutingError(HypervisorError::SetGsiRouting))
            },
        }
    }

    /// Delete the entries under the keys of the given entries (absent keys
    /// are silently ignored) and commit once at the end. On a refused commit
    /// every deleted entry is put back.
    pub fn remove<H: Hypervisor>(&mut self, vm: &mut H, entries: &Vec<RouteEntry>) -> (r: Result<
        (),
        Error,
    >)
        requires
            old(self).wf(),
        ensures
            final(self).wf(),
            final(self).ioapic_avail() == old(self).ioapic_avail(),
            final(self).ioapic_shared() == old(self).ioapic_shared(),
            final(self).pic_avail() == old(self).pic_avail(),
            final(vm).registered_gsis() == old(vm).registered_gsis(),
            r is Ok ==> final(self).entries() == remove_keys(
                old(self).entries(),
                entries@.map_values(|e: RouteEntry| route_key(e)),
            ) && final(vm).gsi_routes() == final(self).entries() && final(vm).commit_count() == old(vm).commit_count() + 1,
            r is Err ==> r == Err::<(), Error>(
                Error::GsiRoutingError(HypervisorError::SetGsiRouting),
            ) && final(self).entries() == old(self).entries() && final(vm).gsi_routes() == old(vm).gsi_routes() && final(vm).commit_count() == old(vm).commit_count(),
            r is Ok <==> final(vm).commit_count() == old(vm).commit_count() + 1,
    {
        let ghost s0 = self.routes@;
        let ghost keys = entries@.map_values(|e: RouteEntry| route_key(e));
        let ghost ia0 = self.ioapic.available();
        let ghost is0 = self.ioapic.shared();
        let ghost pa0 = self.xt_pic.available();
        let backup = clone_entries(&self.routes);
        let mut i: usize = 0;
        while i < entries.len()
            invariant
                i <= entries@.len(),
                keys == entries@.map_values(|e: RouteEntry| route_key(e)),
                self.wf(),
                self.ioapic.available() == ia0,
                self.ioapic.shared() == is0,
                self.xt_pic.available() == pa0,
                self.routes@ == remove_keys(s0, keys.take(i as int)),
            decreases entries@.len() - i,
        {
            let ei = entries[i];
            let k = Self::hash_key(&ei);
            proof {
                assert(keys[i as int] == route_key(entries@[i as int]));
            }
            let ghost scur = self.routes@;
            let (found, idx) = self.find_pos(k);
            if found {
                proof {
                    lemma_remove_key_at_pos(scur, idx as int);
                    lemma_remove_key_properties(scur, k);
                    lemma_all_reserved_elements(
                        scur,
                        remove_key(scur, k),
                        scur[idx as int],
                        self.ioapic.available(),
                        self.xt_pic.available(),
                    );
                }
                self.routes.remove(idx);
            } else {
                proof {
                    lemma_remove_key_noop(scur, k);
                }
            }
            proof {
                lemma_remove_keys_snoc(s0, keys.take(i as int), keys[i as int]);
                assert(keys.take(i as int).push(keys[i as int]) =~= keys.take(i + 1));
            }
            i = i + 1;
        }
        proof {
            assert(keys.take(keys.len() as int) =~= keys);
        }
        match vm.set_gsi_routing(&self.routes) {
            Ok(()) => Ok(()),
            Err(_) => {
                self.routes = backup;
                Err(Error::GsiRoutingError(HypervisorError::SetGsiRouting))
            },
        }
    }

    /// The canonical legacy routing algorithm: try to route through the
    /// XT-PIC, then through the IO-APIC with the same pin, so that guests
    /// work whether or not they boot with IO-APIC support. Either half may
    /// fail; the call succeeds if either entry is installed, and reports the
    /// PIC pin as the interrupt line when the PIC half went through, else the
    /// IO-APIC pin. `PinAllocationError` comes back exactly when neither chip
    /// had a pin to give. Both installed entries are keyed by their pin: on
    /// the hypervisor the legacy GSI space is identified with the chips' pins
    /// (GSI n is master pin n, slave pin n - 8, IO-APIC pin n), so the
    /// entries describe the line the guest drivers request, while `enable`
    /// attaches the notification descriptor under the interrupt's own GSI —
    /// for a legacy interrupt its caller picks that GSI in the same range.
    #[verifier::rlimit(60)]
    pub fn route_generic<H: Hypervisor>(&mut self, vm: &mut H, gsi: u32, pin: Option<u32>) -> (r:
        Result<u32, Error>)
        requires
            old(self).wf(),
        ensures
            final(self).wf(),
            final(vm).registered_gsis() == old(vm).registered_gsis(),
            r is Err ==> final(self).entries() == old(self).entries() && final(vm).gsi_routes()
                == old(vm).gsi_routes() && final(vm).commit_count() == old(vm).commit_count(),
            route_generic_full_post(
                old(self).entries(),
                old(self).ioapic_avail(),
                old(self).ioapic_shared(),
                old(self).pic_avail(),
                old(vm).gsi_routes(),
                old(vm).commit_count(),
                final(self).entries(),
                final(self).ioapic_avail(),
                final(self).ioapic_shared(),
                final(self).pic_avail(),
                final(vm).gsi_routes(),
                final(vm).commit_count(),
                pin,
                r,
            ),
    {
        let ghost ia0 = self.ioapic.available();
        let ghost is0 = self.ioapic.shared();
        let ghost pa0 = self.xt_pic.available();
        let ghost s0 = self.routes@;
        let ghost vmr0 = vm.gsi_routes();
        let ghost c0 = vm.commit_count();
        let ghost mut oc1 = HalfOutcome::NotTried;
        let ghost mut oc2 = HalfOutcome::NotTried;

        let mut line: Option<u32> = None;
        let mut first_err = Error::PinAllocationError;
        let mut ioapic_request_pin = pin;

        let pic_allocated = self.xt_pic.allocate_pin(pin);
        proof {
            lemma_pic_alloc_shrinks(pa0, pin);
            lemma_all_reserved_monotone(
                self.routes@,
                ia0,
                pa0,
                self.ioapic.available(),
                self.xt_pic.available(),
            );
        }
        if let Some(pic_pin) = pic_allocated {
            let e1 = if pic_pin <= 7 {
                RouteEntry {
                    gsi: pic_pin,
                    flags: 0,
                    kind: RouteKind::Irqchip { chip: KVM_IRQCHIP_PIC_MASTER, pin: pic_pin },
                }
            } else {
                RouteEntry {
                    gsi: pic_pin,
                    flags: 0,
                    kind: RouteKind::Irqchip { chip: KVM_IRQCHIP_PIC_SLAVE, pin: pic_pin - 8 },
                }
            };
            proof {
                assert(e1 == pic_route_entry(pic_pin));
                assert(pin_reserved(e1, self.ioapic.available(), self.xt_pic.available())) by {
                    if pic_pin > 7 {
                        assert forall|q: u32|
                            self.xt_pic.available().contains(q) implies q as int != (pic_pin
                            - 8) as int + 8 by {
                            if q as int == pic_pin as int {
                                assert(self.xt_pic.available().contains(pic_pin));
                            }
                        }
                    }
                }
            }
            match self.upsert_commit_rollback(vm, e1) {
                Ok(()) => {
                    line = Some(pic_pin);
                    proof {
                        oc1 = HalfOutcome::Installed;
                    }
                },
                Err(err) => {
                    first_err = err;
                    proof {
                        if err == Error::InvalidEntry {
                            oc1 = HalfOutcome::Refused;
                        } else {
                            oc1 = HalfOutcome::CommitFailed;
                        }
                    }
                },
            }
            ioapic_request_pin = Some(pic_pin);
        }
        let ghost pa2 = self.xt_pic.available();

        let io_allocated = self.ioapic.allocate_pin(false, ioapic_request_pin);
        proof {
            lemma_ioapic_alloc_shrinks(ia0, is0, false, ioapic_request_pin);
            lemma_all_reserved_monotone(
                self.routes@,
                ia0,
                pa2,
                self.ioapic.available(),
                self.xt_pic.available(),
            );
        }
        if let Some(io_pin) = io_allocated {
            let e2 = RouteEntry {
                gsi: io_pin,
                flags: 0,
                kind: RouteKind::Irqchip { chip: KVM_IRQCHIP_IOAPIC, pin: io_pin },
            };
            proof {
                assert(e2 == ioapic_route_entry(io_pin));
            }
            match self.upsert_commit_rollback(vm, e2) {
                Ok(()) => {
                    proof {
                        oc2 = HalfOutcome::Installed;
                    }
                    if line.is_none() {
                        line = Some(io_pin);
                    }
                },
                Err(err) => {
                    proof {
                        if err == Error::InvalidEntry {
                            oc2 = HalfOutcome::Refused;
                        } else {
                            oc2 = HalfOutcome::CommitFailed;
                        }
                    }
                    if line.is_none() {
                        proof {
                            assert(generic_post(
                                s0,
                                vmr0,
                                c0,
                                pic_alloc(pa0, pin).0,
                                io_allocated,
                                oc1,
                                oc2,
                                self.routes@,
                                vm.gsi_routes(),
                                vm.commit_count(),
                                Err::<u32, Error>(err),
                            ));
                            assert(some_outcomes(
                                s0,
                                vmr0,
                                c0,
                                pic_alloc(pa0, pin).0,
                                io_allocated,
                                self.routes@,
                                vm.gsi_routes(),
                                vm.commit_count(),
                                Err::<u32, Error>(err),
                            ));
                            assert(route_generic_full_post(
                                s0,
                                ia0,
                                is0,
                                pa0,
                                vmr0,
                                c0,
                                self.routes@,
                                self.ioapic.available(),
                                self.ioapic.shared(),
                                self.xt_pic.available(),
                                vm.gsi_routes(),
                                vm.commit_count(),
                                pin,
                                Err::<u32, Error>(err),
                            ));
                        }
                        return Err(err);
                    }
                },
            }
        }
        match line {
            Some(l) => {
                proof {
                    assert(generic_post(
                        s0,
                        vmr0,
                        c0,
                        pic_alloc(pa0, pin).0,
                        io_allocated,
                        oc1,
                        oc2,
                        self.routes@,
                        vm.gsi_routes(),
                        vm.commit_count(),
                        Ok::<u32, Error>(l),
                    ));
                    assert(some_outcomes(
                        s0,
                        vmr0,
                        c0,
                        pic_alloc(pa0, pin).0,
                        io_allocated,
                        self.routes@,
                        vm.gsi_routes(),
                        vm.commit_count(),
                        Ok::<u32, Error>(l),
                    ));
                    assert(route_generic_full_post(
                        s0,
                        ia0,
                        is0,
                        pa0,
                        vmr0,
                        c0,
                        self.routes@,
                        self.ioapic.available(),
                        self.ioapic.shared(),
                        self.xt_pic.available(),
                        vm.gsi_routes(),
                        vm.commit_count(),
                        pin,
                        Ok::<u32, Error>(l),
                    ));
                }
                Ok(l)
            },
            None => {
                if pic_allocated.is_some() {
                    proof {
                        assert(generic_post(
                            s0,
                            vmr0,
                            c0,
                            pic_alloc(pa0, pin).0,
                            io_allocated,
                            oc1,
                            oc2,
                            self.routes@,
                            vm.gsi_routes(),
                            vm.commit_count(),
                            Err::<u32, Error>(first_err),
                        ));
                        assert(some_outcomes(
                            s0,
                            vmr0,
                            c0,
                            pic_alloc(pa0, pin).0,
                            io_allocated,
                            self.routes@,
                            vm.gsi_routes(),
                            vm.commit_count(),
                            Err::<u32, Error>(first_err),
                        ));
                        assert(route_generic_full_post(
                            s0,
                            ia0,
                            is0,
                            pa0,
                            vmr0,
                            c0,
                            self.routes@,
                            self.ioapic.available(),
                            self.ioapic.shared(),
                            self.xt_pic.available(),
                            vm.gsi_routes(),
                            vm.commit_count(),
                            pin,
                            Err::<u32, Error>(first_err),
                        ));
                    }
                    Err(first_err)
                } else {
                    proof {
                        assert(generic_post(
                            s0,
                            vmr0,
                            c0,
                            pic_alloc(pa0, pin).0,
                            io_allocated,
                            oc1,
                            oc2,
                            self.routes@,
                            vm.gsi_routes(),
                            vm.commit_count(),
                            Err::<u32, Error>(Error::PinAllocationError),
                        ));
                        assert(some_outcomes(
                            s0,
                            vmr0,
                            c0,
                            pic_alloc(pa0, pin).0,
                            io_allocated,
                            self.routes@,
                            vm.gsi_routes(),
                            vm.commit_count(),
                            Err::<u32, Error>(Error::PinAllocationError),
                        ));
                        assert(route_generic_full_post(
                            s0,
                            ia0,
                            is0,
                            pa0,
                            vmr0,
                            c0,
                            self.routes@,
                            self.ioapic.available(),
                            self.ioapic.shared(),
                            self.xt_pic.available(),
                            vm.gsi_routes(),
                            vm.commit_count(),
                            pin,
                            Err::<u32, Error>(Error::PinAllocationError),
                        ));
                    }
                    Err(Error::PinAllocationError)
                }
            },
        }
    }
}

} // verus!
