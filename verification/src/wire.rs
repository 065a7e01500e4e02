//! The hypervisor's on-wire layout of a routing table: a packed header
//! `{u32 count; u32 flags}` followed by `count` fixed-size entries, each a
//! tagged union of 48 bytes, all fields little-endian. This byte image is
//! what one `set_gsi_routing` call hands to the kernel, and what a snapshot
//! of the table's MSI entries preserves.

use vstd::prelude::*;

use crate::kvm_irq_routing::{
    entry_type, route_key, sorted_by_key, upsert, KvmIrqRoutingTable, RouteEntry, RouteKind,
};

verus! {

/// The four little-endian bytes of a 32-bit value.
pub open spec fn u32_le_bytes(x: u32) -> Seq<u8> {
    seq![x as u8, (x >> 8) as u8, (x >> 16) as u8, (x >> 24) as u8]
}

pub open spec fn zero_bytes(n: nat) -> Seq<u8> {
    Seq::new(n, |i: int| 0u8)
}

/// The 48 wire bytes of one entry: gsi, type, flags, padding, then the
/// 32-byte union holding `{chip, pin}` or `{address_lo, address_hi, data,
/// devid}`, zero-padded.
pub open spec fn entry_wire_bytes(e: RouteEntry) -> Seq<u8> {
    u32_le_bytes(e.gsi) + u32_le_bytes(entry_type(e)) + u32_le_bytes(e.flags) + u32_le_bytes(0) + (
    match e.kind {
        RouteKind::Irqchip { chip, pin } => u32_le_bytes(chip) + u32_le_bytes(pin) + zero_bytes(24),
        RouteKind::Msi { address_hi, address_lo, data, devid } => u32_le_bytes(address_lo)
            + u32_le_bytes(address_hi) + u32_le_bytes(data) + u32_le_bytes(devid) + zero_bytes(16),
    })
}

pub open spec fn entries_wire_bytes(s: Seq<RouteEntry>) -> Seq<u8>
    decreases s.len(),
{
    if s.len() == 0 {
        Seq::<u8>::empty()
    } else {
        entry_wire_bytes(s[0]) + entries_wire_bytes(s.drop_first())
    }
}

/// The whole table: header `{count, flags = 0}` then the entries in order.
pub open spec fn routing_wire_bytes(s: Seq<RouteEntry>) -> Seq<u8> {
    u32_le_bytes(s.len() as u32) + u32_le_bytes(0) + entries_wire_bytes(s)
}

/// Appending one entry appends its wire bytes.
pub proof fn lemma_entries_wire_snoc(s: Seq<RouteEntry>, e: RouteEntry)
    ensures
        entries_wire_bytes(s.push(e)) == entries_wire_bytes(s) + entry_wire_bytes(e),
    decreases s.len(),
{
    if s.len() == 0 {
        assert(s.push(e)[0] == e);
        assert(s.push(e).drop_first() =~= Seq::<RouteEntry>::empty());
        assert(entries_wire_bytes(s.push(e)) == entry_wire_bytes(e) + entries_wire_bytes(
            Seq::<RouteEntry>::empty(),
        ));
        assert(entry_wire_bytes(e) + Seq::<u8>::empty() =~= Seq::<u8>::empty() + entry_wire_bytes(
            e,
        ));
    } else {
        assert(s.push(e)[0] == s[0]);
        assert(s.push(e).drop_first() =~= s.drop_first().push(e));
        lemma_entries_wire_snoc(s.drop_first(), e);
        assert(entries_wire_bytes(s.push(e)) == entry_wire_bytes(s[0]) + entries_wire_bytes(
            s.drop_first().push(e),
        ));
        assert(entry_wire_bytes(s[0]) + (entries_wire_bytes(s.drop_first()) + entry_wire_bytes(e))
            =~= (entry_wire_bytes(s[0]) + entries_wire_bytes(s.drop_first())) + entry_wire_bytes(
            e,
        ));
    }
}

/// Append the four little-endian bytes of `x`.
fn push_u32_le(v: &mut Vec<u8>, x: u32)
    ensures
        final(v)@ == old(v)@ + u32_le_bytes(x),
{
    let ghost v0 = v@;
    #[verifier::truncate]
    let b0 = x as u8;
    #[verifier::truncate]
    let b1 = (x >> 8) as u8;
    #[verifier::truncate]
    let b2 = (x >> 16) as u8;
    #[verifier::truncate]
    let b3 = (x >> 24) as u8;
    v.push(b0);
    v.push(b1);
    v.push(b2);
    v.push(b3);
    proof {
        assert(v@ =~= v0 + u32_le_bytes(x));
    }
}

/// Append `n` zero bytes.
fn push_zero_bytes(v: &mut Vec<u8>, n: usize)
    ensures
        final(v)@ == old(v)@ + zero_bytes(n as nat),
{
    let ghost v0 = v@;
    let mut i: usize = 0;
    while i < n
        invariant
            i <= n,
            v@ == v0 + zero_bytes(i as nat),
        decreases n - i,
    {
        v.push(0);
        proof {
            assert(v@ =~= v0 + zero_bytes((i + 1) as nat));
        }
        i = i + 1;
    }
}

/// Append the 48 wire bytes of one entry.
fn push_entry_bytes(v: &mut Vec<u8>, e: &RouteEntry)
    ensures
        final(v)@ == old(v)@ + entry_wire_bytes(*e),
{
    let ghost v0 = v@;
    push_u32_le(v, e.gsi);
    match e.kind {
        RouteKind::Irqchip { chip, pin } => {
            push_u32_le(v, crate::kvm_irq_routing::KVM_IRQ_ROUTING_IRQCHIP);
            push_u32_le(v, e.flags);
            push_u32_le(v, 0);
            push_u32_le(v, chip);
            push_u32_le(v, pin);
            push_zero_bytes(v, 24);
        },
        RouteKind::Msi { address_hi, address_lo, data, devid } => {
            push_u32_le(v, crate::kvm_irq_routing::KVM_IRQ_ROUTING_MSI);
            push_u32_le(v, e.flags);
            push_u32_le(v, 0);
            push_u32_le(v, address_lo);
            push_u32_le(v, address_hi);
            push_u32_le(v, data);
            push_u32_le(v, devid);
            push_zero_bytes(v, 16);
        },
    }
    proof {
        assert(v@ =~= v0 + entry_wire_bytes(*e));
    }
}

/// The byte image `set_gsi_routing` hands to the kernel for these entries.
pub fn serialize_routes(entries: &Vec<RouteEntry>) -> (r: Vec<u8>)
    requires
        entries@.len() <= 0xffff_ffff,
    ensures
        r@ == routing_wire_bytes(entries@),
{
    let mut out: Vec<u8> = Vec::new();
    #[verifier::truncate]
    let count = entries.len() as u32;
    push_u32_le(&mut out, count);
    push_u32_le(&mut out, 0);
    let ghost header = out@;
    let mut i: usize = 0;
    while i < entries.len()
        invariant
            i <= entries@.len(),
            entries@.len() <= 0xffff_ffff,
            header == u32_le_bytes(entries@.len() as u32) + u32_le_bytes(0),
            out@ == header + entries_wire_bytes(entries@.take(i as int)),
        decreases entries@.len() - i,
    {
        let e = entries[i];
        push_entry_bytes(&mut out, &e);
        proof {
            assert(entries@.take(i as int).push(entries@[i as int]) =~= entries@.take(i + 1));
            lemma_entries_wire_snoc(entries@.take(i as int), entries@[i as int]);
            assert(out@ =~= header + entries_wire_bytes(entries@.take(i + 1)));
        }
        i = i + 1;
    }
    proof {
        assert(entries@.take(entries@.len() as int) =~= entries@);
        assert(out@ =~= routing_wire_bytes(entries@));
    }
    out
}

/// The MSI entries of a table, in key order: the state a snapshot persists.
pub open spec fn msi_only(s: Seq<RouteEntry>) -> Seq<RouteEntry>
    decreases s.len(),
{
    if s.len() == 0 {
        Seq::<RouteEntry>::empty()
    } else if s[0].kind is Msi {
        seq![s[0]] + msi_only(s.drop_first())
    } else {
        msi_only(s.drop_first())
    }
}

/// Appending one entry appends it to the filtered sequence exactly when it is
/// an MSI entry.
pub proof fn lemma_msi_only_snoc(s: Seq<RouteEntry>, e: RouteEntry)
    ensures
        e.kind is Msi ==> msi_only(s.push(e)) == msi_only(s).push(e),
        !(e.kind is Msi) ==> msi_only(s.push(e)) == msi_only(s),
    decreases s.len(),
{
    if s.len() == 0 {
        assert(s.push(e)[0] == e);
        assert(s.push(e).drop_first() =~= Seq::<RouteEntry>::empty());
        assert(msi_only(Seq::<RouteEntry>::empty()) == Seq::<RouteEntry>::empty());
        assert(msi_only(s) == Seq::<RouteEntry>::empty());
        if e.kind is Msi {
            assert(msi_only(s.push(e)) == seq![e] + msi_only(s.push(e).drop_first()));
            assert(seq![e] + Seq::<RouteEntry>::empty() =~= Seq::<RouteEntry>::empty().push(e));
        } else {
            assert(msi_only(s.push(e)) == msi_only(s.push(e).drop_first()));
        }
    } else {
        assert(s.push(e)[0] == s[0]);
        assert(s.push(e).drop_first() =~= s.drop_first().push(e));
        lemma_msi_only_snoc(s.drop_first(), e);
        if s[0].kind is Msi {
            assert(msi_only(s.push(e)) == seq![s[0]] + msi_only(s.drop_first().push(e)));
            assert(msi_only(s) == seq![s[0]] + msi_only(s.drop_first()));
            if e.kind is Msi {
                assert(seq![s[0]] + msi_only(s.drop_first()).push(e) =~= (seq![s[0]] + msi_only(
                    s.drop_first(),
                )).push(e));
            }
        } else {
            assert(msi_only(s.push(e)) == msi_only(s.drop_first().push(e)));
            assert(msi_only(s) == msi_only(s.drop_first()));
        }
        if e.kind is Msi {
            assert(msi_only(s.push(e)) == msi_only(s).push(e)) by {
                if s[0].kind is Msi {
                    assert(msi_only(s.drop_first().push(e)) == msi_only(s.drop_first()).push(e));
                    assert(seq![s[0]] + msi_only(s.drop_first()).push(e) =~= (seq![s[0]]
                        + msi_only(s.drop_first())).push(e));
                }
            }
        }
    }
}

/// Every filtered entry is an entry of the table, under the same key order.
pub proof fn lemma_msi_only_sorted(s: Seq<RouteEntry>)
    requires
        sorted_by_key(s),
    ensures
        sorted_by_key(msi_only(s)),
        forall|i: int| 0 <= i < msi_only(s).len() ==> s.contains(#[trigger] msi_only(s)[i]),
        msi_only(s).len() <= s.len(),
    decreases s.len(),
{
    let t = msi_only(s);
    if s.len() == 0 {
    } else {
        let rest = s.drop_first();
        assert(sorted_by_key(rest)) by {
            assert forall|i: int, j: int|
                0 <= i < j < rest.len() implies route_key(rest[i]) < route_key(rest[j]) by {
                assert(rest[i] == s[i + 1] && rest[j] == s[j + 1]);
            }
        }
        lemma_msi_only_sorted(rest);
        let tr = msi_only(rest);
        assert forall|i: int| 0 <= i < tr.len() implies s.contains(#[trigger] tr[i]) by {
            assert(rest.contains(tr[i]));
            let m = choose|m: int| 0 <= m < rest.len() && rest[m] == tr[i];
            assert(s[m + 1] == rest[m]);
        }
        if s[0].kind is Msi {
            assert(t == seq![s[0]] + tr);
            assert forall|i: int| 0 <= i < t.len() implies s.contains(#[trigger] t[i]) by {
                if i == 0 {
                    assert(t[0] == s[0]);
                    assert(s.contains(s[0]));
                } else {
                    assert(t[i] == tr[i - 1]);
                }
            }
            assert forall|i: int, j: int| 0 <= i < j < t.len() implies route_key(t[i]) < route_key(
                t[j],
            ) by {
                if i == 0 {
                    assert(t[j] == tr[j - 1]);
                    assert(rest.contains(tr[j - 1]));
                    let m = choose|m: int| 0 <= m < rest.len() && rest[m] == tr[j - 1];
                    assert(s[m + 1] == rest[m]);
                    assert(route_key(s[0]) < route_key(s[m + 1]));
                } else {
                    assert(t[i] == tr[i - 1] && t[j] == tr[j - 1]);
                }
            }
        }
    }
}

impl KvmIrqRoutingTable {
    /// The MSI entries of the table, in key order: what a snapshot persists.
    /// The IRQCHIP entries are rebuilt from the interrupts' configurations at
    /// restore.
    pub fn msi_entries(&self) -> (r: Vec<RouteEntry>)
        ensures
            r@ == msi_only(self.entries()),
    {
        let all = self.routes();
        let mut out: Vec<RouteEntry> = Vec::new();
        let mut i: usize = 0;
        while i < all.len()
            invariant
                i <= all@.len(),
                all@ == self.entries(),
                out@ == msi_only(all@.take(i as int)),
            decreases all@.len() - i,
        {
            let e = all[i];
            let keep = match e.kind {
                RouteKind::Msi { .. } => true,
                RouteKind::Irqchip { .. } => false,
            };
            if keep {
                out.push(e);
            }
            proof {
                assert(all@.take(i as int).push(all@[i as int]) =~= all@.take(i + 1));
                lemma_msi_only_snoc(all@.take(i as int), all@[i as int]);
            }
            i = i + 1;
        }
        proof {
            assert(all@.take(all@.len() as int) =~= all@);
        }
        out
    }
}

/// Rebuilding a table by upserting a batch of entries, first to last.
pub open spec fn add_all(t: Seq<RouteEntry>, s: Seq<RouteEntry>) -> Seq<RouteEntry>
    decreases s.len(),
{
    if s.len() == 0 {
        t
    } else {
        add_all(upsert(t, s[0]), s.drop_first())
    }
}

/// Upserting an entry whose key lies above the whole table appends it.
pub proof fn lemma_upsert_append(t: Seq<RouteEntry>, e: RouteEntry)
    requires
        forall|i: int| 0 <= i < t.len() ==> route_key(#[trigger] t[i]) < route_key(e),
    ensures
        upsert(t, e) == t.push(e),
    decreases t.len(),
{
    if t.len() == 0 {
        assert(upsert(t, e) == seq![e]);
        assert(t.push(e) =~= seq![e]);
    } else {
        assert(route_key(t[0]) < route_key(e));
        let rest = t.drop_first();
        assert forall|i: int|
            0 <= i < rest.len() implies route_key(#[trigger] rest[i]) < route_key(e) by {
            assert(rest[i] == t[i + 1]);
        }
        lemma_upsert_append(rest, e);
        assert(upsert(t, e) == seq![t[0]] + rest.push(e));
        assert(seq![t[0]] + rest.push(e) =~= t.push(e));
    }
}

/// Adding a sorted batch on top of a table it strictly extends reproduces the
/// concatenation.
pub proof fn lemma_add_all_sorted(t: Seq<RouteEntry>, s: Seq<RouteEntry>)
    requires
        sorted_by_key(s),
        forall|i: int, j: int|
            0 <= i < t.len() && 0 <= j < s.len() ==> route_key(#[trigger] t[i]) < route_key(
                #[trigger] s[j],
            ),
    ensures
        add_all(t, s) == t + s,
    decreases s.len(),
{
    if s.len() == 0 {
        assert(t + s =~= t);
    } else {
        assert forall|i: int|
            0 <= i < t.len() implies route_key(#[trigger] t[i]) < route_key(s[0]) by {}
        lemma_upsert_append(t, s[0]);
        let t1 = t.push(s[0]);
        let rest = s.drop_first();
        assert(sorted_by_key(rest)) by {
            assert forall|i: int, j: int|
                0 <= i < j < rest.len() implies route_key(rest[i]) < route_key(rest[j]) by {
                assert(rest[i] == s[i + 1] && rest[j] == s[j + 1]);
            }
        }
        assert forall|i: int, j: int|
            0 <= i < t1.len() && 0 <= j < rest.len() implies route_key(#[trigger] t1[i])
            < route_key(#[trigger] rest[j]) by {
            assert(rest[j] == s[j + 1]);
            if i < t.len() {
                assert(t1[i] == t[i]);
            } else {
                assert(t1[i] == s[0]);
                assert(route_key(s[0]) < route_key(s[j + 1]));
            }
        }
        lemma_add_all_sorted(t1, rest);
        assert(add_all(t, s) == add_all(t1, rest));
        assert(t1 + rest =~= t + s);
    }
}

/// Law: serializing a table's entries, rebuilding a fresh table by `add`ing
/// each entry in order, and serializing again gives byte-identical images —
/// the snapshot round trip loses nothing. It applies in particular to the
/// persisted MSI entries, which `msi_only` keeps in key order.
pub proof fn lemma_snapshot_round_trip(s: Seq<RouteEntry>)
    requires
        sorted_by_key(s),
    ensures
        add_all(Seq::<RouteEntry>::empty(), s) == s,
        routing_wire_bytes(add_all(Seq::<RouteEntry>::empty(), s)) == routing_wire_bytes(s),
{
    lemma_add_all_sorted(Seq::<RouteEntry>::empty(), s);
    assert(Seq::<RouteEntry>::empty() + s =~= s);
}

} // verus!
