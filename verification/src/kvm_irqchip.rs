//! Pin allocators for the two in-kernel interrupt chips: the IO-APIC and the
//! chained 8259 XT-PIC pair.
//!
//! Pin 2 is reserved on both chips because the slave PIC is cascaded into
//! pin 2 of the master. The IO-APIC distinguishes exclusive consumers (which
//! take a pin for good) from shareable ones (which coalesce onto
//! least-recently-assigned pins once the pool is exhausted); the XT-PIC only
//! hands out exclusive pins.

use vstd::prelude::*;

use crate::arch::IRQ_MAX;

verus! {

/// Pins an IO-APIC allocation may return: `{1..=IRQ_MAX} \ {2}`.
pub open spec fn valid_ioapic_pin(p: u32) -> bool {
    1 <= p <= IRQ_MAX && p != 2
}

/// Pins an XT-PIC allocation may return: `{1..=15} \ {2}`.
pub open spec fn valid_pic_pin(p: u32) -> bool {
    1 <= p <= 15 && p != 2
}

pub open spec fn strictly_increasing(s: Seq<u32>) -> bool {
    forall|i: int, j: int| 0 <= i < j < s.len() ==> s[i] < s[j]
}

/// The ascending sequence `1, 3, 4, ..., max`: every pin of a chip with pins
/// `1..=max` except the cascade pin 2.
pub open spec fn pins_without_two(max: u32) -> Seq<u32>
    recommends
        3 <= max,
{
    Seq::new((max - 1) as nat, |i: int| if i == 0 { 1u32 } else { (i + 2) as u32 })
}

pub proof fn lemma_pins_without_two_increasing(max: u32)
    requires
        3 <= max,
    ensures
        strictly_increasing(pins_without_two(max)),
        forall|i: int| 0 <= i < pins_without_two(max).len()
            ==> 1 <= #[trigger] pins_without_two(max)[i] <= max && pins_without_two(max)[i] != 2,
{
}

/// The pool invariant shared by both chips: the free pool is ascending (so
/// its head is its minimum), both pools hold distinct pins the chip owns, and
/// no pin is both free and shared.
pub open spec fn pools_wf(avail: Seq<u32>, shq: Seq<u32>, max: u32) -> bool {
    &&& strictly_increasing(avail)
    &&& forall|i: int|
        0 <= i < avail.len() ==> 1 <= #[trigger] avail[i] <= max && avail[i] != 2
    &&& forall|i: int| 0 <= i < shq.len() ==> 1 <= #[trigger] shq[i] <= max && shq[i] != 2
    &&& shq.no_duplicates()
    &&& forall|p: u32| !(avail.contains(p) && #[trigger] shq.contains(p))
}

/// One step of the IO-APIC allocation policy, in order of preference: a
/// requested pin from `avail`, a requested pin already in the shared queue
/// (shareable allocations only), the smallest pin of `avail` (its head, since
/// `avail` is kept ascending), and finally — shareable allocations only — the
/// least-recently-assigned shared pin, rotated to the back of the queue.
/// Returns the allocated pin (if any) and the two pools after the step.
pub open spec fn ioapic_alloc(
    avail: Seq<u32>,
    shq: Seq<u32>,
    shared: bool,
    requested: Option<u32>,
) -> (Option<u32>, Seq<u32>, Seq<u32>) {
    match requested {
        Some(rp) => {
            if avail.contains(rp) {
                (Some(rp), avail.remove_value(rp), if shared { shq.push(rp) } else { shq })
            } else if shared && shq.contains(rp) {
                (Some(rp), avail, shq.remove_value(rp).push(rp))
            } else {
                (None, avail, shq)
            }
        },
        None => {
            if avail.len() > 0 {
                (Some(avail[0]), avail.drop_first(), if shared { shq.push(avail[0]) } else { shq })
            } else if shared && shq.len() > 0 {
                (Some(shq[0]), avail, shq.drop_first().push(shq[0]))
            } else {
                (None, avail, shq)
            }
        },
    }
}

/// One step of the XT-PIC allocation policy: a requested pin is granted only
/// if still free; otherwise the smallest free pin is taken.
pub open spec fn pic_alloc(avail: Seq<u32>, requested: Option<u32>) -> (Option<u32>, Seq<u32>) {
    match requested {
        Some(rp) => {
            if avail.contains(rp) {
                (Some(rp), avail.remove_value(rp))
            } else {
                (None, avail)
            }
        },
        None => {
            if avail.len() > 0 {
                (Some(avail[0]), avail.drop_first())
            } else {
                (None, avail)
            }
        },
    }
}

/// Allocator for the IO-APIC's pins.
pub struct IoApic {
    /// Pins never yet handed out, ascending.
    available_pins: Vec<u32>,
    /// Pins held by shareable consumers, least recently assigned first.
    shared_pins: Vec<u32>,
}

impl IoApic {
    /// Pins that have not been allocated and are free for use, in ascending
    /// order.
    pub closed spec fn available(&self) -> Seq<u32> {
        self.available_pins@
    }

    /// Pins in use by shareable consumers, least recently assigned first.
    pub closed spec fn shared(&self) -> Seq<u32> {
        self.shared_pins@
    }

    pub open spec fn wf(&self) -> bool {
        pools_wf(self.available(), self.shared(), IRQ_MAX)
    }

    /// A fresh pool: every pin of `{1..=IRQ_MAX} \ {2}` is available and
    /// nothing is shared.
    pub fn new() -> (r: Self)
        ensures
            r.wf(),
            r.available() == pins_without_two(IRQ_MAX),
            r.shared() == Seq::<u32>::empty(),
    {
        let available_pins = fresh_pin_vec(IRQ_MAX);
        proof {
            lemma_pins_without_two_increasing(IRQ_MAX);
        }
        IoApic { available_pins, shared_pins: Vec::new() }
    }

    /// Finds a pin on the IO-APIC and reserves it, following the preference
    /// order of [`ioapic_alloc`]. A shareable allocation joins the shared
    /// queue; once nothing is free and nothing shareable exists, the
    /// allocation fails.
    pub fn allocate_pin(&mut self, shared: bool, requested_pin: Option<u32>) -> (r: Option<u32>)
        requires
            old(self).wf(),
        ensures
            final(self).wf(),
            ({
                let (pr, pa, ps) = ioapic_alloc(
                    old(self).available(),
                    old(self).shared(),
                    shared,
                    requested_pin,
                );
                r == pr && final(self).available() == pa && final(self).shared() == ps
            }),
            r is Some ==> valid_ioapic_pin(r->0),
    {
        let ghost avail0 = self.available_pins@;
        let ghost shq0 = self.shared_pins@;
        if let Some(rpin) = requested_pin {
            if let Some(idx) = find_index(&self.available_pins, rpin) {
                proof {
                    lemma_found_first_is_remove_value(avail0, idx as int);
                    lemma_take_from_avail(avail0, shq0, rpin, IRQ_MAX);
                }
                self.available_pins.remove(idx);
                if shared {
                    self.shared_pins.push(rpin);
                }
                return Some(rpin);
            } else if shared {
                if let Some(idx) = find_index(&self.shared_pins, rpin) {
                    proof {
                        lemma_found_first_is_remove_value(shq0, idx as int);
                        lemma_rotate_shared(avail0, shq0, rpin, IRQ_MAX);
                    }
                    self.shared_pins.remove(idx);
                    self.shared_pins.push(rpin);
                    return Some(rpin);
                } else {
                    return None;
                }
            } else {
                return None;
            }
        }

        if self.available_pins.len() > 0 {
            let pin = self.available_pins.remove(0);
            proof {
                assert(avail0.drop_first() =~= avail0.remove(0));
                lemma_found_first_is_remove_value(avail0, 0);
                lemma_take_from_avail(avail0, shq0, avail0[0], IRQ_MAX);
            }
            if shared {
                self.shared_pins.push(pin);
            }
            return Some(pin);
        }

        if shared && self.shared_pins.len() > 0 {
            let pin = self.shared_pins.remove(0);
            proof {
                assert(shq0.drop_first() =~= shq0.remove(0));
                lemma_found_first_is_remove_value(shq0, 0);
                lemma_rotate_shared(avail0, shq0, shq0[0], IRQ_MAX);
            }
            self.shared_pins.push(pin);
            return Some(pin);
        }

        None
    }

    /// Take `pin` out of the free pool if it is still there; restoring a
    /// routing entry marks its pin as taken.
    pub(crate) fn reserve_pin(&mut self, pin: u32)
        requires
            old(self).wf(),
        ensures
            final(self).wf(),
            final(self).available() == old(self).available().remove_value(pin),
            final(self).shared() == old(self).shared(),
            !final(self).available().contains(pin),
    {
        let ghost avail0 = self.available_pins@;
        if let Some(idx) = find_index(&self.available_pins, pin) {
            proof {
                lemma_found_first_is_remove_value(avail0, idx as int);
                lemma_take_from_avail(avail0, self.shared_pins@, pin, IRQ_MAX);
            }
            self.available_pins.remove(idx);
        } else {
            proof {
                lemma_remove_value_absent(avail0, pin);
            }
        }
    }
}

/// Allocator for the XT-PIC's pins. The XT-PIC is a pair of 8259 chips; the
/// slave's output is cascaded into pin 2 of the master, so pin 2 is never
/// handed out.
pub struct XtPic {
    available_pins: Vec<u32>,
}

impl XtPic {
    /// Pins that have not been allocated, in ascending order.
    pub closed spec fn available(&self) -> Seq<u32> {
        self.available_pins@
    }

    pub open spec fn wf(&self) -> bool {
        pools_wf(self.available(), Seq::<u32>::empty(), 15)
    }

    /// A fresh pool: every pin of `{1..=15} \ {2}` is available.
    pub fn new() -> (r: Self)
        ensures
            r.wf(),
            r.available() == pins_without_two(15),
    {
        let available_pins = fresh_pin_vec(15);
        proof {
            lemma_pins_without_two_increasing(15);
        }
        XtPic { available_pins }
    }

    /// Finds a free pin on the XT-PIC and reserves it: the requested pin if
    /// it is still free, otherwise the smallest free pin. Allocations are
    /// exclusive; pins are never shared.
    pub fn allocate_pin(&mut self, requested_pin: Option<u32>) -> (r: Option<u32>)
        requires
            old(self).wf(),
        ensures
            final(self).wf(),
            ({
                let (pr, pa) = pic_alloc(old(self).available(), requested_pin);
                r == pr && final(self).available() == pa
            }),
            r is Some ==> valid_pic_pin(r->0),
    {
        let ghost avail0 = self.available_pins@;
        if let Some(rpin) = requested_pin {
            if let Some(idx) = find_index(&self.available_pins, rpin) {
                proof {
                    lemma_found_first_is_remove_value(avail0, idx as int);
                    lemma_take_from_avail(avail0, Seq::<u32>::empty(), rpin, 15);
                }
                self.available_pins.remove(idx);
                return Some(rpin);
            } else {
                return None;
            }
        }

        if self.available_pins.len() > 0 {
            let pin = self.available_pins.remove(0);
            proof {
                assert(avail0.drop_first() =~= avail0.remove(0));
                lemma_found_first_is_remove_value(avail0, 0);
                lemma_take_from_avail(avail0, Seq::<u32>::empty(), avail0[0], 15);
            }
            return Some(pin);
        }
        None
    }

    /// Take `pin` out of the free pool if it is still there; restoring a
    /// routing entry marks its pin as taken.
    pub(crate) fn reserve_pin(&mut self, pin: u32)
        requires
            old(self).wf(),
        ensures
            final(self).wf(),
            final(self).available() == old(self).available().remove_value(pin),
            !final(self).available().contains(pin),
    {
        let ghost avail0 = self.available_pins@;
        if let Some(idx) = find_index(&self.available_pins, pin) {
            proof {
                lemma_found_first_is_remove_value(avail0, idx as int);
                lemma_take_from_avail(avail0, Seq::<u32>::empty(), pin, 15);
            }
            self.available_pins.remove(idx);
        } else {
            proof {
                lemma_remove_value_absent(avail0, pin);
            }
        }
    }
}

/// The ascending pin vector `1, 3, 4, ..., max`.
fn fresh_pin_vec(max: u32) -> (v: Vec<u32>)
    requires
        3 <= max < 0xffff_ffff,
    ensures
        v@ == pins_without_two(max),
{
    let mut v: Vec<u32> = Vec::new();
    v.push(1);
    let mut i: u32 = 3;
    while i <= max
        invariant
            3 <= max < 0xffff_ffff,
            3 <= i <= max + 1,
            v@.len() == i - 2,
            forall|k: int| 0 <= k < v@.len() ==> v@[k] == pins_without_two(max)[k],
        decreases max + 1 - i,
    {
        v.push(i);
        i = i + 1;
    }
    proof {
        assert(v@ =~= pins_without_two(max));
    }
    v
}

/// The index of the first occurrence of `x` in `v`, if any.
fn find_index(v: &Vec<u32>, x: u32) -> (r: Option<usize>)
    ensures
        match r {
            Some(i) => i < v@.len() && v@[i as int] == x && forall|k: int|
                0 <= k < i ==> v@[k] != x,
            None => !v@.contains(x),
        },
{
    let mut i: usize = 0;
    while i < v.len()
        invariant
            i <= v@.len(),
            forall|k: int| 0 <= k < i ==> v@[k] != x,
        decreases v@.len() - i,
    {
        if v[i] == x {
            return Some(i);
        }
        i = i + 1;
    }
    None
}

/// Removing the first occurrence of a value by its index is the same as
/// `remove_value`.
pub proof fn lemma_found_first_is_remove_value(s: Seq<u32>, i: int)
    requires
        0 <= i < s.len(),
        forall|k: int| 0 <= k < i ==> s[k] != s[i],
    ensures
        s.remove_value(s[i]) == s.remove(i),
{
    s.index_of_first_ensures(s[i]);
    assert(s.contains(s[i]));
    let j = s.index_of_first(s[i])->0;
    assert(s[j] == s[i]);
    assert(j == i);
}

/// Removing the first occurrence of a value keeps a distinct sequence
/// distinct, keeps an ascending sequence ascending, keeps every other
/// element, and drops the removed one.
pub proof fn lemma_remove_value_keeps_wf_facts(s: Seq<u32>, x: u32)
    requires
        s.no_duplicates(),
        s.contains(x),
    ensures
        s.remove_value(x).len() == s.len() - 1,
        !s.remove_value(x).contains(x),
        forall|q: u32| #[trigger] s.remove_value(x).contains(q) ==> s.contains(q),
        forall|q: u32| s.contains(q) && q != x ==> #[trigger] s.remove_value(x).contains(q),
        strictly_increasing(s) ==> strictly_increasing(s.remove_value(x)),
        s.remove_value(x).no_duplicates(),
{
    s.index_of_first_ensures(x);
    let i = s.index_of_first(x)->0;
    assert(s.remove_value(x) == s.remove(i));
    s.remove_ensures(i);
    let t = s.remove(i);
    assert forall|q: u32| #[trigger] t.contains(q) implies s.contains(q) by {
        let k = choose|k: int| 0 <= k < t.len() && t[k] == q;
        if k < i {
            assert(s[k] == q);
        } else {
            assert(s[k + 1] == q);
        }
    }
    assert(!t.contains(x)) by {
        if t.contains(x) {
            let k = choose|k: int| 0 <= k < t.len() && t[k] == x;
            if k < i {
                assert(s[k] == x && s[i] == x && k != i);
            } else {
                assert(s[k + 1] == x && s[i] == x && k + 1 != i);
            }
        }
    }
    assert forall|q: u32| s.contains(q) && q != x implies #[trigger] t.contains(q) by {
        let k = choose|k: int| 0 <= k < s.len() && s[k] == q;
        if k < i {
            assert(t[k] == q);
        } else {
            assert(k != i);
            assert(t[k - 1] == q);
        }
    }
    if strictly_increasing(s) {
        assert forall|a: int, b: int| 0 <= a < b < t.len() implies t[a] < t[b] by {
            if b < i {
                assert(t[a] == s[a] && t[b] == s[b]);
            } else if a >= i {
                assert(t[a] == s[a + 1] && t[b] == s[b + 1]);
            } else {
                assert(t[a] == s[a] && t[b] == s[b + 1]);
            }
        }
    }
    assert forall|a: int, b: int|
        0 <= a < t.len() && 0 <= b < t.len() && a != b implies t[a] != t[b] by {
        let sa: int = if a < i { a } else { a + 1 };
        let sb: int = if b < i { b } else { b + 1 };
        assert(t[a] == s[sa] && t[b] == s[sb]);
    }
}

/// Granting a free pin preserves the pool invariant, whether or not the pin
/// then joins the shared queue.
pub proof fn lemma_take_from_avail(avail: Seq<u32>, shq: Seq<u32>, p: u32, max: u32)
    requires
        pools_wf(avail, shq, max),
        avail.contains(p),
    ensures
        pools_wf(avail.remove_value(p), shq, max),
        pools_wf(avail.remove_value(p), shq.push(p), max),
        !avail.remove_value(p).contains(p),
        avail.remove_value(p).len() == avail.len() - 1,
        forall|q: u32| #[trigger] avail.remove_value(p).contains(q) ==> avail.contains(q),
{
    assert(avail.no_duplicates()) by {
        assert forall|a: int, b: int|
            0 <= a < avail.len() && 0 <= b < avail.len() && a != b
            implies avail[a] != avail[b] by {
            if a < b {
                assert(avail[a] < avail[b]);
            } else {
                assert(avail[b] < avail[a]);
            }
        }
    }
    lemma_remove_value_keeps_wf_facts(avail, p);
    let na = avail.remove_value(p);
    let ns = shq.push(p);
    assert forall|i: int| 0 <= i < na.len() implies 1 <= #[trigger] na[i] <= max && na[i] != 2 by {
        assert(na.contains(na[i]));
    }
    assert(!shq.contains(p));
    assert forall|q: u32| #[trigger] ns.contains(q) implies shq.contains(q) || q == p by {
        let k = choose|k: int| 0 <= k < ns.len() && ns[k] == q;
        if k < shq.len() {
            assert(shq[k] == q);
        }
    }
    assert forall|i: int| 0 <= i < ns.len() implies 1 <= #[trigger] ns[i] <= max && ns[i] != 2 by {
        if i < shq.len() {
            assert(ns[i] == shq[i]);
        } else {
            assert(ns[i] == p);
            assert(avail.contains(p));
            let k = choose|k: int| 0 <= k < avail.len() && avail[k] == p;
            assert(avail[k] == p);
        }
    }
    assert(ns.no_duplicates()) by {
        assert forall|a: int, b: int|
            0 <= a < ns.len() && 0 <= b < ns.len() && a != b implies ns[a] != ns[b] by {
            if a < shq.len() && b < shq.len() {
                assert(ns[a] == shq[a] && ns[b] == shq[b]);
            } else if a < shq.len() {
                assert(ns[b] == p && ns[a] == shq[a]);
                assert(shq.contains(shq[a]));
            } else {
                assert(ns[a] == p && ns[b] == shq[b]);
                assert(shq.contains(shq[b]));
            }
        }
    }
    assert forall|q: u32| !(na.contains(q) && #[trigger] ns.contains(q)) by {
        if na.contains(q) && ns.contains(q) {
            assert(avail.contains(q));
            if q == p {
                assert(!na.contains(p));
            } else {
                assert(shq.contains(q));
            }
        }
    }
}

/// Whatever `remove_value` leaves was there before.
pub proof fn lemma_remove_value_subset(s: Seq<u32>, x: u32)
    ensures
        forall|q: u32| #[trigger] s.remove_value(x).contains(q) ==> s.contains(q),
{
    s.index_of_first_ensures(x);
    if s.contains(x) {
        let i = s.index_of_first(x)->0;
        assert(s.remove_value(x) == s.remove(i));
        s.remove_ensures(i);
        let t = s.remove(i);
        assert forall|q: u32| #[trigger] t.contains(q) implies s.contains(q) by {
            let k = choose|k: int| 0 <= k < t.len() && t[k] == q;
            if k < i {
                assert(s[k] == q);
            } else {
                assert(s[k + 1] == q);
            }
        }
    }
}

/// `remove_value` of an absent value changes nothing.
pub proof fn lemma_remove_value_absent(s: Seq<u32>, x: u32)
    requires
        !s.contains(x),
    ensures
        s.remove_value(x) == s,
{
    s.index_of_first_ensures(x);
}

/// Rotating a shared pin to the back of the queue preserves the pool
/// invariant.
pub proof fn lemma_rotate_shared(avail: Seq<u32>, shq: Seq<u32>, p: u32, max: u32)
    requires
        pools_wf(avail, shq, max),
        shq.contains(p),
        !avail.contains(p),
    ensures
        pools_wf(avail, shq.remove_value(p).push(p), max),
{
    lemma_remove_value_keeps_wf_facts(shq, p);
    let t = shq.remove_value(p);
    let ns = t.push(p);
    assert forall|q: u32| #[trigger] ns.contains(q) implies shq.contains(q) by {
        let k = choose|k: int| 0 <= k < ns.len() && ns[k] == q;
        if k < t.len() {
            assert(t[k] == q);
            assert(t.contains(q));
        }
    }
    assert forall|i: int| 0 <= i < ns.len() implies 1 <= #[trigger] ns[i] <= max && ns[i] != 2 by {
        assert(ns.contains(ns[i]));
        let k = choose|k: int| 0 <= k < shq.len() && shq[k] == ns[i];
        assert(shq[k] == ns[i]);
    }
    assert forall|i: int| 0 <= i < t.len() implies 1 <= #[trigger] t[i] <= max && t[i] != 2 by {
        assert(t.contains(t[i]));
        let k = choose|k: int| 0 <= k < shq.len() && shq[k] == t[i];
        assert(shq[k] == t[i]);
    }
    assert(ns.no_duplicates()) by {
        assert forall|a: int, b: int|
            0 <= a < ns.len() && 0 <= b < ns.len() && a != b implies ns[a] != ns[b] by {
            if a < t.len() && b < t.len() {
                assert(ns[a] == t[a] && ns[b] == t[b]);
            } else if a < t.len() {
                assert(ns[b] == p && ns[a] == t[a]);
                assert(t.contains(t[a]));
            } else {
                assert(ns[a] == p && ns[b] == t[b]);
                assert(t.contains(t[b]));
            }
        }
    }
    assert forall|q: u32| !(avail.contains(q) && #[trigger] ns.contains(q)) by {
        if avail.contains(q) && ns.contains(q) {
            assert(shq.contains(q));
        }
    }
}


/// A successful allocation never leaves the granted pin in the free pool, and
/// the free pool only shrinks.
pub proof fn lemma_ioapic_alloc_shrinks(
    avail: Seq<u32>,
    shq: Seq<u32>,
    shared: bool,
    req: Option<u32>,
)
    requires
        pools_wf(avail, shq, IRQ_MAX),
    ensures
        ({
            let (pr, pa, ps) = ioapic_alloc(avail, shq, shared, req);
            &&& forall|q: u32| #[trigger] pa.contains(q) ==> avail.contains(q)
            &&& (pr is Some ==> !pa.contains(pr->0))
        }),
{
    let (pr, pa, ps) = ioapic_alloc(avail, shq, shared, req);
    match req {
        Some(rp) => {
            if avail.contains(rp) {
                lemma_take_from_avail(avail, shq, rp, IRQ_MAX);
            } else if shared && shq.contains(rp) {
                assert(!avail.contains(rp));
            }
        },
        None => {
            if avail.len() > 0 {
                assert(avail.contains(avail[0]));
                lemma_take_from_avail(avail, shq, avail[0], IRQ_MAX);
                lemma_found_first_is_remove_value(avail, 0);
                assert(avail.drop_first() =~= avail.remove(0));
            } else if shared && shq.len() > 0 {
                assert(!avail.contains(shq[0]));
            }
        },
    }
}

/// The XT-PIC counterpart of [`lemma_ioapic_alloc_shrinks`].
pub proof fn lemma_pic_alloc_shrinks(avail: Seq<u32>, req: Option<u32>)
    requires
        pools_wf(avail, Seq::<u32>::empty(), 15),
    ensures
        ({
            let (pr, pa) = pic_alloc(avail, req);
            &&& forall|q: u32| #[trigger] pa.contains(q) ==> avail.contains(q)
            &&& (pr is Some ==> !pa.contains(pr->0))
        }),
{
    let (pr, pa) = pic_alloc(avail, req);
    match req {
        Some(rp) => {
            if avail.contains(rp) {
                lemma_take_from_avail(avail, Seq::<u32>::empty(), rp, 15);
            }
        },
        None => {
            if avail.len() > 0 {
                assert(avail.contains(avail[0]));
                lemma_take_from_avail(avail, Seq::<u32>::empty(), avail[0], 15);
                lemma_found_first_is_remove_value(avail, 0);
                assert(avail.drop_first() =~= avail.remove(0));
            }
        },
    }
}

/// One allocation step keeps the pool invariant.
pub proof fn lemma_ioapic_alloc_preserves(
    avail: Seq<u32>,
    shq: Seq<u32>,
    shared: bool,
    req: Option<u32>,
)
    requires
        pools_wf(avail, shq, IRQ_MAX),
    ensures
        ({
            let (pr, pa, ps) = ioapic_alloc(avail, shq, shared, req);
            pools_wf(pa, ps, IRQ_MAX)
        }),
{
    match req {
        Some(rp) => {
            if avail.contains(rp) {
                lemma_take_from_avail(avail, shq, rp, IRQ_MAX);
            } else if shared && shq.contains(rp) {
                lemma_rotate_shared(avail, shq, rp, IRQ_MAX);
            }
        },
        None => {
            if avail.len() > 0 {
                assert(avail.contains(avail[0]));
                lemma_take_from_avail(avail, shq, avail[0], IRQ_MAX);
                lemma_found_first_is_remove_value(avail, 0);
                assert(avail.drop_first() =~= avail.remove(0));
            } else if shared && shq.len() > 0 {
                lemma_rotate_shared(avail, shq, shq[0], IRQ_MAX);
                lemma_found_first_is_remove_value(shq, 0);
                assert(shq.drop_first() =~= shq.remove(0));
            }
        },
    }
}

/// Law: no pin is ever both free and shared — the two IO-APIC sets are
/// disjoint.
pub proof fn lemma_ioapic_sets_disjoint(io: &IoApic, p: u32)
    requires
        io.wf(),
    ensures
        !(io.available().contains(p) && io.shared().contains(p)),
{
}

/// The grants of a run of exclusive IO-APIC allocations, in order.
pub open spec fn ioapic_exclusive_results(
    avail: Seq<u32>,
    shq: Seq<u32>,
    reqs: Seq<Option<u32>>,
) -> Seq<Option<u32>>
    decreases reqs.len(),
{
    if reqs.len() == 0 {
        Seq::<Option<u32>>::empty()
    } else {
        let (r, a1, s1) = ioapic_alloc(avail, shq, false, reqs[0]);
        seq![r] + ioapic_exclusive_results(a1, s1, reqs.drop_first())
    }
}

pub proof fn lemma_exclusive_results_len(avail: Seq<u32>, shq: Seq<u32>, reqs: Seq<Option<u32>>)
    ensures
        ioapic_exclusive_results(avail, shq, reqs).len() == reqs.len(),
    decreases reqs.len(),
{
    if reqs.len() > 0 {
        let (r, a1, s1) = ioapic_alloc(avail, shq, false, reqs[0]);
        lemma_exclusive_results_len(a1, s1, reqs.drop_first());
    }
}

/// Every pin an exclusive run grants was free when the run began.
pub proof fn lemma_exclusive_results_from_avail(
    avail: Seq<u32>,
    shq: Seq<u32>,
    reqs: Seq<Option<u32>>,
    k: int,
)
    requires
        pools_wf(avail, shq, IRQ_MAX),
        0 <= k < reqs.len(),
        ioapic_exclusive_results(avail, shq, reqs)[k] is Some,
    ensures
        avail.contains(ioapic_exclusive_results(avail, shq, reqs)[k]->0),
    decreases reqs.len(),
{
    let (r, a1, s1) = ioapic_alloc(avail, shq, false, reqs[0]);
    let results = ioapic_exclusive_results(avail, shq, reqs);
    let tail = ioapic_exclusive_results(a1, s1, reqs.drop_first());
    assert(results == seq![r] + tail);
    lemma_exclusive_results_len(a1, s1, reqs.drop_first());
    if k == 0 {
        assert(results[0] == r);
        match reqs[0] {
            Some(rp) => {
                assert(avail.contains(rp));
            },
            None => {
                assert(avail.len() > 0);
                assert(avail.contains(avail[0]));
            },
        }
    } else {
        lemma_ioapic_alloc_preserves(avail, shq, false, reqs[0]);
        lemma_ioapic_alloc_shrinks(avail, shq, false, reqs[0]);
        assert(results[k] == tail[k - 1]);
        lemma_exclusive_results_from_avail(a1, s1, reqs.drop_first(), k - 1);
    }
}

/// Law: after any sequence of exclusive IO-APIC allocations, the granted pins
/// are pairwise distinct — an exclusive consumer owns its pin.
pub proof fn lemma_exclusive_allocations_distinct(
    avail: Seq<u32>,
    shq: Seq<u32>,
    reqs: Seq<Option<u32>>,
    i: int,
    j: int,
)
    requires
        pools_wf(avail, shq, IRQ_MAX),
        0 <= i < j < reqs.len(),
        ioapic_exclusive_results(avail, shq, reqs)[i] is Some,
        ioapic_exclusive_results(avail, shq, reqs)[j] is Some,
    ensures
        ioapic_exclusive_results(avail, shq, reqs)[i] != ioapic_exclusive_results(
            avail,
            shq,
            reqs,
        )[j],
    decreases reqs.len(),
{
    let (r, a1, s1) = ioapic_alloc(avail, shq, false, reqs[0]);
    let results = ioapic_exclusive_results(avail, shq, reqs);
    let tail = ioapic_exclusive_results(a1, s1, reqs.drop_first());
    assert(results == seq![r] + tail);
    lemma_exclusive_results_len(a1, s1, reqs.drop_first());
    lemma_ioapic_alloc_preserves(avail, shq, false, reqs[0]);
    lemma_ioapic_alloc_shrinks(avail, shq, false, reqs[0]);
    if i == 0 {
        let p = r->0;
        assert(!a1.contains(p));
        assert(results[j] == tail[j - 1]);
        lemma_exclusive_results_from_avail(a1, s1, reqs.drop_first(), j - 1);
        assert(a1.contains(tail[j - 1]->0));
    } else {
        assert(results[i] == tail[i - 1]);
        assert(results[j] == tail[j - 1]);
        lemma_exclusive_allocations_distinct(a1, s1, reqs.drop_first(), i - 1, j - 1);
    }
}

/// The grants of a run of `allocate_pin(None)` calls on the XT-PIC.
pub open spec fn pic_none_results(avail: Seq<u32>, n: nat) -> Seq<Option<u32>>
    decreases n,
{
    if n == 0 {
        Seq::<Option<u32>>::empty()
    } else {
        let (r, a1) = pic_alloc(avail, None);
        seq![r] + pic_none_results(a1, (n - 1) as nat)
    }
}

pub proof fn lemma_pic_none_results_len(avail: Seq<u32>, n: nat)
    ensures
        pic_none_results(avail, n).len() == n,
    decreases n,
{
    if n > 0 {
        let (r, a1) = pic_alloc(avail, None);
        lemma_pic_none_results_len(a1, (n - 1) as nat);
    }
}

/// While the pool lasts, the k-th grant of a fresh run is the k-th smallest
/// free pin.
pub proof fn lemma_pic_none_run_takes_prefix(avail: Seq<u32>, n: nat, k: int)
    requires
        0 <= k < n,
        k < avail.len(),
    ensures
        pic_none_results(avail, n)[k] == Some(avail[k]),
    decreases n,
{
    let (r, a1) = pic_alloc(avail, None);
    let results = pic_none_results(avail, n);
    let tail = pic_none_results(a1, (n - 1) as nat);
    assert(results == seq![r] + tail);
    lemma_pic_none_results_len(a1, (n - 1) as nat);
    if k == 0 {
        assert(results[0] == r);
    } else {
        assert(results[k] == tail[k - 1]);
        lemma_pic_none_run_takes_prefix(avail.drop_first(), (n - 1) as nat, k - 1);
        assert(avail.drop_first()[k - 1] == avail[k]);
    }
}

/// Law: on a pool whose free pins ascend, successive `allocate_pin(None)`
/// grants strictly increase while the pool lasts.
pub proof fn lemma_pic_fresh_monotonic(avail: Seq<u32>, n: nat, i: int, j: int)
    requires
        strictly_increasing(avail),
        0 <= i < j < n,
        j < avail.len(),
    ensures
        pic_none_results(avail, n)[i]->0 < pic_none_results(avail, n)[j]->0,
{
    lemma_pic_none_run_takes_prefix(avail, n, i);
    lemma_pic_none_run_takes_prefix(avail, n, j);
}

/// The grants of a run of shareable `allocate_pin(true, None)` calls.
pub open spec fn ioapic_shared_none_results(avail: Seq<u32>, shq: Seq<u32>, n: nat) -> Seq<
    Option<u32>,
>
    decreases n,
{
    if n == 0 {
        Seq::<Option<u32>>::empty()
    } else {
        let (r, a1, s1) = ioapic_alloc(avail, shq, true, None);
        seq![r] + ioapic_shared_none_results(a1, s1, (n - 1) as nat)
    }
}

pub proof fn lemma_shared_none_results_len(avail: Seq<u32>, shq: Seq<u32>, n: nat)
    ensures
        ioapic_shared_none_results(avail, shq, n).len() == n,
    decreases n,
{
    if n > 0 {
        let (r, a1, s1) = ioapic_alloc(avail, shq, true, None);
        lemma_shared_none_results_len(a1, s1, (n - 1) as nat);
    }
}

/// Law: once nothing is free, shareable allocations reuse the shared pins in
/// strict first-assignment order: the k-th grant is the k-th oldest shared
/// pin, and each grant rotates to the back of the queue.
pub proof fn lemma_shared_reuse_fifo(shq: Seq<u32>, n: nat, k: int)
    requires
        0 <= k < n,
        k < shq.len(),
    ensures
        ioapic_shared_none_results(Seq::<u32>::empty(), shq, n)[k] == Some(shq[k]),
    decreases n,
{
    let avail = Seq::<u32>::empty();
    let (r, a1, s1) = ioapic_alloc(avail, shq, true, None);
    let results = ioapic_shared_none_results(avail, shq, n);
    let tail = ioapic_shared_none_results(a1, s1, (n - 1) as nat);
    assert(results == seq![r] + tail);
    lemma_shared_none_results_len(a1, s1, (n - 1) as nat);
    assert(shq.len() > 0);
    assert(r == Some(shq[0]));
    assert(s1 == shq.drop_first().push(shq[0]));
    if k == 0 {
        assert(results[0] == r);
    } else {
        assert(results[k] == tail[k - 1]);
        lemma_shared_reuse_fifo(s1, (n - 1) as nat, k - 1);
        assert(s1[k - 1] == shq[k]);
    }
}


/// While something is free, a shareable grant takes the smallest free pin,
/// whatever the queue holds.
pub proof fn lemma_shared_fresh_prefix(avail: Seq<u32>, shq: Seq<u32>, n: nat, k: int)
    requires
        0 <= k < n,
        k < avail.len(),
    ensures
        ioapic_shared_none_results(avail, shq, n)[k] == Some(avail[k]),
    decreases n,
{
    let (r, a1, s1) = ioapic_alloc(avail, shq, true, None);
    let results = ioapic_shared_none_results(avail, shq, n);
    let tail = ioapic_shared_none_results(a1, s1, (n - 1) as nat);
    assert(results == seq![r] + tail);
    lemma_shared_none_results_len(a1, s1, (n - 1) as nat);
    if k == 0 {
        assert(results[0] == r);
    } else {
        assert(results[k] == tail[k - 1]);
        lemma_shared_fresh_prefix(avail.drop_first(), shq.push(avail[0]), (n - 1) as nat, k - 1);
        assert(avail.drop_first()[k - 1] == avail[k]);
    }
}

/// Once a shareable run has drained the free pool, the rest of the run is a
/// run on the queue alone, which by then holds the old queue followed by the
/// drained pins in grant order.
pub proof fn lemma_shared_run_split(avail: Seq<u32>, shq: Seq<u32>, n: nat)
    requires
        avail.len() <= n,
    ensures
        ioapic_shared_none_results(avail, shq, n).skip(avail.len() as int)
            == ioapic_shared_none_results(
            Seq::<u32>::empty(),
            shq + avail,
            (n - avail.len()) as nat,
        ),
    decreases avail.len(),
{
    let results = ioapic_shared_none_results(avail, shq, n);
    if avail.len() == 0 {
        assert(avail =~= Seq::<u32>::empty());
        assert(results.skip(0) =~= results);
        assert(shq + avail =~= shq);
    } else {
        let (r, a1, s1) = ioapic_alloc(avail, shq, true, None);
        assert(a1 == avail.drop_first());
        assert(s1 == shq.push(avail[0]));
        let tail = ioapic_shared_none_results(a1, s1, (n - 1) as nat);
        assert(results == seq![r] + tail);
        lemma_shared_none_results_len(a1, s1, (n - 1) as nat);
        lemma_shared_run_split(a1, s1, (n - 1) as nat);
        assert(results.skip(avail.len() as int) =~= tail.skip(avail.len() - 1));
        assert(shq.push(avail[0]) + avail.drop_first() =~= shq + avail);
    }
}

/// Law: on a fresh pool, a run of shareable allocations first grants every
/// free pin in ascending order, and past the pool size reuses the granted
/// pins in strict order of first assignment.
pub proof fn lemma_shared_reuse_first_assignment(avail: Seq<u32>, n: nat, k: int)
    requires
        avail.len() <= k < n,
        k - avail.len() < avail.len(),
    ensures
        ioapic_shared_none_results(avail, Seq::<u32>::empty(), n)[k] == Some(
            avail[k - avail.len()],
        ),
{
    lemma_shared_run_split(avail, Seq::<u32>::empty(), n);
    assert(Seq::<u32>::empty() + avail =~= avail);
    lemma_shared_reuse_fifo(avail, (n - avail.len()) as nat, k - avail.len());
    let results = ioapic_shared_none_results(avail, Seq::<u32>::empty(), n);
    lemma_shared_none_results_len(avail, Seq::<u32>::empty(), n);
    assert(results.skip(avail.len() as int)[k - avail.len()] == results[k]);
}

} // verus!
