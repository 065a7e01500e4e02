//! The hypervisor handle the routing core drives.
//!
//! The handle is abstract: the routing table and the interrupt objects only
//! need to replace the in-kernel routing table atomically and to attach or
//! detach a notification descriptor under a GSI. [`InMemoryHypervisor`]
//! implements the trait with plain state for exercising the core without a
//! kernel; a production implementation wraps the real VM ioctls.

use vstd::prelude::*;

use vmm_sys_util::eventfd::EventFd;

use crate::kvm_irq_routing::RouteEntry;

verus! {

#[derive(Clone, Copy, Debug, PartialEq, Eq, Structural)]
pub enum HypervisorError {
    /// The hypervisor refused the new routing table.
    SetGsiRouting,
    /// The hypervisor refused to attach the descriptor to the GSI.
    RegisterIrqFd,
    /// The hypervisor refused to detach the descriptor from the GSI.
    UnregisterIrqFd,
}

/// A VM handle. `gsi_routes` is the routing table the hypervisor currently
/// holds, `commit_count` how many tables it has accepted, and
/// `registered_gsis` the GSIs a notification descriptor is attached to.
pub trait Hypervisor: Sized {
    /// The routing table the hypervisor last accepted.
    spec fn gsi_routes(&self) -> Seq<RouteEntry>;

    /// How many routing tables the hypervisor has accepted.
    spec fn commit_count(&self) -> nat;

    /// The GSIs a notification descriptor is currently attached to.
    spec fn registered_gsis(&self) -> Set<u32>;

    /// Replace the whole in-kernel routing table with `routing`. The call is
    /// atomic: it either installs the new table or leaves the old one.
    fn set_gsi_routing(&mut self, routing: &Vec<RouteEntry>) -> (r: Result<(), HypervisorError>)
        ensures
            final(self).registered_gsis() == old(self).registered_gsis(),
            r is Ok ==> final(self).gsi_routes() == routing@
                && final(self).commit_count() == old(self).commit_count() + 1,
            r is Err ==> final(self).gsi_routes() == old(self).gsi_routes()
                && final(self).commit_count() == old(self).commit_count()
                && r == Err::<(), HypervisorError>(HypervisorError::SetGsiRouting),
    ;

    /// Attach the notification descriptor to `gsi`: the hypervisor will
    /// deliver an interrupt on `gsi` whenever the descriptor is written.
    fn register_irqfd(&mut self, fd: &EventFd, gsi: u32) -> (r: Result<(), HypervisorError>)
        ensures
            final(self).gsi_routes() == old(self).gsi_routes(),
            final(self).commit_count() == old(self).commit_count(),
            r is Ok ==> final(self).registered_gsis() == old(self).registered_gsis().insert(gsi),
            r is Err ==> final(self).registered_gsis() == old(self).registered_gsis()
                && r == Err::<(), HypervisorError>(HypervisorError::RegisterIrqFd),
    ;

    /// Detach the notification descriptor from `gsi`.
    fn unregister_irqfd(&mut self, fd: &EventFd, gsi: u32) -> (r: Result<(), HypervisorError>)
        ensures
            final(self).gsi_routes() == old(self).gsi_routes(),
            final(self).commit_count() == old(self).commit_count(),
            r is Ok ==> final(self).registered_gsis() == old(self).registered_gsis().remove(gsi),
            r is Err ==> final(self).registered_gsis() == old(self).registered_gsis()
                && r == Err::<(), HypervisorError>(HypervisorError::UnregisterIrqFd),
    ;
}

/// A hypervisor handle backed by plain memory: it records what it is asked to
/// hold, and can be told to refuse requests, so that rollback paths can be
/// exercised.
pub struct InMemoryHypervisor {
    routes: Vec<RouteEntry>,
    commits: u64,
    registered: Vec<u32>,
    deny_commits: bool,
    deny_irqfd: bool,
}

impl InMemoryHypervisor {
    pub fn new() -> (r: Self)
        ensures
            r.gsi_routes() == Seq::<RouteEntry>::empty(),
            r.commit_count() == 0,
            r.registered_gsis() == Set::<u32>::empty(),
    {
        let r = InMemoryHypervisor {
            routes: Vec::new(),
            commits: 0,
            registered: Vec::new(),
            deny_commits: false,
            deny_irqfd: false,
        };
        proof {
            assert(r.registered@.to_set() =~= Set::<u32>::empty());
        }
        r
    }

    /// Make every following routing-table commit fail (or succeed again).
    pub fn set_deny_commits(&mut self, deny: bool)
        ensures
            final(self).gsi_routes() == old(self).gsi_routes(),
            final(self).commit_count() == old(self).commit_count(),
            final(self).registered_gsis() == old(self).registered_gsis(),
    {
        self.deny_commits = deny;
    }

    /// Make every following irqfd request fail (or succeed again).
    pub fn set_deny_irqfd(&mut self, deny: bool)
        ensures
            final(self).gsi_routes() == old(self).gsi_routes(),
            final(self).commit_count() == old(self).commit_count(),
            final(self).registered_gsis() == old(self).registered_gsis(),
    {
        self.deny_irqfd = deny;
    }

    /// The routing table last accepted.
    pub fn routes(&self) -> (r: &Vec<RouteEntry>)
        ensures
            r@ == self.gsi_routes(),
    {
        &self.routes
    }

    /// How many routing tables have been accepted.
    pub fn commit_total(&self) -> (r: u64)
        ensures
            r as nat == self.commit_count(),
    {
        self.commits
    }

    /// Whether a notification descriptor is attached to `gsi`.
    pub fn gsi_is_registered(&self, gsi: u32) -> (r: bool)
        ensures
            r == self.registered_gsis().contains(gsi),
    {
        let mut i: usize = 0;
        while i < self.registered.len()
            invariant
                i <= self.registered@.len(),
                forall|k: int| 0 <= k < i ==> self.registered@[k] != gsi,
            decreases self.registered@.len() - i,
        {
            if self.registered[i] == gsi {
                assert(self.registered@.contains(gsi));
                return true;
            }
            i = i + 1;
        }
        assert(!self.registered@.contains(gsi));
        false
    }
}

impl Hypervisor for InMemoryHypervisor {
    closed spec fn gsi_routes(&self) -> Seq<RouteEntry> {
        self.routes@
    }

    closed spec fn commit_count(&self) -> nat {
        self.commits as nat
    }

    closed spec fn registered_gsis(&self) -> Set<u32> {
        self.registered@.to_set()
    }

    fn set_gsi_routing(&mut self, routing: &Vec<RouteEntry>) -> (r: Result<(), HypervisorError>) {
        if self.deny_commits || self.commits == u64::MAX {
            return Err(HypervisorError::SetGsiRouting);
        }
        let mut copy: Vec<RouteEntry> = Vec::new();
        let mut i: usize = 0;
        while i < routing.len()
            invariant
                i <= routing@.len(),
                copy@ == routing@.take(i as int),
            decreases routing@.len() - i,
        {
            copy.push(routing[i]);
            proof {
                assert(copy@ =~= routing@.take(i + 1));
            }
            i = i + 1;
        }
        proof {
            assert(routing@.take(routing@.len() as int) =~= routing@);
        }
        self.routes = copy;
        self.commits = self.commits + 1;
        Ok(())
    }

    fn register_irqfd(&mut self, fd: &EventFd, gsi: u32) -> (r: Result<(), HypervisorError>) {
        if self.deny_irqfd {
            return Err(HypervisorError::RegisterIrqFd);
        }
        if !self.gsi_is_registered(gsi) {
            self.registered.push(gsi);
            proof {
                lemma_push_to_set(old(self).registered@, gsi);
            }
        } else {
            proof {
                assert(old(self).registered@.to_set().insert(gsi) =~= old(self).registered@.to_set());
            }
        }
        Ok(())
    }

    fn unregister_irqfd(&mut self, fd: &EventFd, gsi: u32) -> (r: Result<(), HypervisorError>) {
        if self.deny_irqfd {
            return Err(HypervisorError::UnregisterIrqFd);
        }
        let mut kept: Vec<u32> = Vec::new();
        let mut i: usize = 0;
        while i < self.registered.len()
            invariant
                i <= self.registered@.len(),
                forall|q: u32| #[trigger] kept@.contains(q) <==> self.registered@.take(
                    i as int,
                ).contains(q) && q != gsi,
            decreases self.registered@.len() - i,
        {
            let x = self.registered[i];
            let ghost kept0 = kept@;
            if x != gsi {
                kept.push(x);
            }
            proof {
                let pre = self.registered@.take(i as int);
                let post = self.registered@.take(i + 1);
                assert(pre =~= post.drop_last());
                assert(post.last() == x);
                assert forall|q: u32| #[trigger] kept@.contains(q) implies post.contains(q)
                    && q != gsi by {
                    if kept0.contains(q) {
                        assert(pre.contains(q));
                        let m = choose|m: int| 0 <= m < pre.len() && pre[m] == q;
                        assert(post[m] == q);
                    } else {
                        assert(q == x);
                        assert(post[i as int] == x);
                    }
                }
                assert forall|q: u32| post.contains(q) && q != gsi implies #[trigger] kept@.contains(
                    q,
                ) by {
                    let m = choose|m: int| 0 <= m < post.len() && post[m] == q;
                    if m < i {
                        assert(pre[m] == q);
                        assert(pre.contains(q));
                        assert(kept0.contains(q));
                        if x != gsi {
                            assert(kept@ == kept0.push(x));
                            let n = choose|n: int| 0 <= n < kept0.len() && kept0[n] == q;
                            assert(kept@[n] == q);
                        }
                    } else {
                        assert(q == x && x != gsi);
                        assert(kept@.last() == x);
                    }
                }
            }
            i = i + 1;
        }
        proof {
            assert(self.registered@.take(self.registered@.len() as int) =~= self.registered@);
            assert(kept@.to_set() =~= self.registered@.to_set().remove(gsi));
        }
        self.registered = kept;
        Ok(())
    }
}

/// Pushing a value adds it to the set of elements.
proof fn lemma_push_to_set(s: Seq<u32>, x: u32)
    ensures
        s.push(x).to_set() == s.to_set().insert(x),
{
    assert forall|q: u32| s.push(x).to_set().contains(q) implies s.to_set().insert(x).contains(
        q,
    ) by {
        let i = choose|i: int| 0 <= i < s.push(x).len() && s.push(x)[i] == q;
        if i < s.len() {
            assert(s[i] == q);
        }
    }
    assert forall|q: u32| s.to_set().insert(x).contains(q) implies s.push(x).to_set().contains(
        q,
    ) by {
        if q == x {
            assert(s.push(x)[s.len() as int] == q);
        } else {
            let i = choose|i: int| 0 <= i < s.len() && s[i] == q;
            assert(s.push(x)[i] == q);
        }
    }
    assert(s.push(x).to_set() =~= s.to_set().insert(x));
}

/// Removing the only occurrence of a value removes it from the set of
/// elements.
proof fn lemma_removed_to_set(s: Seq<u32>, x: u32)
    requires
        s.no_duplicates(),
        s.contains(x),
    ensures
        s.remove_value(x).to_set() == s.to_set().remove(x),
{
    crate::kvm_irqchip::lemma_remove_value_keeps_wf_facts(s, x);
    let t = s.remove_value(x);
    assert forall|q: u32| t.to_set().contains(q) implies s.to_set().remove(x).contains(q) by {
        assert(t.contains(q));
        assert(s.contains(q));
        assert(q != x) by {
            if q == x {
                assert(!t.contains(x));
            }
        }
    }
    assert forall|q: u32| s.to_set().remove(x).contains(q) implies t.to_set().contains(q) by {
        assert(s.contains(q) && q != x);
        assert(t.contains(q));
    }
    assert(t.to_set() =~= s.to_set().remove(x));
}

} // verus!
