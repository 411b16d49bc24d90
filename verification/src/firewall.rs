//! Model of the packet-filter backend's blocked set.
//!
//! The real backend is an external mutable set of blocked addresses with
//! idempotent add and remove; the registry, not the backend, is the source
//! of truth for who should be blocked. This model states what the daemon
//! relies on of that interface, and what the recovery replay achieves.

use vstd::prelude::*;
use crate::attack::Address;
use crate::policy::spec_block_owed;
use crate::registry::Registry;

verus! {

/// The blocked set after a sequence of block operations is applied in
/// order.
pub open spec fn fw_apply_blocks(base: Set<Address>, plan: Seq<Address>) -> Set<Address>
    decreases plan.len(),
{
    if plan.len() == 0 {
        base
    } else {
        fw_apply_blocks(base.insert(plan[0]), plan.drop_first())
    }
}

/// Law: a block is idempotent — a second block of the same address changes
/// nothing beyond the first.
pub proof fn lemma_block_idempotent(blocked: Set<Address>, a: Address)
    ensures
        blocked.insert(a).insert(a) == blocked.insert(a),
{
    assert(blocked.insert(a).insert(a) =~= blocked.insert(a));
}

/// Law: an unblock of an address that was never blocked changes nothing.
pub proof fn lemma_unblock_of_unblocked(blocked: Set<Address>, a: Address)
    requires
        !blocked.contains(a),
    ensures
        blocked.remove(a) == blocked,
{
    assert(blocked.remove(a) =~= blocked);
}

/// An address already blocked, or named anywhere in the plan, is blocked
/// after the plan is applied.
pub proof fn lemma_apply_blocks_contains(base: Set<Address>, plan: Seq<Address>, a: Address)
    requires
        base.contains(a) || plan.contains(a),
    ensures
        fw_apply_blocks(base, plan).contains(a),
    decreases plan.len(),
{
    if plan.len() > 0 {
        let base1 = base.insert(plan[0]);
        if base.contains(a) || plan[0] == a {
            lemma_apply_blocks_contains(base1, plan.drop_first(), a);
        } else {
            let k = choose|k: int| 0 <= k < plan.len() && plan[k] == a;
            assert(plan.drop_first()[k - 1] == a);
            assert(plan.drop_first().contains(a));
            lemma_apply_blocks_contains(base1, plan.drop_first(), a);
        }
    }
}

/// Law: the recovery round-trip restores every owed block. If a plan names
/// exactly the addresses the registry still owes a block at time `now`
/// (as the replay computes it), then after reinitialization empties the
/// backend, the plan is applied, and the triggering block call is retried,
/// every owed address is blocked — the triggering one among them.
pub proof fn lemma_recovery_round_trip(reg: &Registry, now: u64, plan: Seq<Address>, trigger: Address)
    requires
        reg.wf(),
        forall|a: Address|
            reg@.contains_key(a) && spec_block_owed(#[trigger] reg@[a], now) ==> plan.contains(a),
    ensures
        forall|a: Address|
            reg@.contains_key(a) && spec_block_owed(#[trigger] reg@[a], now)
                ==> fw_apply_blocks(Set::empty(), plan).insert(trigger).contains(a),
        fw_apply_blocks(Set::empty(), plan).insert(trigger).contains(trigger),
{
    let replayed = fw_apply_blocks(Set::<Address>::empty(), plan);
    assert forall|a: Address|
        reg@.contains_key(a) && spec_block_owed(
            #[trigger] reg@[a],
            now,
        ) implies replayed.insert(trigger).contains(a) by {
        lemma_apply_blocks_contains(Set::empty(), plan, a);
    }
}

/// Executable model of the backend's blocked set, used to exercise the
/// block, unblock and recovery protocols end to end.
pub struct FirewallModel {
    blocked: Vec<Address>,
}

impl View for FirewallModel {
    type V = Set<Address>;

    open spec fn view(&self) -> Set<Address> {
        self.blocked_seq().to_set()
    }
}

impl FirewallModel {
    /// The blocked addresses in the order first blocked.
    pub closed spec fn blocked_seq(&self) -> Seq<Address> {
        self.blocked@
    }

    /// Well-formedness: no address is held twice.
    pub open spec fn wf(&self) -> bool {
        forall|p: int, q: int|
            0 <= p < q < self.blocked_seq().len() ==> self.blocked_seq()[p]
                != self.blocked_seq()[q]
    }

    /// A backend with nothing blocked, as table initialization leaves it.
    pub fn new() -> (r: Self)
        ensures
            r.wf(),
            r@ == Set::<Address>::empty(),
    {
        let r = FirewallModel { blocked: Vec::new() };
        proof {
            assert(r@ =~= Set::<Address>::empty());
        }
        r
    }

    /// Whether an address is currently blocked.
    pub fn is_blocked(&self, a: Address) -> (r: bool)
        ensures
            r == self@.contains(a),
    {
        let mut i: usize = 0;
        while i < self.blocked.len()
            invariant
                i <= self.blocked@.len(),
                forall|j: int| 0 <= j < i ==> self.blocked@[j] != a,
            decreases self.blocked@.len() - i,
        {
            if self.blocked[i] == a {
                assert(self.blocked@.contains(a));
                return true;
            }
            i = i + 1;
        }
        assert(!self.blocked@.contains(a));
        false
    }

    /// Idempotent add to the blocked set.
    pub fn block(&mut self, a: Address)
        requires
            old(self).wf(),
        ensures
            final(self).wf(),
            final(self)@ == old(self)@.insert(a),
    {
        if !self.is_blocked(a) {
            let ghost old_seq = self.blocked@;
            self.blocked.push(a);
            proof {
                assert forall|x: Address| self.blocked@.contains(x) implies old_seq.contains(x)
                    || x == a by {
                    let k = choose|k: int| 0 <= k < self.blocked@.len() && self.blocked@[k] == x;
                    if k < old_seq.len() {
                        assert(old_seq[k] == x);
                    }
                }
                assert forall|x: Address| old_seq.contains(x) implies self.blocked@.contains(
                    x,
                ) by {
                    let k = choose|k: int| 0 <= k < old_seq.len() && old_seq[k] == x;
                    assert(self.blocked@[k] == x);
                }
                assert(self.blocked@[old_seq.len() as int] == a);
                assert(self.blocked@.contains(a));
                assert(self@ =~= old(self)@.insert(a));
            }
        } else {
            proof {
                assert(self@ =~= old(self)@.insert(a));
            }
        }
    }

    /// Idempotent removal from the blocked set; an absent address is not an
    /// error.
    pub fn unblock(&mut self, a: Address)
        requires
            old(self).wf(),
        ensures
            final(self).wf(),
            final(self)@ == old(self)@.remove(a),
    {
        let ghost old_seq = self.blocked@;
        proof {
            assert forall|p: int, q: int| 0 <= p < q < old_seq.len() implies old_seq[p]
                != old_seq[q] by {
                assert(self.blocked_seq()[p] != self.blocked_seq()[q]);
            }
        }
        let mut i: usize = 0;
        while i < self.blocked.len()
            invariant
                i <= self.blocked@.len(),
                self.blocked@ == old_seq,
                old_seq == old(self).blocked_seq(),
                forall|p: int, q: int| 0 <= p < q < old_seq.len() ==> old_seq[p] != old_seq[q],
                forall|j: int| 0 <= j < i ==> self.blocked@[j] != a,
            decreases self.blocked@.len() - i,
        {
            if self.blocked[i] == a {
                self.blocked.remove(i);
                proof {
                    assert forall|x: Address| self.blocked@.contains(x) implies old_seq.contains(x)
                        && x != a by {
                        let k = choose|k: int|
                            0 <= k < self.blocked@.len() && self.blocked@[k] == x;
                        if k < i {
                            assert(old_seq[k] == x);
                        } else {
                            assert(old_seq[k + 1] == x);
                        }
                    }
                    assert forall|x: Address| old_seq.contains(x) && x != a implies self
                        .blocked@.contains(x) by {
                        let k = choose|k: int| 0 <= k < old_seq.len() && old_seq[k] == x;
                        if k < i {
                            assert(self.blocked@[k] == x);
                        } else {
                            assert(old_seq[i as int] == a);
                            assert(k != i);
                            assert(self.blocked@[k - 1] == x);
                        }
                    }
                    assert forall|p: int, q: int|
                        0 <= p < q < self.blocked@.len() implies self.blocked@[p]
                        != self.blocked@[q] by {
                        let p0 = if p < i { p } else { p + 1 };
                        let q0 = if q < i { q } else { q + 1 };
                        assert(old_seq[p0] != old_seq[q0]);
                    }
                    assert(self@ =~= old(self)@.remove(a));
                }
                return ;
            }
            i = i + 1;
        }
        proof {
            assert(!old_seq.contains(a));
            assert(self@ =~= old(self)@.remove(a));
        }
    }
}

} // verus!
