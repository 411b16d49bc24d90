//! Attacker registry: the in-memory map from source address to attack
//! state, owner of all mutation of that state.

use vstd::prelude::*;
use crate::attack::Address;
use crate::attack::AttackerInfo;
use crate::policy::spec_observe;
use crate::policy::ATTEMPT_WINDOW_MS;

verus! {

/// No two entries share an address.
pub open spec fn unique_keys(entries: Seq<(Address, AttackerInfo)>) -> bool {
    forall|i: int, j: int|
        0 <= i < j < entries.len() ==> (#[trigger] entries[i]).0 != (#[trigger] entries[j]).0
}

/// The map an entry sequence stands for: later entries win, though with
/// unique keys there is nothing to win over.
pub open spec fn map_of_entries(entries: Seq<(Address, AttackerInfo)>) -> Map<
    Address,
    AttackerInfo,
>
    decreases entries.len(),
{
    if entries.len() == 0 {
        Map::empty()
    } else {
        map_of_entries(entries.drop_last()).insert(entries.last().0, entries.last().1)
    }
}

/// A key is in the map exactly when some entry carries it.
pub proof fn lemma_map_domain(entries: Seq<(Address, AttackerInfo)>, a: Address)
    ensures
        map_of_entries(entries).contains_key(a) <==> exists|k: int|
            0 <= k < entries.len() && (#[trigger] entries[k]).0 == a,
    decreases entries.len(),
{
    if entries.len() > 0 {
        let n = entries.len() as int;
        let prev = entries.drop_last();
        lemma_map_domain(prev, a);
        if exists|k: int| 0 <= k < prev.len() && (#[trigger] prev[k]).0 == a {
            let k = choose|k: int| 0 <= k < prev.len() && (#[trigger] prev[k]).0 == a;
            assert(entries[k].0 == a);
        }
        if map_of_entries(entries).contains_key(a) && entries[n - 1].0 != a {
            let k = choose|k: int| 0 <= k < prev.len() && (#[trigger] prev[k]).0 == a;
        }
        if exists|k: int| 0 <= k < entries.len() && (#[trigger] entries[k]).0 == a {
            let k = choose|k: int| 0 <= k < entries.len() && (#[trigger] entries[k]).0 == a;
            if k < n - 1 {
                assert(prev[k].0 == a);
            }
        }
    }
}

/// An entry of a unique-keyed sequence is in its map, with that entry's
/// state.
pub proof fn lemma_entry_in_map(entries: Seq<(Address, AttackerInfo)>, i: int)
    requires
        unique_keys(entries),
        0 <= i < entries.len(),
    ensures
        map_of_entries(entries).contains_key(entries[i].0),
        map_of_entries(entries)[entries[i].0] == entries[i].1,
    decreases entries.len(),
{
    let n = entries.len() as int;
    if i < n - 1 {
        let prev = entries.drop_last();
        assert(unique_keys(prev)) by {
            assert forall|p: int, q: int| 0 <= p < q < prev.len() implies (#[trigger] prev[p]).0
                != (#[trigger] prev[q]).0 by {
                assert(entries[p].0 != entries[q].0);
            }
        }
        lemma_entry_in_map(prev, i);
        assert(entries[i].0 != entries[n - 1].0);
    }
}

/// Every key of a unique-keyed sequence's map comes from an entry that
/// holds the map's state for that key.
pub proof fn lemma_key_has_entry(entries: Seq<(Address, AttackerInfo)>, a: Address)
    requires
        unique_keys(entries),
        map_of_entries(entries).contains_key(a),
    ensures
        exists|k: int|
            0 <= k < entries.len() && #[trigger] entries[k] == (a, map_of_entries(entries)[a]),
{
    lemma_map_domain(entries, a);
    let k = choose|k: int| 0 <= k < entries.len() && (#[trigger] entries[k]).0 == a;
    lemma_entry_in_map(entries, k);
    assert(entries[k] == (a, map_of_entries(entries)[a]));
}

/// The state an observed attempt starts from: the registry's entry for the
/// address, or a fresh record created at `now`.
pub open spec fn spec_prior(
    m: Map<Address, AttackerInfo>,
    addr: Address,
    now: u64,
) -> AttackerInfo {
    if m.contains_key(addr) {
        m[addr]
    } else {
        AttackerInfo { attempts: 0, last_seen: now }
    }
}

/// In-memory map from source address to attack state. Keys are unique; no
/// entry is ever removed.
pub struct Registry {
    entries: Vec<(Address, AttackerInfo)>,
}

impl View for Registry {
    type V = Map<Address, AttackerInfo>;

    open spec fn view(&self) -> Map<Address, AttackerInfo> {
        map_of_entries(self.entries_seq())
    }
}

impl Registry {
    /// The registry's entries, in order of first contact.
    pub closed spec fn entries_seq(&self) -> Seq<(Address, AttackerInfo)> {
        self.entries@
    }

    /// Well-formedness: one entry per address.
    pub open spec fn wf(&self) -> bool {
        unique_keys(self.entries_seq())
    }

    /// An empty registry.
    pub fn new() -> (r: Self)
        ensures
            r.wf(),
            r@ == Map::<Address, AttackerInfo>::empty(),
            r.entries_seq() == Seq::<(Address, AttackerInfo)>::empty(),
    {
        Registry { entries: Vec::new() }
    }

    /// Number of tracked addresses.
    pub fn len(&self) -> (n: usize)
        ensures
            n == self.entries_seq().len(),
    {
        self.entries.len()
    }

    /// Read-only view of all entries, for the sweep and for recovery; the
    /// order carries no meaning.
    pub fn snapshot(&self) -> (r: &Vec<(Address, AttackerInfo)>)
        ensures
            r@ == self.entries_seq(),
    {
        &self.entries
    }

    /// The state tracked for one address, if any.
    pub fn get(&self, addr: Address) -> (r: Option<&AttackerInfo>)
        requires
            self.wf(),
        ensures
            match r {
                Some(info) => self@.contains_key(addr) && *info == self@[addr],
                None => !self@.contains_key(addr),
            },
    {
        match index_of(&self.entries, addr) {
            Some(i) => {
                proof {
                    lemma_entry_in_map(self.entries_seq(), i as int);
                }
                Some(&self.entries[i].1)
            },
            None => {
                proof {
                    lemma_map_domain(self.entries_seq(), addr);
                }
                None
            },
        }
    }

    /// Look up or create the state for `addr`; evict attempts that fell out
    /// of the attempt window; record the new attempt at time `now`; return
    /// the resulting attempt count. Exactly the one entry for `addr`
    /// changes.
    pub fn record_attempt(&mut self, addr: Address, now: u64) -> (r: u32)
        requires
            old(self).wf(),
            old(self)@.contains_key(addr) ==> old(self)@[addr].attempts < u32::MAX,
        ensures
            final(self).wf(),
            final(self)@ == old(self)@.insert(
                addr,
                spec_observe(spec_prior(old(self)@, addr, now), now),
            ),
            r == spec_observe(spec_prior(old(self)@, addr, now), now).attempts,
    {
        let ghost old_entries = self.entries@;
        let cutoff = if now >= ATTEMPT_WINDOW_MS {
            now - ATTEMPT_WINDOW_MS
        } else {
            0
        };
        match index_of(&self.entries, addr) {
            Some(i) => {
                proof {
                    lemma_entry_in_map(old_entries, i as int);
                }
                let mut info = self.entries[i].1;
                info.evict_old_attempts(cutoff);
                let attempts = info.record_attempt(now);
                self.entries.set(i, (addr, info));
                proof {
                    lemma_update_entry(old_entries, i as int, info);
                }
                attempts
            },
            None => {
                proof {
                    lemma_map_domain(old_entries, addr);
                }
                let mut info = AttackerInfo::new(None, now);
                info.evict_old_attempts(cutoff);
                let attempts = info.record_attempt(now);
                self.entries.push((addr, info));
                proof {
                    assert(self.entries@.drop_last() =~= old_entries);
                    assert(unique_keys(self.entries@)) by {
                        let new_entries = self.entries@;
                        let n = old_entries.len() as int;
                        assert forall|p: int, q: int|
                            0 <= p < q < new_entries.len() implies (#[trigger] new_entries[p]).0
                            != (#[trigger] new_entries[q]).0 by {
                            if q < n {
                                assert(old_entries[p].0 != old_entries[q].0);
                            } else {
                                assert(old_entries[p].0 != addr);
                            }
                        }
                    }
                }
                attempts
            },
        }
    }
}

/// Whether a reaping pass removes this state: it carries no attempts and
/// its last contact lies before the retention horizon. Such a state holds
/// no escalation level, so removing it changes no block or unblock
/// decision.
pub open spec fn spec_reaped(info: AttackerInfo, horizon: u64) -> bool {
    info.attempts == 0 && info.last_seen < horizon
}

impl Registry {
    /// Hardening pass run during the sweep: drop every entry that carries
    /// no attempts and fell silent before the retention `horizon`, so the
    /// registry does not keep one entry per ever-seen address for the life
    /// of the process. Every other entry is kept unchanged.
    pub fn reap_stale(&mut self, horizon: u64)
        requires
            old(self).wf(),
        ensures
            final(self).wf(),
            forall|a: Address|
                final(self)@.contains_key(a) <==> (old(self)@.contains_key(a) && !spec_reaped(
                    old(self)@[a],
                    horizon,
                )),
            forall|a: Address|
                #[trigger] final(self)@.contains_key(a) ==> final(self)@[a] == old(self)@[a],
    {
        let ghost old_entries = self.entries@;
        let mut kept: Vec<(Address, AttackerInfo)> = Vec::new();
        let mut i: usize = 0;
        while i < self.entries.len()
            invariant
                i <= old_entries.len(),
                self.entries@ == old_entries,
                unique_keys(old_entries),
                unique_keys(kept@),
                forall|p: int|
                    0 <= p < kept@.len() ==> exists|j: int|
                        0 <= j < i && #[trigger] kept@[p] == old_entries[j] && !spec_reaped(
                            old_entries[j].1,
                            horizon,
                        ),
                forall|j: int|
                    0 <= j < i && !spec_reaped((#[trigger] old_entries[j]).1, horizon)
                        ==> kept@.contains(old_entries[j]),
            decreases old_entries.len() - i,
        {
            let entry = self.entries[i];
            if !(entry.1.attempts == 0 && entry.1.last_seen < horizon) {
                proof {
                    if exists|p: int| 0 <= p < kept@.len() && (#[trigger] kept@[p]).0 == entry.0 {
                        let p = choose|p: int|
                            0 <= p < kept@.len() && (#[trigger] kept@[p]).0 == entry.0;
                        let j = choose|j: int|
                            0 <= j < i && #[trigger] kept@[p] == old_entries[j] && !spec_reaped(
                                old_entries[j].1,
                                horizon,
                            );
                        assert(old_entries[j].0 == old_entries[i as int].0);
                        assert(false);
                    }
                }
                let ghost old_kept = kept@;
                kept.push(entry);
                proof {
                    assert forall|j: int|
                        0 <= j < i + 1 && !spec_reaped(
                            (#[trigger] old_entries[j]).1,
                            horizon,
                        ) implies kept@.contains(old_entries[j]) by {
                        if j < i {
                            let p = choose|p: int|
                                0 <= p < old_kept.len() && old_kept[p] == old_entries[j];
                            assert(kept@[p] == old_entries[j]);
                        } else {
                            assert(kept@[old_kept.len() as int] == old_entries[j]);
                        }
                    }
                }
            }
            i = i + 1;
        }
        self.entries = kept;
        proof {
            let new_entries = self.entries@;
            assert forall|a: Address| #[trigger]
                self@.contains_key(a) implies old(self)@.contains_key(a) && !spec_reaped(
                old(self)@[a],
                horizon,
            ) && self@[a] == old(self)@[a] by {
                lemma_key_has_entry(new_entries, a);
                let p = choose|p: int|
                    0 <= p < new_entries.len() && #[trigger] new_entries[p] == (a, self@[a]);
                let j = choose|j: int|
                    0 <= j < old_entries.len() && #[trigger] new_entries[p] == old_entries[j]
                        && !spec_reaped(old_entries[j].1, horizon);
                lemma_entry_in_map(old_entries, j);
            }
            assert forall|a: Address|
                old(self)@.contains_key(a) && !spec_reaped(
                    old(self)@[a],
                    horizon,
                ) implies #[trigger] self@.contains_key(a) by {
                lemma_key_has_entry(old_entries, a);
                let j = choose|j: int|
                    0 <= j < old_entries.len() && #[trigger] old_entries[j] == (a, old(self)@[a]);
                assert(new_entries.contains(old_entries[j]));
                let p = choose|p: int|
                    0 <= p < new_entries.len() && new_entries[p] == old_entries[j];
                lemma_entry_in_map(new_entries, p);
            }
        }
    }
}

/// Replacing the entry at `i` by one with the same address updates the map
/// at that address alone and keeps the keys unique.
proof fn lemma_update_entry(entries: Seq<(Address, AttackerInfo)>, i: int, info: AttackerInfo)
    requires
        unique_keys(entries),
        0 <= i < entries.len(),
    ensures
        unique_keys(entries.update(i, (entries[i].0, info))),
        map_of_entries(entries.update(i, (entries[i].0, info))) == map_of_entries(entries).insert(
            entries[i].0,
            info,
        ),
{
    let addr = entries[i].0;
    let updated = entries.update(i, (addr, info));
    assert forall|p: int, q: int| 0 <= p < q < updated.len() implies (#[trigger] updated[p]).0
        != (#[trigger] updated[q]).0 by {
        assert(entries[p].0 != entries[q].0);
        assert(updated[p].0 == entries[p].0 && updated[q].0 == entries[q].0);
    }
    let lhs = map_of_entries(updated);
    let rhs = map_of_entries(entries).insert(addr, info);
    assert forall|a: Address| lhs.contains_key(a) <==> rhs.contains_key(a) by {
        lemma_map_domain(updated, a);
        lemma_map_domain(entries, a);
        if exists|k: int| 0 <= k < updated.len() && (#[trigger] updated[k]).0 == a {
            let k = choose|k: int| 0 <= k < updated.len() && (#[trigger] updated[k]).0 == a;
            assert(entries[k].0 == a);
        }
        if exists|k: int| 0 <= k < entries.len() && (#[trigger] entries[k]).0 == a {
            let k = choose|k: int| 0 <= k < entries.len() && (#[trigger] entries[k]).0 == a;
            assert(updated[k].0 == a);
        }
    }
    assert forall|a: Address| #[trigger] lhs.contains_key(a) implies lhs[a] == rhs[a] by {
        if a == addr {
            lemma_entry_in_map(updated, i);
        } else {
            lemma_map_domain(updated, a);
            let k = choose|k: int| 0 <= k < updated.len() && (#[trigger] updated[k]).0 == a;
            lemma_entry_in_map(updated, k);
            assert(entries[k] == updated[k]);
            lemma_entry_in_map(entries, k);
        }
    }
    assert(lhs =~= rhs);
}

/// Index of the entry for `addr`, if one exists.
fn index_of(entries: &Vec<(Address, AttackerInfo)>, addr: Address) -> (r: Option<usize>)
    ensures
        match r {
            Some(i) => i < entries@.len() && entries@[i as int].0 == addr,
            None => forall|j: int| 0 <= j < entries@.len() ==> (#[trigger] entries@[j]).0 != addr,
        },
{
    let mut i: usize = 0;
    while i < entries.len()
        invariant
            i <= entries@.len(),
            forall|j: int| 0 <= j < i ==> (#[trigger] entries@[j]).0 != addr,
        decreases entries@.len() - i,
    {
        if entries[i].0 == addr {
            return Some(i);
        }
        i = i + 1;
    }
    None
}

} // verus!
