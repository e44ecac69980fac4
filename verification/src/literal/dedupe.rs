//! What a scan remembers between the programs that it runs.

use std::collections::HashSet;

use vstd::prelude::*;

verus! {

/// The memory of a scan, as sets and sequences.
#[verifier::ext_equal]
pub struct Memory {
    /// Pairs of deduplication key and offset that were reported.
    pub seen: Set<(u32, u64)>,
    /// Roles that were handled.
    pub handled: Set<u32>,
    /// Roles that are switched on.
    pub roles: Set<u32>,
    /// Suffix triggers: queue, event, location.
    pub suffix: Seq<(u32, u32, u64)>,
    /// Infix triggers: queue, location.
    pub infix: Seq<(u32, u64)>,
}

/// The memory at the start of a scan.
pub open spec fn blank() -> Memory {
    Memory {
        seen: Set::empty(),
        handled: Set::empty(),
        roles: Set::empty(),
        suffix: Seq::empty(),
        infix: Seq::empty(),
    }
}

/// The infix triggers of all queues but one.
pub open spec fn without_queue(infix: Seq<(u32, u64)>, queue: u32) -> Seq<(u32, u64)> {
    infix.filter(|t: (u32, u64)| t.0 != queue)
}

/// The locations at which a queue was triggered.
pub open spec fn locations(infix: Seq<(u32, u64)>, queue: u32) -> Seq<u64> {
    infix.filter(|t: (u32, u64)| t.0 == queue).map_values(|t: (u32, u64)| t.1)
}

/// A deduplication key and an offset in one number.
pub open spec fn packed(dkey: u32, off: u64) -> u128 {
    (dkey * 0x1_0000_0000_0000_0000 + off) as u128
}

/// Per-scan memory: deduplication of reports by key and offset, roles that
/// were handled or switched on, and triggers that wait for an automaton.
pub struct Dedupe {
    seen: HashSet<u128>,
    handled: HashSet<u32>,
    suffix: Vec<(u32, u32, u64)>,
    infix: Vec<(u32, u64)>,
    role_state: HashSet<u32>,
}

impl View for Dedupe {
    type V = Memory;

    closed spec fn view(&self) -> Memory {
        Memory {
            seen: Set::new(|p: (u32, u64)| self.seen@.contains(packed(p.0, p.1))),
            handled: self.handled@,
            roles: self.role_state@,
            suffix: self.suffix@,
            infix: self.infix@,
        }
    }
}

impl Default for Dedupe {
    fn default() -> (r: Self)
        ensures
            r@ == blank(),
    {
        broadcast use vstd::std_specs::hash::group_hash_axioms;

        let r = Dedupe {
            seen: HashSet::new(),
            handled: HashSet::new(),
            suffix: Vec::new(),
            infix: Vec::new(),
            role_state: HashSet::new(),
        };
        assert(r@ =~= blank());
        r
    }
}

impl Dedupe {
    /// Forgets everything.
    pub fn clear(&mut self)
        ensures
            final(self)@ == blank(),
    {
        broadcast use vstd::std_specs::hash::group_hash_axioms;

        self.seen.clear();
        self.handled.clear();
        self.suffix.clear();
        self.infix.clear();
        self.role_state.clear();
        assert(self@ =~= blank());
    }

    /// Switches role `index` on.
    pub fn set_role_state(&mut self, index: u32)
        ensures
            final(self)@ == (Memory { roles: old(self)@.roles.insert(index), ..old(self)@ }),
    {
        broadcast use vstd::std_specs::hash::group_hash_axioms;

        self.role_state.insert(index);
    }

    /// Whether role `index` is on.
    pub fn role_state_set(&self, index: u32) -> (r: bool)
        ensures
            r == self@.roles.contains(index),
    {
        broadcast use vstd::std_specs::hash::group_hash_axioms;

        self.role_state.contains(&index)
    }

    /// Remembers the pair; true if it is new.
    pub fn fresh(&mut self, dkey: u32, off: u64) -> (r: bool)
        ensures
            r == !old(self)@.seen.contains((dkey, off)),
            final(self)@ == (Memory { seen: old(self)@.seen.insert((dkey, off)), ..old(self)@ }),
    {
        broadcast use vstd::std_specs::hash::group_hash_axioms;

        let key: u128 = dkey as u128 * 0x1_0000_0000_0000_0000 + off as u128;
        let r = self.seen.insert(key);
        assert(self@.seen =~= old(self)@.seen.insert((dkey, off)));
        r
    }

    /// Remembers the role; true if it was not handled before.
    pub fn not_handled(&mut self, key: u32) -> (r: bool)
        ensures
            r == !old(self)@.handled.contains(key),
            final(self)@ == (Memory { handled: old(self)@.handled.insert(key), ..old(self)@ }),
    {
        broadcast use vstd::std_specs::hash::group_hash_axioms;

        self.handled.insert(key)
    }

    /// Remembers a suffix trigger.
    pub fn push_suffix(&mut self, queue: u32, event: u32, loc: u64)
        ensures
            final(self)@ == (Memory {
                suffix: old(self)@.suffix.push((queue, event, loc)),
                ..old(self)@
            }),
    {
        self.suffix.push((queue, event, loc));
    }

    /// Hands out the suffix triggers and forgets them.
    pub fn take_suffix(&mut self) -> (r: Vec<(u32, u32, u64)>)
        ensures
            r@ == old(self)@.suffix,
            final(self)@ == (Memory { suffix: Seq::empty(), ..old(self)@ }),
    {
        let mut taken: Vec<(u32, u32, u64)> = Vec::new();
        std::mem::swap(&mut taken, &mut self.suffix);
        taken
    }

    /// Remembers an infix trigger. A dominant one (`cancel`) replaces the
    /// earlier triggers of its queue.
    pub fn push_infix(&mut self, queue: u32, loc: u64, cancel: bool)
        ensures
            final(self)@ == (Memory {
                infix: (if cancel {
                    without_queue(old(self)@.infix, queue)
                } else {
                    old(self)@.infix
                }).push((queue, loc)),
                ..old(self)@
            }),
    {
        if cancel {
            let mut kept: Vec<(u32, u64)> = Vec::new();
            let mut i: usize = 0;
            proof {
                reveal(Seq::filter);
                assert(self.infix@.take(0) =~= Seq::empty());
            }
            while i < self.infix.len()
                invariant
                    self.infix@ == old(self).infix@,
                    self.seen == old(self).seen,
                    self.handled == old(self).handled,
                    self.suffix == old(self).suffix,
                    self.role_state == old(self).role_state,
                    i <= self.infix@.len(),
                    kept@ == without_queue(self.infix@.take(i as int), queue),
                decreases self.infix@.len() - i,
            {
                proof {
                    reveal(Seq::filter);
                    assert(self.infix@.take(i + 1).drop_last() =~= self.infix@.take(i as int));
                }
                if self.infix[i].0 != queue {
                    kept.push(self.infix[i]);
                }
                i = i + 1;
            }
            assert(self.infix@.take(i as int) =~= self.infix@);
            self.infix = kept;
        }
        self.infix.push((queue, loc));
    }

    /// The locations at which `queue` was triggered so far.
    pub fn infix_locs(&self, queue: u32) -> (r: Vec<u64>)
        ensures
            r@ == locations(self@.infix, queue),
    {
        let mut locs: Vec<u64> = Vec::new();
        let mut i: usize = 0;
        proof {
            reveal(Seq::filter);
            assert(self.infix@.take(0) =~= Seq::empty());
            assert(locations(self.infix@.take(0), queue) =~= Seq::empty());
        }
        while i < self.infix.len()
            invariant
                i <= self.infix@.len(),
                locs@ == locations(self.infix@.take(i as int), queue),
            decreases self.infix@.len() - i,
        {
            proof {
                reveal(Seq::filter);
                let shorter = self.infix@.take(i as int);
                let longer = self.infix@.take(i + 1);
                assert(longer.drop_last() =~= shorter);
                assert(locations(longer, queue) =~= if longer.last().0 == queue {
                    locations(shorter, queue).push(longer.last().1)
                } else {
                    locations(shorter, queue)
                });
            }
            if self.infix[i].0 == queue {
                locs.push(self.infix[i].1);
            }
            i = i + 1;
        }
        assert(self.infix@.take(i as int) =~= self.infix@);
        locs
    }
}

} // verus!
