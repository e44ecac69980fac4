//! The delayed literals that wait to be replayed: pairs of an offset and an
//! index, handed out in order.

use vstd::prelude::*;

verus! {

/// An offset of a replay and the index of a delayed literal.
pub type Slot = (u64, u32);

/// Slots are replayed by offset, then by index.
pub open spec fn before(a: Slot, b: Slot) -> bool {
    a.0 < b.0 || (a.0 == b.0 && a.1 < b.1)
}

/// `x` is the first of a set of slots.
pub open spec fn is_least(slots: Set<Slot>, x: Slot) -> bool {
    slots.contains(x) && forall|y: Slot| #[trigger] slots.contains(y) ==> y == x || before(x, y)
}

/// The first of a set of slots.
pub open spec fn least(slots: Set<Slot>) -> Slot {
    choose|x: Slot| is_least(slots, x)
}

/// Some slot is at or in front of an offset.
pub open spec fn any_due(slots: Set<Slot>, offset: u64) -> bool {
    exists|x: Slot| #[trigger] slots.contains(x) && x.0 <= offset
}

/// A set of slots, kept in order.
pub struct Slots {
    pub items: Vec<Slot>,
}

/// Each slot is in front of those behind it.
pub open spec fn in_order(items: Seq<Slot>) -> bool {
    forall|i: int, j: int|
        0 <= i < j < items.len() ==> before(#[trigger] items[i], #[trigger] items[j])
}

impl View for Slots {
    type V = Set<Slot>;

    open spec fn view(&self) -> Set<Slot> {
        self.items@.to_set()
    }
}

proof fn lemma_first_is_least(items: Seq<Slot>)
    requires
        in_order(items),
        items.len() > 0,
    ensures
        is_least(items.to_set(), items[0]),
        least(items.to_set()) == items[0],
{
    let slots = items.to_set();
    assert(items.contains(items[0]));
    assert forall|y: Slot| #[trigger] slots.contains(y) implies y == items[0] || before(
        items[0],
        y,
    ) by {
        let j = choose|j: int| 0 <= j < items.len() && items[j] == y;
        if j > 0 {
            assert(before(items[0], items[j]));
        }
    }
    assert(is_least(slots, items[0]));
    let x = least(slots);
    assert(is_least(slots, x));
    assert(slots.contains(items[0]));
}

impl Slots {
    /// In order.
    pub open spec fn wf(&self) -> bool {
        in_order(self.items@)
    }

    pub fn new() -> (r: Self)
        ensures
            r.wf(),
            r@ == Set::<Slot>::empty(),
    {
        let r = Slots { items: Vec::new() };
        assert(r@ =~= Set::empty());
        r
    }

    /// Adds a slot, unless it is there.
    pub fn insert(&mut self, offset: u64, index: u32)
        requires
            old(self).wf(),
        ensures
            final(self).wf(),
            final(self)@ == old(self)@.insert((offset, index)),
    {
        let ghost items = self.items@;
        let mut k: usize = 0;
        while k < self.items.len() && (self.items[k].0 < offset || (self.items[k].0 == offset
            && self.items[k].1 < index))
            invariant
                k <= self.items@.len(),
                self.items@ == items,
                forall|i: int| 0 <= i < k ==> before(#[trigger] items[i], (offset, index)),
            decreases self.items@.len() - k,
        {
            k = k + 1;
        }
        if k < self.items.len() && self.items[k].0 == offset && self.items[k].1 == index {
            proof {
                assert(items.contains(items[k as int]));
                assert(self@ =~= old(self)@.insert((offset, index)));
            }
            return ;
        }
        self.items.insert(k, (offset, index));
        proof {
            let longer = self.items@;
            assert(longer == items.insert(k as int, (offset, index)));
            assert(in_order(longer)) by {
                assert forall|i: int, j: int| 0 <= i < j < longer.len() implies before(
                    #[trigger] longer[i],
                    #[trigger] longer[j],
                ) by {
                    let i2 = if i < k {
                        i
                    } else {
                        i - 1
                    };
                    let j2 = if j < k {
                        j
                    } else {
                        j - 1
                    };
                    if i != k && j != k {
                        assert(before(items[i2], items[j2]));
                    } else if i == k {
                        if j2 > k {
                            assert(before(items[k as int], items[j2]));
                        }
                    } else {
                        assert(before(items[i], (offset, index)));
                    }
                }
            }
            assert forall|x: Slot| longer.to_set().contains(x) <==> items.to_set().insert(
                (offset, index),
            ).contains(x) by {
                if longer.contains(x) {
                    let i = choose|i: int| 0 <= i < longer.len() && longer[i] == x;
                    if i < k {
                        assert(items[i] == x);
                    } else if i > k {
                        assert(items[i - 1] == x);
                    }
                }
                if items.contains(x) {
                    let i = choose|i: int| 0 <= i < items.len() && items[i] == x;
                    if i < k {
                        assert(longer[i] == x);
                    } else {
                        assert(longer[i + 1] == x);
                    }
                }
                assert(longer[k as int] == (offset, index));
            }
            assert(self@ =~= old(self)@.insert((offset, index)));
        }
    }

    /// Takes the first slot out, if it is at or in front of an offset.
    pub fn pop_due(&mut self, offset: u64) -> (r: Option<Slot>)
        requires
            old(self).wf(),
        ensures
            final(self).wf(),
            match r {
                None => !any_due(old(self)@, offset) && final(self)@ == old(self)@,
                Some(x) => any_due(old(self)@, offset) && x == least(old(self)@) && is_least(
                    old(self)@,
                    x,
                ) && x.0 <= offset && final(self)@ == old(self)@.remove(x),
            },
    {
        let ghost items = self.items@;
        if self.items.len() == 0 {
            return None;
        }
        proof {
            lemma_first_is_least(items);
        }
        if self.items[0].0 > offset {
            return None;
        }
        let x: Slot = self.items.remove(0);
        proof {
            let rest = self.items@;
            assert(rest == items.remove(0));
            assert forall|y: Slot| rest.to_set().contains(y) <==> items.to_set().remove(
                x,
            ).contains(y) by {
                if rest.contains(y) {
                    let i = choose|i: int| 0 <= i < rest.len() && rest[i] == y;
                    assert(items[i + 1] == y);
                    assert(before(items[0], items[i + 1]));
                }
                if items.contains(y) && y != x {
                    let i = choose|i: int| 0 <= i < items.len() && items[i] == y;
                    assert(rest[i - 1] == y);
                }
            }
            assert(self@ =~= old(self)@.remove(x));
        }
        Some(x)
    }
}

} // verus!
