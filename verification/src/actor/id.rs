use vstd::prelude::*;

verus! {

/// Identifies one actor in the world.
///
/// Never a Rust reference: actors refer to each other freely, a script cannot
/// hold one, and a scene stores identifiers.
#[derive(Clone, Copy, PartialEq, Eq, Structural, Hash, PartialOrd, Ord, Debug)]
pub struct ActorId {
    index: u32,
    /// Distinguishes an actor from whatever occupies its slot later.
    generation: u32,
    /// Which pool holds this actor.
    type_tag: u16,
}

impl ActorId {
    /// The slot this id names.
    pub closed spec fn slot(self) -> u32 {
        self.index
    }

    /// The generation the slot had when this id was handed out.
    pub closed spec fn gen(self) -> u32 {
        self.generation
    }

    /// The pool this id was handed out by.
    pub closed spec fn tag(self) -> u16 {
        self.type_tag
    }

    pub(crate) fn new(index: u32, generation: u32, type_tag: u16) -> (id: Self)
        ensures
            id.slot() == index,
            id.gen() == generation,
            id.tag() == type_tag,
    {
        ActorId { index, generation, type_tag }
    }

    pub fn index(self) -> (r: u32)
        ensures
            r == self.slot(),
    {
        self.index
    }

    pub fn generation(self) -> (r: u32)
        ensures
            r == self.gen(),
    {
        self.generation
    }

    pub fn type_tag(self) -> (r: u16)
        ensures
            r == self.tag(),
    {
        self.type_tag
    }

    /// Two ids are one id exactly when their three parts agree.
    pub proof fn lemma_parts_determine(self, other: Self)
        ensures
            (self.slot() == other.slot() && self.gen() == other.gen() && self.tag() == other.tag())
                <==> self == other,
    {
    }
}

/// How many generations of a sequence of slot generations are odd, that is,
/// how many slots are occupied.
pub open spec fn count_odd(s: Seq<u32>) -> nat
    decreases s.len(),
{
    if s.len() == 0 {
        0
    } else {
        count_odd(s.drop_last()) + if s.last() % 2 == 1 {
            1nat
        } else {
            0nat
        }
    }
}

pub proof fn lemma_count_odd_bounded(s: Seq<u32>)
    ensures
        count_odd(s) <= s.len(),
    decreases s.len(),
{
    if s.len() > 0 {
        lemma_count_odd_bounded(s.drop_last());
    }
}

/// What a slot's generation becomes when every live slot is freed: an occupied
/// slot moves to the next (free) generation, unless it has reached the last one,
/// in which case it is retired and keeps it.
pub open spec fn cleared_generation(g: u32) -> u32 {
    if g % 2 == 0 {
        g
    } else if g < u32::MAX {
        (g + 1) as u32
    } else {
        g
    }
}

/// Hands out slots and tracks their generation: reusing a slot increments it,
/// which invalidates the old identifiers.
pub(crate) struct Generations {
    /// Odd while the slot is occupied, even once free: the parity spares a
    /// second array to know who is alive.
    pub(crate) slots: Vec<u32>,
    pub(crate) free: Vec<u32>,
}

impl Generations {
    /// The allocator's invariant: the free list holds exactly the even slots,
    /// each once, and every index fits a `u32`.
    pub(crate) open spec fn wf(&self) -> bool {
        &&& self.slots@.len() <= u32::MAX as nat + 1
        &&& forall|i: int|
            0 <= i < self.free@.len() ==> (#[trigger] self.free@[i]) < self.slots@.len()
                && self.slots@[self.free@[i] as int] % 2 == 0
        &&& forall|i: int, j: int|
            0 <= i < self.free@.len() && 0 <= j < self.free@.len() && i != j ==> self.free@[i]
                != self.free@[j]
        &&& forall|k: int|
            0 <= k < self.slots@.len() && #[trigger] self.slots@[k] % 2 == 0 ==> self.free@.contains(
                k as u32,
            )
    }

    /// Whether another slot can be handed out without exceeding `u32` indices.
    pub(crate) open spec fn can_allocate(&self) -> bool {
        self.free@.len() > 0 || self.slots@.len() < u32::MAX as nat + 1
    }

    /// Whether `(index, generation)` names a live slot.
    pub(crate) open spec fn live(&self, index: u32, generation: u32) -> bool {
        &&& index < self.slots@.len()
        &&& self.slots@[index as int] == generation
        &&& generation % 2 == 1
    }

    pub(crate) fn new() -> (g: Self)
        ensures
            g.wf(),
            g.slots@ == Seq::<u32>::empty(),
            g.free@ == Seq::<u32>::empty(),
    {
        Generations { slots: Vec::new(), free: Vec::new() }
    }

    /// Claims a slot, reusing a freed one when possible.
    pub(crate) fn allocate(&mut self) -> (r: (u32, u32))
        requires
            old(self).wf(),
            old(self).can_allocate(),
        ensures
            final(self).wf(),
            r.1 % 2 == 1,
            final(self).live(r.0, r.1),
            old(self).free@.len() > 0 ==> {
                &&& r.0 == old(self).free@.last()
                &&& r.1 == old(self).slots@[r.0 as int] + 1
                &&& final(self).slots@ == old(self).slots@.update(r.0 as int, r.1)
                &&& final(self).free@ == old(self).free@.drop_last()
            },
            old(self).free@.len() == 0 ==> {
                &&& r.0 == old(self).slots@.len()
                &&& r.1 == 1
                &&& final(self).slots@ == old(self).slots@.push(1)
                &&& final(self).free@ == old(self).free@
            },
    {
        if self.free.len() > 0 {
            let index = self.free.pop().unwrap();
            proof {
                let last = old(self).free@.len() - 1;
                assert(old(self).free@[last] == index);
                assert forall|i: int| 0 <= i < self.free@.len() implies self.free@[i] != index by {
                    assert(old(self).free@[i] == self.free@[i]);
                }
                assert forall|k: int|
                    0 <= k < self.slots@.len() && #[trigger] self.slots@[k] % 2 == 0 && k
                        != index implies self.free@.contains(k as u32) by {
                    assert(old(self).free@.contains(k as u32));
                    let j = choose|j: int|
                        0 <= j < old(self).free@.len() && old(self).free@[j] == k as u32;
                    assert(j != last);
                    assert(self.free@[j] == k as u32);
                }
            }
            let current = self.slots[index as usize];
            // A free slot is even, so the next generation is odd and fits.
            let generation = current + 1;
            self.slots.set(index as usize, generation);
            (index, generation)
        } else {
            let index = self.slots.len() as u32;
            self.slots.push(1);
            proof {
                assert forall|k: int|
                    0 <= k < self.slots@.len() && #[trigger] self.slots@[k] % 2 == 0 implies self.free@.contains(
                    k as u32,
                ) by {
                    assert(k < old(self).slots@.len());
                    assert(old(self).slots@[k] % 2 == 0);
                }
            }
            (index, 1)
        }
    }

    /// Releases a slot, invalidating every id that pointed at it. A second call
    /// has no effect rather than panicking.
    pub(crate) fn free(&mut self, index: u32, generation: u32) -> (r: bool)
        requires
            old(self).wf(),
        ensures
            final(self).wf(),
            r == old(self).live(index, generation),
            !r ==> *final(self) == *old(self),
            r && generation == u32::MAX ==> *final(self) == *old(self),
            r && generation < u32::MAX ==> {
                &&& final(self).slots@ == old(self).slots@.update(index as int, (generation + 1) as u32)
                &&& final(self).free@ == old(self).free@.push(index)
            },
    {
        if index as usize >= self.slots.len() {
            return false;
        }
        let current = self.slots[index as usize];
        if current != generation || current % 2 == 0 {
            return false;
        }
        // On overflow the slot is retired: an old identifier would become
        // valid again if it wrapped around.
        if current == u32::MAX {
            return true;
        }
        proof {
            assert forall|i: int| 0 <= i < self.free@.len() implies self.free@[i] != index by {
                assert(self.slots@[self.free@[i] as int] % 2 == 0);
            }
        }
        self.slots.set(index as usize, current + 1);
        self.free.push(index);
        proof {
            let n = self.free@.len() - 1;
            assert(self.free@[n] == index);
            assert forall|k: int|
                0 <= k < self.slots@.len() && #[trigger] self.slots@[k] % 2 == 0 implies self.free@.contains(
                k as u32,
            ) by {
                if k == index as int {
                    assert(self.free@[n] == k as u32);
                } else {
                    assert(old(self).free@.contains(k as u32));
                    let j = choose|j: int|
                        0 <= j < old(self).free@.len() && old(self).free@[j] == k as u32;
                    assert(self.free@[j] == k as u32);
                }
            }
        }
        true
    }

    /// Whether an id still refers to a live slot.
    pub(crate) fn is_live(&self, index: u32, generation: u32) -> (r: bool)
        requires
            self.wf(),
        ensures
            r == self.live(index, generation),
    {
        (index as usize) < self.slots.len() && self.slots[index as usize] == generation
            && generation % 2 == 1
    }

    /// The generation of one slot, or `None` if free or absent.
    pub(crate) fn generation_of(&self, index: u32) -> (r: Option<u32>)
        requires
            self.wf(),
        ensures
            r == (if index < self.slots@.len() && self.slots@[index as int] % 2 == 1 {
                Some(self.slots@[index as int])
            } else {
                None
            }),
    {
        if (index as usize) < self.slots.len() {
            let generation = self.slots[index as usize];
            if generation % 2 == 1 {
                return Some(generation);
            }
        }
        None
    }

    /// How many slots are occupied. Counted rather than subtracted: a slot
    /// retired on overflow is in neither list.
    pub(crate) fn live_count(&self) -> (r: usize)
        ensures
            r == count_odd(self.slots@),
    {
        let mut count: usize = 0;
        let mut i: usize = 0;
        while i < self.slots.len()
            invariant
                i <= self.slots@.len(),
                count == count_odd(self.slots@.take(i as int)),
            decreases self.slots@.len() - i,
        {
            proof {
                assert(self.slots@.take(i as int + 1).drop_last() == self.slots@.take(i as int));
                lemma_count_odd_bounded(self.slots@.take(i as int));
            }
            if self.slots[i] % 2 == 1 {
                count = count + 1;
            }
            i = i + 1;
        }
        proof {
            assert(self.slots@.take(i as int) == self.slots@);
        }
        count
    }

    /// Frees every live slot, without resetting the counters.
    ///
    /// Resetting them would make the ids from before valid again: a level
    /// change would bring the old references back to life.
    pub(crate) fn clear(&mut self)
        requires
            old(self).wf(),
        ensures
            final(self).wf(),
            final(self).slots@.len() == old(self).slots@.len(),
            forall|k: int|
                0 <= k < old(self).slots@.len() ==> #[trigger] final(self).slots@[k]
                    == cleared_generation(old(self).slots@[k]),
    {
        self.free.clear();
        let n = self.slots.len();
        let mut i: usize = 0;
        while i < n
            invariant
                n == self.slots@.len(),
                n == old(self).slots@.len(),
                n <= u32::MAX as nat + 1,
                i <= n,
                forall|k: int|
                    0 <= k < i ==> #[trigger] self.slots@[k] == cleared_generation(
                        old(self).slots@[k],
                    ),
                forall|k: int| i <= k < n ==> #[trigger] self.slots@[k] == old(self).slots@[k],
                forall|j: int|
                    0 <= j < self.free@.len() ==> (#[trigger] self.free@[j]) < i
                        && self.slots@[self.free@[j] as int] % 2 == 0,
                forall|j1: int, j2: int|
                    0 <= j1 < j2 < self.free@.len() ==> self.free@[j1] < self.free@[j2],
                forall|k: int|
                    0 <= k < i && #[trigger] self.slots@[k] % 2 == 0 ==> self.free@.contains(
                        k as u32,
                    ),
            decreases n - i,
        {
            let index = i as u32;
            let generation = self.slots[i];
            let ghost before = self.free@;
            if generation % 2 == 0 {
                // Already free: it only needs to go back in the list.
                self.free.push(index);
            } else if generation < u32::MAX {
                self.slots.set(i, generation + 1);
                self.free.push(index);
            }
            // Otherwise the slot is exhausted: retired, as in `free`.

            proof {
                assert forall|k: int|
                    0 <= k < i + 1 && #[trigger] self.slots@[k] % 2 == 0 implies self.free@.contains(
                    k as u32,
                ) by {
                    if k == i as int {
                        assert(self.free@[self.free@.len() - 1] == index);
                    } else {
                        assert(before.contains(k as u32));
                        let j = choose|j: int| 0 <= j < before.len() && before[j] == k as u32;
                        assert(self.free@[j] == k as u32);
                    }
                }
            }
            i = i + 1;
        }
        proof {
            assert forall|j1: int, j2: int|
                0 <= j1 < self.free@.len() && 0 <= j2 < self.free@.len() && j1
                    != j2 implies self.free@[j1] != self.free@[j2] by {
                if j1 < j2 {
                    assert(self.free@[j1] < self.free@[j2]);
                } else {
                    assert(self.free@[j2] < self.free@[j1]);
                }
            }
        }
    }
}

} // verus!
