use super::{ActorId, Generations};
use super::id::cleared_generation;
use vstd::prelude::*;

verus! {

/// How many of the slots hold an actor.
pub open spec fn count_some<T>(s: Seq<Option<T>>) -> nat
    decreases s.len(),
{
    if s.len() == 0 {
        0
    } else {
        count_some(s.drop_last()) + if s.last() is Some {
            1nat
        } else {
            0nat
        }
    }
}

pub proof fn lemma_count_some_bounded<T>(s: Seq<Option<T>>)
    ensures
        count_some(s) <= s.len(),
    decreases s.len(),
{
    if s.len() > 0 {
        lemma_count_some_bounded(s.drop_last());
    }
}

/// Setting one slot moves the count by what that slot held and what it now
/// holds.
pub proof fn lemma_count_some_update<T>(s: Seq<Option<T>>, i: int, v: Option<T>)
    requires
        0 <= i < s.len(),
    ensures
        count_some(s.update(i, v)) + (if s[i] is Some {
            1int
        } else {
            0int
        }) == count_some(s) + (if v is Some {
            1int
        } else {
            0int
        }),
    decreases s.len(),
{
    if i == s.len() - 1 {
        assert(s.update(i, v).drop_last() =~= s.drop_last());
    } else {
        lemma_count_some_update(s.drop_last(), i, v);
        assert(s.update(i, v).drop_last() =~= s.drop_last().update(i, v));
    }
}

/// A new slot adds itself to the count when it holds an actor.
pub proof fn lemma_count_some_push<T>(s: Seq<Option<T>>, v: Option<T>)
    ensures
        count_some(s.push(v)) == count_some(s) + (if v is Some {
            1nat
        } else {
            0nat
        }),
{
    assert(s.push(v).drop_last() =~= s);
}

/// Empty slots count nothing.
pub proof fn lemma_count_some_none<T>(s: Seq<Option<T>>)
    requires
        forall|k: int| 0 <= k < s.len() ==> #[trigger] s[k] is None,
    ensures
        count_some(s) == 0,
    decreases s.len(),
{
    if s.len() > 0 {
        lemma_count_some_none(s.drop_last());
    }
}

/// Storage for every actor of one type.
///
/// Keeping each type in its own dense `Vec` is what makes iterating one type
/// fast.
pub(crate) struct Pool<T> {
    pub(crate) slots: Vec<Option<T>>,
    pub(crate) generations: Generations,
    pub(crate) tag: u16,
}

impl<T> Pool<T> {
    /// The pool's invariant: one generation per slot, and a slot holds an actor
    /// only while its generation is odd (occupied). An occupied slot below the
    /// last generation always holds its actor; one at the last generation may
    /// have been retired empty.
    pub(crate) open spec fn wf(&self) -> bool {
        &&& self.generations.wf()
        &&& self.slots@.len() == self.generations.slots@.len()
        &&& forall|k: int|
            0 <= k < self.slots@.len() ==> ((#[trigger] self.slots@[k]) is Some
                ==> self.generations.slots@[k] % 2 == 1)
        &&& forall|k: int|
            0 <= k < self.slots@.len() && #[trigger] self.generations.slots@[k] % 2 == 1
                && self.generations.slots@[k] < u32::MAX ==> self.slots@[k] is Some
    }

    /// Whether `id` resolves to an actor of this pool.
    pub(crate) open spec fn resolves(&self, id: ActorId) -> bool {
        &&& id.tag() == self.tag
        &&& id.gen() != 0
        &&& self.generations.live(id.slot(), id.gen())
        &&& id.slot() < self.slots@.len()
        &&& self.slots@[id.slot() as int] is Some
    }

    /// The actor `id` resolves to.
    pub(crate) open spec fn value(&self, id: ActorId) -> T {
        self.slots@[id.slot() as int]->0
    }

    /// The number of occupied slots.
    pub(crate) open spec fn live_count(&self) -> nat {
        count_some(self.slots@)
    }

    pub(crate) fn new(tag: u16) -> (p: Self)
        ensures
            p.wf(),
            p.tag == tag,
            p.slots@.len() == 0,
            p.generations.free@.len() == 0,
    {
        Pool { slots: Vec::new(), generations: Generations::new(), tag }
    }

    pub(crate) fn spawn(&mut self, actor: T) -> (id: ActorId)
        requires
            old(self).wf(),
            old(self).generations.can_allocate(),
        ensures
            final(self).wf(),
            final(self).tag == old(self).tag,
            id.tag() == old(self).tag,
            final(self).resolves(id),
            final(self).value(id) == actor,
            id.gen() % 2 == 1,
            old(self).generations.free@.len() > 0 ==> {
                &&& id.slot() == old(self).generations.free@.last()
                &&& id.gen() == old(self).generations.slots@[id.slot() as int] + 1
                &&& final(self).generations.slots@ == old(self).generations.slots@.update(
                    id.slot() as int,
                    id.gen(),
                )
                &&& final(self).generations.free@ == old(self).generations.free@.drop_last()
                &&& final(self).slots@ == old(self).slots@.update(id.slot() as int, Some(actor))
            },
            old(self).generations.free@.len() == 0 ==> {
                &&& id.slot() == old(self).slots@.len()
                &&& id.gen() == 1
                &&& final(self).generations.slots@ == old(self).generations.slots@.push(1)
                &&& final(self).generations.free@ == old(self).generations.free@
                &&& final(self).slots@ == old(self).slots@.push(Some(actor))
            },
    {
        let (index, generation) = self.generations.allocate();
        let i = index as usize;
        if i < self.slots.len() {
            self.slots.set(i, Some(actor));
        } else {
            self.slots.push(Some(actor));
        }
        ActorId::new(index, generation, self.tag)
    }

    /// Removes an actor, returning it so a caller can run teardown on it.
    ///
    /// Returns `None` for an id that is already dead: despawning twice is a
    /// normal race in gameplay code, not a programming error. The tag is not
    /// looked at: the caller has already chosen the pool.
    pub(crate) fn despawn(&mut self, id: ActorId) -> (r: Option<T>)
        requires
            old(self).wf(),
        ensures
            final(self).wf(),
            final(self).tag == old(self).tag,
            final(self).slots@.len() == old(self).slots@.len(),
            id.gen() == 0 || !old(self).generations.live(id.slot(), id.gen()) ==> *final(self)
                == *old(self) && r is None,
            id.gen() != 0 && old(self).generations.live(id.slot(), id.gen()) ==> {
                &&& r == old(self).slots@[id.slot() as int]
                &&& final(self).slots@ == old(self).slots@.update(id.slot() as int, None)
                &&& id.gen() < u32::MAX ==> final(self).generations.slots@
                    == old(self).generations.slots@.update(id.slot() as int, (id.gen() + 1) as u32)
                    && final(self).generations.free@ == old(self).generations.free@.push(
                    id.slot(),
                )
                &&& id.gen() == u32::MAX ==> final(self).generations == old(self).generations
            },
    {
        let generation = id.generation();
        if generation == 0 {
            return None;
        }
        if !self.generations.free(id.index(), generation) {
            return None;
        }
        let i = id.index() as usize;
        let taken = self.slots[i].take();
        proof {
            assert(self.slots@ == old(self).slots@.update(i as int, None));
        }
        taken
    }

    pub(crate) fn get(&self, id: ActorId) -> (r: Option<&T>)
        requires
            self.wf(),
        ensures
            r == (if self.resolves(id) {
                Some(&self.value(id))
            } else {
                None
            }),
    {
        match self.slot_index(id) {
            Some(i) => self.slots[i].as_ref(),
            None => None,
        }
    }

    pub(crate) fn get_mut(&mut self, id: ActorId) -> (r: Option<&mut T>)
        requires
            old(self).wf(),
        ensures
            final(self).wf(),
            final(self).tag == old(self).tag,
            final(self).generations == old(self).generations,
            r is Some <==> old(self).resolves(id),
            !old(self).resolves(id) ==> *final(self) == *old(self),
            old(self).resolves(id) ==> {
                &&& *r->0 == old(self).value(id)
                &&& final(self).slots@ == old(self).slots@.update(id.slot() as int, Some(*final(r->0)))
            },
    {
        match self.slot_index(id) {
            Some(i) => {
                if self.slots[i].is_none() {
                    return None;
                }
                self.slots[i].as_mut()
            },
            None => None,
        }
    }

    /// Resolves an id to a slot index, checking the generation.
    ///
    /// This is what makes a stale id safe: it resolves to `None` rather than to
    /// whichever actor now occupies the slot.
    fn slot_index(&self, id: ActorId) -> (r: Option<usize>)
        requires
            self.wf(),
        ensures
            r is Some <==> {
                &&& id.tag() == self.tag
                &&& id.gen() != 0
                &&& self.generations.live(id.slot(), id.gen())
            },
            r is Some ==> r->0 == id.slot() && r->0 < self.slots@.len(),
    {
        if id.type_tag() != self.tag {
            return None;
        }
        let generation = id.generation();
        if generation == 0 {
            return None;
        }
        if !self.generations.is_live(id.index(), generation) {
            return None;
        }
        let i = id.index() as usize;
        if i < self.slots.len() {
            Some(i)
        } else {
            None
        }
    }

    /// Every actor of the pool with its id, in slot order.
    pub(crate) fn iter(&self) -> (r: Vec<(ActorId, &T)>)
        requires
            self.wf(),
        ensures
            forall|k: int|
                0 <= k < r@.len() ==> self.resolves((#[trigger] r@[k]).0) && *r@[k].1 == self.value(
                    r@[k].0,
                ),
            forall|j: int, k: int| 0 <= j < k < r@.len() ==> r@[j].0.slot() < r@[k].0.slot(),
            forall|i: int|
                0 <= i < self.slots@.len() && (#[trigger] self.slots@[i]) is Some ==> exists|k: int|
                    0 <= k < r@.len() && r@[k].0.slot() == i,
    {
        let mut out: Vec<(ActorId, &T)> = Vec::new();
        let mut i: usize = 0;
        while i < self.slots.len()
            invariant
                self.wf(),
                i <= self.slots@.len(),
                forall|k: int|
                    0 <= k < out@.len() ==> self.resolves((#[trigger] out@[k]).0) && *out@[k].1
                        == self.value(out@[k].0) && out@[k].0.slot() < i,
                forall|j: int, k: int|
                    0 <= j < k < out@.len() ==> out@[j].0.slot() < out@[k].0.slot(),
                forall|m: int|
                    0 <= m < i && (#[trigger] self.slots@[m]) is Some ==> exists|k: int|
                        0 <= k < out@.len() && out@[k].0.slot() == m,
            decreases self.slots@.len() - i,
        {
            let ghost before = out@;
            if let Some(actor) = self.slots[i].as_ref() {
                let index = i as u32;
                if let Some(generation) = self.generations.generation_of(index) {
                    let id = ActorId::new(index, generation, self.tag);
                    out.push((id, actor));
                    proof {
                        assert(out@[out@.len() - 1].0.slot() == i);
                    }
                }
            }
            proof {
                assert forall|m: int|
                    0 <= m < i + 1 && (#[trigger] self.slots@[m]) is Some implies exists|k: int|
                        0 <= k < out@.len() && out@[k].0.slot() == m by {
                    if m < i {
                        let k = choose|k: int| 0 <= k < before.len() && before[k].0.slot() == m;
                        assert(out@[k] == before[k]);
                    } else {
                        assert(out@[out@.len() - 1].0.slot() == i);
                    }
                }
            }
            i = i + 1;
        }
        out
    }

    /// How many actors the pool holds: its occupied slots. A slot retired at
    /// its last generation holds none and is not counted.
    pub(crate) fn len(&self) -> (r: usize)
        ensures
            r == self.live_count(),
    {
        let mut count: usize = 0;
        let mut i: usize = 0;
        while i < self.slots.len()
            invariant
                i <= self.slots@.len(),
                count == count_some(self.slots@.take(i as int)),
            decreases self.slots@.len() - i,
        {
            proof {
                assert(self.slots@.take(i as int + 1).drop_last() == self.slots@.take(i as int));
                lemma_count_some_bounded(self.slots@.take(i as int));
            }
            if self.slots[i].is_some() {
                count = count + 1;
            }
            i = i + 1;
        }
        proof {
            assert(self.slots@.take(i as int) == self.slots@);
        }
        count
    }

    /// Empties every slot. The slots themselves stay, so that the allocator,
    /// which keeps them in circulation, never hands out an index past the end.
    pub(crate) fn clear(&mut self)
        requires
            old(self).wf(),
        ensures
            final(self).wf(),
            final(self).tag == old(self).tag,
            final(self).slots@.len() == old(self).slots@.len(),
            forall|k: int| 0 <= k < final(self).slots@.len() ==> #[trigger] final(self).slots@[k] is None,
            final(self).generations.slots@.len() == old(self).generations.slots@.len(),
            forall|k: int|
                0 <= k < old(self).generations.slots@.len() ==> #[trigger] final(self).generations.slots@[k] == cleared_generation(old(self).generations.slots@[k]),
    {
        let n = self.slots.len();
        let mut i: usize = 0;
        while i < n
            invariant
                n == self.slots@.len(),
                n == old(self).slots@.len(),
                i <= n,
                forall|k: int| 0 <= k < i ==> #[trigger] self.slots@[k] is None,
                self.generations == old(self).generations,
                self.tag == old(self).tag,
            decreases n - i,
        {
            self.slots.set(i, None);
            i = i + 1;
        }
        self.generations.clear();
        proof {
            assert forall|k: int|
                0 <= k < self.slots@.len() && #[trigger] self.generations.slots@[k] % 2 == 1
                    && self.generations.slots@[k] < u32::MAX implies self.slots@[k] is Some by {
                let g = old(self).generations.slots@[k];
                assert(self.generations.slots@[k] == cleared_generation(g));
            }
        }
    }
}

} // verus!
