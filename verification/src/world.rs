use crate::actor::{Actor, ActorId, Behaviour, Component, HasComponent, Pool};
use crate::actor::id::cleared_generation;
use crate::actor::pool::{lemma_count_some_update, lemma_count_some_push, lemma_count_some_none};
use crate::text::same_name;
use vstd::prelude::*;

verus! {


/// One pool, with the type it holds and the components registered for it.
pub(crate) struct Entry<A> {
    pub(crate) name: &'static str,
    pub(crate) pool: Pool<A>,
    /// The component types whose values this pool's actors contribute to
    /// [`World::each_component`].
    pub(crate) components: Vec<&'static str>,
}

/// Every actor in the game, and the only path to mutate one.
///
/// A flat collection, one pool per actor type. `A` is the game's sum of actor
/// types; a pool holds the actors of one type, and its position in the world is
/// the `type_tag` of the ids it hands out.
pub struct World<A> {
    pools: Vec<Entry<A>>,
}

/// The components `r` lists for the actor `x`, in the order listed.
pub open spec fn held_by<C>(r: Seq<(ActorId, &C)>, x: ActorId) -> Seq<&C>
    decreases r.len(),
{
    if r.len() == 0 {
        Seq::empty()
    } else if r.last().0 == x {
        held_by(r.drop_last(), x).push(r.last().1)
    } else {
        held_by(r.drop_last(), x)
    }
}

proof fn lemma_held_by_push<C>(r: Seq<(ActorId, &C)>, e: (ActorId, &C), x: ActorId)
    ensures
        held_by(r.push(e), x) == if e.0 == x {
            held_by(r, x).push(e.1)
        } else {
            held_by(r, x)
        },
{
    assert(r.push(e).drop_last() =~= r);
}

proof fn lemma_held_by_absent<C>(r: Seq<(ActorId, &C)>, x: ActorId)
    requires
        forall|m: int| 0 <= m < r.len() ==> (#[trigger] r[m]).0 != x,
    ensures
        held_by(r, x) == Seq::<&C>::empty(),
    decreases r.len(),
{
    if r.len() > 0 {
        lemma_held_by_absent(r.drop_last(), x);
    }
}

/// Sum of the live counts of the first `n` pools.
pub(crate) open spec fn total_live<A>(pools: Seq<Entry<A>>, n: int) -> nat
    decreases n,
{
    if n <= 0 {
        0
    } else {
        total_live(pools, n - 1) + pools[n - 1].pool.live_count()
    }
}

impl<A> World<A> {
    /// The world's invariant: every pool is well formed, its tag is its
    /// position, tags fit a `u16`, and no two pools carry the same name.
    pub closed spec fn wf(&self) -> bool {
        &&& self.pools@.len() <= 0x10000
        &&& forall|k: int|
            0 <= k < self.pools@.len() ==> (#[trigger] self.pools@[k]).pool.wf()
                && self.pools@[k].pool.tag == k
        &&& forall|j: int, k: int|
            0 <= j < self.pools@.len() && 0 <= k < self.pools@.len() && j != k
                ==> self.pools@[j].name@ != self.pools@[k].name@
    }

    /// How many actor types the world has seen.
    pub closed spec fn types(&self) -> nat {
        self.pools@.len()
    }

    /// The tag of the pool holding the type called `name`, if any.
    pub closed spec fn tag_of(&self, name: Seq<char>) -> Option<int> {
        if exists|k: int| 0 <= k < self.pools@.len() && self.pools@[k].name@ == name {
            Some(choose|k: int| 0 <= k < self.pools@.len() && self.pools@[k].name@ == name)
        } else {
            None
        }
    }

    /// Whether the pool with tag `k` holds an actor in `id`'s slot at `id`'s
    /// generation, whatever tag `id` carries.
    pub closed spec fn holds_at(&self, k: int, id: ActorId) -> bool {
        let p = self.pools@[k].pool;
        &&& id.gen() != 0
        &&& p.generations.live(id.slot(), id.gen())
        &&& p.slots@[id.slot() as int] is Some
    }

    /// Whether `id` names a live actor.
    pub closed spec fn live(&self, id: ActorId) -> bool {
        &&& (id.tag() as int) < self.pools@.len()
        &&& self.pools@[id.tag() as int].pool.resolves(id)
    }

    /// The actor a live `id` names.
    pub closed spec fn actor(&self, id: ActorId) -> A {
        self.pools@[id.tag() as int].pool.value(id)
    }

    /// How many actors of the pool with tag `k` are alive.
    pub closed spec fn live_in(&self, k: int) -> nat {
        self.pools@[k].pool.live_count()
    }

    /// How many actors are alive, all types together.
    pub closed spec fn total(&self) -> nat {
        total_live(self.pools@, self.pools@.len() as int)
    }

    /// Whether the component called `component` is registered for the pool
    /// with tag `k`.
    pub closed spec fn registered(&self, k: int, component: Seq<char>) -> bool {
        exists|c: int|
            0 <= c < self.pools@[k].components@.len() && self.pools@[k].components@[c]@
                == component
    }

    /// How many slots the pool with tag `k` has: its occupied ones, its free
    /// ones and its retired ones.
    pub closed spec fn slots_in(&self, k: int) -> nat {
        self.pools@[k].pool.slots@.len()
    }

    /// The generation of slot `i` of the pool with tag `k`: odd while it
    /// holds an actor, even once freed.
    pub closed spec fn gen_in(&self, k: int, i: int) -> u32 {
        self.pools@[k].pool.generations.slots@[i]
    }

    /// How many freed slots the pool with tag `k` keeps for reuse.
    pub closed spec fn spare_in(&self, k: int) -> nat {
        self.pools@[k].pool.generations.free@.len()
    }

    /// The number of slots of the pool with tag `k`, or none for a pool the
    /// world does not have yet.
    pub open spec fn slots_or_none(&self, k: int) -> nat {
        if 0 <= k < self.types() {
            self.slots_in(k)
        } else {
            0
        }
    }

    /// The live count of the pool with tag `k`, or none for a pool the world
    /// does not have yet.
    pub open spec fn live_or_none(&self, k: int) -> nat {
        if 0 <= k < self.types() {
            self.live_in(k)
        } else {
            0
        }
    }

    /// Whether one more actor can be spawned: a new type's tag still fits a
    /// `u16`, and every pool can hand out a slot, reusing a freed one or
    /// adding one whose index fits a `u32`.
    pub open spec fn can_spawn(&self) -> bool {
        &&& self.types() < 0x10000
        &&& forall|k: int|
            #![trigger self.slots_in(k)]
            0 <= k < self.types() ==> self.spare_in(k) > 0 || self.slots_in(k) <= u32::MAX
    }

    /// The id's slot has moved past the id's generation, or was retired empty
    /// with it: such an id can never name an actor again.
    pub closed spec fn gone(&self, id: ActorId) -> bool {
        &&& (id.tag() as int) < self.pools@.len()
        &&& (id.slot() as int) < self.pools@[id.tag() as int].pool.slots@.len()
        &&& {
            let p = self.pools@[id.tag() as int].pool;
            let g = p.generations.slots@[id.slot() as int];
            ||| g > id.gen()
            ||| (g == id.gen() && g == u32::MAX && p.slots@[id.slot() as int] is None)
        }
    }

    /// What no operation on a world ever undoes: pools are kept in place with
    /// their names, slots are never dropped, generations never go back, and a
    /// slot retired empty stays so.
    pub closed spec fn grows(old: Self, new: Self) -> bool {
        &&& old.pools@.len() <= new.pools@.len()
        &&& forall|k: int|
            0 <= k < old.pools@.len() ==> {
                let p = (#[trigger] old.pools@[k]).pool;
                let q = new.pools@[k].pool;
                &&& new.pools@[k].name@ == old.pools@[k].name@
                &&& p.slots@.len() <= q.slots@.len()
                &&& forall|i: int|
                    0 <= i < p.slots@.len() ==> (#[trigger] p.generations.slots@[i])
                        <= q.generations.slots@[i]
                &&& forall|i: int|
                    0 <= i < p.slots@.len() && (#[trigger] p.generations.slots@[i]) == u32::MAX
                        && p.slots@[i] is None ==> q.slots@[i] is None
            }
    }

    /// Whether the two worlds register the same components for the pools of
    /// `old`, and none for the pools `new` added.
    pub open spec fn same_registrations(old: Self, new: Self) -> bool {
        &&& forall|k: int, c: Seq<char>|
            0 <= k < old.types() ==> #[trigger] new.registered(k, c) == old.registered(k, c)
        &&& forall|k: int, c: Seq<char>|
            old.types() <= k < new.types() ==> !#[trigger] new.registered(k, c)
    }

    /// What `spawn` does: the new id is live and nothing else changes state;
    /// one more actor is counted, and at most the new id's pool grows, by
    /// one slot.
    pub open spec fn spawned(old: Self, new: Self, id: ActorId) -> bool {
        &&& new.wf()
        &&& Self::grows(old, new)
        &&& !old.live(id)
        &&& new.live(id)
        &&& forall|x: ActorId| #[trigger] new.live(x) <==> old.live(x) || x == id
        &&& forall|x: ActorId| old.live(x) ==> #[trigger] new.actor(x) == old.actor(x)
        &&& new.types() == old.types() || new.types() == old.types() + 1
        &&& (id.tag() as int) < new.types()
        &&& forall|x: ActorId|
            old.gone(x) ==> #[trigger] new.gone(x)
        &&& new.total() == old.total() + 1
        &&& Self::same_registrations(old, new)
        &&& forall|k: int|
            0 <= k < new.types() && k != id.tag() as int ==> #[trigger] new.slots_in(k)
                == old.slots_or_none(k)
        &&& new.slots_in(id.tag() as int) <= old.slots_or_none(id.tag() as int) + 1
        &&& forall|k: int|
            0 <= k < new.types() && k != id.tag() as int ==> #[trigger] new.live_in(k)
                == old.live_or_none(k)
        &&& new.live_in(id.tag() as int) == old.live_or_none(id.tag() as int) + 1
        &&& forall|k: int|
            0 <= k < old.types() && k != id.tag() as int ==> #[trigger] new.spare_in(k) == old.spare_in(k)
        &&& new.gen_in(id.tag() as int, id.slot() as int) == id.gen()
        &&& forall|k: int, i: int|
            0 <= k < old.types() && 0 <= i < old.slots_in(k) && !(k == id.tag() && i == id.slot())
                ==> #[trigger] new.gen_in(k, i) == old.gen_in(k, i)
        &&& Self::reuses(old, new, id)
    }

    /// Which slot a spawn takes: the last freed one of the pool if it keeps
    /// any, at the next generation; a new slot at the end, at generation one,
    /// otherwise.
    pub open spec fn reuses(old: Self, new: Self, id: ActorId) -> bool {
        let k = id.tag() as int;
        if k < old.types() && old.spare_in(k) > 0 {
            &&& (id.slot() as int) < old.slots_in(k)
            &&& new.slots_in(k) == old.slots_in(k)
            &&& new.spare_in(k) == old.spare_in(k) - 1
            &&& id.gen() == old.gen_in(k, id.slot() as int) + 1
        } else {
            &&& id.slot() as int == old.slots_or_none(k)
            &&& new.slots_in(k) == id.slot() + 1
            &&& new.spare_in(k) == 0
            &&& id.gen() == 1
        }
    }

    /// What spawning into the pool of the type called `name` does: the id
    /// carries that pool's tag, a new pool is made only for a name never seen,
    /// and every other name keeps its pool.
    pub open spec fn spawned_as(old: Self, new: Self, id: ActorId, name: Seq<char>) -> bool {
        &&& Self::spawned(old, new, id)
        &&& new.tag_of(name) == Some(id.tag() as int)
        &&& old.tag_of(name) is Some ==> old.tag_of(name) == Some(id.tag() as int) && new.types()
            == old.types()
        &&& old.tag_of(name) is None ==> id.tag() as int == old.types() && new.types() == old.types() + 1
        &&& forall|n: Seq<char>| n != name ==> #[trigger] new.tag_of(n) == old.tag_of(n)
    }

    /// What `despawn` does: the result says whether `id` was live, and exactly
    /// that actor is gone afterwards, one fewer counted.
    pub open spec fn despawned(old: Self, new: Self, id: ActorId, r: bool) -> bool {
        &&& new.wf()
        &&& Self::grows(old, new)
        &&& r == old.live(id)
        &&& new.types() == old.types()
        &&& forall|x: ActorId| #[trigger] new.live(x) <==> old.live(x) && x != id
        &&& forall|x: ActorId| new.live(x) ==> #[trigger] new.actor(x) == old.actor(x)
        &&& r ==> new.gone(id)
        &&& !r ==> forall|x: ActorId| #[trigger] new.gone(x) == old.gone(x)
        &&& new.total() == if r {
            old.total() - 1
        } else {
            old.total() as int
        }
        &&& Self::same_registrations(old, new)
        &&& forall|k: int| 0 <= k < new.types() ==> #[trigger] new.slots_in(k) == old.slots_in(k)
        &&& forall|k: int|
            0 <= k < new.types() && k != id.tag() as int ==> #[trigger] new.live_in(k) == old.live_in(k)
        &&& (id.tag() as int) < new.types() ==> new.live_in(id.tag() as int) == if r {
            old.live_in(id.tag() as int) - 1
        } else {
            old.live_in(id.tag() as int) as int
        }
        &&& forall|n: Seq<char>| #[trigger] new.tag_of(n) == old.tag_of(n)
        &&& forall|k: int|
            0 <= k < new.types() && !(r && id.gen() < u32::MAX && k == id.tag()) ==> #[trigger] new.spare_in(k)
                == old.spare_in(k)
        &&& r && id.gen() < u32::MAX ==> new.spare_in(id.tag() as int) == old.spare_in(id.tag() as int) + 1
            && new.gen_in(id.tag() as int, id.slot() as int) == id.gen() + 1
        &&& forall|k: int, i: int|
            0 <= k < old.types() && 0 <= i < old.slots_in(k) && !(k == id.tag() && i == id.slot())
                ==> #[trigger] new.gen_in(k, i) == old.gen_in(k, i)
    }

    /// What `clear` does: nothing is live afterwards, and every id that was
    /// live is gone for good.
    pub open spec fn cleared(old: Self, new: Self) -> bool {
        &&& new.wf()
        &&& Self::grows(old, new)
        &&& new.types() == old.types()
        &&& forall|x: ActorId| !(#[trigger] new.live(x))
        &&& forall|x: ActorId| old.live(x) ==> #[trigger] new.gone(x)
        &&& new.total() == 0
        &&& forall|k: int| 0 <= k < new.types() ==> #[trigger] new.live_in(k) == 0
        &&& forall|n: Seq<char>| #[trigger] new.tag_of(n) == old.tag_of(n)
        &&& Self::same_registrations(old, new)
        &&& forall|k: int| 0 <= k < new.types() ==> #[trigger] new.slots_in(k) == old.slots_in(k)
    }

    /// Pools whose live counts agree but at `k` have totals that differ by
    /// what differs at `k`.
    proof fn lemma_total_except(a: Seq<Entry<A>>, b: Seq<Entry<A>>, k: int, n: int)
        requires
            0 <= n <= a.len(),
            n <= b.len(),
            forall|j: int| 0 <= j < n && j != k ==> #[trigger] b[j].pool.live_count() == a[j].pool.live_count(),
        ensures
            0 <= k < n ==> total_live(b, n) + a[k].pool.live_count() == total_live(a, n) + b[k].pool.live_count(),
            !(0 <= k < n) ==> total_live(b, n) == total_live(a, n),
        decreases n,
    {
        if n > 0 {
            Self::lemma_total_except(a, b, k, n - 1);
        }
    }

    /// Pools that count nothing total nothing.
    proof fn lemma_total_zero(a: Seq<Entry<A>>, n: int)
        requires
            0 <= n <= a.len(),
            forall|j: int| 0 <= j < n ==> #[trigger] a[j].pool.live_count() == 0,
        ensures
            total_live(a, n) == 0,
        decreases n,
    {
        if n > 0 {
            Self::lemma_total_zero(a, n - 1);
        }
    }

    /// Keeping each pool's component list keeps its registrations; a pool
    /// added with none registers none.
    proof fn lemma_same_registrations(old: Self, new: Self)
        requires
            old.pools@.len() <= new.pools@.len(),
            forall|j: int| 0 <= j < old.pools@.len() ==> #[trigger] new.pools@[j].components == old.pools@[j].components,
            forall|j: int| old.pools@.len() <= j < new.pools@.len() ==> #[trigger] new.pools@[j].components@.len() == 0,
        ensures
            Self::same_registrations(old, new),
    {
        assert forall|k: int, c: Seq<char>| 0 <= k < old.types() implies #[trigger] new.registered(k, c) == old.registered(k, c) by {
            assert(new.pools@[k].components == old.pools@[k].components);
        }
    }

    /// Pools kept in place with their names keep their tags.
    proof fn lemma_tags_kept(old: Self, new: Self)
        requires
            old.wf(),
            new.wf(),
            old.pools@.len() <= new.pools@.len(),
            forall|j: int| 0 <= j < old.pools@.len() ==> #[trigger] new.pools@[j].name@ == old.pools@[j].name@,
        ensures
            forall|n: Seq<char>| old.tag_of(n) is Some ==> #[trigger] new.tag_of(n) == old.tag_of(n),
            forall|n: Seq<char>|
                #[trigger] new.tag_of(n) is Some && (new.tag_of(n)->0) < old.pools@.len() ==> new.tag_of(n)
                    == old.tag_of(n),
            new.pools@.len() == old.pools@.len() ==> forall|n: Seq<char>| #[trigger] new.tag_of(n) == old.tag_of(n),
    {
        assert forall|n: Seq<char>| old.tag_of(n) is Some implies #[trigger] new.tag_of(n) == old.tag_of(n) by {
            let k = old.tag_of(n)->0;
            Self::lemma_tag_of(new, k);
        }
        assert forall|n: Seq<char>|
            #[trigger] new.tag_of(n) is Some && (new.tag_of(n)->0) < old.pools@.len() implies new.tag_of(n)
                == old.tag_of(n) by {
            let k = new.tag_of(n)->0;
            Self::lemma_tag_of(old, k);
        }
        if new.pools@.len() == old.pools@.len() {
            assert forall|n: Seq<char>| #[trigger] new.tag_of(n) == old.tag_of(n) by {
                if new.tag_of(n) is Some {
                    let k = new.tag_of(n)->0;
                    Self::lemma_tag_of(old, k);
                } else if old.tag_of(n) is Some {
                    let k = old.tag_of(n)->0;
                    Self::lemma_tag_of(new, k);
                }
            }
        }
    }

    proof fn lemma_gone_not_live(&self, id: ActorId)
        requires
            self.wf(),
            self.gone(id),
        ensures
            !self.live(id),
    {
    }

    proof fn lemma_grows_keeps_gone(old: Self, new: Self, id: ActorId)
        requires
            old.wf(),
            new.wf(),
            Self::grows(old, new),
            old.gone(id),
        ensures
            new.gone(id),
    {
        let k = id.tag() as int;
        let i = id.slot() as int;
        let p = old.pools@[k].pool;
        assert(p.generations.slots@[i] <= new.pools@[k].pool.generations.slots@[i]);
    }

    pub fn new() -> (w: Self)
        ensures
            w.wf(),
            w.types() == 0,
            forall|x: ActorId| !(#[trigger] w.live(x)),
            w.total() == 0,
            w.can_spawn(),
    {
        World { pools: Vec::new() }
    }

    /// The position of the pool named `name`.
    fn find(&self, name: &str) -> (r: Option<usize>)
        requires
            self.wf(),
        ensures
            r == (match self.tag_of(name@) {
                Some(k) => Some(k as usize),
                None => None,
            }),
            r is Some ==> r->0 < self.pools@.len() && self.pools@[r->0 as int].name@ == name@,
    {
        let mut k: usize = 0;
        while k < self.pools.len()
            invariant
                self.wf(),
                k <= self.pools@.len(),
                forall|j: int| 0 <= j < k ==> self.pools@[j].name@ != name@,
            decreases self.pools@.len() - k,
        {
            if same_name(self.pools[k].name, name) {
                proof {
                    let c = choose|j: int| 0 <= j < self.pools@.len() && self.pools@[j].name@ == name@;
                    assert(c == k as int);
                }
                return Some(k);
            }
            k = k + 1;
        }
        None
    }

    /// The pool for the type called `name`, creating it on first use.
    fn pool_for(&mut self, name: &'static str) -> (k: usize)
        requires
            old(self).wf(),
            old(self).pools@.len() < 0x10000,
        ensures
            final(self).wf(),
            k < final(self).pools@.len(),
            final(self).pools@[k as int].name@ == name@,
            old(self).tag_of(name@) is Some ==> *final(self) == *old(self),
            old(self).tag_of(name@) is None ==> {
                &&& k == old(self).pools@.len()
                &&& final(self).pools@.len() == old(self).pools@.len() + 1
                &&& forall|j: int| 0 <= j < k ==> #[trigger] final(self).pools@[j] == old(self).pools@[j]
                &&& final(self).pools@[k as int].pool.slots@.len() == 0
                &&& final(self).pools@[k as int].pool.generations.free@.len() == 0
                &&& final(self).pools@[k as int].components@.len() == 0
            },
    {
        match self.find(name) {
            Some(k) => k,
            None => {
                let tag = self.pools.len() as u16;
                self.pools.push(Entry { name, pool: Pool::new(tag), components: Vec::new() });
                let k = self.pools.len() - 1;
                proof {
                    assert forall|j: int, i: int|
                        0 <= j < self.pools@.len() && 0 <= i < self.pools@.len() && j
                            != i implies self.pools@[j].name@ != self.pools@[i].name@ by {
                        if j == k as int {
                            assert(old(self).pools@[i].name@ != name@);
                        } else if i == k as int {
                            assert(old(self).pools@[j].name@ != name@);
                        }
                    }
                }
                k
            },
        }
    }

    proof fn lemma_spawn_into(old: Self, new: Self, k: int, id: ActorId)
        requires
            old.wf(),
            new.wf(),
            0 <= k < old.pools@.len(),
            new.pools@.len() == old.pools@.len(),
            forall|j: int| 0 <= j < old.pools@.len() && j != k ==> #[trigger] new.pools@[j] == old.pools@[j],
            new.pools@[k].name@ == old.pools@[k].name@,
            id.tag() == k,
            id.gen() % 2 == 1,
            new.pools@[k].pool.resolves(id),
            ({
                let p = old.pools@[k].pool;
                let q = new.pools@[k].pool;
                &&& p.generations.free@.len() > 0 ==> {
                    &&& id.slot() == p.generations.free@.last()
                    &&& id.gen() == p.generations.slots@[id.slot() as int] + 1
                    &&& q.generations.slots@ == p.generations.slots@.update(id.slot() as int, id.gen())
                    &&& q.slots@ == p.slots@.update(id.slot() as int, q.slots@[id.slot() as int])
                }
                &&& p.generations.free@.len() == 0 ==> {
                    &&& id.slot() == p.slots@.len()
                    &&& q.generations.slots@ == p.generations.slots@.push(1)
                    &&& q.slots@ == p.slots@.push(q.slots@[id.slot() as int])
                }
            }),
        ensures
            Self::grows(old, new),
            !old.live(id),
            new.live(id),
            forall|x: ActorId| #[trigger] new.live(x) <==> old.live(x) || x == id,
            forall|x: ActorId| old.live(x) ==> #[trigger] new.actor(x) == old.actor(x),
            forall|x: ActorId| old.gone(x) ==> #[trigger] new.gone(x),
    {
        let p = old.pools@[k].pool;
        let q = new.pools@[k].pool;
        let i = id.slot() as int;
        if p.generations.free@.len() > 0 {
            let last = p.generations.free@.len() - 1;
            assert(p.generations.free@[last] == id.slot());
            assert(p.generations.slots@[i] % 2 == 0);
        }
        assert forall|x: ActorId| #[trigger] new.live(x) <==> old.live(x) || x == id by {
            if x.tag() as int == k && x.slot() as int == i {
                if old.live(x) {
                    assert(p.generations.slots@[i] % 2 == 1);
                }
                if new.live(x) {
                    id.lemma_parts_determine(x);
                }
            }
        }
        assert forall|x: ActorId| old.live(x) implies #[trigger] new.actor(x) == old.actor(x) by {
            if x.tag() as int == k && x.slot() as int == i {
                assert(p.generations.slots@[i] % 2 == 1);
            }
        }
        assert forall|x: ActorId| old.gone(x) implies #[trigger] new.gone(x) by {
            if x.tag() as int == k && x.slot() as int == i {
                if p.generations.slots@[i] == u32::MAX {
                    assert(p.generations.slots@[i] % 2 == 1);
                }
            }
        }
        assert(Self::grows(old, new)) by {
            assert forall|j: int| 0 <= j < old.pools@.len() implies {
                let p = (#[trigger] old.pools@[j]).pool;
                let q = new.pools@[j].pool;
                &&& new.pools@[j].name@ == old.pools@[j].name@
                &&& p.slots@.len() <= q.slots@.len()
                &&& forall|m: int|
                    0 <= m < p.slots@.len() ==> (#[trigger] p.generations.slots@[m])
                        <= q.generations.slots@[m]
                &&& forall|m: int|
                    0 <= m < p.slots@.len() && (#[trigger] p.generations.slots@[m]) == u32::MAX
                        && p.slots@[m] is None ==> q.slots@[m] is None
            } by {
                if j == k {
                    assert forall|m: int|
                        0 <= m < p.slots@.len() && (#[trigger] p.generations.slots@[m]) == u32::MAX
                            && p.slots@[m] is None implies q.slots@[m] is None by {
                        if m == i {
                            assert(p.generations.slots@[m] % 2 == 1);
                        }
                    }
                }
            }
        }
    }

    /// Adds an actor and returns its id.
    ///
    /// Does not run `on_spawn`: see [`World::spawn_with_hook`] for that.
    pub fn spawn<T: Actor<A>>(&mut self, actor: T) -> (id: ActorId)
        requires
            old(self).wf(),
            old(self).can_spawn(),
        ensures
            Self::spawned(*old(self), *final(self), id),
            exists|name: &'static str|
                call_ensures(T::actor_name, (), name) && final(self).tag_of(name@) == Some(id.tag() as int),
            call_ensures(T::into_actor, (actor,), final(self).actor(id)),
            T::obeys_actor_laws() ==> Self::spawned_as(*old(self), *final(self), id, T::name()),
            T::obeys_actor_laws() ==> final(self).actor(id) == actor.wrapped(),
            T::obeys_actor_laws() ==> T::unwrapped(final(self).actor(id)) == Some(actor),
    {
        self.spawn_named(T::actor_name(), actor.into_actor())
    }

    /// Adds an actor, already wrapped, to the pool of the type called `name`,
    /// creating that pool on first use, and returns its id.
    pub fn spawn_named(&mut self, name: &'static str, value: A) -> (id: ActorId)
        requires
            old(self).wf(),
            old(self).can_spawn(),
        ensures
            Self::spawned_as(*old(self), *final(self), id, name@),
            final(self).actor(id) == value,
    {
        let k = self.pool_for(name);
        let ghost mid = *self;
        proof {
            if (k as int) < old(self).pools@.len() {
                assert(old(self).slots_in(k as int) == old(self).pools@[k as int].pool.slots@.len());
                assert(old(self).spare_in(k as int) == old(self).pools@[k as int].pool.generations.free@.len());
            }
            assert(self.pools@[k as int].pool.generations.can_allocate());
        }
        let ghost before = self.pools@[k as int];
        let id = self.pools[k].pool.spawn(value);
        proof {
            assert(self.pools@ == mid.pools@.update(k as int, self.pools@[k as int]));
            assert(self.wf()) by {
                assert forall|j: int, i: int|
                    0 <= j < self.pools@.len() && 0 <= i < self.pools@.len() && j
                        != i implies self.pools@[j].name@ != self.pools@[i].name@ by {
                    assert(mid.pools@[j].name@ != mid.pools@[i].name@);
                }
            }
            Self::lemma_spawn_into(mid, *self, k as int, id);
            if old(self).tag_of(name@) is None {
                assert forall|x: ActorId| old(self).live(x) <==> mid.live(x) by {
                    if mid.live(x) && x.tag() as int == k as int {
                        assert(mid.pools@[k as int].pool.slots@.len() == 0);
                    }
                }
                assert forall|x: ActorId| old(self).gone(x) implies mid.gone(x) by {
                }
                assert(Self::grows(*old(self), mid)) by {
                    assert forall|j: int| 0 <= j < old(self).pools@.len() implies #[trigger] mid.pools@[j]
                        == old(self).pools@[j] by {
                    }
                }
                assert forall|x: ActorId| old(self).live(x) implies #[trigger] mid.actor(x) == old(self).actor(x) by {
                    assert(mid.pools@[x.tag() as int] == old(self).pools@[x.tag() as int]);
                }
                assert(Self::grows(*old(self), *self)) by {
                    assert forall|j: int| 0 <= j < old(self).pools@.len() implies #[trigger] mid.pools@[j]
                        == old(self).pools@[j] by {
                    }
                }
                assert forall|x: ActorId| old(self).gone(x) implies #[trigger] self.gone(x) by {
                    assert(mid.pools@[x.tag() as int] == old(self).pools@[x.tag() as int]);
                    assert(mid.gone(x));
                }
            }
        }
        proof {
            Self::lemma_tag_of(*self, k as int);
            Self::lemma_tags_kept(mid, *self);
            if old(self).tag_of(name@) is Some {
                Self::lemma_tag_of(mid, k as int);
            } else {
                Self::lemma_tags_kept(*old(self), mid);
                assert forall|n: Seq<char>| n != name@ implies #[trigger] self.tag_of(n) == old(self).tag_of(n) by {
                    if mid.tag_of(n) is Some {
                        let j = mid.tag_of(n)->0;
                        if j == k as int {
                            Self::lemma_tag_of(mid, j);
                        }
                    }
                }
            }
            let p = mid.pools@[k as int].pool;
            let q = self.pools@[k as int].pool;
            if p.generations.free@.len() > 0 {
                let last = p.generations.free@.len() - 1;
                assert(p.generations.free@[last] == id.slot());
                assert(p.slots@[id.slot() as int] is None);
                lemma_count_some_update(p.slots@, id.slot() as int, q.slots@[id.slot() as int]);
            } else {
                lemma_count_some_push(p.slots@, q.slots@[id.slot() as int]);
            }
            assert(q.live_count() == p.live_count() + 1);
            Self::lemma_total_except(mid.pools@, self.pools@, k as int, self.pools@.len() as int);
            Self::lemma_same_registrations(mid, *self);
            if old(self).tag_of(name@) is None {
                assert(mid.pools@.len() == old(self).pools@.len() + 1);
                Self::lemma_total_except(old(self).pools@, mid.pools@, -1, old(self).pools@.len() as int);
                assert(p.slots@ =~= Seq::<Option<A>>::empty());
                assert(mid.total() == total_live(mid.pools@, old(self).pools@.len() as int) + p.live_count());
                Self::lemma_same_registrations(*old(self), mid);
                assert forall|kk: int, c: Seq<char>| 0 <= kk < old(self).types() implies #[trigger] self.registered(kk, c) == old(self).registered(kk, c) by {
                    assert(self.registered(kk, c) == mid.registered(kk, c));
                }
                assert forall|kk: int, c: Seq<char>| old(self).types() <= kk < self.types() implies !#[trigger] self.registered(kk, c) by {
                    assert(self.registered(kk, c) == mid.registered(kk, c));
                }
                assert forall|kk: int| 0 <= kk < self.types() && kk != id.tag() as int implies #[trigger] self.slots_in(kk)
                    == old(self).slots_or_none(kk) by {
                    assert(self.pools@[kk] == mid.pools@[kk]);
                    assert(mid.pools@[kk] == old(self).pools@[kk]);
                }
            } else {
                assert forall|kk: int| 0 <= kk < self.types() && kk != id.tag() as int implies #[trigger] self.slots_in(kk)
                    == old(self).slots_or_none(kk) by {
                    assert(self.pools@[kk] == mid.pools@[kk]);
                }
            }
        }
        id
    }

    /// In a well-formed world a pool's name leads back to it.
    proof fn lemma_tag_of(w: Self, k: int)
        requires
            w.wf(),
            0 <= k < w.pools@.len(),
        ensures
            w.tag_of(w.pools@[k].name@) == Some(k),
    {
    }

    /// Adds an actor and runs its `on_spawn` hook.
    pub fn spawn_with_hook<T: Behaviour<A>>(&mut self, actor: T) -> (id: ActorId)
        requires
            old(self).wf(),
            old(self).can_spawn(),
        ensures
            Self::spawned(*old(self), *final(self), id),
            exists|name: &'static str|
                call_ensures(T::actor_name, (), name) && final(self).tag_of(name@) == Some(id.tag() as int),
            T::obeys_actor_laws() ==> final(self).tag_of(T::name()) == Some(id.tag() as int),
            T::obeys_actor_laws() ==> T::unwrapped(final(self).actor(id)) is Some,
            T::obeys_actor_laws() ==> final(self).actor(id) == T::unwrapped(final(self).actor(id))->0.wrapped(),
            T::obeys_actor_laws() ==> Self::spawned_as(*old(self), *final(self), id, T::name()),
            T::obeys_actor_laws() && T::obeys_behaviour_laws() ==> final(self).actor(id)
                == actor.spawned().wrapped(),
    {
        let mut actor = actor;
        actor.on_spawn();
        self.spawn(actor)
    }

    proof fn lemma_despawn_in(old: Self, new: Self, id: ActorId, r: bool)
        requires
            old.wf(),
            new.wf(),
            (id.tag() as int) < old.pools@.len(),
            new.pools@.len() == old.pools@.len(),
            forall|j: int|
                0 <= j < old.pools@.len() && j != id.tag() as int ==> #[trigger] new.pools@[j]
                    == old.pools@[j],
            new.pools@[id.tag() as int].name@ == old.pools@[id.tag() as int].name@,
            new.pools@[id.tag() as int].components == old.pools@[id.tag() as int].components,
            ({
                let p = old.pools@[id.tag() as int].pool;
                let q = new.pools@[id.tag() as int].pool;
                let i = id.slot() as int;
                &&& q.slots@.len() == p.slots@.len()
                &&& id.gen() == 0 || !p.generations.live(id.slot(), id.gen()) ==> q == p && !r
                &&& id.gen() != 0 && p.generations.live(id.slot(), id.gen()) ==> {
                    &&& r == p.slots@[i] is Some
                    &&& q.slots@ == p.slots@.update(i, None)
                    &&& id.gen() < u32::MAX ==> q.generations.slots@ == p.generations.slots@.update(
                        i,
                        (id.gen() + 1) as u32,
                    ) && q.generations.free@ == p.generations.free@.push(id.slot())
                    &&& id.gen() == u32::MAX ==> q.generations == p.generations
                }
            }),
        ensures
            Self::despawned(old, new, id, r),
    {
        let k = id.tag() as int;
        let i = id.slot() as int;
        let p = old.pools@[k].pool;
        let q = new.pools@[k].pool;
        assert(r == old.live(id));
        if id.gen() != 0 && p.generations.live(id.slot(), id.gen()) {
            lemma_count_some_update(p.slots@, i, None);
        }
        Self::lemma_total_except(old.pools@, new.pools@, k, old.pools@.len() as int);
        Self::lemma_same_registrations(old, new);
        Self::lemma_tags_kept(old, new);
        assert forall|x: ActorId| #[trigger] new.live(x) <==> old.live(x) && x != id by {
            if x.tag() as int == k && x.slot() as int == i && old.live(x) {
                id.lemma_parts_determine(x);
            }
        }
        assert forall|x: ActorId| new.live(x) implies #[trigger] new.actor(x) == old.actor(x) by {
        }
        if r {
            assert(new.gone(id));
        } else {
            assert forall|x: ActorId| #[trigger] new.gone(x) == old.gone(x) by {
                if x.tag() as int == k && x.slot() as int == i && id.gen() != 0
                    && p.generations.live(id.slot(), id.gen()) {
                    assert(p.slots@[i] is None);
                    assert(id.gen() == u32::MAX);
                }
            }
        }
        assert(Self::grows(old, new)) by {
            assert forall|j: int| 0 <= j < old.pools@.len() implies {
                let p = (#[trigger] old.pools@[j]).pool;
                let q = new.pools@[j].pool;
                &&& new.pools@[j].name@ == old.pools@[j].name@
                &&& p.slots@.len() <= q.slots@.len()
                &&& forall|m: int|
                    0 <= m < p.slots@.len() ==> (#[trigger] p.generations.slots@[m])
                        <= q.generations.slots@[m]
                &&& forall|m: int|
                    0 <= m < p.slots@.len() && (#[trigger] p.generations.slots@[m]) == u32::MAX
                        && p.slots@[m] is None ==> q.slots@[m] is None
            } by {
            }
        }
    }

    /// Removes an actor, returning whether it was there. Despawning twice is a
    /// no-op: two systems destroying the same enemy in one frame is normal.
    pub fn despawn(&mut self, id: ActorId) -> (r: bool)
        requires
            old(self).wf(),
        ensures
            Self::despawned(*old(self), *final(self), id, r),
    {
        let k = id.type_tag() as usize;
        if k >= self.pools.len() {
            proof {
                assert(Self::grows(*old(self), *self)) by {
                    assert forall|j: int| 0 <= j < old(self).pools@.len() implies #[trigger] self.pools@[j]
                        == old(self).pools@[j] by {
                    }
                }
            }
            return false;
        }
        let ghost mid = *self;
        let taken = self.pools[k].pool.despawn(id);
        let r = taken.is_some();
        proof {
            assert(self.wf()) by {
                assert forall|j: int, i: int|
                    0 <= j < self.pools@.len() && 0 <= i < self.pools@.len() && j
                        != i implies self.pools@[j].name@ != self.pools@[i].name@ by {
                    assert(mid.pools@[j].name@ != mid.pools@[i].name@);
                }
            }
            Self::lemma_despawn_in(mid, *self, id, r);
        }
        r
    }

    /// What despawning through the type called `name` does: a live id of
    /// that type whose actor is `typed` (a view of the type exists) is
    /// despawned; any other id names nothing of it and changes nothing.
    pub open spec fn despawned_as(old: Self, new: Self, id: ActorId, name: Seq<char>, typed: bool, r: bool) -> bool {
        &&& r == (old.live(id) && old.tag_of(name) == Some(id.tag() as int) && typed)
        &&& r ==> Self::despawned(old, new, id, r)
        &&& !r ==> new == old
    }

    /// Removes an actor of type `T`, running its `on_despawn` hook first.
    /// An id of another type names no `T`: nothing is removed and the result
    /// is false.
    pub fn despawn_with_hook<T: Behaviour<A>>(&mut self, id: ActorId) -> (r: bool)
        requires
            old(self).wf(),
        ensures
            exists|name: &'static str, typed: bool|
                #![trigger call_ensures(T::actor_name, (), name), Self::despawned_as(*old(self), *final(self), id, name@, typed, r)]
                call_ensures(T::actor_name, (), name) && Self::despawned_as(
                    *old(self),
                    *final(self),
                    id,
                    name@,
                    typed,
                    r,
                ),
            T::obeys_actor_laws() ==> Self::despawned_as(
                *old(self),
                *final(self),
                id,
                T::name(),
                T::unwrapped(old(self).actor(id)) is Some,
                r,
            ),
    {
        let name = T::actor_name();
        let k = match self.find(name) {
            Some(k) => k,
            None => {
                proof {
                    assert(Self::despawned_as(*old(self), *self, id, name@, false, false));
                }
                return false;
            },
        };
        if k != id.type_tag() as usize {
            proof {
                assert(!(old(self).tag_of(name@) == Some(id.tag() as int)));
                assert(Self::despawned_as(*old(self), *self, id, name@, false, false));
            }
            return false;
        }
        let typed = match self.pools[k].pool.get(id) {
            Some(actor) => T::from_actor(actor).is_some(),
            None => false,
        };
        if !typed {
            proof {
                assert(Self::despawned_as(*old(self), *self, id, name@, false, false));
            }
            return false;
        }
        let ghost mid = *self;
        let taken = self.pools[k].pool.despawn(id);
        proof {
            assert(self.wf()) by {
                assert forall|j: int, i: int|
                    0 <= j < self.pools@.len() && 0 <= i < self.pools@.len() && j
                        != i implies self.pools@[j].name@ != self.pools@[i].name@ by {
                    assert(mid.pools@[j].name@ != mid.pools@[i].name@);
                }
            }
            Self::lemma_despawn_in(mid, *self, id, taken is Some);
            assert(Self::despawned_as(*old(self), *self, id, name@, true, taken is Some));
        }
        match taken {
            Some(mut actor) => {
                if let Some(typed) = T::from_actor_mut(&mut actor) {
                    typed.on_despawn();
                }
                true
            },
            None => false,
        }
    }

    /// An actor of type `T`, if `id` names a live one.
    pub fn get<T: Actor<A>>(&self, id: ActorId) -> (r: Option<&T>)
        requires
            self.wf(),
        ensures
            exists|name: &'static str|
                call_ensures(T::actor_name, (), name) && if self.live(id) && self.tag_of(name@) == Some(
                    id.tag() as int,
                ) {
                    call_ensures(T::from_actor, (&self.actor(id),), r)
                } else {
                    r is None
                },
            T::obeys_actor_laws() ==> (r is Some) == (self.live(id) && self.tag_of(T::name()) == Some(
                id.tag() as int,
            ) && T::unwrapped(self.actor(id)) is Some),
            T::obeys_actor_laws() && r is Some ==> T::unwrapped(self.actor(id)) == Some(*r->0),
    {
        match self.get_named(T::actor_name(), id) {
            Some(actor) => T::from_actor(actor),
            None => None,
        }
    }

    /// The actor `id` names, if it is live and of the type called `name`.
    pub fn get_named(&self, name: &str, id: ActorId) -> (r: Option<&A>)
        requires
            self.wf(),
        ensures
            r == (if self.live(id) && self.tag_of(name@) == Some(id.tag() as int) {
                Some(&self.actor(id))
            } else {
                None
            }),
    {
        match self.find(name) {
            Some(k) => {
                if k == id.type_tag() as usize {
                    self.reflect(id)
                } else {
                    None
                }
            },
            None => None,
        }
    }

    /// The same, mutably.
    pub fn get_mut<T: Actor<A>>(&mut self, id: ActorId) -> (r: Option<&mut T>)
        requires
            old(self).wf(),
        ensures
            final(self).wf(),
            Self::grows(*old(self), *final(self)),
            final(self).types() == old(self).types(),
            r is Some ==> old(self).live(id),
            forall|x: ActorId| #[trigger] final(self).live(x) == old(self).live(x),
            forall|x: ActorId|
                old(self).live(x) && x != id ==> #[trigger] final(self).actor(x) == old(self).actor(x),
            forall|x: ActorId| #[trigger] final(self).gone(x) == old(self).gone(x),
            exists|name: &'static str|
                call_ensures(T::actor_name, (), name) && (r is Some ==> old(self).tag_of(name@) == Some(
                    id.tag() as int,
                )),
            T::obeys_actor_laws() ==> (r is Some) == (old(self).live(id) && old(self).tag_of(T::name())
                == Some(id.tag() as int) && T::unwrapped(old(self).actor(id)) is Some),
            T::obeys_actor_laws() && r is Some ==> T::unwrapped(old(self).actor(id)) == Some(*r->0),
            T::obeys_actor_laws() && r is Some ==> final(self).actor(id) == T::wrapped(*final(r->0)),
            T::obeys_actor_laws() && r is None ==> final(self).actor(id) == old(self).actor(id),
    {
        let name = T::actor_name();
        let typed = match self.find(name) {
            Some(k) => k == id.type_tag() as usize,
            None => false,
        };
        if !typed {
            proof {
                Self::lemma_unchanged(*old(self));
            }
            return None;
        }
        match self.reflect_mut(id) {
            Some(actor) => T::from_actor_mut(actor),
            None => None,
        }
    }

    proof fn lemma_unchanged(w: Self)
        requires
            w.wf(),
        ensures
            Self::grows(w, w),
    {
    }

    /// An actor seen whatever its type: what an inspector needs to describe a
    /// selected actor without knowing what it is.
    pub fn reflect(&self, id: ActorId) -> (r: Option<&A>)
        requires
            self.wf(),
        ensures
            r == (if self.live(id) {
                Some(&self.actor(id))
            } else {
                None
            }),
    {
        let k = id.type_tag() as usize;
        if k >= self.pools.len() {
            return None;
        }
        self.pools[k].pool.get(id)
    }

    /// The same, to write the actor back.
    pub fn reflect_mut(&mut self, id: ActorId) -> (r: Option<&mut A>)
        requires
            old(self).wf(),
        ensures
            final(self).wf(),
            Self::grows(*old(self), *final(self)),
            final(self).types() == old(self).types(),
            r is Some <==> old(self).live(id),
            forall|x: ActorId| #[trigger] final(self).live(x) == old(self).live(x),
            (id.tag() as int) < old(self).types() ==> Self::rewrote(*old(self), *final(self), id),
            forall|x: ActorId|
                old(self).live(x) && x != id ==> #[trigger] final(self).actor(x) == old(self).actor(x),
            forall|x: ActorId| #[trigger] final(self).gone(x) == old(self).gone(x),
            old(self).live(id) ==> *r->0 == old(self).actor(id) && final(self).actor(id) == *final(r->0),
    {
        let k = id.type_tag() as usize;
        if k >= self.pools.len() {
            proof {
                Self::lemma_unchanged(*old(self));
            }
            return None;
        }
        proof {
            Self::lemma_write_frame(*self, id);
        }
        self.pools[k].pool.get_mut(id)
    }

    /// Rewriting the actor in `id`'s slot leaves every other live actor alone.
    proof fn lemma_write_frame(old: Self, id: ActorId)
        requires
            old.wf(),
        ensures
            forall|new: Self, x: ActorId|
                #![trigger new.actor(x), Self::rewrote(old, new, id)]
                Self::rewrote(old, new, id) && old.live(x) && x != id ==> new.actor(x)
                    == old.actor(x),
    {
        assert forall|new: Self, x: ActorId|
            #![trigger new.actor(x), Self::rewrote(old, new, id)]
            Self::rewrote(old, new, id) && old.live(x) && x != id implies new.actor(x)
                == old.actor(x) by {
            let k = id.tag() as int;
            if x.tag() == id.tag() {
                if x.slot() == id.slot() {
                    id.lemma_parts_determine(x);
                    if old.live(id) {
                    } else {
                        assert(new.pools@[k] == old.pools@[k]);
                    }
                } else {
                    assert(new.pools@[k].pool.slots@[x.slot() as int] == old.pools@[k].pool.slots@[x.slot() as int]);
                }
            } else {
                assert(new.pools@[x.tag() as int] == old.pools@[x.tag() as int]);
            }
        }
    }

    /// `new` is `old` with at most the slot of `id` rewritten.
    pub closed spec fn rewrote(old: Self, new: Self, id: ActorId) -> bool {
        let k = id.tag() as int;
        &&& (id.tag() as int) < old.pools@.len()
        &&& new.pools@.len() == old.pools@.len()
        &&& forall|j: int| 0 <= j < old.pools@.len() && j != k ==> #[trigger] new.pools@[j] == old.pools@[j]
        &&& !old.pools@[k].pool.resolves(id) ==> new.pools@[k] == old.pools@[k]
        &&& new.pools@[k].name == old.pools@[k].name
        &&& new.pools@[k].components == old.pools@[k].components
        &&& new.pools@[k].pool.generations == old.pools@[k].pool.generations
        &&& new.pools@[k].pool.tag == old.pools@[k].pool.tag
        &&& new.pools@[k].pool.slots@.len() == old.pools@[k].pool.slots@.len()
        &&& forall|i: int| 0 <= i < old.pools@[k].pool.slots@.len() && i != id.slot() as int
            ==> #[trigger] new.pools@[k].pool.slots@[i] == old.pools@[k].pool.slots@[i]
    }

    /// Whether an id still refers to a live actor, without knowing its type.
    pub fn contains(&self, id: ActorId) -> (r: bool)
        requires
            self.wf(),
        ensures
            r == self.live(id),
    {
        let k = id.type_tag() as usize;
        if k >= self.pools.len() {
            return false;
        }
        self.pools[k].pool.get(id).is_some()
    }

    /// Whether `r` lists the actors of the type called `name` as `T` sees
    /// them: ids in slot order, each live in that type's pool, each with the
    /// view `from_actor` gave of it; an actor of the pool is left out only
    /// where `from_actor` gave no view.
    pub open spec fn lists<T: Actor<A>>(&self, name: Seq<char>, r: Seq<(ActorId, &T)>) -> bool {
        &&& forall|k: int|
            0 <= k < r.len() ==> self.live((#[trigger] r[k]).0) && self.tag_of(name) == Some(
                r[k].0.tag() as int,
            ) && call_ensures(T::from_actor, (&self.actor(r[k].0),), Some(r[k].1))
        &&& forall|j: int, k: int| 0 <= j < k < r.len() ==> r[j].0.slot() < r[k].0.slot()
        &&& forall|x: ActorId|
            #![trigger self.live(x)]
            self.live(x) && self.tag_of(name) == Some(x.tag() as int) ==> (exists|k: int|
                0 <= k < r.len() && r[k].0 == x) || call_ensures(T::from_actor, (&self.actor(x),), None)
    }

    /// Every actor of type `T`, with its id, in slot order. The fast path the
    /// storage model was chosen for: actors of one type are contiguous.
    #[verifier::rlimit(40)]
    pub fn iter<T: Actor<A>>(&self) -> (r: Vec<(ActorId, &T)>)
        requires
            self.wf(),
        ensures
            exists|name: &'static str|
                #![trigger call_ensures(T::actor_name, (), name)]
                call_ensures(T::actor_name, (), name) && self.lists::<T>(name@, r@),
            T::obeys_actor_laws() ==> self.lists::<T>(T::name(), r@),
    {
        let name = T::actor_name();
        let all = self.iter_named(name);
        let mut out: Vec<(ActorId, &T)> = Vec::new();
        let mut i: usize = 0;
        while i < all.len()
            invariant
                self.wf(),
                i <= all@.len(),
                forall|m: int|
                    0 <= m < all@.len() ==> self.live((#[trigger] all@[m]).0) && self.tag_of(name@) == Some(
                        all@[m].0.tag() as int,
                    ) && *all@[m].1 == self.actor(all@[m].0),
                forall|j: int, m: int| 0 <= j < m < all@.len() ==> all@[j].0.slot() < all@[m].0.slot(),
                forall|m: int|
                    0 <= m < out@.len() ==> exists|n: int|
                        0 <= n < i && (#[trigger] out@[m]).0 == all@[n].0,
                forall|m: int|
                    0 <= m < out@.len() ==> call_ensures(
                        T::from_actor,
                        (&self.actor((#[trigger] out@[m]).0),),
                        Some(out@[m].1),
                    ),
                forall|j: int, m: int| 0 <= j < m < out@.len() ==> out@[j].0.slot() < out@[m].0.slot(),
                out@.len() > 0 ==> exists|n: int| 0 <= n < i && out@.last().0 == all@[n].0,
                forall|n: int|
                    0 <= n < i ==> (exists|m: int| 0 <= m < out@.len() && out@[m].0 == (#[trigger] all@[n]).0)
                        || call_ensures(T::from_actor, (&self.actor(all@[n].0),), None),
            decreases all@.len() - i,
        {
            let id = all[i].0;
            let actor = all[i].1;
            let ghost before = out@;
            let typed = T::from_actor(actor);
            if let Some(t) = typed {
                proof {
                    if before.len() > 0 {
                        let n = choose|n: int| 0 <= n < i && before.last().0 == all@[n].0;
                        assert(before.last().0.slot() < id.slot());
                    }
                }
                out.push((id, t));
                proof {
                    assert forall|m: int| 0 <= m < out@.len() implies exists|n: int| 0 <= n < i + 1 && (#[trigger] out@[m]).0 == all@[n].0 by {
                        if m < before.len() {
                            assert(out@[m] == before[m]);
                            let n = choose|n: int| 0 <= n < i && before[m].0 == all@[n].0;
                        } else {
                            assert(out@[m].0 == all@[i as int].0);
                        }
                    }
                    assert forall|m: int| 0 <= m < out@.len() implies call_ensures(
                        T::from_actor,
                        (&self.actor((#[trigger] out@[m]).0),),
                        Some(out@[m].1),
                    ) by {
                        if m < before.len() {
                            assert(out@[m] == before[m]);
                        }
                    }
                    assert(out@.last().0 == all@[i as int].0);
                    assert forall|j: int, m: int| 0 <= j < m < out@.len() implies out@[j].0.slot() < out@[m].0.slot() by {
                        if m == out@.len() - 1 && j < before.len() {
                            let n = choose|n: int| 0 <= n < i && before[j].0 == all@[n].0;
                            if j < before.len() - 1 {
                                assert(before[j].0.slot() < before.last().0.slot());
                            }
                        }
                    }
                    assert forall|n: int|
                        0 <= n < i + 1 implies (exists|m: int| 0 <= m < out@.len() && out@[m].0 == (#[trigger] all@[n]).0)
                            || call_ensures(T::from_actor, (&self.actor(all@[n].0),), None) by {
                        if n < i {
                            if exists|m: int| 0 <= m < before.len() && before[m].0 == all@[n].0 {
                                let m = choose|m: int| 0 <= m < before.len() && before[m].0 == all@[n].0;
                                assert(out@[m] == before[m]);
                            }
                        } else {
                            assert(out@[out@.len() - 1].0 == all@[n].0);
                        }
                    }
                }
            } else {
                proof {
                    assert forall|n: int|
                        0 <= n < i + 1 implies (exists|m: int| 0 <= m < out@.len() && out@[m].0 == (#[trigger] all@[n]).0)
                            || call_ensures(T::from_actor, (&self.actor(all@[n].0),), None) by {
                    }
                }
            }
            i = i + 1;
        }
        proof {
            assert forall|x: ActorId|
                #![trigger self.live(x)]
                self.live(x) && self.tag_of(name@) == Some(x.tag() as int) implies (exists|k: int|
                    0 <= k < out@.len() && out@[k].0 == x) || call_ensures(T::from_actor, (&self.actor(x),), None) by {
                let n = choose|n: int| 0 <= n < all@.len() && all@[n].0 == x;
                assert(all@[n].0 == x);
            }
            assert forall|k: int| 0 <= k < out@.len() implies self.live((#[trigger] out@[k]).0) && self.tag_of(name@) == Some(out@[k].0.tag() as int) by {
                let n = choose|n: int| 0 <= n < i && out@[k].0 == all@[n].0;
                assert(self.live(all@[n].0));
            }
            assert forall|j: int, k: int| 0 <= j < out@.len() && 0 <= k < out@.len() implies out@[j].0.tag() == out@[k].0.tag() by {
                let n = choose|n: int| 0 <= n < i && out@[j].0 == all@[n].0;
                let p = choose|p: int| 0 <= p < i && out@[k].0 == all@[p].0;
                assert(self.tag_of(name@) == Some(all@[n].0.tag() as int));
                assert(self.tag_of(name@) == Some(all@[p].0.tag() as int));
            }
        }
        out
    }

    /// Every live actor of the type called `name`, with its id, in slot order.
    pub fn iter_named(&self, name: &str) -> (r: Vec<(ActorId, &A)>)
        requires
            self.wf(),
        ensures
            self.tag_of(name@) is None ==> r@.len() == 0,
            forall|m: int|
                0 <= m < r@.len() ==> self.live((#[trigger] r@[m]).0) && self.tag_of(name@) == Some(
                    r@[m].0.tag() as int,
                ) && *r@[m].1 == self.actor(r@[m].0),
            forall|j: int, m: int| 0 <= j < m < r@.len() ==> r@[j].0.slot() < r@[m].0.slot(),
            forall|x: ActorId|
                #![trigger self.live(x)]
                self.live(x) && self.tag_of(name@) == Some(x.tag() as int) ==> exists|m: int|
                    0 <= m < r@.len() && r@[m].0 == x,
    {
        match self.find(name) {
            Some(k) => {
                let all = self.pools[k].pool.iter();
                proof {
                    let p = self.pools@[k as int].pool;
                    assert forall|x: ActorId|
                        #![trigger self.live(x)]
                        self.live(x) && self.tag_of(name@) == Some(x.tag() as int) implies exists|m: int|
                            0 <= m < all@.len() && all@[m].0 == x by {
                        let i = x.slot() as int;
                        assert(p.slots@[i] is Some);
                        let m = choose|m: int| 0 <= m < all@.len() && all@[m].0.slot() == i;
                        assert(p.resolves(all@[m].0));
                        x.lemma_parts_determine(all@[m].0);
                    }
                }
                all
            },
            None => Vec::new(),
        }
    }

    /// The ids of every live actor of type `T`, in slot order.
    pub fn ids<T: Actor<A>>(&self) -> (r: Vec<ActorId>)
        requires
            self.wf(),
        ensures
            forall|m: int| 0 <= m < r@.len() ==> self.live(#[trigger] r@[m]),
            forall|j: int, m: int| 0 <= j < m < r@.len() ==> r@[j].slot() < r@[m].slot(),
            forall|j: int, m: int| 0 <= j < r@.len() && 0 <= m < r@.len() ==> r@[j].tag() == r@[m].tag(),
            exists|name: &'static str|
                call_ensures(T::actor_name, (), name) && forall|x: ActorId|
                    #![trigger self.live(x)]
                    self.live(x) ==> (r@.contains(x) <==> self.tag_of(name@) == Some(x.tag() as int)),
            T::obeys_actor_laws() ==> forall|x: ActorId|
                #![trigger self.live(x)]
                self.live(x) ==> (r@.contains(x) <==> self.tag_of(T::name()) == Some(x.tag() as int)),
    {
        let name = T::actor_name();
        let all = self.iter_named(name);
        let mut out: Vec<ActorId> = Vec::new();
        let mut i: usize = 0;
        while i < all.len()
            invariant
                i <= all@.len(),
                out@.len() == i,
                forall|m: int| 0 <= m < i ==> out@[m] == (#[trigger] all@[m]).0,
            decreases all@.len() - i,
        {
            out.push(all[i].0);
            i = i + 1;
        }
        proof {
            assert forall|j: int, m: int| 0 <= j < out@.len() && 0 <= m < out@.len() implies out@[j].tag() == out@[m].tag() by {
                assert(out@[j] == all@[j].0);
                assert(out@[m] == all@[m].0);
            }
            assert forall|j: int, m: int| 0 <= j < m < out@.len() implies out@[j].slot() < out@[m].slot() by {
                assert(out@[j] == all@[j].0);
                assert(out@[m] == all@[m].0);
            }
            assert forall|m: int| 0 <= m < out@.len() implies self.live(#[trigger] out@[m]) by {
                assert(out@[m] == all@[m].0);
            }
            assert forall|x: ActorId|
                #![trigger self.live(x)]
                self.live(x) implies (out@.contains(x) <==> self.tag_of(name@) == Some(x.tag() as int)) by {
                if self.tag_of(name@) == Some(x.tag() as int) {
                    let m = choose|m: int| 0 <= m < all@.len() && all@[m].0 == x;
                    assert(out@[m] == x);
                }
                if out@.contains(x) {
                    let m = choose|m: int| 0 <= m < out@.len() && out@[m] == x;
                    assert(out@[m] == all@[m].0);
                }
            }
        }
        out
    }

    /// The ids of every live actor, whatever its type: pools in tag order,
    /// actors in slot order, each once.
    pub fn actor_ids(&self) -> (r: Vec<ActorId>)
        requires
            self.wf(),
        ensures
            forall|m: int| 0 <= m < r@.len() ==> self.live(#[trigger] r@[m]),
            forall|x: ActorId| self.live(x) ==> r@.contains(x),
            forall|j: int, m: int|
                0 <= j < m < r@.len() ==> r@[j].tag() < r@[m].tag() || (r@[j].tag() == r@[m].tag()
                    && r@[j].slot() < r@[m].slot()),
    {
        let mut out: Vec<ActorId> = Vec::new();
        let mut k: usize = 0;
        while k < self.pools.len()
            invariant
                self.wf(),
                k <= self.pools@.len(),
                forall|m: int| 0 <= m < out@.len() ==> self.live(#[trigger] out@[m]) && (out@[m].tag() as int) < k,
                forall|x: ActorId| self.live(x) && (x.tag() as int) < k ==> out@.contains(x),
                forall|j: int, m: int|
                    0 <= j < m < out@.len() ==> out@[j].tag() < out@[m].tag() || (out@[j].tag() == out@[m].tag()
                        && out@[j].slot() < out@[m].slot()),
            decreases self.pools@.len() - k,
        {
            let all = self.pools[k].pool.iter();
            let ghost p = self.pools@[k as int].pool;
            let ghost base = out@;
            let mut i: usize = 0;
            while i < all.len()
                invariant
                    self.wf(),
                    k < self.pools@.len(),
                    p == self.pools@[k as int].pool,
                    i <= all@.len(),
                    forall|n: int| 0 <= n < all@.len() ==> p.resolves((#[trigger] all@[n]).0),
                    forall|j: int, n: int| 0 <= j < n < all@.len() ==> all@[j].0.slot() < all@[n].0.slot(),
                    out@.len() == base.len() + i,
                    forall|m: int| 0 <= m < base.len() ==> out@[m] == base[m],
                    forall|m: int| 0 <= m < i ==> out@[base.len() + m] == (#[trigger] all@[m]).0,
                    forall|m: int| 0 <= m < base.len() ==> self.live(#[trigger] base[m]) && (base[m].tag() as int) < k,
                    forall|j: int, m: int|
                        0 <= j < m < base.len() ==> base[j].tag() < base[m].tag() || (base[j].tag() == base[m].tag()
                            && base[j].slot() < base[m].slot()),
                decreases all@.len() - i,
            {
                out.push(all[i].0);
                i = i + 1;
            }
            proof {
                assert(self.pools@[k as int].pool.tag == k);
                assert forall|m: int| 0 <= m < out@.len() implies self.live(#[trigger] out@[m]) && (out@[m].tag() as int) < k + 1 by {
                    if m >= base.len() {
                        assert(out@[m] == all@[m - base.len()].0);
                        assert(p.resolves(all@[m - base.len()].0));
                    } else {
                        assert(out@[m] == base[m]);
                    }
                }
                assert forall|j: int, m: int|
                    0 <= j < m < out@.len() implies out@[j].tag() < out@[m].tag() || (out@[j].tag() == out@[m].tag()
                        && out@[j].slot() < out@[m].slot()) by {
                    if m >= base.len() {
                        assert(out@[m] == all@[m - base.len()].0);
                        if j >= base.len() {
                            assert(out@[j] == all@[j - base.len()].0);
                        } else {
                            assert(out@[j] == base[j]);
                        }
                    } else {
                        assert(out@[j] == base[j]);
                        assert(out@[m] == base[m]);
                    }
                }
                assert forall|x: ActorId| self.live(x) && (x.tag() as int) < k + 1 implies out@.contains(x) by {
                    if (x.tag() as int) < k {
                        let m = choose|m: int| 0 <= m < base.len() && base[m] == x;
                        assert(out@[m] == x);
                    } else {
                        let s = x.slot() as int;
                        assert(p.slots@[s] is Some);
                        let n = choose|n: int| 0 <= n < all@.len() && all@[n].0.slot() == s;
                        assert(p.resolves(all@[n].0));
                        x.lemma_parts_determine(all@[n].0);
                        assert(out@[base.len() + n] == x);
                    }
                }
            }
            k = k + 1;
        }
        out
    }

    /// Runs `tick` on every actor of type `T`.
    pub fn tick<T: Behaviour<A>>(&mut self, dt: T::Step)
        requires
            old(self).wf(),
        ensures
            Self::stepped(*old(self), *final(self)),
            T::obeys_actor_laws() && T::obeys_behaviour_laws() ==> forall|x: ActorId|
                old(self).live(x) ==> #[trigger] final(self).actor(x) == Self::stepped_value::<T>(
                    *old(self),
                    x,
                    |t: T| t.ticked(dt),
                ),
    {
        let ghost f = |t: T| t.ticked(dt);
        let ids = self.ids::<T>();
        let mut i: usize = 0;
        while i < ids.len()
            invariant
                self.wf(),
                old(self).wf(),
                i <= ids@.len(),
                Self::stepped_among(*old(self), *self, ids@),
                forall|j: int, m: int| 0 <= j < ids@.len() && 0 <= m < ids@.len() ==> ids@[j].tag() == ids@[m].tag(),
                forall|j: int, m: int| 0 <= j < m < ids@.len() ==> ids@[j].slot() < ids@[m].slot(),
                forall|m: int| 0 <= m < ids@.len() ==> old(self).live(#[trigger] ids@[m]),
                forall|n: Seq<char>| #[trigger] self.tag_of(n) == old(self).tag_of(n),
                f == (|t: T| t.ticked(dt)),
                T::obeys_actor_laws() ==> forall|x: ActorId|
                    #![trigger old(self).live(x)]
                    old(self).live(x) ==> (ids@.contains(x) <==> old(self).tag_of(T::name()) == Some(
                        x.tag() as int,
                    )),
                T::obeys_actor_laws() && T::obeys_behaviour_laws() ==> forall|j: int|
                    0 <= j < i ==> #[trigger] self.actor(ids@[j]) == Self::stepped_value::<T>(
                        *old(self),
                        ids@[j],
                        f,
                    ),
                forall|j: int| i <= j < ids@.len() ==> #[trigger] self.actor(ids@[j]) == old(self).actor(ids@[j]),
            decreases ids@.len() - i,
        {
            let ghost before = *self;
            let id = ids[i];
            if let Some(actor) = self.get_mut::<T>(id) {
                actor.tick(dt);
            }
            proof {
                Self::lemma_step(*old(self), before, *self, ids@, ids@[i as int]);
                Self::lemma_grows_keeps_tags(before, *self);
                assert forall|j: int| 0 <= j < ids@.len() && j != i implies #[trigger] self.actor(ids@[j]) == before.actor(ids@[j]) by {
                    if j < i {
                        assert(ids@[j].slot() < ids@[i as int].slot());
                    } else {
                        assert(ids@[i as int].slot() < ids@[j].slot());
                    }
                    assert(before.live(ids@[j]));
                }
            }
            i = i + 1;
        }
        proof {
            Self::lemma_stepped(*old(self), *self, ids@);
            if T::obeys_actor_laws() && T::obeys_behaviour_laws() {
                assert forall|x: ActorId| old(self).live(x) implies #[trigger] self.actor(x) == Self::stepped_value::<T>(
                    *old(self),
                    x,
                    f,
                ) by {
                    if ids@.contains(x) {
                        let j = choose|j: int| 0 <= j < ids@.len() && ids@[j] == x;
                        assert(self.actor(ids@[j]) == Self::stepped_value::<T>(*old(self), ids@[j], f));
                    }
                }
            }
        }
    }

    /// Runs `fixed_tick` on every actor of type `T`.
    pub fn fixed_tick<T: Behaviour<A>>(&mut self, dt: T::Step)
        requires
            old(self).wf(),
        ensures
            Self::stepped(*old(self), *final(self)),
            T::obeys_actor_laws() && T::obeys_behaviour_laws() ==> forall|x: ActorId|
                old(self).live(x) ==> #[trigger] final(self).actor(x) == Self::stepped_value::<T>(
                    *old(self),
                    x,
                    |t: T| t.fixed_ticked(dt),
                ),
    {
        let ghost f = |t: T| t.fixed_ticked(dt);
        let ids = self.ids::<T>();
        let mut i: usize = 0;
        while i < ids.len()
            invariant
                self.wf(),
                old(self).wf(),
                i <= ids@.len(),
                Self::stepped_among(*old(self), *self, ids@),
                forall|j: int, m: int| 0 <= j < ids@.len() && 0 <= m < ids@.len() ==> ids@[j].tag() == ids@[m].tag(),
                forall|j: int, m: int| 0 <= j < m < ids@.len() ==> ids@[j].slot() < ids@[m].slot(),
                forall|m: int| 0 <= m < ids@.len() ==> old(self).live(#[trigger] ids@[m]),
                forall|n: Seq<char>| #[trigger] self.tag_of(n) == old(self).tag_of(n),
                f == (|t: T| t.fixed_ticked(dt)),
                T::obeys_actor_laws() ==> forall|x: ActorId|
                    #![trigger old(self).live(x)]
                    old(self).live(x) ==> (ids@.contains(x) <==> old(self).tag_of(T::name()) == Some(
                        x.tag() as int,
                    )),
                T::obeys_actor_laws() && T::obeys_behaviour_laws() ==> forall|j: int|
                    0 <= j < i ==> #[trigger] self.actor(ids@[j]) == Self::stepped_value::<T>(
                        *old(self),
                        ids@[j],
                        f,
                    ),
                forall|j: int| i <= j < ids@.len() ==> #[trigger] self.actor(ids@[j]) == old(self).actor(ids@[j]),
            decreases ids@.len() - i,
        {
            let ghost before = *self;
            let id = ids[i];
            if let Some(actor) = self.get_mut::<T>(id) {
                actor.fixed_tick(dt);
            }
            proof {
                Self::lemma_step(*old(self), before, *self, ids@, ids@[i as int]);
                Self::lemma_grows_keeps_tags(before, *self);
                assert forall|j: int| 0 <= j < ids@.len() && j != i implies #[trigger] self.actor(ids@[j]) == before.actor(ids@[j]) by {
                    if j < i {
                        assert(ids@[j].slot() < ids@[i as int].slot());
                    } else {
                        assert(ids@[i as int].slot() < ids@[j].slot());
                    }
                    assert(before.live(ids@[j]));
                }
            }
            i = i + 1;
        }
        proof {
            Self::lemma_stepped(*old(self), *self, ids@);
            if T::obeys_actor_laws() && T::obeys_behaviour_laws() {
                assert forall|x: ActorId| old(self).live(x) implies #[trigger] self.actor(x) == Self::stepped_value::<T>(
                    *old(self),
                    x,
                    f,
                ) by {
                    if ids@.contains(x) {
                        let j = choose|j: int| 0 <= j < ids@.len() && ids@[j] == x;
                        assert(self.actor(ids@[j]) == Self::stepped_value::<T>(*old(self), ids@[j], f));
                    }
                }
            }
        }
    }

    /// What stepping the actors of type `T` with `f` makes of the actor `x`:
    /// an actor of `T`'s pool that unwraps as a `T` becomes what `f` makes of
    /// it; any other stays as it was.
    pub open spec fn stepped_value<T: Actor<A>>(old: Self, x: ActorId, f: spec_fn(T) -> T) -> A {
        if old.tag_of(T::name()) == Some(x.tag() as int) && T::unwrapped(old.actor(x)) is Some {
            f(T::unwrapped(old.actor(x))->0).wrapped()
        } else {
            old.actor(x)
        }
    }

    /// A world that grew without a new pool keeps every tag.
    proof fn lemma_grows_keeps_tags(old: Self, new: Self)
        requires
            old.wf(),
            new.wf(),
            Self::grows(old, new),
            new.types() == old.types(),
        ensures
            forall|n: Seq<char>| #[trigger] new.tag_of(n) == old.tag_of(n),
    {
        assert forall|j: int| 0 <= j < old.pools@.len() implies #[trigger] new.pools@[j].name@ == old.pools@[j].name@ by {
            assert(new.pools@[j].name@ == old.pools@[j].name@);
        }
        Self::lemma_tags_kept(old, new);
    }

    /// What a step of one type does to a world: which actors live and which
    /// ids are gone stay as they were, and only the actors of a single pool
    /// may have changed.
    pub open spec fn stepped(old: Self, new: Self) -> bool {
        &&& new.wf()
        &&& Self::grows(old, new)
        &&& new.types() == old.types()
        &&& forall|n: Seq<char>| #[trigger] new.tag_of(n) == old.tag_of(n)
        &&& forall|x: ActorId| #[trigger] new.live(x) == old.live(x)
        &&& forall|x: ActorId| #[trigger] new.gone(x) == old.gone(x)
        &&& exists|k: int| #[trigger] Self::only_in(old, new, k)
    }

    /// Every live actor outside the pool with tag `k` is the same in both.
    pub closed spec fn only_in(old: Self, new: Self, k: int) -> bool {
        forall|x: ActorId| old.live(x) && x.tag() != k ==> #[trigger] new.actor(x) == old.actor(x)
    }

    /// The same, with only the actors named in `ids` changed.
    closed spec fn stepped_among(old: Self, new: Self, ids: Seq<ActorId>) -> bool {
        &&& Self::grows(old, new)
        &&& new.types() == old.types()
        &&& forall|x: ActorId| #[trigger] new.live(x) == old.live(x)
        &&& forall|x: ActorId| #[trigger] new.gone(x) == old.gone(x)
        &&& forall|x: ActorId| old.live(x) && !ids.contains(x) ==> #[trigger] new.actor(x) == old.actor(x)
    }

    proof fn lemma_step(w0: Self, w1: Self, w2: Self, ids: Seq<ActorId>, id: ActorId)
        requires
            w1.wf(),
            w2.wf(),
            Self::stepped_among(w0, w1, ids),
            ids.contains(id),
            Self::grows(w1, w2),
            w2.types() == w1.types(),
            forall|x: ActorId| #[trigger] w2.live(x) == w1.live(x),
            forall|x: ActorId| #[trigger] w2.gone(x) == w1.gone(x),
            forall|x: ActorId| w1.live(x) && x != id ==> #[trigger] w2.actor(x) == w1.actor(x),
        ensures
            Self::stepped_among(w0, w2, ids),
    {
        Self::growth_composes(w0, w1, w2);
        assert forall|x: ActorId| w0.live(x) && !ids.contains(x) implies #[trigger] w2.actor(x) == w0.actor(x) by {
            assert(w1.actor(x) == w0.actor(x));
            assert(w1.live(x));
        }
    }

    proof fn lemma_stepped(w0: Self, w1: Self, ids: Seq<ActorId>)
        requires
            w0.wf(),
            w1.wf(),
            Self::stepped_among(w0, w1, ids),
            forall|j: int, m: int| 0 <= j < ids.len() && 0 <= m < ids.len() ==> ids[j].tag() == ids[m].tag(),
        ensures
            Self::stepped(w0, w1),
    {
        Self::lemma_grows_keeps_tags(w0, w1);
        let k: int = if ids.len() > 0 { ids[0].tag() as int } else { -1 };
        assert forall|x: ActorId| w0.live(x) && x.tag() != k implies #[trigger] w1.actor(x) == w0.actor(x) by {
            if ids.contains(x) {
                let j = choose|j: int| 0 <= j < ids.len() && ids[j] == x;
                assert(ids[j].tag() == ids[0].tag());
            }
        }
        assert(Self::only_in(w0, w1, k));
    }

    /// Every actor of type `T`, without its id, in slot order.
    pub fn values<T: Actor<A>>(&self) -> (r: Vec<&T>)
        requires
            self.wf(),
        ensures
            exists|name: &'static str, listed: Seq<(ActorId, &T)>|
                #![trigger call_ensures(T::actor_name, (), name), self.lists::<T>(name@, listed)]
                call_ensures(T::actor_name, (), name) && self.lists::<T>(name@, listed) && r@ == listed.map_values(
                    |e: (ActorId, &T)| e.1,
                ),
    {
        let all = self.iter::<T>();
        let mut out: Vec<&T> = Vec::new();
        let mut i: usize = 0;
        while i < all.len()
            invariant
                i <= all@.len(),
                out@.len() == i,
                forall|k: int| 0 <= k < i ==> out@[k] == (#[trigger] all@[k]).1,
            decreases all@.len() - i,
        {
            out.push(all[i].1);
            i = i + 1;
        }
        proof {
            assert(out@ =~= all@.map_values(|e: (ActorId, &T)| e.1));
        }
        out
    }

    /// How many actors of type `T` are alive.
    pub fn count<T: Actor<A>>(&self) -> (r: usize)
        requires
            self.wf(),
        ensures
            exists|name: &'static str|
                call_ensures(T::actor_name, (), name) && r == (match self.tag_of(name@) {
                    Some(k) => self.live_in(k),
                    None => 0,
                }),
            T::obeys_actor_laws() ==> r == (match self.tag_of(T::name()) {
                Some(k) => self.live_in(k),
                None => 0,
            }),
    {
        self.count_named(T::actor_name())
    }

    /// How many actors of the type called `name` are alive.
    pub fn count_named(&self, name: &str) -> (r: usize)
        requires
            self.wf(),
        ensures
            r == (match self.tag_of(name@) {
                Some(k) => self.live_in(k),
                None => 0,
            }),
    {
        match self.find(name) {
            Some(k) => {
                let n = self.pools[k].pool.len();
                proof {
                    assert(n == self.live_in(k as int));
                }
                n
            },
            None => 0,
        }
    }

    proof fn lemma_total_monotone(pools: Seq<Entry<A>>, i: int, n: int)
        requires
            0 <= i <= n,
        ensures
            total_live(pools, i) <= total_live(pools, n),
        decreases n - i,
    {
        if i < n {
            Self::lemma_total_monotone(pools, i, n - 1);
        }
    }

    /// How many actors are alive, all types together.
    pub fn len(&self) -> (r: usize)
        requires
            self.wf(),
            self.total() <= usize::MAX,
        ensures
            r == self.total(),
    {
        let mut sum: usize = 0;
        let mut k: usize = 0;
        while k < self.pools.len()
            invariant
                k <= self.pools@.len(),
                sum == total_live(self.pools@, k as int),
                self.total() <= usize::MAX,
            decreases self.pools@.len() - k,
        {
            proof {
                Self::lemma_total_monotone(self.pools@, k as int + 1, self.pools@.len() as int);
            }
            sum = sum + self.pools[k].pool.len();
            k = k + 1;
        }
        sum
    }

    /// Whether no actor is alive.
    pub fn is_empty(&self) -> (r: bool)
        requires
            self.wf(),
        ensures
            r == (self.total() == 0),
    {
        let mut k: usize = 0;
        while k < self.pools.len()
            invariant
                k <= self.pools@.len(),
                total_live(self.pools@, k as int) == 0,
            decreases self.pools@.len() - k,
        {
            if self.pools[k].pool.len() != 0 {
                proof {
                    Self::lemma_total_monotone(self.pools@, k as int + 1, self.pools@.len() as int);
                }
                return false;
            }
            k = k + 1;
        }
        true
    }

    /// Removes every actor, keeping the pools so ids stay routable.
    pub fn clear(&mut self)
        requires
            old(self).wf(),
        ensures
            Self::cleared(*old(self), *final(self)),
    {
        let n = self.pools.len();
        let mut k: usize = 0;
        while k < n
            invariant
                n == self.pools@.len(),
                n == old(self).pools@.len(),
                old(self).wf(),
                k <= n,
                forall|j: int| k <= j < n ==> #[trigger] self.pools@[j] == old(self).pools@[j],
                forall|j: int| 0 <= j < k ==> {
                    let p = old(self).pools@[j].pool;
                    let q = (#[trigger] self.pools@[j]).pool;
                    &&& q.wf()
                    &&& q.tag == p.tag
                    &&& self.pools@[j].name == old(self).pools@[j].name
                    &&& self.pools@[j].components == old(self).pools@[j].components
                    &&& q.slots@.len() == p.slots@.len()
                    &&& forall|i: int| 0 <= i < q.slots@.len() ==> #[trigger] q.slots@[i] is None
                    &&& q.generations.slots@.len() == p.generations.slots@.len()
                    &&& forall|i: int| 0 <= i < p.generations.slots@.len() ==> #[trigger] q.generations.slots@[i] == cleared_generation(p.generations.slots@[i])
                },
            decreases n - k,
        {
            self.pools[k].pool.clear();
            k = k + 1;
        }
        proof {
            assert(self.wf()) by {
                assert forall|j: int, i: int|
                    0 <= j < self.pools@.len() && 0 <= i < self.pools@.len() && j
                        != i implies self.pools@[j].name@ != self.pools@[i].name@ by {
                    assert(old(self).pools@[j].name@ != old(self).pools@[i].name@);
                }
            }
            assert forall|j: int| 0 <= j < n implies #[trigger] self.pools@[j].pool.live_count() == 0 by {
                lemma_count_some_none(self.pools@[j].pool.slots@);
            }
            Self::lemma_total_zero(self.pools@, n as int);
            Self::lemma_same_registrations(*old(self), *self);
            assert forall|x: ActorId| !(#[trigger] self.live(x)) by {
                if (x.tag() as int) < n && (x.slot() as int) < self.pools@[x.tag() as int].pool.slots@.len() {
                    assert(self.pools@[x.tag() as int].pool.slots@[x.slot() as int] is None);
                }
            }
            assert forall|x: ActorId| old(self).live(x) implies #[trigger] self.gone(x) by {
                let p = old(self).pools@[x.tag() as int].pool;
                let q = self.pools@[x.tag() as int].pool;
                assert(q.generations.slots@[x.slot() as int] == cleared_generation(p.generations.slots@[x.slot() as int]));
                assert(q.slots@[x.slot() as int] is None);
            }
            assert(Self::grows(*old(self), *self)) by {
                assert forall|j: int| 0 <= j < old(self).pools@.len() implies {
                    let p = (#[trigger] old(self).pools@[j]).pool;
                    let q = self.pools@[j].pool;
                    &&& self.pools@[j].name@ == old(self).pools@[j].name@
                    &&& p.slots@.len() <= q.slots@.len()
                    &&& forall|m: int|
                        0 <= m < p.slots@.len() ==> (#[trigger] p.generations.slots@[m])
                            <= q.generations.slots@[m]
                    &&& forall|m: int|
                        0 <= m < p.slots@.len() && (#[trigger] p.generations.slots@[m]) == u32::MAX
                            && p.slots@[m] is None ==> q.slots@[m] is None
                } by {
                    let p = old(self).pools@[j].pool;
                    let q = self.pools@[j].pool;
                    assert forall|m: int| 0 <= m < p.slots@.len() implies (#[trigger] p.generations.slots@[m]) <= q.generations.slots@[m] by {
                        assert(q.generations.slots@[m] == cleared_generation(p.generations.slots@[m]));
                    }
                }
            }
        }
    }

    /// Declares that actors of type `T` hold components `C`. Explicit:
    /// forgetting it makes [`World::each_component`] skip that type. Creates
    /// `T`'s pool if it had none.
    pub fn register_component<T: Actor<A> + HasComponent<C>, C: Component>(&mut self)
        requires
            old(self).wf(),
            old(self).types() < 0x10000,
        ensures
            final(self).wf(),
            Self::grows(*old(self), *final(self)),
            final(self).types() == old(self).types() || final(self).types() == old(self).types() + 1,
            forall|x: ActorId| #[trigger] final(self).live(x) == old(self).live(x),
            forall|x: ActorId| old(self).live(x) ==> #[trigger] final(self).actor(x) == old(self).actor(x),
            forall|x: ActorId| #[trigger] final(self).gone(x) == old(self).gone(x),
            forall|k: int, c: Seq<char>| 0 <= k < old(self).types() && old(self).registered(k, c) ==> #[trigger] final(self).registered(k, c),
            exists|owner: &'static str, component: &'static str|
                #![trigger call_ensures(T::actor_name, (), owner), call_ensures(C::component_name, (), component)]
                call_ensures(T::actor_name, (), owner) && call_ensures(C::component_name, (), component)
                    && final(self).tag_of(owner@) is Some && final(self).registered(
                    final(self).tag_of(owner@)->0,
                    component@,
                ) && Self::registered_as(*old(self), *final(self), owner@, component@),
            T::obeys_actor_laws() ==> exists|component: &'static str|
                #![trigger call_ensures(C::component_name, (), component)]
                call_ensures(C::component_name, (), component) && Self::registered_as(
                    *old(self),
                    *final(self),
                    T::name(),
                    component@,
                ),
    {
        let owner = T::actor_name();
        let k = self.pool_for(owner);
        let component = C::component_name();
        let ghost mid = *self;
        proof {
            if old(self).types() < mid.types() {
                assert forall|j: int| 0 <= j < old(self).pools@.len() implies #[trigger] mid.pools@[j] == old(self).pools@[j] by {}
                assert forall|x: ActorId| #[trigger] mid.live(x) == old(self).live(x) by {
                    if x.tag() as int == k as int {
                        assert(mid.pools@[k as int].pool.slots@.len() == 0);
                    }
                }
                assert forall|x: ActorId| #[trigger] mid.gone(x) == old(self).gone(x) by {
                }
            }
        }
        let mut i: usize = 0;
        let mut known = false;
        while i < self.pools[k].components.len()
            invariant
                k < self.pools@.len(),
                i <= self.pools@[k as int].components@.len(),
                known ==> self.registered(k as int, component@),
                !known ==> forall|e: int|
                    0 <= e < i ==> self.pools@[k as int].components@[e]@ != component@,
            decreases self.pools@[k as int].components@.len() - i,
        {
            if same_name(self.pools[k].components[i], component) {
                known = true;
            }
            i = i + 1;
        }
        let ghost comps = self.pools@[k as int].components@;
        if !known {
            self.pools[k].components.push(component);
            proof {
                let n = self.pools@[k as int].components@.len() - 1;
                assert(self.pools@[k as int].components@[n]@ == component@);
                assert(self.pools@[k as int].components@ == comps.push(component));
            }
        }
        proof {
            assert(self.pools@.len() == mid.pools@.len());
            assert forall|j: int| 0 <= j < mid.pools@.len() && j != k as int implies #[trigger] self.pools@[j] == mid.pools@[j] by {}
            assert(self.pools@[k as int].pool == mid.pools@[k as int].pool);
            assert(self.pools@[k as int].name == mid.pools@[k as int].name);
            assert(self.wf()) by {
                assert forall|j: int, i: int|
                    0 <= j < self.pools@.len() && 0 <= i < self.pools@.len() && j
                        != i implies self.pools@[j].name@ != self.pools@[i].name@ by {
                    assert(mid.pools@[j].name@ != mid.pools@[i].name@);
                }
            }
            assert forall|x: ActorId| #[trigger] self.live(x) == mid.live(x) by {
                if (x.tag() as int) < self.pools@.len() {
                    assert(self.pools@[x.tag() as int].pool == mid.pools@[x.tag() as int].pool);
                }
            }
            assert forall|x: ActorId| #[trigger] self.gone(x) == mid.gone(x) by {
                if (x.tag() as int) < self.pools@.len() {
                    assert(self.pools@[x.tag() as int].pool == mid.pools@[x.tag() as int].pool);
                }
            }
            assert forall|x: ActorId| old(self).live(x) implies #[trigger] self.actor(x) == old(self).actor(x) by {
                assert(self.pools@[x.tag() as int].pool == old(self).pools@[x.tag() as int].pool);
            }
            assert forall|j: int, c: Seq<char>| 0 <= j < old(self).types() && old(self).registered(j, c) implies #[trigger] self.registered(j, c) by {
                let m = choose|m: int| 0 <= m < old(self).pools@[j].components@.len() && old(self).pools@[j].components@[m]@ == c;
                assert(mid.pools@[j] == old(self).pools@[j]);
                assert(self.pools@[j].components@[m] == old(self).pools@[j].components@[m]);
            }
            assert(Self::grows(*old(self), *self)) by {
                assert forall|j: int| 0 <= j < old(self).pools@.len() implies #[trigger] self.pools@[j].pool == old(self).pools@[j].pool && self.pools@[j].name == old(self).pools@[j].name by {
                    assert(mid.pools@[j].pool == old(self).pools@[j].pool);
                }
            }
            Self::lemma_tag_of(*self, k as int);
            assert(self.registered(k as int, component@));
            Self::lemma_tags_kept(mid, *self);
            assert forall|j: int| 0 <= j < self.pools@.len() implies #[trigger] self.pools@[j].pool.live_count() == mid.pools@[j].pool.live_count() by {
            }
            Self::lemma_total_except(mid.pools@, self.pools@, -1, self.pools@.len() as int);
            if old(self).tag_of(owner@) is Some {
                Self::lemma_tag_of(mid, k as int);
            } else {
                Self::lemma_tags_kept(*old(self), mid);
                assert forall|n: Seq<char>| n != owner@ implies #[trigger] self.tag_of(n) == old(self).tag_of(n) by {
                    if mid.tag_of(n) is Some {
                        let j = mid.tag_of(n)->0;
                        if j == k as int {
                            Self::lemma_tag_of(mid, j);
                        }
                    }
                }
                assert(mid.pools@.len() == old(self).pools@.len() + 1);
                Self::lemma_total_except(old(self).pools@, mid.pools@, -1, old(self).pools@.len() as int);
                assert(mid.pools@[k as int].pool.slots@ =~= Seq::<Option<A>>::empty());
                assert forall|c: Seq<char>| c != component@ implies !#[trigger] self.registered(k as int, c) by {
                    if self.registered(k as int, c) {
                        let m = choose|m: int| 0 <= m < self.pools@[k as int].components@.len() && self.pools@[k as int].components@[m]@ == c;
                    }
                }
            }
            assert forall|kk: int, c: Seq<char>|
                0 <= kk < old(self).types() && (kk != self.tag_of(owner@)->0 || c != component@) implies #[trigger] self.registered(kk, c)
                    == old(self).registered(kk, c) by {
                assert(mid.pools@[kk] == old(self).pools@[kk]);
                if kk == k as int {
                    if self.registered(kk, c) {
                        let m = choose|m: int| 0 <= m < self.pools@[kk].components@.len() && self.pools@[kk].components@[m]@ == c;
                        assert(comps[m]@ == c);
                    }
                    if old(self).registered(kk, c) {
                        let m = choose|m: int| 0 <= m < old(self).pools@[kk].components@.len() && old(self).pools@[kk].components@[m]@ == c;
                        assert(self.pools@[kk].components@[m]@ == c);
                    }
                } else {
                    assert(self.pools@[kk] == old(self).pools@[kk]);
                }
            }
            assert forall|kk: int| 0 <= kk < self.types() implies #[trigger] self.live_in(kk) == old(self).live_or_none(kk) by {
                if kk < old(self).types() {
                    assert(mid.pools@[kk] == old(self).pools@[kk]);
                } else {
                    assert(mid.pools@[kk].pool.slots@ =~= Seq::<Option<A>>::empty());
                }
            }
            if old(self).tag_of(owner@) is Some && old(self).registered(old(self).tag_of(owner@)->0, component@) {
                let m = choose|m: int| 0 <= m < comps.len() && comps[m]@ == component@;
                assert(known);
                assert(*self == mid);
            }
        }
    }

    /// What registering `component` for the type called `owner` does: the
    /// owner's pool is made if it had none, and registers the component; no
    /// other tag or registration changes, and nothing is counted. Registering
    /// twice changes nothing.
    pub open spec fn registered_as(old: Self, new: Self, owner: Seq<char>, component: Seq<char>) -> bool {
        &&& new.tag_of(owner) is Some
        &&& new.registered(new.tag_of(owner)->0, component)
        &&& old.tag_of(owner) is Some ==> new.tag_of(owner) == old.tag_of(owner) && new.types() == old.types()
        &&& old.tag_of(owner) is None ==> new.tag_of(owner) == Some(old.types() as int) && new.types()
            == old.types() + 1
        &&& forall|n: Seq<char>| n != owner ==> #[trigger] new.tag_of(n) == old.tag_of(n)
        &&& forall|k: int, c: Seq<char>|
            0 <= k < old.types() && (k != new.tag_of(owner)->0 || c != component) ==> #[trigger] new.registered(k, c)
                == old.registered(k, c)
        &&& forall|c: Seq<char>|
            old.tag_of(owner) is None && c != component ==> !#[trigger] new.registered(old.types() as int, c)
        &&& new.total() == old.total()
        &&& forall|k: int| 0 <= k < new.types() ==> #[trigger] new.live_in(k) == old.live_or_none(k)
        &&& old.tag_of(owner) is Some && old.registered(old.tag_of(owner)->0, component) ==> new == old
    }

    /// Every component `C`, whatever actor holds it, with the id of its
    /// owner: pools in tag order, actors in slot order, components in the
    /// order the actor yields them. Only pools registered for `C` contribute,
    /// and each of their actors contributes all that `components` gave.
    pub fn each_component<C: Component>(&self) -> (r: Vec<(ActorId, &C)>)
        where A: HasComponent<C>,
        requires
            self.wf(),
        ensures
            exists|name: &'static str|
                #![trigger call_ensures(C::component_name, (), name)]
                call_ensures(C::component_name, (), name) && self.gathers::<C>(name@, r@),
    {
        self.each_component_named::<C>(C::component_name())
    }

    /// Whether `r` lists the components of the actors of pools registered for
    /// `component`: each entry owned by such a live actor, in tag then slot
    /// order, and each such actor holding exactly, in order, the components
    /// one call of `components` gave for it.
    pub open spec fn gathers<C: Component>(&self, component: Seq<char>, r: Seq<(ActorId, &C)>) -> bool
        where A: HasComponent<C>,
    {
        &&& forall|m: int|
            0 <= m < r.len() ==> self.live((#[trigger] r[m]).0) && self.registered(
                r[m].0.tag() as int,
                component,
            )
        &&& forall|j: int, m: int|
            0 <= j < m < r.len() ==> r[j].0.tag() < r[m].0.tag() || (r[j].0.tag() == r[m].0.tag()
                && r[j].0.slot() <= r[m].0.slot())
        &&& forall|x: ActorId|
            #![trigger self.live(x)]
            self.live(x) && self.registered(x.tag() as int, component) ==> exists|v: Vec<&C>|
                call_ensures(<A as HasComponent<C>>::components, (&self.actor(x),), v) && held_by(
                    r,
                    x,
                ) == v@
    }

    /// The same, for the component registered under `component`.
    pub fn each_component_named<C: Component>(&self, component: &str) -> (r: Vec<(ActorId, &C)>)
        where A: HasComponent<C>,
        requires
            self.wf(),
        ensures
            self.gathers::<C>(component@, r@),
    {
        let mut out: Vec<(ActorId, &C)> = Vec::new();
        let mut k: usize = 0;
        while k < self.pools.len()
            invariant
                self.wf(),
                k <= self.pools@.len(),
                forall|m: int|
                    0 <= m < out@.len() ==> self.live((#[trigger] out@[m]).0) && self.registered(
                        out@[m].0.tag() as int,
                        component@,
                    ) && (out@[m].0.tag() as int) < k,
                forall|j: int, m: int|
                    0 <= j < m < out@.len() ==> out@[j].0.tag() < out@[m].0.tag() || (out@[j].0.tag()
                        == out@[m].0.tag() && out@[j].0.slot() <= out@[m].0.slot()),
                forall|x: ActorId|
                    #![trigger self.live(x)]
                    self.live(x) && self.registered(x.tag() as int, component@) && (x.tag() as int) < k
                        ==> exists|v: Vec<&C>|
                        call_ensures(<A as HasComponent<C>>::components, (&self.actor(x),), v)
                            && held_by(out@, x) == v@,
            decreases self.pools@.len() - k,
        {
            let mut registered = false;
            let mut c: usize = 0;
            while c < self.pools[k].components.len()
                invariant
                    k < self.pools@.len(),
                    c <= self.pools@[k as int].components@.len(),
                    registered ==> self.registered(k as int, component@),
                    !registered ==> forall|e: int|
                        0 <= e < c ==> self.pools@[k as int].components@[e]@ != component@,
                decreases self.pools@[k as int].components@.len() - c,
            {
                if same_name(self.pools[k].components[c], component) {
                    registered = true;
                }
                c = c + 1;
            }
            if registered {
                let all = self.pools[k].pool.iter();
                let ghost p = self.pools@[k as int].pool;
                proof {
                    assert(self.pools@[k as int].pool.tag == k);
                }
                let mut i: usize = 0;
                while i < all.len()
                    invariant
                        self.wf(),
                        k < self.pools@.len(),
                        p == self.pools@[k as int].pool,
                        self.registered(k as int, component@),
                        self.pools@[k as int].pool.tag == k,
                        i <= all@.len(),
                        forall|n: int| 0 <= n < all@.len() ==> p.resolves((#[trigger] all@[n]).0) && *all@[n].1 == p.value(all@[n].0),
                        forall|j: int, n: int| 0 <= j < n < all@.len() ==> all@[j].0.slot() < all@[n].0.slot(),
                        forall|m: int|
                            0 <= m < out@.len() ==> self.live((#[trigger] out@[m]).0) && self.registered(
                                out@[m].0.tag() as int,
                                component@,
                            ) && (out@[m].0.tag() as int) <= k,
                        forall|j: int, m: int|
                            0 <= j < m < out@.len() ==> out@[j].0.tag() < out@[m].0.tag() || (out@[j].0.tag()
                                == out@[m].0.tag() && out@[j].0.slot() <= out@[m].0.slot()),
                        out@.len() > 0 ==> (out@.last().0.tag() as int) < k || (forall|n: int|
                            i <= n < all@.len() ==> out@.last().0.slot() < #[trigger] all@[n].0.slot()),
                        forall|m: int, n: int|
                            0 <= m < out@.len() && i <= n < all@.len() ==> (#[trigger] out@[m]).0 != (#[trigger] all@[n]).0,
                        forall|x: ActorId|
                            #![trigger self.live(x)]
                            self.live(x) && self.registered(x.tag() as int, component@) && (x.tag() as int) < k
                                ==> exists|v: Vec<&C>|
                                call_ensures(<A as HasComponent<C>>::components, (&self.actor(x),), v)
                                    && held_by(out@, x) == v@,
                        forall|n: int|
                            0 <= n < i ==> exists|v: Vec<&C>|
                                call_ensures(<A as HasComponent<C>>::components, (&self.actor((#[trigger] all@[n]).0),), v)
                                    && held_by(out@, all@[n].0) == v@,
                    decreases all@.len() - i,
                {
                    let id = all[i].0;
                    let held = all[i].1.components();
                    let ghost start = out@;
                    proof {
                        assert(p.resolves(all@[i as int].0));
                        assert(self.live(id));
                        assert(self.actor(id) == *all@[i as int].1);
                        lemma_held_by_absent(start, id);
                    }
                    let mut j: usize = 0;
                    while j < held.len()
                        invariant
                            self.wf(),
                            j <= held@.len(),
                            self.live(id),
                            id.tag() as int == k,
                            self.registered(k as int, component@),
                            id == all@[i as int].0,
                            i < all@.len(),
                            forall|m: int|
                                0 <= m < out@.len() ==> self.live((#[trigger] out@[m]).0) && self.registered(
                                    out@[m].0.tag() as int,
                                    component@,
                                ) && (out@[m].0.tag() as int) <= k,
                            forall|a: int, m: int|
                                0 <= a < m < out@.len() ==> out@[a].0.tag() < out@[m].0.tag() || (out@[a].0.tag()
                                    == out@[m].0.tag() && out@[a].0.slot() <= out@[m].0.slot()),
                            out@.len() > 0 ==> (out@.last().0.tag() as int) < k || out@.last().0.slot() <= id.slot(),
                            out@.len() > start.len() ==> out@.last().0 == id,
                            out@.len() == start.len() + j,
                            forall|m: int| 0 <= m < start.len() ==> out@[m] == start[m],
                            forall|m: int| start.len() <= m < out@.len() ==> (#[trigger] out@[m]).0 == id,
                            held_by(out@, id) == held@.take(j as int),
                            forall|x: ActorId| x != id ==> #[trigger] held_by(out@, x) == held_by(start, x),
                        decreases held@.len() - j,
                    {
                        let ghost before = out@;
                        out.push((id, held[j]));
                        proof {
                            lemma_held_by_push(before, (id, held@[j as int]), id);
                            assert(held@.take(j as int).push(held@[j as int]) =~= held@.take(j + 1));
                            assert forall|x: ActorId| x != id implies #[trigger] held_by(out@, x) == held_by(start, x) by {
                                lemma_held_by_push(before, (id, held@[j as int]), x);
                            }
                        }
                        j = j + 1;
                    }
                    proof {
                        assert(held@.take(held@.len() as int) =~= held@);
                        if out@.len() > 0 && (out@.last().0.tag() as int) >= k {
                            assert forall|n: int| i + 1 <= n < all@.len() implies out@.last().0.slot() < #[trigger] all@[n].0.slot() by {
                                assert(all@[i as int].0.slot() < all@[n].0.slot());
                            }
                        }
                        assert forall|m: int, n: int|
                            0 <= m < out@.len() && i + 1 <= n < all@.len() implies (#[trigger] out@[m]).0 != (#[trigger] all@[n]).0 by {
                            assert(all@[i as int].0.slot() < all@[n].0.slot());
                            if m < start.len() {
                                assert(out@[m] == start[m]);
                            }
                        }
                        assert forall|x: ActorId|
                            #![trigger self.live(x)]
                            self.live(x) && self.registered(x.tag() as int, component@) && (x.tag() as int) < k
                                implies exists|v: Vec<&C>|
                                call_ensures(<A as HasComponent<C>>::components, (&self.actor(x),), v)
                                    && held_by(out@, x) == v@ by {
                            assert(x != id);
                            let v = choose|v: Vec<&C>|
                                call_ensures(<A as HasComponent<C>>::components, (&self.actor(x),), v)
                                    && held_by(start, x) == v@;
                            assert(held_by(out@, x) == held_by(start, x));
                        }
                        assert forall|n: int|
                            0 <= n < i + 1 implies exists|v: Vec<&C>|
                                call_ensures(<A as HasComponent<C>>::components, (&self.actor((#[trigger] all@[n]).0),), v)
                                    && held_by(out@, all@[n].0) == v@ by {
                            if n < i {
                                assert(all@[n].0 != id) by {
                                    assert(all@[n].0.slot() < all@[i as int].0.slot());
                                }
                                let v = choose|v: Vec<&C>|
                                    call_ensures(<A as HasComponent<C>>::components, (&self.actor(all@[n].0),), v)
                                        && held_by(start, all@[n].0) == v@;
                                assert(held_by(out@, all@[n].0) == held_by(start, all@[n].0));
                            } else {
                                assert(held_by(out@, id) == held@);
                            }
                        }
                    }
                    i = i + 1;
                }
                proof {
                    assert forall|x: ActorId|
                        #![trigger self.live(x)]
                        self.live(x) && self.registered(x.tag() as int, component@) && (x.tag() as int) < k + 1
                            implies exists|v: Vec<&C>|
                            call_ensures(<A as HasComponent<C>>::components, (&self.actor(x),), v)
                                && held_by(out@, x) == v@ by {
                        if (x.tag() as int) == k {
                            let s = x.slot() as int;
                            assert(p.slots@[s] is Some);
                            let n = choose|n: int| 0 <= n < all@.len() && all@[n].0.slot() == s;
                            assert(p.resolves(all@[n].0));
                            x.lemma_parts_determine(all@[n].0);
                            assert(x == all@[n].0);
                        }
                    }
                }
            } else {
                proof {
                    assert forall|x: ActorId|
                        #![trigger self.live(x)]
                        self.live(x) && self.registered(x.tag() as int, component@) && (x.tag() as int) < k + 1
                            implies exists|v: Vec<&C>|
                            call_ensures(<A as HasComponent<C>>::components, (&self.actor(x),), v)
                                && held_by(out@, x) == v@ by {
                        if (x.tag() as int) == k {
                            let e = choose|e: int|
                                0 <= e < self.pools@[k as int].components@.len()
                                    && self.pools@[k as int].components@[e]@ == component@;
                            assert(self.pools@[k as int].components@[e]@ != component@);
                        }
                    }
                }
            }
            k = k + 1;
        }
        proof {
            assert forall|x: ActorId|
                #![trigger self.live(x)]
                self.live(x) && self.registered(x.tag() as int, component@) implies exists|v: Vec<&C>|
                    call_ensures(<A as HasComponent<C>>::components, (&self.actor(x),), v) && held_by(
                        out@,
                        x,
                    ) == v@ by {
                assert((x.tag() as int) < k);
            }
        }
        out
    }

    /// A spawned actor reads back as what was spawned, and keeps doing so
    /// while other actors are spawned or despawned.
    pub proof fn a_spawned_actor_reads_back_until_despawned(
        w0: Self,
        w1: Self,
        w2: Self,
        id: ActorId,
        value: A,
        other: ActorId,
        r: bool,
    )
        requires
            Self::spawned(w0, w1, id),
            w1.actor(id) == value,
            Self::spawned(w1, w2, other) || (Self::despawned(w1, w2, other, r) && other != id),
        ensures
            w1.live(id),
            w2.live(id),
            w2.actor(id) == value,
    {
    }

    /// Despawning twice is a no-op: the second call reports that nothing was
    /// there and leaves every actor as the first call left it.
    pub proof fn despawning_twice_is_a_no_op(w0: Self, w1: Self, w2: Self, id: ActorId, r1: bool, r2: bool)
        requires
            w0.wf(),
            Self::despawned(w0, w1, id, r1),
            Self::despawned(w1, w2, id, r2),
        ensures
            !r2,
            !w2.live(id),
            forall|x: ActorId| #[trigger] w2.live(x) == w1.live(x),
            forall|x: ActorId| w2.live(x) ==> #[trigger] w2.actor(x) == w1.actor(x),
    {
    }

    /// What no operation undoes composes: a world reached from another by
    /// several operations still keeps everything `grows` keeps.
    pub proof fn growth_composes(w0: Self, w1: Self, w2: Self)
        requires
            Self::grows(w0, w1),
            Self::grows(w1, w2),
        ensures
            Self::grows(w0, w2),
    {
        assert forall|k: int| 0 <= k < w0.pools@.len() implies {
            let p = (#[trigger] w0.pools@[k]).pool;
            let q = w2.pools@[k].pool;
            &&& w2.pools@[k].name@ == w0.pools@[k].name@
            &&& p.slots@.len() <= q.slots@.len()
            &&& forall|i: int|
                0 <= i < p.slots@.len() ==> (#[trigger] p.generations.slots@[i])
                    <= q.generations.slots@[i]
            &&& forall|i: int|
                0 <= i < p.slots@.len() && (#[trigger] p.generations.slots@[i]) == u32::MAX
                    && p.slots@[i] is None ==> q.slots@[i] is None
        } by {
            let p = w0.pools@[k].pool;
            let m = w1.pools@[k].pool;
            let q = w2.pools@[k].pool;
            assert forall|i: int| 0 <= i < p.slots@.len() implies (#[trigger] p.generations.slots@[i])
                <= q.generations.slots@[i] by {
                assert(p.generations.slots@[i] <= m.generations.slots@[i]);
                assert(m.generations.slots@[i] <= q.generations.slots@[i]);
            }
            assert forall|i: int|
                0 <= i < p.slots@.len() && (#[trigger] p.generations.slots@[i]) == u32::MAX
                    && p.slots@[i] is None implies q.slots@[i] is None by {
                assert(p.generations.slots@[i] <= m.generations.slots@[i]);
                assert(m.generations.slots@[i] == u32::MAX);
                assert(m.slots@[i] is None);
            }
        }
    }

    /// A stale id never resolves again: once an id is gone (its slot has moved
    /// to a later generation, or was retired empty with it), it stays gone and
    /// names nothing in every world that follows, whatever was spawned since.
    pub proof fn a_stale_id_never_resolves_again(w1: Self, w2: Self, id: ActorId)
        requires
            w1.wf(),
            w2.wf(),
            Self::grows(w1, w2),
            w1.gone(id),
        ensures
            w2.gone(id),
            !w2.live(id),
    {
        Self::lemma_grows_keeps_gone(w1, w2, id);
        w2.lemma_gone_not_live(id);
    }

    /// A despawned actor's id is dead for good: no later world resolves it,
    /// even after its slot has been reused.
    pub proof fn a_despawned_id_stays_dead(w0: Self, w1: Self, w2: Self, id: ActorId)
        requires
            w0.wf(),
            w2.wf(),
            Self::despawned(w0, w1, id, true),
            Self::grows(w1, w2),
        ensures
            !w2.live(id),
    {
        Self::a_stale_id_never_resolves_again(w1, w2, id);
    }

    /// Ids from before a clear never come back: no id live after the clear, and
    /// whatever is spawned after it, equals an id that was live before it.
    pub proof fn ids_from_before_a_clear_never_come_back(
        w0: Self,
        w1: Self,
        w2: Self,
        before: ActorId,
        after: ActorId,
    )
        requires
            w0.wf(),
            w2.wf(),
            Self::cleared(w0, w1),
            Self::grows(w1, w2),
            w0.live(before),
            w2.live(after),
        ensures
            before != after,
            !w2.live(before),
    {
        Self::a_stale_id_never_resolves_again(w1, w2, before);
    }

    /// A spawned id is new: it names nothing before the spawn, and differs
    /// from every id that was live.
    pub proof fn a_spawned_id_is_fresh(w0: Self, w1: Self, id: ActorId, x: ActorId)
        requires
            w0.wf(),
            Self::spawned(w0, w1, id),
            w0.live(x),
        ensures
            x != id,
            w1.live(x),
    {
    }

    /// How many actor types have been seen.
    pub fn type_count(&self) -> (r: usize)
        ensures
            r == self.types(),
    {
        self.pools.len()
    }
}

} // verus!
