use super::AssetId;
use vstd::prelude::*;
use vstd::std_specs::cmp::PartialEqSpecImpl;

verus! {

/// A loaded asset, reachable in constant time.
///
/// An index stays valid for ever: nothing is removed from a store, which lets
/// a hot reload replace an asset under the handles that name it.
#[derive(Debug, Hash, PartialOrd, Ord)]
pub struct Handle<T> {
    index: u32,
    marker: core::marker::PhantomData<T>,
}

// Written by hand: a derive would demand `T: Copy`, while a handle holds an
// integer, never a `T`.
impl<T> Clone for Handle<T> {
    fn clone(&self) -> (r: Self)
        ensures
            r == *self,
    {
        Handle { index: self.index, marker: core::marker::PhantomData }
    }
}

impl<T> Copy for Handle<T> {
}

impl<T> PartialEq for Handle<T> {
    fn eq(&self, other: &Self) -> (r: bool) {
        self.index == other.index
    }
}

impl<T> Eq for Handle<T> {
}

impl<T> PartialEqSpecImpl for Handle<T> {
    open spec fn obeys_eq_spec() -> bool {
        true
    }

    open spec fn eq_spec(&self, other: &Handle<T>) -> bool {
        self.slot() == other.slot()
    }
}

impl<T> Handle<T> {
    /// The position this handle names in its store.
    pub closed spec fn slot(self) -> u32 {
        self.index
    }

    fn new(index: u32) -> (h: Self)
        ensures
            h.slot() == index,
    {
        Handle { index, marker: core::marker::PhantomData }
    }

    /// The raw index, for a backend that indexes its resources by integer.
    pub fn index(self) -> (r: u32)
        ensures
            r == self.slot(),
    {
        self.index
    }
}

/// Assets of one kind, loaded once and reachable by handle.
///
/// Loading is supplied by the caller: this store does not know how to read a
/// PNG and must not depend on what does.
pub struct AssetStore<T> {
    items: Vec<T>,
    /// `ids[i]` is the identifier `items[i]` was loaded from; no identifier
    /// appears twice, which is what makes loading idempotent.
    ids: Vec<AssetId>,
}

impl<T> AssetStore<T> {
    /// The store's invariant: one identifier per asset, no identifier twice,
    /// and every index fits a `u32`.
    pub open spec fn wf(&self) -> bool {
        &&& self.assets().len() == self.names().len()
        &&& self.assets().len() <= u32::MAX as nat + 1
        &&& forall|i: int, j: int|
            0 <= i < self.names().len() && 0 <= j < self.names().len() && i != j ==> self.names()[i]
                != self.names()[j]
    }

    /// The assets, in index order.
    pub closed spec fn assets(&self) -> Seq<T> {
        self.items@
    }

    /// The identifiers the assets were loaded from, in index order.
    pub closed spec fn names(&self) -> Seq<Seq<char>> {
        self.ids@.map_values(|id: AssetId| id@)
    }

    /// The index of the asset loaded from `id`, if any.
    pub open spec fn position(&self, id: Seq<char>) -> Option<int> {
        if exists|k: int| 0 <= k < self.names().len() && self.names()[k] == id {
            Some(choose|k: int| 0 <= k < self.names().len() && self.names()[k] == id)
        } else {
            None
        }
    }

    proof fn lemma_position(&self, id: Seq<char>, k: int)
        requires
            self.wf(),
            0 <= k < self.ids@.len(),
            self.ids@[k]@ == id,
        ensures
            self.position(id) == Some(k),
    {
        assert(self.names()[k] == id);
    }

    pub fn new() -> (s: Self)
        ensures
            s.wf(),
            s.assets().len() == 0,
            s.names().len() == 0,
    {
        AssetStore { items: Vec::new(), ids: Vec::new() }
    }

    /// The index of the asset loaded from `id`.
    fn find(&self, id: &AssetId) -> (r: Option<usize>)
        requires
            self.wf(),
        ensures
            r is Some <==> self.position(id@) is Some,
            r is Some ==> r->0 == self.position(id@)->0 && r->0 < self.items@.len(),
    {
        let mut k: usize = 0;
        while k < self.ids.len()
            invariant
                self.wf(),
                k <= self.ids@.len(),
                forall|j: int| 0 <= j < k ==> self.ids@[j]@ != id@,
            decreases self.ids@.len() - k,
        {
            if self.ids[k] == *id {
                proof {
                    self.lemma_position(id@, k as int);
                }
                return Some(k);
            }
            k = k + 1;
        }
        None
    }

    /// Returns the handle for `id`, calling `load` only the first time.
    ///
    /// A failure leaves no trace in the cache: an asset missing and then added
    /// loads on the next try.
    pub fn load_with<E, F: FnOnce(&AssetId) -> Result<T, E>>(&mut self, id: &AssetId, load: F) -> (r:
        Result<Handle<T>, E>)
        requires
            old(self).wf(),
            old(self).position(id@) is None ==> old(self).assets().len() <= u32::MAX
                && load.requires((id,)),
        ensures
            final(self).wf(),
            old(self).position(id@) is Some ==> *final(self) == *old(self) && (r matches Ok(h)
                && h.slot() == old(self).position(id@)->0),
            old(self).position(id@) is None ==> exists|loaded: Result<T, E>|
                #[trigger] load.ensures((id,), loaded) && match loaded {
                    Ok(item) => {
                        &&& (r matches Ok(h) && h.slot() == old(self).assets().len())
                        &&& final(self).assets() == old(self).assets().push(item)
                        &&& final(self).names() == old(self).names().push(id@)
                    },
                    Err(e) => r == Err::<Handle<T>, E>(e) && *final(self) == *old(self),
                },
    {
        if let Some(index) = self.find(id) {
            return Ok(Handle::new(index as u32));
        }
        let loaded = load(id);
        match loaded {
            Ok(item) => {
                let h = self.insert(id.clone(), item);
                Ok(h)
            },
            Err(e) => Err(e),
        }
    }

    /// Stores an already-loaded asset under `id`, replacing any earlier one.
    ///
    /// This is how a hot reload goes: existing handles keep pointing at the
    /// same index, which now holds the new asset.
    pub fn insert(&mut self, id: AssetId, item: T) -> (h: Handle<T>)
        requires
            old(self).wf(),
            old(self).position(id@) is None ==> old(self).assets().len() <= u32::MAX,
        ensures
            final(self).wf(),
            Self::inserted(*old(self), *final(self), id@, item, h),
    {
        match self.find(&id) {
            Some(index) => {
                self.items.set(index, item);
                proof {
                    assert(self.ids@.map_values(|id: AssetId| id@) == old(self).ids@.map_values(|id: AssetId| id@));
                }
                Handle::new(index as u32)
            },
            None => {
                let index = self.items.len() as u32;
                let ghost view = id@;
                self.items.push(item);
                self.ids.push(id);
                proof {
                    assert(self.ids@.map_values(|id: AssetId| id@) =~= old(self).ids@.map_values(|id: AssetId| id@).push(view));
                    let n = old(self).names();
                    assert(self.names() == n.push(view));
                    assert forall|i: int, j: int|
                        0 <= i < self.names().len() && 0 <= j < self.names().len() && i != j implies self.names()[i]
                            != self.names()[j] by {
                        if i == n.len() {
                            assert(n[j] != view);
                        } else if j == n.len() {
                            assert(n[i] != view);
                        } else {
                            assert(n[i] != n[j]);
                        }
                    }
                }
                Handle::new(index)
            },
        }
    }

    /// What `insert` does: a known path keeps its handle, which now reads
    /// the new asset; a new path gets the next handle.
    pub open spec fn inserted(old: Self, new: Self, id: Seq<char>, item: T, h: Handle<T>) -> bool {
        &&& old.position(id) is Some ==> {
            &&& h.slot() == old.position(id)->0
            &&& new.assets() == old.assets().update(h.slot() as int, item)
            &&& new.names() == old.names()
        }
        &&& old.position(id) is None ==> {
            &&& h.slot() == old.assets().len()
            &&& new.assets() == old.assets().push(item)
            &&& new.names() == old.names().push(id)
        }
    }

    /// An asset stored under a path is found again by that path, under the
    /// handle `insert` returned, and reads as what was stored.
    pub proof fn an_inserted_asset_is_found_by_its_path(s0: Self, s1: Self, id: Seq<char>, item: T, h: Handle<T>)
        requires
            s0.wf(),
            s1.wf(),
            Self::inserted(s0, s1, id, item, h),
        ensures
            s1.position(id) == Some(h.slot() as int),
            s1.assets()[h.slot() as int] == item,
    {
        if s0.position(id) is Some {
            let k = s0.position(id)->0;
            assert(s1.names()[k] == s0.names()[k]);
            assert(s1.ids@[k]@ == s1.names()[k]);
            s1.lemma_position(id, k);
        } else {
            let k = s0.ids@.len() as int;
            assert(s1.names()[k] == id);
            assert(s1.ids@[k]@ == s1.names()[k]);
            s1.lemma_position(id, k);
        }
    }

    /// A reload keeps every existing handle valid: each still reads its
    /// asset, the reloaded one now reading the new version.
    pub proof fn a_reload_keeps_existing_handles_valid(
        s0: Self,
        s1: Self,
        id: Seq<char>,
        item: T,
        h: Handle<T>,
        other: Handle<T>,
    )
        requires
            s0.wf(),
            Self::inserted(s0, s1, id, item, h),
            (other.slot() as int) < s0.assets().len(),
        ensures
            (other.slot() as int) < s1.assets().len(),
            s1.assets()[other.slot() as int] == (if other.slot() == h.slot() {
                item
            } else {
                s0.assets()[other.slot() as int]
            }),
    {
    }

    pub fn get(&self, handle: Handle<T>) -> (r: Option<&T>)
        ensures
            r == (if (handle.slot() as int) < self.assets().len() {
                Some(&self.assets()[handle.slot() as int])
            } else {
                None
            }),
    {
        let i = handle.index as usize;
        if i < self.items.len() {
            Some(&self.items[i])
        } else {
            None
        }
    }

    pub fn get_mut(&mut self, handle: Handle<T>) -> (r: Option<&mut T>)
        requires
            old(self).wf(),
        ensures
            final(self).wf(),
            final(self).names() == old(self).names(),
            r is Some <==> (handle.slot() as int) < old(self).assets().len(),
            r is None ==> *final(self) == *old(self),
            r is Some ==> *r->0 == old(self).assets()[handle.slot() as int]
                && final(self).assets() == old(self).assets().update(handle.slot() as int, *final(r->0)),
    {
        let i = handle.index as usize;
        if i < self.items.len() {
            Some(&mut self.items[i])
        } else {
            None
        }
    }

    /// The handle of the asset loaded from `id`.
    pub fn handle(&self, id: &AssetId) -> (r: Option<Handle<T>>)
        requires
            self.wf(),
        ensures
            r is Some <==> self.position(id@) is Some,
            r is Some ==> r->0.slot() == self.position(id@)->0,
    {
        match self.find(id) {
            Some(index) => Some(Handle::new(index as u32)),
            None => None,
        }
    }

    /// The asset loaded from `id`.
    pub fn by_id(&self, id: &AssetId) -> (r: Option<&T>)
        requires
            self.wf(),
        ensures
            r == (match self.position(id@) {
                Some(k) => Some(&self.assets()[k]),
                None => None,
            }),
    {
        match self.find(id) {
            Some(index) => Some(&self.items[index]),
            None => None,
        }
    }

    pub fn contains(&self, id: &AssetId) -> (r: bool)
        requires
            self.wf(),
        ensures
            r == self.position(id@) is Some,
    {
        self.find(id).is_some()
    }

    /// The identifier an asset was loaded from.
    pub fn id_of(&self, handle: Handle<T>) -> (r: Option<&AssetId>)
        requires
            self.wf(),
        ensures
            r is Some <==> (handle.slot() as int) < self.names().len(),
            r is Some ==> r->0@ == self.names()[handle.slot() as int],
    {
        let i = handle.index as usize;
        if i < self.ids.len() {
            Some(&self.ids[i])
        } else {
            None
        }
    }

    pub fn len(&self) -> (r: usize)
        ensures
            r == self.assets().len(),
    {
        self.items.len()
    }

    pub fn is_empty(&self) -> (r: bool)
        ensures
            r == (self.assets().len() == 0),
    {
        self.items.len() == 0
    }

    /// The assets in index order, for a backend that indexes a slice by
    /// `Handle::index`.
    pub fn as_slice(&self) -> (r: &[T])
        ensures
            r@ == self.assets(),
    {
        self.items.as_slice()
    }

    /// Every asset with the identifier it was loaded from, in index order.
    pub fn iter(&self) -> (r: Vec<(&AssetId, &T)>)
        requires
            self.wf(),
        ensures
            r@.len() == self.assets().len(),
            forall|k: int|
                0 <= k < r@.len() ==> (#[trigger] r@[k]).0@ == self.names()[k] && *r@[k].1
                    == self.assets()[k],
    {
        let mut out: Vec<(&AssetId, &T)> = Vec::new();
        let mut k: usize = 0;
        while k < self.items.len()
            invariant
                self.wf(),
                k <= self.items@.len(),
                out@.len() == k,
                forall|m: int|
                    0 <= m < k ==> (#[trigger] out@[m]).0@ == self.names()[m] && *out@[m].1
                        == self.assets()[m],
            decreases self.items@.len() - k,
        {
            out.push((&self.ids[k], &self.items[k]));
            k = k + 1;
        }
        out
    }
}

impl<T> Default for AssetStore<T> {
    fn default() -> (s: Self)
        ensures
            s.wf(),
            s.assets().len() == 0,
            s.names().len() == 0,
    {
        Self::new()
    }
}

} // verus!
