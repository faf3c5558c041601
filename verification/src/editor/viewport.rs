//! What the scene view decides without geometry: its mode, the handles it
//! shows, and which actors are selected.

use crate::actor::ActorId;
use vstd::prelude::*;

verus! {

/// What the viewport is doing right now.
#[derive(Debug, Clone, Copy, PartialEq, Eq, Structural)]
pub enum Mode {
    Select,
    /// A selection rectangle is being drawn.
    BoxSelect,
    /// An actor is being moved.
    Move,
    /// The view is being moved.
    Pan,
}

impl Default for Mode {
    fn default() -> (m: Self)
        ensures
            m == Mode::Select,
    {
        Mode::Select
    }
}

/// The handles shown around a selected actor: moving only, since in 2D a free
/// scale or a rotation breaks pixel alignment.
#[derive(Debug, Clone, Copy, PartialEq, Eq, Structural)]
pub enum Handle {
    /// The actor's body: dragging it moves freely.
    Body,
    /// The horizontal axis alone.
    AxisX,
    /// The vertical axis alone.
    AxisY,
}

/// The actors of `s` whose flag in `keep` is set, in order.
pub open spec fn kept(s: Seq<ActorId>, keep: Seq<bool>) -> Seq<ActorId>
    decreases s.len(),
{
    if s.len() == 0 {
        Seq::empty()
    } else {
        let rest = kept(s.drop_last(), keep.drop_last());
        if keep.last() {
            rest.push(s.last())
        } else {
            rest
        }
    }
}

/// `s` with the first occurrence of each actor only.
pub open spec fn deduplicated(s: Seq<ActorId>) -> Seq<ActorId>
    decreases s.len(),
{
    if s.len() == 0 {
        Seq::empty()
    } else {
        let rest = deduplicated(s.drop_last());
        if rest.contains(s.last()) {
            rest
        } else {
            rest.push(s.last())
        }
    }
}

/// Whether no actor appears twice in `s`.
pub open spec fn distinct(s: Seq<ActorId>) -> bool {
    forall|i: int, j: int| 0 <= i < s.len() && 0 <= j < s.len() && i != j ==> s[i] != s[j]
}

/// The selected actors, in the order they were selected, each once.
#[derive(Debug, Clone)]
pub struct Selection {
    actors: Vec<ActorId>,
}

impl Selection {
    pub closed spec fn wf(&self) -> bool {
        distinct(self.actors@)
    }

    /// The selected actors, in selection order.
    pub closed spec fn selected(&self) -> Seq<ActorId> {
        self.actors@
    }

    pub fn new() -> (s: Self)
        ensures
            s.wf(),
            s.selected().len() == 0,
    {
        Selection { actors: Vec::new() }
    }

    fn position(&self, actor: ActorId) -> (r: Option<usize>)
        requires
            self.wf(),
        ensures
            r is None <==> !self.selected().contains(actor),
            r is Some ==> r->0 < self.selected().len() && self.selected()[r->0 as int] == actor,
    {
        let mut i: usize = 0;
        while i < self.actors.len()
            invariant
                i <= self.actors@.len(),
                forall|k: int| 0 <= k < i ==> self.actors@[k] != actor,
            decreases self.actors@.len() - i,
        {
            if self.actors[i] == actor {
                return Some(i);
            }
            i = i + 1;
        }
        None
    }

    /// Selects one actor, replacing what was selected.
    pub fn select(&mut self, actor: ActorId)
        ensures
            final(self).wf(),
            final(self).selected() == seq![actor],
    {
        self.actors.clear();
        self.actors.push(actor);
        proof {
            assert(self.actors@ =~= seq![actor]);
        }
    }

    /// Adds an actor to the selection, or takes it out if it was in.
    pub fn toggle(&mut self, actor: ActorId)
        requires
            old(self).wf(),
        ensures
            final(self).wf(),
            old(self).selected().contains(actor) ==> exists|k: int|
                0 <= k < old(self).selected().len() && old(self).selected()[k] == actor
                    && final(self).selected() == old(self).selected().remove(k),
            !old(self).selected().contains(actor) ==> final(self).selected() == old(self).selected().push(actor),
    {
        match self.position(actor) {
            Some(i) => {
                self.actors.remove(i);
                proof {
                    assert forall|p: int, q: int|
                        0 <= p < self.actors@.len() && 0 <= q < self.actors@.len() && p != q implies self.actors@[p]
                            != self.actors@[q] by {
                        let op = if p < i { p } else { p + 1 };
                        let oq = if q < i { q } else { q + 1 };
                        assert(self.actors@[p] == old(self).actors@[op]);
                        assert(self.actors@[q] == old(self).actors@[oq]);
                    }
                }
            },
            None => {
                self.actors.push(actor);
                proof {
                    assert forall|p: int, q: int|
                        0 <= p < self.actors@.len() && 0 <= q < self.actors@.len() && p != q implies self.actors@[p]
                            != self.actors@[q] by {
                        let n = old(self).actors@.len() as int;
                        if p == n {
                            assert(old(self).actors@[q] != actor);
                        } else if q == n {
                            assert(old(self).actors@[p] != actor);
                        }
                    }
                }
            },
        }
    }

    /// Replaces the selection with every actor given, each once, in the order
    /// of its first appearance.
    pub fn select_all(&mut self, actors: &[ActorId])
        ensures
            final(self).wf(),
            final(self).selected() == deduplicated(actors@),
    {
        self.actors.clear();
        let mut i: usize = 0;
        while i < actors.len()
            invariant
                i <= actors@.len(),
                distinct(self.actors@),
                self.actors@ == deduplicated(actors@.take(i as int)),
            decreases actors@.len() - i,
        {
            let actor = actors[i];
            proof {
                assert(actors@.take(i as int + 1).drop_last() =~= actors@.take(i as int));
                assert(actors@.take(i as int + 1).last() == actor);
            }
            let known = self.position_in(actor);
            if !known {
                let ghost before = self.actors@;
                self.actors.push(actor);
                proof {
                    assert forall|p: int, q: int|
                        0 <= p < self.actors@.len() && 0 <= q < self.actors@.len() && p != q implies self.actors@[p]
                            != self.actors@[q] by {
                        let n = before.len() as int;
                        if p == n {
                            assert(!before.contains(actor));
                            assert(before[q] != actor);
                        } else if q == n {
                            assert(before[p] != actor);
                        }
                    }
                }
            }
            i = i + 1;
        }
        proof {
            assert(actors@.take(i as int) =~= actors@);
        }
    }

    fn position_in(&self, actor: ActorId) -> (r: bool)
        ensures
            r == self.actors@.contains(actor),
    {
        let mut i: usize = 0;
        while i < self.actors.len()
            invariant
                i <= self.actors@.len(),
                forall|k: int| 0 <= k < i ==> self.actors@[k] != actor,
            decreases self.actors@.len() - i,
        {
            if self.actors[i] == actor {
                return true;
            }
            i = i + 1;
        }
        false
    }

    /// Selects nothing.
    pub fn clear(&mut self)
        ensures
            final(self).wf(),
            final(self).selected().len() == 0,
    {
        self.actors.clear();
    }

    /// The selected actors, in selection order.
    pub fn as_slice(&self) -> (r: &[ActorId])
        ensures
            r@ == self.selected(),
    {
        self.actors.as_slice()
    }

    pub fn is_selected(&self, actor: ActorId) -> (r: bool)
        ensures
            r == self.selected().contains(actor),
    {
        self.position_in(actor)
    }

    /// The one selected actor, if exactly one is: the inspector shows one,
    /// several have no common value to show.
    pub fn only_selected(&self) -> (r: Option<ActorId>)
        ensures
            r == (if self.selected().len() == 1 {
                Some(self.selected()[0])
            } else {
                None
            }),
    {
        if self.actors.len() == 1 {
            Some(self.actors[0])
        } else {
            None
        }
    }

    /// Drops the selected actors for which `alive` says no: a selection that
    /// outlived a deletion would point at nothing.
    pub fn retain<F: Fn(ActorId) -> bool>(&mut self, alive: F)
        requires
            old(self).wf(),
            forall|a: ActorId| alive.requires((a,)),
        ensures
            final(self).wf(),
            exists|keep: Seq<bool>|
                keep.len() == old(self).selected().len() && (forall|k: int|
                    0 <= k < keep.len() ==> alive.ensures((old(self).selected()[k],), #[trigger] keep[k]))
                    && final(self).selected() == kept(old(self).selected(), keep),
    {
        let mut out: Vec<ActorId> = Vec::new();
        let ghost mut keep: Seq<bool> = Seq::empty();
        let mut i: usize = 0;
        while i < self.actors.len()
            invariant
                i <= self.actors@.len(),
                self.actors@ == old(self).actors@,
                forall|a: ActorId| alive.requires((a,)),
                distinct(self.actors@),
                keep.len() == i,
                forall|k: int| 0 <= k < i ==> alive.ensures((self.actors@[k],), #[trigger] keep[k]),
                out@ == kept(self.actors@.take(i as int), keep),
                forall|k: int| 0 <= k < out@.len() ==> exists|m: int| 0 <= m < i && self.actors@[m] == #[trigger] out@[k],
                distinct(out@),
            decreases self.actors@.len() - i,
        {
            let actor = self.actors[i];
            let b = alive(actor);
            let ghost old_keep = keep;
            proof {
                keep = keep.push(b);
                assert(self.actors@.take(i as int + 1).drop_last() =~= self.actors@.take(i as int));
                assert(keep.drop_last() =~= old_keep);
                assert(self.actors@.take(i as int + 1).last() == actor);
            }
            if b {
                let ghost before = out@;
                out.push(actor);
                proof {
                    assert forall|p: int, q: int|
                        0 <= p < out@.len() && 0 <= q < out@.len() && p != q implies out@[p] != out@[q] by {
                        let n = before.len() as int;
                        if p == n || q == n {
                            let other = if p == n { q } else { p };
                            let m = choose|m: int| 0 <= m < i && self.actors@[m] == before[other];
                            assert(self.actors@[m] != self.actors@[i as int]);
                        }
                    }
                    assert forall|k: int| 0 <= k < out@.len() implies exists|m: int| 0 <= m < i + 1 && self.actors@[m] == #[trigger] out@[k] by {
                        if k < before.len() {
                            let m = choose|m: int| 0 <= m < i && self.actors@[m] == before[k];
                            assert(self.actors@[m] == out@[k]);
                        } else {
                            assert(self.actors@[i as int] == out@[k]);
                        }
                    }
                }
            }
            proof {
                assert forall|k: int| 0 <= k < i + 1 implies alive.ensures((self.actors@[k],), #[trigger] keep[k]) by {
                    if k < i {
                        assert(keep[k] == old_keep[k]);
                    }
                }
            }
            i = i + 1;
        }
        proof {
            assert(self.actors@.take(i as int) =~= self.actors@);
            assert(kept(old(self).selected(), keep) == out@);
        }
        self.actors = out;
    }

    /// Toggling an actor twice gives the selection back as it was, when the
    /// actor was not selected.
    pub proof fn toggling_twice_gives_the_selection_back(s0: Self, s1: Self, s2: Self, actor: ActorId)
        requires
            s0.wf(),
            s1.wf(),
            !s0.selected().contains(actor),
            s1.selected() == s0.selected().push(actor),
            s1.selected().contains(actor) ==> exists|k: int|
                0 <= k < s1.selected().len() && s1.selected()[k] == actor && s2.selected() == s1.selected().remove(k),
        ensures
            s2.selected() == s0.selected(),
    {
        assert(s1.selected()[s0.selected().len() as int] == actor);
        let k = choose|k: int|
            0 <= k < s1.selected().len() && s1.selected()[k] == actor && s2.selected() == s1.selected().remove(k);
        assert(k == s0.selected().len());
        assert(s1.selected().remove(k) =~= s0.selected());
    }
}

impl Default for Selection {
    fn default() -> (s: Self)
        ensures
            s.wf(),
            s.selected().len() == 0,
    {
        Self::new()
    }
}

/// Which components of a move a handle lets through: both for the body,
/// one axis for an axis handle.
pub fn kept_axes(handle: Handle) -> (r: (bool, bool))
    ensures
        r == (match handle {
            Handle::Body => (true, true),
            Handle::AxisX => (true, false),
            Handle::AxisY => (false, true),
        }),
{
    match handle {
        Handle::Body => (true, true),
        Handle::AxisX => (true, false),
        Handle::AxisY => (false, true),
    }
}

} // verus!
