use vstd::prelude::*;

verus! {

/// `std::time::Instant`, when the last command was pushed.
#[verifier::external_type_specification]
#[verifier::external_body]
pub struct ExInstant(std::time::Instant);

/// `Instant::now`: the current instant. Nothing is stated of it: it depends on
/// the clock.
#[verifier::external_body]
fn now() -> std::time::Instant {
    std::time::Instant::now()
}

/// `Instant::elapsed`, in whole milliseconds. Nothing is stated of it: it
/// depends on the clock.
#[verifier::external_body]
fn elapsed_millis(at: &std::time::Instant) -> u128 {
    at.elapsed().as_millis()
}

/// Something done that can be undone.
///
/// The command pattern: each change knows how to undo and redo itself, which
/// keeps the history independent of what was changed.
pub trait Command: Sized {
    /// What the command acts on.
    type Target;

    /// Whether this type states what its commands do through `applied` and
    /// `reverted`. A type that does not override it promises nothing of the
    /// target, and the history states nothing of the target either.
    open spec fn obeys_command_laws() -> bool {
        false
    }

    /// What applying this command makes of `target`.
    open spec fn applied(&self, target: Self::Target) -> Self::Target {
        vstd::pervasive::arbitrary()
    }

    /// What reverting this command makes of `target`.
    open spec fn reverted(&self, target: Self::Target) -> Self::Target {
        vstd::pervasive::arbitrary()
    }

    /// Whether this command absorbs `other`, which came just after it.
    open spec fn merges(&self, other: Self) -> bool {
        false
    }

    /// Applies the change; the command, as it is afterwards, reverts the
    /// result to what the target was.
    fn apply(&mut self, target: &mut Self::Target)
        ensures
            Self::obeys_command_laws() ==> *final(target) == old(self).applied(*old(target)),
            Self::obeys_command_laws() ==> final(self).reverted(*final(target)) == *old(target),
    ;

    /// Puts back what `apply` changed; the command, as it is afterwards,
    /// applies again to give what the target was.
    fn revert(&mut self, target: &mut Self::Target)
        ensures
            Self::obeys_command_laws() ==> *final(target) == old(self).reverted(*old(target)),
            Self::obeys_command_laws() ==> final(self).applied(*final(target)) == *old(target),
    ;

    /// A short description, shown in the history.
    fn label(&self) -> String;

    /// Whether this command can absorb `other`, which came just after.
    ///
    /// What makes a drag one undo entry rather than one per pixel crossed. A
    /// command that absorbs reverts as reverting `other`, then itself would;
    /// one that does not is left as it was. A command that never absorbs
    /// returns `false`.
    fn merge(&mut self, other: &Self) -> (absorbed: bool)
        ensures
            !absorbed ==> *final(self) == *old(self),
            Self::obeys_command_laws() ==> absorbed == old(self).merges(*other),
            Self::obeys_command_laws() && absorbed ==> forall|t: Self::Target|
                #[trigger] final(self).reverted(t) == old(self).reverted(other.reverted(t)),
    ;
}

/// One undo history, shared by every editor.
///
/// A single stack rather than one per panel: undoing after switching panels
/// must do what one expects, not a surprise.
pub struct History<C: Command> {
    done: Vec<C>,
    undone: Vec<C>,
    /// When the last command was pushed, for merging.
    last_at: Option<std::time::Instant>,
    /// Beyond this many milliseconds two commands no longer merge even if
    /// they could: a pause means two gestures.
    merge_window: u64,
    limit: usize,
    /// The depth at the last save, to tell whether the project changed since.
    saved_at: usize,
    /// Whether the saved state can still be reached by undoing or redoing: a
    /// new command recorded over it makes the project differ from the save
    /// whatever the depth.
    save_kept: bool,
}

impl<C: Command> History<C> {
    /// A hundred entries: beyond that nobody goes back, and each holds memory.
    pub const DEFAULT_LIMIT: usize = 100;

    /// Half a second, in milliseconds: beyond that, two moves are two gestures.
    pub const DEFAULT_MERGE_WINDOW: u64 = 500;

    /// At least one entry is always kept.
    pub open spec fn wf(&self) -> bool {
        self.limit() >= 1
    }

    /// The commands that undoing would revert, oldest first.
    pub closed spec fn done(&self) -> Seq<C> {
        self.done@
    }

    /// The commands that redoing would reapply, the next one last.
    pub closed spec fn undone(&self) -> Seq<C> {
        self.undone@
    }

    pub closed spec fn limit(&self) -> nat {
        self.limit as nat
    }

    pub closed spec fn saved_depth(&self) -> nat {
        self.saved_at as nat
    }

    /// Whether undoing or redoing can still lead back to the saved state.
    pub closed spec fn save_reachable(&self) -> bool {
        self.save_kept
    }

    /// Whether the next command may merge into the last one, time permitting.
    pub closed spec fn merging(&self) -> bool {
        self.last_at is Some
    }

    pub closed spec fn merge_window_ms(&self) -> u64 {
        self.merge_window
    }

    pub fn new() -> (h: Self)
        ensures
            h.wf(),
            h.done().len() == 0,
            h.undone().len() == 0,
            h.limit() == Self::DEFAULT_LIMIT,
            h.saved_depth() == 0,
            h.save_reachable(),
            !h.merging(),
            h.merge_window_ms() == Self::DEFAULT_MERGE_WINDOW,
    {
        History {
            done: Vec::new(),
            undone: Vec::new(),
            last_at: None,
            merge_window: Self::DEFAULT_MERGE_WINDOW,
            limit: Self::DEFAULT_LIMIT,
            saved_at: 0,
            save_kept: true,
        }
    }

    /// The same history, keeping at most `limit` entries (at least one).
    pub fn with_limit(self, limit: usize) -> (h: Self)
        ensures
            h.wf(),
            h.limit() == if limit == 0 {
                1
            } else {
                limit
            },
            h.done() == self.done(),
            h.undone() == self.undone(),
            h.saved_depth() == self.saved_depth(),
            h.save_reachable() == self.save_reachable(),
            h.merging() == self.merging(),
            h.merge_window_ms() == self.merge_window_ms(),
    {
        let mut h = self;
        h.limit = if limit == 0 {
            1
        } else {
            limit
        };
        h
    }

    /// What recording a command that was just applied does, given whether it
    /// came within the merge window and whether the last command absorbed it:
    /// a command is absorbed only when it came within the window; otherwise it
    /// becomes a new entry, and the oldest is forgotten beyond the limit, the
    /// save mark following it.
    pub open spec fn recorded(old: Self, new: Self, recent: bool, merged: bool) -> bool {
        &&& new.undone().len() == 0
        &&& new.limit() == old.limit()
        &&& new.merge_window_ms() == old.merge_window_ms()
        &&& new.merging()
        &&& new.done().len() > 0
        &&& new.save_reachable() == (old.save_reachable() && if merged {
            old.saved_depth() < old.done().len()
        } else {
            old.saved_depth() <= old.done().len()
        })
        &&& merged ==> {
            &&& recent
            &&& old.done().len() > 0
            &&& new.done().len() == old.done().len()
            &&& new.done().drop_last() == old.done().drop_last()
            &&& new.saved_depth() == old.saved_depth()
        }
        &&& !merged && old.done().len() + 1 <= old.limit() ==> {
            &&& new.done().drop_last() == old.done()
            &&& new.saved_depth() == old.saved_depth()
        }
        &&& !merged && old.done().len() + 1 > old.limit() ==> {
            &&& new.done().drop_last() == old.done().drop_first()
            &&& new.saved_depth() == if old.saved_depth() == 0 {
                0
            } else {
                (old.saved_depth() - 1) as nat
            }
        }
    }

    /// What recording does to the target: the command is applied, and the
    /// last entry reverts the target to what it was before the command, or,
    /// when it absorbed the command, to what it would have reverted to before.
    pub open spec fn recorded_on(
        old: Self,
        new: Self,
        command: C,
        before: C::Target,
        after: C::Target,
        merged: bool,
    ) -> bool {
        &&& after == command.applied(before)
        &&& !merged ==> new.done().last().reverted(after) == before
        &&& merged ==> new.done().last().reverted(after) == old.done().last().reverted(before)
    }

    /// Applies a command and records it, given whether it came within the
    /// merge window of the last one.
    ///
    /// Erases what had been undone: redoing after a new action would make no
    /// sense. A recent command is offered to the last one to absorb; if it is
    /// not absorbed it becomes a new entry, and the oldest is forgotten beyond
    /// the limit, the save mark following it.
    pub fn push_within(&mut self, command: C, target: &mut C::Target, recent: bool) -> (merged: bool)
        requires
            old(self).wf(),
        ensures
            final(self).wf(),
            Self::recorded(*old(self), *final(self), recent, merged),
            C::obeys_command_laws() ==> Self::recorded_on(
                *old(self),
                *final(self),
                command,
                *old(target),
                *final(target),
                merged,
            ),
            exists|applied: C|
                #![trigger Self::pushed_as(*old(self), *final(self), applied, recent, merged)]
                Self::pushed_as(*old(self), *final(self), applied, recent, merged) && (C::obeys_command_laws()
                    ==> applied.reverted(*final(target)) == *old(target)),
    {
        let ghost given = command;
        let ghost start = *target;
        let depth = self.done.len();
        let mut command = command;
        command.apply(target);
        let ghost applied = command;
        self.undone.clear();
        if recent && self.done.len() > 0 {
            let n = self.done.len();
            let ghost before = self.done@;
            let absorbed = self.done[n - 1].merge(&command);
            if absorbed {
                proof {
                    assert(self.done@.drop_last() =~= before.drop_last());
                    if C::obeys_command_laws() {
                        assert(self.done@.last().reverted(*target) == before.last().reverted(command.reverted(*target)));
                    }
                }
                self.last_at = Some(now());
                if self.saved_at >= depth {
                    self.save_kept = false;
                }
                proof {
                    assert(Self::pushed_as(*old(self), *self, applied, recent, true));
                }
                return true;
            }
            proof {
                assert(self.done@ =~= before);
            }
        }
        if self.saved_at > depth {
            self.save_kept = false;
        }
        let ghost pre = self.done@;
        self.done.push(command);
        proof {
            assert(self.done@.drop_last() =~= pre);
        }
        self.last_at = Some(now());
        if self.done.len() > self.limit {
            let ghost pushed = self.done@;
            self.done.remove(0);
            proof {
                assert(self.done@ =~= pushed.drop_first());
                assert(self.done@.drop_last() =~= pre.drop_first());
                assert(self.done@.last() == pushed.last());
            }
            self.saved_at = if self.saved_at == 0 {
                0
            } else {
                self.saved_at - 1
            };
        }
        proof {
            assert(self.done@.last() == applied);
            assert(Self::pushed_as(*old(self), *self, applied, recent, false));
        }
        false
    }

    /// Which command recording `applied` (the command as applying left it)
    /// left on top: `applied` itself when it was not absorbed; it is absorbed
    /// exactly when it came within the merge window and the last command
    /// merges it.
    pub open spec fn pushed_as(old: Self, new: Self, applied: C, recent: bool, merged: bool) -> bool {
        &&& !merged ==> new.done().last() == applied
        &&& C::obeys_command_laws() ==> merged == (recent && old.done().len() > 0 && old.done().last().merges(
            applied,
        ))
    }

    /// How many milliseconds the clock says have passed since the last command
    /// was recorded, while the merge window is open; `None` once it is closed.
    pub fn since_last_push(&self) -> (r: Option<u128>)
        ensures
            r is Some <==> self.merging(),
    {
        match &self.last_at {
            Some(at) => Some(elapsed_millis(at)),
            None => None,
        }
    }

    /// Applies a command and records it, merging it into the last one when it
    /// comes within the merge window and the last one absorbs it. Whether it
    /// came within the window depends on the clock; either way the command is
    /// applied, what could be redone is erased, and the history records it as
    /// [`History::push_within`] says.
    pub fn push(&mut self, command: C, target: &mut C::Target)
        requires
            old(self).wf(),
        ensures
            final(self).wf(),
            exists|recent: bool, merged: bool|
                Self::recorded(*old(self), *final(self), recent, merged) && (C::obeys_command_laws()
                    ==> Self::recorded_on(
                    *old(self),
                    *final(self),
                    command,
                    *old(target),
                    *final(target),
                    merged,
                )) && (!old(self).merging() ==> !recent) && (old(self).merging() ==> exists|
                    elapsed: u128,
                |
                    #![trigger call_ensures(Self::since_last_push, (&*old(self),), Some(elapsed))]
                    call_ensures(Self::since_last_push, (&*old(self),), Some(elapsed)) && recent == (elapsed
                        < old(self).merge_window_ms() as u128)) && exists|applied: C|
                    #![trigger Self::pushed_as(*old(self), *final(self), applied, recent, merged)]
                    Self::pushed_as(*old(self), *final(self), applied, recent, merged) && (
                    C::obeys_command_laws() ==> applied.reverted(*final(target)) == *old(target)),
    {
        let recent = match self.since_last_push() {
            Some(elapsed) => elapsed < self.merge_window as u128,
            None => false,
        };
        let merged = self.push_within(command, target, recent);
    }

    /// Undoes the last command, returning whether there was one.
    pub fn undo(&mut self, target: &mut C::Target) -> (r: bool)
        ensures
            Self::undid(*old(self), *final(self), r),
            C::obeys_command_laws() && r ==> *final(target) == old(self).done().last().reverted(*old(target)),
            C::obeys_command_laws() && r ==> final(self).undone().last().applied(*final(target)) == *old(target),
            !r ==> *final(target) == *old(target),
    {
        let ghost pre = self.done@;
        match self.done.pop() {
            Some(command) => {
                let mut command = command;
                command.revert(target);
                let ghost before = self.undone@;
                self.undone.push(command);
                // An undo breaks the merge: the next gesture is a new one.
                self.last_at = None;
                proof {
                    assert(self.done@ == pre.drop_last());
                    assert(self.undone@.drop_last() =~= before);
                }
                true
            },
            None => false,
        }
    }

    /// What undoing does: the last command done moves onto the redo stack.
    pub open spec fn undid(old: Self, new: Self, r: bool) -> bool {
        &&& r == (old.done().len() > 0)
        &&& new.limit() == old.limit()
        &&& new.merge_window_ms() == old.merge_window_ms()
        &&& new.saved_depth() == old.saved_depth()
        &&& new.save_reachable() == old.save_reachable()
        &&& r ==> {
            &&& new.done() == old.done().drop_last()
            &&& new.undone().len() == old.undone().len() + 1
            &&& new.undone().drop_last() == old.undone()
            &&& !new.merging()
        }
        &&& !r ==> new.done() == old.done() && new.undone() == old.undone() && new.merging()
            == old.merging()
    }

    /// Redoes the last undone command, returning whether there was one.
    pub fn redo(&mut self, target: &mut C::Target) -> (r: bool)
        ensures
            Self::redid(*old(self), *final(self), r),
            C::obeys_command_laws() && r ==> *final(target) == old(self).undone().last().applied(*old(target)),
            C::obeys_command_laws() && r ==> final(self).done().last().reverted(*final(target)) == *old(target),
            !r ==> *final(target) == *old(target),
    {
        let ghost pre = self.undone@;
        match self.undone.pop() {
            Some(command) => {
                let mut command = command;
                command.apply(target);
                let ghost before = self.done@;
                self.done.push(command);
                self.last_at = None;
                proof {
                    assert(self.undone@ == pre.drop_last());
                    assert(self.done@.drop_last() =~= before);
                }
                true
            },
            None => false,
        }
    }

    /// What redoing does: the last command undone moves back onto the done
    /// stack.
    pub open spec fn redid(old: Self, new: Self, r: bool) -> bool {
        &&& r == (old.undone().len() > 0)
        &&& new.limit() == old.limit()
        &&& new.merge_window_ms() == old.merge_window_ms()
        &&& new.saved_depth() == old.saved_depth()
        &&& new.save_reachable() == old.save_reachable()
        &&& r ==> {
            &&& new.undone() == old.undone().drop_last()
            &&& new.done().len() == old.done().len() + 1
            &&& new.done().drop_last() == old.done()
            &&& !new.merging()
        }
        &&& !r ==> new.done() == old.done() && new.undone() == old.undone() && new.merging()
            == old.merging()
    }

    pub fn can_undo(&self) -> (r: bool)
        ensures
            r == (self.done().len() > 0),
    {
        self.done.len() > 0
    }

    pub fn can_redo(&self) -> (r: bool)
        ensures
            r == (self.undone().len() > 0),
    {
        self.undone.len() > 0
    }

    /// The label of what undoing would revert.
    pub fn undo_label(&self) -> (r: Option<String>)
        ensures
            r is Some <==> self.done().len() > 0,
            r is Some ==> call_ensures(C::label, (&self.done().last(),), r->0),
    {
        let n = self.done.len();
        if n == 0 {
            None
        } else {
            Some(self.done[n - 1].label())
        }
    }

    /// The label of what redoing would reapply.
    pub fn redo_label(&self) -> (r: Option<String>)
        ensures
            r is Some <==> self.undone().len() > 0,
            r is Some ==> call_ensures(C::label, (&self.undone().last(),), r->0),
    {
        let n = self.undone.len();
        if n == 0 {
            None
        } else {
            Some(self.undone[n - 1].label())
        }
    }

    /// How many commands undoing could revert.
    pub fn depth(&self) -> (r: usize)
        ensures
            r == self.done().len(),
    {
        self.done.len()
    }

    /// The labels of what has been done, oldest first.
    pub fn labels(&self) -> (r: Vec<String>)
        ensures
            r@.len() == self.done().len(),
            forall|k: int| 0 <= k < r@.len() ==> call_ensures(C::label, (&self.done()[k],), #[trigger] r@[k]),
    {
        let mut out: Vec<String> = Vec::new();
        let mut k: usize = 0;
        while k < self.done.len()
            invariant
                k <= self.done@.len(),
                out@.len() == k,
                forall|j: int| 0 <= j < k ==> call_ensures(C::label, (&self.done@[j],), #[trigger] out@[j]),
            decreases self.done@.len() - k,
        {
            out.push(self.done[k].label());
            k = k + 1;
        }
        out
    }

    /// Marks the current state as saved.
    pub fn mark_saved(&mut self)
        ensures
            final(self).saved_depth() == old(self).done().len(),
            final(self).save_reachable(),
            final(self).done() == old(self).done(),
            final(self).undone() == old(self).undone(),
            final(self).limit() == old(self).limit(),
            final(self).merging() == old(self).merging(),
            final(self).merge_window_ms() == old(self).merge_window_ms(),
    {
        self.saved_at = self.done.len();
        self.save_kept = true;
    }

    /// Whether anything changed since the last save: the history is not at
    /// the saved depth, or what was saved can no longer be reached.
    pub fn is_dirty(&self) -> (r: bool)
        ensures
            r == (!self.save_reachable() || self.done().len() != self.saved_depth()),
    {
        !self.save_kept || self.done.len() != self.saved_at
    }

    /// Forgets everything, done and undone, and the save mark.
    pub fn clear(&mut self)
        ensures
            final(self).done().len() == 0,
            final(self).undone().len() == 0,
            final(self).saved_depth() == 0,
            final(self).save_reachable(),
            !final(self).merging(),
            final(self).limit() == old(self).limit(),
            final(self).merge_window_ms() == old(self).merge_window_ms(),
    {
        self.done.clear();
        self.undone.clear();
        self.last_at = None;
        self.saved_at = 0;
        self.save_kept = true;
    }

    /// Ends the current merge window, so the next command starts a new entry.
    ///
    /// To call when a drag ends: otherwise the next gesture could stick to it.
    pub fn break_merge(&mut self)
        ensures
            !final(self).merging(),
            final(self).done() == old(self).done(),
            final(self).undone() == old(self).undone(),
            final(self).saved_depth() == old(self).saved_depth(),
            final(self).save_reachable() == old(self).save_reachable(),
            final(self).limit() == old(self).limit(),
            final(self).merge_window_ms() == old(self).merge_window_ms(),
    {
        self.last_at = None;
    }

    /// Undoing then redoing gives back the history as it was, but for the
    /// merge window, which both close.
    pub proof fn undo_then_redo_restores(h0: Self, h1: Self, h2: Self)
        requires
            Self::undid(h0, h1, true),
            Self::redid(h1, h2, true),
        ensures
            h2.done().len() == h0.done().len(),
            h2.done().drop_last() == h0.done().drop_last(),
            h2.undone() == h0.undone(),
            h2.saved_depth() == h0.saved_depth(),
            h2.limit() == h0.limit(),
    {
        assert(h2.done().drop_last() =~= h0.done().drop_last());
    }

    /// Undo puts things back: undoing a command recorded as a new entry gives
    /// the target back as it was before the command, and redoing it then
    /// gives the target the command made.
    pub proof fn undoing_a_command_puts_the_target_back(
        h0: Self,
        h1: Self,
        h2: Self,
        h3: Self,
        command: C,
        t0: C::Target,
        t1: C::Target,
        t2: C::Target,
        t3: C::Target,
        recent: bool,
    )
        requires
            C::obeys_command_laws(),
            Self::recorded(h0, h1, recent, false),
            Self::recorded_on(h0, h1, command, t0, t1, false),
            Self::undid(h1, h2, true),
            t2 == h1.done().last().reverted(t1),
            h2.undone().last().applied(t2) == t1,
            Self::redid(h2, h3, true),
            t3 == h2.undone().last().applied(t2),
        ensures
            t1 == command.applied(t0),
            t2 == t0,
            t3 == t1,
    {
    }

    /// Recording a new command always erases what could have been redone.
    pub proof fn a_new_command_erases_the_redo_stack(h0: Self, h1: Self, recent: bool, merged: bool)
        requires
            Self::recorded(h0, h1, recent, merged),
        ensures
            h1.undone().len() == 0,
    {
    }

    /// Undoing back to the depth that was saved makes the history clean again:
    /// marking saved, recording one new entry within the limit, then undoing
    /// it, leaves nothing unsaved.
    pub proof fn undoing_back_to_the_save_is_clean(h0: Self, h1: Self, h2: Self, h3: Self, recent: bool)
        requires
            h1.saved_depth() == h0.done().len(),
            h1.done() == h0.done(),
            h1.limit() == h0.limit(),
            Self::recorded(h1, h2, recent, false),
            h1.done().len() + 1 <= h1.limit(),
            Self::undid(h2, h3, true),
        ensures
            h3.done().len() == h3.saved_depth(),
            h1.save_reachable() ==> h3.save_reachable(),
    {
    }
}

impl<C: Command> Default for History<C> {
    fn default() -> (h: Self)
        ensures
            h.wf(),
            h.done().len() == 0,
            h.undone().len() == 0,
            h.limit() == Self::DEFAULT_LIMIT,
            h.saved_depth() == 0,
            h.save_reachable(),
            !h.merging(),
    {
        Self::new()
    }
}

impl<C: Command> History<C> {
    /// A command recorded once the merge window has passed is never merged:
    /// within the limit it is one more entry, and it is what is on top.
    pub proof fn a_late_command_is_a_new_entry(
        h0: Self,
        h1: Self,
        applied: C,
        recent: bool,
        merged: bool,
        elapsed: u128,
    )
        requires
            Self::recorded(h0, h1, recent, merged),
            Self::pushed_as(h0, h1, applied, recent, merged),
            recent == (elapsed < h0.merge_window_ms() as u128),
            elapsed >= h0.merge_window_ms() as u128,
            h0.done().len() + 1 <= h0.limit(),
        ensures
            !merged,
            h1.done().len() == h0.done().len() + 1,
            h1.done().last() == applied,
            h1.done().drop_last() == h0.done(),
    {
        assert(h1.done().len() == h1.done().drop_last().len() + 1);
    }
}

} // verus!
