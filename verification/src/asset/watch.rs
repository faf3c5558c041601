//! Watching loaded assets for changes on disk, by polling.
//!
//! Reading the disk and the clock is the caller's part: it hands the watcher
//! the time and each file's stamp, and the watcher decides what changed.

use super::id::AssetId;
use crate::text::{chars_of, lemma_lex_asymmetric, lemma_lex_total, lemma_lex_transitive, lex_less, precedes};
use vstd::prelude::*;

verus! {

/// What tells two versions of a file apart. The size goes with the date
/// because the date's granularity depends on the file system: a second on
/// some, where two quick saves would carry the same date.
#[derive(Debug, Clone, Copy, PartialEq, Eq, Structural)]
pub struct Stamp {
    /// When the file was last modified, in nanoseconds from the Unix epoch.
    pub modified: i128,
    /// Its length in bytes.
    pub size: u64,
}

/// Four sweeps a second, in nanoseconds: unnoticeable by hand, negligible
/// when profiling.
pub const DEFAULT_INTERVAL: u128 = 250_000_000;

/// How long has passed from `last` to `now`, none if the clock went back.
pub open spec fn elapsed(now: u128, last: u128) -> int {
    if now >= last {
        now - last
    } else {
        0
    }
}

/// The paths of `entries` whose stamp differs in `current`, in order.
pub open spec fn changed_paths(entries: Seq<(Seq<char>, Option<Stamp>)>, current: Seq<Option<Stamp>>) -> Seq<Seq<char>>
    decreases entries.len(),
{
    if entries.len() == 0 {
        Seq::empty()
    } else {
        let rest = changed_paths(entries.drop_last(), current.drop_last());
        if entries.last().1 != current.last() {
            rest.push(entries.last().0)
        } else {
            rest
        }
    }
}

/// The paths of a list of identifiers.
pub open spec fn paths_of(ids: Seq<AssetId>) -> Seq<Seq<char>> {
    ids.map_values(|id: AssetId| id@)
}

/// Watches loaded assets for changes on disk.
pub struct Watcher {
    /// Every watched asset with its stamp when last seen, `None` if the file
    /// was missing or unreadable; sorted by path, each path once.
    entries: Vec<(AssetId, Option<Stamp>)>,
    /// The time between two sweeps, in nanoseconds.
    interval: u128,
    /// When the last sweep ran.
    last: Option<u128>,
}

impl Watcher {
    /// The watched paths are in strictly increasing order.
    pub closed spec fn wf(&self) -> bool {
        forall|i: int, j: int|
            0 <= i < j < self.entries@.len() ==> lex_less(
                #[trigger] self.entries@[i].0@,
                #[trigger] self.entries@[j].0@,
            )
    }

    /// A well-formed watcher lists its paths in strictly increasing order.
    pub proof fn lemma_sorted(&self)
        requires
            self.wf(),
        ensures
            forall|i: int, j: int|
                0 <= i < j < self.watched().len() ==> lex_less(
                    #[trigger] self.watched()[i].0,
                    #[trigger] self.watched()[j].0,
                ),
    {
        assert forall|i: int, j: int| 0 <= i < j < self.watched().len() implies lex_less(
            #[trigger] self.watched()[i].0,
            #[trigger] self.watched()[j].0,
        ) by {
            assert(self.watched()[i].0 == self.entries@[i].0@);
            assert(self.watched()[j].0 == self.entries@[j].0@);
        }
    }

    /// The watched assets, sorted by path, with their last stamps.
    pub closed spec fn watched(&self) -> Seq<(Seq<char>, Option<Stamp>)> {
        self.entries@.map_values(|e: (AssetId, Option<Stamp>)| (e.0@, e.1))
    }

    pub closed spec fn interval_nanos(&self) -> u128 {
        self.interval
    }

    /// When the last sweep ran, if one has.
    pub closed spec fn last_sweep(&self) -> Option<u128> {
        self.last
    }

    /// Whether `path` is among the watched paths.
    pub open spec fn has(&self, path: Seq<char>) -> bool {
        exists|k: int| 0 <= k < self.watched().len() && (#[trigger] self.watched()[k]).0 == path
    }

    pub fn new() -> (w: Self)
        ensures
            w.wf(),
            w.watched().len() == 0,
            w.interval_nanos() == DEFAULT_INTERVAL,
            w.last_sweep() is None,
    {
        Self::with_interval(DEFAULT_INTERVAL)
    }

    /// A watcher that sweeps at most once per `interval` nanoseconds.
    pub fn with_interval(interval: u128) -> (w: Self)
        ensures
            w.wf(),
            w.watched().len() == 0,
            w.interval_nanos() == interval,
            w.last_sweep() is None,
    {
        let w = Watcher { entries: Vec::new(), interval, last: None };
        proof {
            assert(w.watched() =~= Seq::<(Seq<char>, Option<Stamp>)>::empty());
        }
        w
    }

    /// Where `path` is among the entries, or where it would go.
    fn position(&self, path: &Vec<char>) -> (r: (usize, bool))
        requires
            self.wf(),
        ensures
            r.0 <= self.entries@.len(),
            forall|i: int| 0 <= i < r.0 ==> lex_less(#[trigger] self.entries@[i].0@, path@),
            r.1 ==> r.0 < self.entries@.len() && self.entries@[r.0 as int].0@ == path@,
            !r.1 ==> forall|i: int| r.0 <= i < self.entries@.len() ==> lex_less(path@, #[trigger] self.entries@[i].0@),
    {
        let mut i: usize = 0;
        while i < self.entries.len()
            invariant
                self.wf(),
                i <= self.entries@.len(),
                forall|j: int| 0 <= j < i ==> lex_less(#[trigger] self.entries@[j].0@, path@),
            decreases self.entries@.len() - i,
        {
            let here = chars_of(self.entries[i].0.as_str());
            if !precedes(&here, path) {
                if !precedes(path, &here) {
                    proof {
                        lemma_lex_total(here@, path@);
                    }
                    return (i, true);
                }
                proof {
                    assert forall|j: int| i <= j < self.entries@.len() implies lex_less(path@, #[trigger] self.entries@[j].0@) by {
                        if j > i {
                            assert(lex_less(self.entries@[i as int].0@, self.entries@[j].0@));
                            lemma_lex_transitive(path@, here@, self.entries@[j].0@);
                        }
                    }
                }
                return (i, false);
            }
            i = i + 1;
        }
        (i, false)
    }

    /// Starts watching an asset, with the stamp it was loaded in; a file that
    /// is missing is watched too, and shows up as a change once it exists.
    /// Watching an asset again replaces its stamp.
    pub fn watch(&mut self, id: &AssetId, stamp: Option<Stamp>)
        requires
            old(self).wf(),
        ensures
            final(self).wf(),
            final(self).interval_nanos() == old(self).interval_nanos(),
            final(self).last_sweep() == old(self).last_sweep(),
            old(self).has(id@) ==> exists|k: int|
                0 <= k < old(self).watched().len() && old(self).watched()[k].0 == id@
                    && final(self).watched() == old(self).watched().update(k, (id@, stamp)),
            !old(self).has(id@) ==> exists|k: int|
                0 <= k <= old(self).watched().len() && final(self).watched()
                    == old(self).watched().insert(k, (id@, stamp)),
    {
        let path = chars_of(id.as_str());
        let (k, found) = self.position(&path);
        let ghost before = self.entries@;
        if found {
            let name = id.clone();
            self.entries.set(k, (name, stamp));
            proof {
                assert(self.entries@ == before.update(k as int, (name, stamp)));
                assert(self.watched() =~= old(self).watched().update(k as int, (id@, stamp)));
                assert(old(self).watched()[k as int].0 == id@);
            }
        } else {
            let name = id.clone();
            self.entries.insert(k, (name, stamp));
            proof {
                assert(self.entries@ == before.insert(k as int, (name, stamp)));
                assert(self.watched() =~= old(self).watched().insert(k as int, (id@, stamp)));
                assert forall|i: int, j: int| 0 <= i < j < self.entries@.len() implies lex_less(
                    #[trigger] self.entries@[i].0@,
                    #[trigger] self.entries@[j].0@,
                ) by {
                    if j < k {
                        assert(lex_less(before[i].0@, before[j].0@));
                    } else if j == k {
                        assert(lex_less(before[i].0@, path@));
                    } else if i < k {
                        assert(lex_less(before[i].0@, path@));
                        assert(lex_less(path@, before[j - 1].0@));
                        lemma_lex_transitive(before[i].0@, path@, before[j - 1].0@);
                    } else if i == k {
                        assert(lex_less(path@, before[j - 1].0@));
                    } else {
                        assert(lex_less(before[i - 1].0@, before[j - 1].0@));
                    }
                }
                assert forall|m: int| 0 <= m < old(self).watched().len() implies (#[trigger] old(self).watched()[m]).0 != id@ by {
                    if m < k {
                        lemma_lex_asymmetric(path@, path@);
                        assert(lex_less(before[m].0@, path@));
                    } else {
                        lemma_lex_asymmetric(path@, path@);
                        assert(lex_less(path@, before[m].0@));
                    }
                }
            }
        }
    }

    /// Changes the sweep interval, keeping what is already watched.
    pub fn set_interval(&mut self, interval: u128)
        ensures
            final(self).watched() == old(self).watched(),
            final(self).wf() == old(self).wf(),
            final(self).interval_nanos() == interval,
            final(self).last_sweep() == old(self).last_sweep(),
    {
        self.interval = interval;
    }

    /// The time between two sweeps, in nanoseconds.
    pub fn interval(&self) -> (r: u128)
        ensures
            r == self.interval_nanos(),
    {
        self.interval
    }

    /// Stops watching an asset.
    pub fn forget(&mut self, id: &AssetId)
        requires
            old(self).wf(),
        ensures
            final(self).wf(),
            final(self).interval_nanos() == old(self).interval_nanos(),
            final(self).last_sweep() == old(self).last_sweep(),
            !final(self).has(id@),
            !old(self).has(id@) ==> final(self).watched() == old(self).watched(),
            old(self).has(id@) ==> exists|k: int|
                0 <= k < old(self).watched().len() && old(self).watched()[k].0 == id@
                    && final(self).watched() == old(self).watched().remove(k),
    {
        let path = chars_of(id.as_str());
        let (k, found) = self.position(&path);
        let ghost before = self.entries@;
        proof {
            lemma_lex_asymmetric(path@, path@);
        }
        if found {
            self.entries.remove(k);
            proof {
                assert(self.entries@ == before.remove(k as int));
                assert(self.watched() =~= old(self).watched().remove(k as int));
                assert(old(self).watched()[k as int].0 == id@);
                assert forall|i: int, j: int| 0 <= i < j < self.entries@.len() implies lex_less(
                    #[trigger] self.entries@[i].0@,
                    #[trigger] self.entries@[j].0@,
                ) by {
                    let oi = if i < k { i } else { i + 1 };
                    let oj = if j < k { j } else { j + 1 };
                    assert(self.entries@[i] == before[oi]);
                    assert(self.entries@[j] == before[oj]);
                    assert(lex_less(before[oi].0@, before[oj].0@));
                }
                assert forall|m: int| 0 <= m < self.watched().len() implies (#[trigger] self.watched()[m]).0 != id@ by {
                    if m < k {
                        assert(self.entries@[m] == before[m]);
                        assert(lex_less(before[m].0@, path@));
                    } else {
                        assert(self.entries@[m] == before[m + 1]);
                        assert(lex_less(before[k as int].0@, before[m + 1].0@));
                        lemma_lex_asymmetric(before[m + 1].0@, before[m + 1].0@);
                    }
                }
            }
        } else {
            proof {
                assert forall|m: int| 0 <= m < self.watched().len() implies (#[trigger] self.watched()[m]).0 != id@ by {
                    if m < k {
                        assert(lex_less(before[m].0@, path@));
                    } else {
                        assert(lex_less(path@, before[m].0@));
                    }
                }
            }
        }
    }

    /// Whether an asset is watched.
    pub fn is_watching(&self, id: &AssetId) -> (r: bool)
        requires
            self.wf(),
        ensures
            r == self.has(id@),
    {
        let path = chars_of(id.as_str());
        let (k, found) = self.position(&path);
        proof {
            lemma_lex_asymmetric(path@, path@);
            if found {
                assert(self.watched()[k as int].0 == id@);
            } else {
                assert forall|m: int| 0 <= m < self.watched().len() implies (#[trigger] self.watched()[m]).0 != id@ by {
                    if m < k {
                        assert(lex_less(self.entries@[m].0@, path@));
                    } else {
                        assert(lex_less(path@, self.entries@[m].0@));
                    }
                }
            }
        }
        found
    }

    /// How many assets are watched.
    pub fn len(&self) -> (r: usize)
        ensures
            r == self.watched().len(),
    {
        self.entries.len()
    }

    pub fn is_empty(&self) -> (r: bool)
        ensures
            r == (self.watched().len() == 0),
    {
        self.entries.len() == 0
    }

    /// The watched assets, sorted by path: the order in which [`Watcher::sweep`]
    /// takes their current stamps.
    pub fn ids(&self) -> (r: Vec<AssetId>)
        ensures
            r@.len() == self.watched().len(),
            forall|k: int| 0 <= k < r@.len() ==> (#[trigger] r@[k])@ == self.watched()[k].0,
    {
        let mut out: Vec<AssetId> = Vec::new();
        let mut i: usize = 0;
        while i < self.entries.len()
            invariant
                i <= self.entries@.len(),
                out@.len() == i,
                forall|k: int| 0 <= k < i ==> (#[trigger] out@[k])@ == self.entries@[k].0@,
            decreases self.entries@.len() - i,
        {
            out.push(self.entries[i].0.clone());
            i = i + 1;
        }
        out
    }

    /// Whether a sweep is due at `now` (in nanoseconds, from any fixed
    /// origin): none has run yet, or the interval has passed since the last.
    /// A due sweep is recorded as run at `now`. Meant to be asked every frame.
    pub fn due(&mut self, now: u128) -> (r: bool)
        ensures
            r == (old(self).last_sweep() is None || elapsed(now, old(self).last_sweep()->0)
                >= old(self).interval_nanos()),
            final(self).last_sweep() == (if r {
                Some(now)
            } else {
                old(self).last_sweep()
            }),
            final(self).watched() == old(self).watched(),
            final(self).watched_ids() == old(self).watched_ids(),
            final(self).wf() == old(self).wf(),
            final(self).interval_nanos() == old(self).interval_nanos(),
            !r ==> *final(self) == *old(self),
    {
        if let Some(last) = self.last {
            let passed = if now >= last {
                now - last
            } else {
                0
            };
            if passed < self.interval {
                return false;
            }
        }
        self.last = Some(now);
        true
    }

    /// The watched identifiers themselves, in path order.
    pub closed spec fn watched_ids(&self) -> Seq<AssetId> {
        self.entries@.map_values(|e: (AssetId, Option<Stamp>)| e.0)
    }

    /// The assets that changed since the last sweep, if one is due at `now`:
    /// an empty list until the interval has passed, so that asking every
    /// frame is intended. A due sweep asks `stamp_of` for the stamp each
    /// watched asset has now, in path order, and goes as [`Watcher::sweep`].
    pub fn changed<F: Fn(&AssetId) -> Option<Stamp>>(&mut self, now: u128, stamp_of: F) -> (r: Vec<AssetId>)
        requires
            old(self).wf(),
            forall|id: &AssetId| stamp_of.requires((id,)),
        ensures
            final(self).wf(),
            final(self).interval_nanos() == old(self).interval_nanos(),
            !(old(self).last_sweep() is None || elapsed(now, old(self).last_sweep()->0)
                >= old(self).interval_nanos()) ==> r@.len() == 0 && *final(self) == *old(self),
            (old(self).last_sweep() is None || elapsed(now, old(self).last_sweep()->0)
                >= old(self).interval_nanos()) ==> {
                &&& final(self).last_sweep() == Some(now)
                &&& exists|current: Seq<Option<Stamp>>|
                    #![trigger Self::swept(*old(self), *final(self), current, paths_of(r@))]
                    current.len() == old(self).watched().len() && (forall|k: int|
                        0 <= k < current.len() ==> stamp_of.ensures(
                            (&old(self).watched_ids()[k],),
                            #[trigger] current[k],
                        )) && Self::swept(*old(self), *final(self), current, paths_of(r@))
            },
    {
        if !self.due(now) {
            return Vec::new();
        }
        let ghost mid = *self;
        let mut current: Vec<Option<Stamp>> = Vec::new();
        let mut i: usize = 0;
        while i < self.entries.len()
            invariant
                *self == mid,
                i <= self.entries@.len(),
                current@.len() == i,
                forall|id: &AssetId| stamp_of.requires((id,)),
                forall|k: int| 0 <= k < i ==> stamp_of.ensures((&self.entries@[k].0,), #[trigger] current@[k]),
            decreases self.entries@.len() - i,
        {
            let stamp = stamp_of(&self.entries[i].0);
            current.push(stamp);
            i = i + 1;
        }
        let ghost before = *self;
        let r = self.sweep(&current);
        proof {
            assert(before.watched() == old(self).watched());
            assert forall|k: int| 0 <= k < current@.len() implies stamp_of.ensures(
                (&old(self).watched_ids()[k],),
                #[trigger] current@[k],
            ) by {
                assert(old(self).watched_ids()[k] == old(self).entries@[k].0);
                assert(mid.watched_ids()[k] == mid.entries@[k].0);
            }
            assert(mid.watched() == old(self).watched());
            assert(Self::swept(*old(self), *self, current@, paths_of(r@)));
        }
        r
    }

    /// Sweeps now, whatever the interval says: `current` holds the stamp each
    /// watched asset has now, in the order of [`Watcher::ids`]. Returns the
    /// assets whose stamp changed, sorted by path, and records the new stamps:
    /// a change is reported once.
    pub fn sweep(&mut self, current: &Vec<Option<Stamp>>) -> (r: Vec<AssetId>)
        requires
            old(self).wf(),
            current@.len() == old(self).watched().len(),
        ensures
            final(self).wf(),
            final(self).interval_nanos() == old(self).interval_nanos(),
            final(self).last_sweep() == old(self).last_sweep(),
            Self::swept(*old(self), *final(self), current@, paths_of(r@)),
    {
        let mut out: Vec<AssetId> = Vec::new();
        let mut i: usize = 0;
        let ghost start = self.watched();
        while i < self.entries.len()
            invariant
                self.wf(),
                i <= self.entries@.len(),
                self.entries@.len() == current@.len(),
                start.len() == current@.len(),
                self.interval == old(self).interval,
                self.last == old(self).last,
                forall|k: int| 0 <= k < i ==> #[trigger] self.watched()[k] == (start[k].0, current@[k]),
                forall|k: int| i <= k < self.entries@.len() ==> #[trigger] self.watched()[k] == start[k],
                out@.map_values(|id: AssetId| id@) == changed_paths(start.take(i as int), current@.take(i as int)),
            decreases self.entries@.len() - i,
        {
            let ghost before = self.entries@;
            let ghost w0 = self.watched();
            let now = current[i];
            let was = self.entries[i].1;
            proof {
                assert(self.watched()[i as int] == start[i as int]);
                assert(start.take(i as int + 1).drop_last() =~= start.take(i as int));
                assert(current@.take(i as int + 1).drop_last() =~= current@.take(i as int));
            }
            if was != now {
                let name = self.entries[i].0.clone();
                out.push(name);
                proof {
                    assert(out@.map_values(|id: AssetId| id@) =~= changed_paths(start.take(i as int), current@.take(i as int)).push(start[i as int].0));
                }
            }
            let name = self.entries[i].0.clone();
            self.entries.set(i, (name, now));
            proof {
                assert(self.entries@ == before.update(i as int, (name, now)));
                assert forall|p: int, q: int| 0 <= p < q < self.entries@.len() implies lex_less(
                    #[trigger] self.entries@[p].0@,
                    #[trigger] self.entries@[q].0@,
                ) by {
                    assert(lex_less(before[p].0@, before[q].0@));
                }
                assert forall|k: int| 0 <= k < i + 1 implies #[trigger] self.watched()[k] == (start[k].0, current@[k]) by {
                    if k < i {
                        assert(self.entries@[k] == before[k]);
                        assert(w0[k] == (start[k].0, current@[k]));
                    }
                }
                assert forall|k: int| i + 1 <= k < self.entries@.len() implies #[trigger] self.watched()[k] == start[k] by {
                    assert(self.entries@[k] == before[k]);
                    assert(w0[k] == start[k]);
                }
            }
            i = i + 1;
        }
        proof {
            assert(start.take(i as int) =~= start);
            assert(current@.take(i as int) =~= current@);
        }
        out
    }
}

impl Watcher {
    /// What a sweep does: the paths stay, each takes its stamp from `current`,
    /// and `reported` lists, in path order, those whose stamp changed.
    pub open spec fn swept(
        old: Self,
        new: Self,
        current: Seq<Option<Stamp>>,
        reported: Seq<Seq<char>>,
    ) -> bool {
        &&& new.watched().len() == old.watched().len()
        &&& current.len() == old.watched().len()
        &&& forall|k: int|
            0 <= k < current.len() ==> #[trigger] new.watched()[k] == (old.watched()[k].0, current[k])
        &&& reported == changed_paths(old.watched(), current)
    }

    /// A change is reported once: sweeping again with the same stamps reports
    /// nothing.
    pub proof fn a_change_is_reported_once(
        w0: Self,
        w1: Self,
        w2: Self,
        current: Seq<Option<Stamp>>,
        first: Seq<Seq<char>>,
        second: Seq<Seq<char>>,
    )
        requires
            Self::swept(w0, w1, current, first),
            Self::swept(w1, w2, current, second),
        ensures
            second.len() == 0,
    {
        assert(w1.watched().map_values(|e: (Seq<char>, Option<Stamp>)| e.1) =~= current);
        lemma_nothing_changed(w1.watched(), current);
    }

    /// An asset whose stamp has not moved is never reported.
    pub proof fn an_untouched_asset_is_never_reported(
        w0: Self,
        w1: Self,
        current: Seq<Option<Stamp>>,
        reported: Seq<Seq<char>>,
    )
        requires
            Self::swept(w0, w1, current, reported),
            forall|k: int| 0 <= k < current.len() ==> current[k] == (#[trigger] w0.watched()[k]).1,
        ensures
            reported.len() == 0,
    {
        assert(w0.watched().map_values(|e: (Seq<char>, Option<Stamp>)| e.1) =~= current);
        lemma_nothing_changed(w0.watched(), current);
    }
}

/// With every stamp as it was, nothing changed.
proof fn lemma_nothing_changed(entries: Seq<(Seq<char>, Option<Stamp>)>, current: Seq<Option<Stamp>>)
    requires
        current == entries.map_values(|e: (Seq<char>, Option<Stamp>)| e.1),
    ensures
        changed_paths(entries, current).len() == 0,
    decreases entries.len(),
{
    if entries.len() > 0 {
        assert(current.drop_last() =~= entries.drop_last().map_values(|e: (Seq<char>, Option<Stamp>)| e.1));
        lemma_nothing_changed(entries.drop_last(), current.drop_last());
    }
}

impl Default for Watcher {
    fn default() -> (w: Self)
        ensures
            w.wf(),
            w.watched().len() == 0,
            w.interval_nanos() == DEFAULT_INTERVAL,
            w.last_sweep() is None,
    {
        Self::new()
    }
}

} // verus!
