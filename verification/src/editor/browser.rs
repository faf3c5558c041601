//! The asset browser: what kind each asset is, which files a project tree
//! leaves out, and which entries the list shows.

use crate::asset::id::{find_last, last_index, lemma_last_index, lowercased, raw_extension, to_lowercase, is_ascii_text, ascii_lowercase};
use crate::asset::{AssetId, Project};
use crate::text::{chars_of, lemma_lex_asymmetric, lemma_lex_transitive, lex_less, precedes, same_chars, same_name, trim, trimmed};
use vstd::multiset::Multiset;
use vstd::seq_lib::{to_multiset_build, to_multiset_insert};
use vstd::prelude::*;

verus! {

broadcast use {vstd::multiset::group_multiset_axioms, vstd::seq_lib::group_to_multiset_ensures};

/// What an asset is, from its extension.
#[derive(Debug, Clone, Copy, PartialEq, Eq, Structural, PartialOrd, Ord)]
pub enum Kind {
    Folder,
    Sprite,
    Scene,
    Sound,
    /// A file the editor cannot open: shown, never hidden.
    Other,
}

/// Whether `s` ends with `suffix`.
pub open spec fn has_suffix(s: Seq<char>, suffix: Seq<char>) -> bool {
    s.len() >= suffix.len() && s.subrange(s.len() - suffix.len(), s.len() as int) == suffix
}

/// The kind implied by a lowercased extension, the whole path telling a scene
/// from any other TOML file.
pub open spec fn kind_for(extension: Option<Seq<char>>, path: Seq<char>) -> Kind {
    match extension {
        Some(e) => if e == "png"@ || e == "bmp"@ || e == "jpg"@ || e == "jpeg"@ {
            Kind::Sprite
        } else if e == "toml"@ && has_suffix(path, ".scene.toml"@) {
            Kind::Scene
        } else if e == "wav"@ || e == "ogg"@ {
            Kind::Sound
        } else {
            Kind::Other
        },
        None => Kind::Other,
    }
}

/// The lowercased extension of a path, as `AssetId::extension` gives it.
pub open spec fn lowercase_extension(path: Seq<char>) -> Option<Seq<char>> {
    match raw_extension(path) {
        Some(e) => Some(lowercased(e)),
        None => None,
    }
}

/// Whether `s` ends with `suffix`.
fn ends_with(s: &Vec<char>, suffix: &Vec<char>) -> (r: bool)
    ensures
        r == has_suffix(s@, suffix@),
{
    if s.len() < suffix.len() {
        return false;
    }
    let start = s.len() - suffix.len();
    let mut j: usize = start;
    while j < s.len()
        invariant
            start + suffix@.len() == s@.len(),
            start <= j <= s@.len(),
            forall|k: int| start <= k < j ==> s@[k] == suffix@[k - start],
        decreases s@.len() - j,
    {
        if s[j] != suffix[j - start] {
            proof {
                assert(s@.subrange(start as int, s@.len() as int)[j - start] == s@[j as int]);
            }
            return false;
        }
        j = j + 1;
    }
    proof {
        assert(s@.subrange(start as int, s@.len() as int) =~= suffix@);
    }
    true
}

impl Kind {
    /// The kind an extension implies.
    pub fn of(id: &AssetId) -> (k: Self)
        ensures
            k == kind_for(lowercase_extension(id@), id@),
            raw_extension(id@) is Some && is_ascii_text(raw_extension(id@)->0) ==> k == kind_for(
                Some(ascii_lowercase(raw_extension(id@)->0)),
                id@,
            ),
    {
        let extension = id.extension();
        match extension {
            Some(e) => Self::for_extension(Some(e.as_str()), id.as_str()),
            None => Self::for_extension(None, id.as_str()),
        }
    }

    /// The kind a lowercased extension implies for the asset at `path`.
    pub fn for_extension(extension: Option<&str>, path: &str) -> (k: Self)
        ensures
            k == kind_for(
                match extension {
                    Some(e) => Some(e@),
                    None => None,
                },
                path@,
            ),
    {
        proof {
            reveal_strlit("png");
            reveal_strlit("bmp");
            reveal_strlit("jpg");
            reveal_strlit("jpeg");
            reveal_strlit("toml");
            reveal_strlit("wav");
            reveal_strlit("ogg");
            reveal_strlit(".scene.toml");
        }
        match extension {
            Some(e) => {
                if same_name(e, "png") || same_name(e, "bmp") || same_name(e, "jpg") || same_name(e, "jpeg") {
                    Kind::Sprite
                } else if same_name(e, "toml") && ends_with(&chars_of(path), &chars_of(".scene.toml")) {
                    Kind::Scene
                } else if same_name(e, "wav") || same_name(e, "ogg") {
                    Kind::Sound
                } else {
                    Kind::Other
                }
            },
            None => Kind::Other,
        }
    }

    /// The name shown beside an entry.
    pub fn label(self) -> (r: &'static str)
        ensures
            self == Kind::Folder ==> r@ == "dossier"@,
            self == Kind::Sprite ==> r@ == "sprite"@,
            self == Kind::Scene ==> r@ == "scene"@,
            self == Kind::Sound ==> r@ == "son"@,
            self == Kind::Other ==> r@ == "fichier"@,
    {
        match self {
            Kind::Folder => "dossier",
            Kind::Sprite => "sprite",
            Kind::Scene => "scene",
            Kind::Sound => "son",
            Kind::Other => "fichier",
        }
    }
}

/// Whether a file of the project tree is left out of the browser: hidden
/// files, the build folder and the project marker.
pub open spec fn skipped(name: Seq<char>) -> bool {
    (name.len() > 0 && name[0] == '.') || name == "target"@ || name == "raster.toml"@
}

/// Whether the browser leaves this file or folder out: the marker file and
/// service folders have nothing to do in an asset browser.
pub fn skip(name: &str) -> (r: bool)
    ensures
        r == skipped(name@),
{
    proof {
        reveal_strlit("target");
        reveal_strlit("raster.toml");
    }
    let chars = chars_of(name);
    (chars.len() > 0 && chars[0] == '.') || same_name(name, "target") || same_name(name, Project::MARKER)
}


/// One entry in the asset tree.
#[derive(Debug, Clone)]
pub struct Entry {
    pub id: AssetId,
    /// The name shown, without the path.
    pub name: String,
    pub kind: Kind,
    /// The depth in the tree, for indentation.
    pub depth: usize,
}

/// The folder part of a path: what comes before its last `/`, empty at the
/// root.
pub open spec fn dir_of(path: Seq<char>) -> Seq<char> {
    if last_index(path, '/') >= 0 {
        path.subrange(0, last_index(path, '/'))
    } else {
        Seq::empty()
    }
}

/// Where a kind is listed among the entries of one folder: folders first.
pub open spec fn rank(kind: Kind) -> int {
    match kind {
        Kind::Folder => 0,
        Kind::Sprite => 1,
        Kind::Scene => 2,
        Kind::Sound => 3,
        Kind::Other => 4,
    }
}

/// Whether `a` is listed before `b`: by folder, then folders first and by
/// kind, then by path.
pub open spec fn listed_before(a: Entry, b: Entry) -> bool {
    ||| lex_less(dir_of(a.id@), dir_of(b.id@))
    ||| dir_of(a.id@) == dir_of(b.id@) && rank(a.kind) < rank(b.kind)
    ||| dir_of(a.id@) == dir_of(b.id@) && rank(a.kind) == rank(b.kind) && lex_less(a.id@, b.id@)
}

/// No entry is listed after one that should come later.
pub open spec fn in_order(s: Seq<Entry>) -> bool {
    forall|i: int, j: int| 0 <= i < j < s.len() ==> !listed_before(#[trigger] s[j], #[trigger] s[i])
}

/// Whether `needle` occurs in `hay`.
pub open spec fn contains_text(hay: Seq<char>, needle: Seq<char>) -> bool {
    exists|i: int| 0 <= i <= hay.len() - needle.len() && #[trigger] hay.subrange(i, i + needle.len()) == needle
}

/// Whether `s` starts with `prefix`.
pub open spec fn has_prefix(s: Seq<char>, prefix: Seq<char>) -> bool {
    s.len() >= prefix.len() && s.subrange(0, prefix.len() as int) == prefix
}

proof fn lemma_listed_before_strict(a: Entry, b: Entry)
    ensures
        !listed_before(a, a),
        listed_before(a, b) ==> !listed_before(b, a),
{
    lemma_lex_asymmetric(dir_of(a.id@), dir_of(b.id@));
    lemma_lex_asymmetric(dir_of(b.id@), dir_of(a.id@));
    lemma_lex_asymmetric(a.id@, b.id@);
    lemma_lex_asymmetric(dir_of(a.id@), dir_of(a.id@));
}

proof fn lemma_listed_before_transitive(a: Entry, b: Entry, c: Entry)
    requires
        listed_before(a, b),
        listed_before(b, c),
    ensures
        listed_before(a, c),
{
    let (da, db, dc) = (dir_of(a.id@), dir_of(b.id@), dir_of(c.id@));
    lemma_lex_asymmetric(da, da);
    lemma_lex_asymmetric(db, db);
    lemma_lex_asymmetric(dc, dc);
    if lex_less(da, db) && lex_less(db, dc) {
        lemma_lex_transitive(da, db, dc);
    }
    if lex_less(a.id@, b.id@) && lex_less(b.id@, c.id@) {
        lemma_lex_transitive(a.id@, b.id@, c.id@);
    }
}

/// The folder part of a path.
fn dir_chars(path: &Vec<char>) -> (r: Vec<char>)
    ensures
        r@ == dir_of(path@),
{
    proof {
        lemma_last_index(path@, '/');
    }
    let end = match find_last(path, '/') {
        Some(i) => i,
        None => 0,
    };
    let mut out: Vec<char> = Vec::new();
    let mut i: usize = 0;
    while i < end
        invariant
            end <= path@.len(),
            i <= end,
            out@ == path@.subrange(0, i as int),
        decreases end - i,
    {
        out.push(path[i]);
        i = i + 1;
    }
    proof {
        if last_index(path@, '/') < 0 {
            assert(out@ =~= Seq::<char>::empty());
        }
    }
    out
}

fn rank_of(kind: Kind) -> (r: u8)
    ensures
        r == rank(kind),
{
    match kind {
        Kind::Folder => 0,
        Kind::Sprite => 1,
        Kind::Scene => 2,
        Kind::Sound => 3,
        Kind::Other => 4,
    }
}

/// Whether `a` is listed before `b`.
fn before(a: &Entry, b: &Entry) -> (r: bool)
    ensures
        r == listed_before(*a, *b),
{
    let pa = chars_of(a.id.as_str());
    let pb = chars_of(b.id.as_str());
    let da = dir_chars(&pa);
    let db = dir_chars(&pb);
    if precedes(&da, &db) {
        return true;
    }
    if !same_chars(&da, &db) {
        return false;
    }
    let (ra, rb) = (rank_of(a.kind), rank_of(b.kind));
    if ra != rb {
        return ra < rb;
    }
    precedes(&pa, &pb)
}

/// Whether `needle` occurs in `hay`.
fn find_text(hay: &Vec<char>, needle: &Vec<char>) -> (r: bool)
    ensures
        r == contains_text(hay@, needle@),
{
    if needle.len() == 0 {
        proof {
            assert(hay@.subrange(0int, 0int + needle@.len()) =~= needle@);
        }
        return true;
    }
    if needle.len() > hay.len() {
        return false;
    }
    let last = hay.len() - needle.len();
    let mut i: usize = 0;
    while i <= last
        invariant
            last + needle@.len() == hay@.len(),
            hay@.len() <= usize::MAX,
            needle@.len() > 0,
            i <= last + 1,
            forall|k: int| 0 <= k < i ==> #[trigger] hay@.subrange(k, k + needle@.len()) != needle@,
        decreases last + 1 - i,
    {
        let mut j: usize = 0;
        let mut same = true;
        while j < needle.len()
            invariant
                last + needle@.len() == hay@.len(),
                hay@.len() <= usize::MAX,
                i <= last,
                j <= needle@.len(),
                same == (forall|m: int| 0 <= m < j ==> hay@[i + m] == needle@[m]),
            decreases needle@.len() - j,
        {
            if hay[i + j] != needle[j] {
                same = false;
            }
            j = j + 1;
        }
        if same {
            proof {
                assert(hay@.subrange(i as int, i + needle@.len()) =~= needle@);
            }
            return true;
        }
        proof {
            let m = choose|m: int| 0 <= m < j && hay@[i + m] != needle@[m];
            assert(hay@.subrange(i as int, i + needle@.len())[m] != needle@[m]);
        }
        i = i + 1;
    }
    proof {
        assert forall|k: int| 0 <= k <= hay@.len() - needle@.len() implies #[trigger] hay@.subrange(k, k + needle@.len()) != needle@ by {
            assert(k < i);
        }
    }
    false
}

/// The project's assets, as a flat list with depths: what a scrolling list
/// takes, the indentation showing the hierarchy.
#[derive(Debug)]
pub struct Browser {
    entries: Vec<Entry>,
    /// What the search lets through, lowercased; `None` when it is empty.
    filter: Option<String>,
    /// The folded folders: their contents are not listed.
    collapsed: Vec<AssetId>,
}

impl Browser {
    /// The entries, in listing order.
    pub closed spec fn listed(&self) -> Seq<Entry> {
        self.entries@
    }

    /// The search text in force, if any.
    pub closed spec fn search_text(&self) -> Option<Seq<char>> {
        match self.filter {
            Some(f) => Some(f@),
            None => None,
        }
    }

    /// The folded folders, in the order they were folded.
    pub closed spec fn folded(&self) -> Seq<Seq<char>> {
        self.collapsed@.map_values(|f: AssetId| f@)
    }

    /// Whether the search lets `e` through: its path, lowercased, holds the
    /// search text. Case is ignored: nobody types the capitals.
    pub open spec fn matches(&self, e: Entry) -> bool {
        match self.search_text() {
            Some(needle) => contains_text(lowercased(e.id@), needle),
            None => true,
        }
    }

    /// Whether a folded folder hides `e`. A search shows everything that
    /// matches, folded or not: one would search without finding otherwise.
    pub open spec fn hidden(&self, e: Entry) -> bool {
        &&& self.search_text() is None
        &&& exists|k: int| 0 <= k < self.folded().len() && has_prefix(e.id@, #[trigger] self.folded()[k].push('/'))
    }

    /// Whether the list shows `e`.
    pub open spec fn shows(&self, e: Entry) -> bool {
        self.matches(e) && !self.hidden(e)
    }

    pub fn new() -> (b: Self)
        ensures
            b.listed().len() == 0,
            b.search_text() is None,
            b.folded().len() == 0,
    {
        let b = Browser { entries: Vec::new(), filter: None, collapsed: Vec::new() };
        proof {
            assert(b.folded() =~= Seq::<Seq<char>>::empty());
        }
        b
    }

    /// Puts in the entries a scan of the project found, in listing order:
    /// by folder, folders first, then by kind and path; a tree sorted at
    /// random is unusable. Replaces what was listed before.
    pub fn set_entries(&mut self, entries: Vec<Entry>)
        ensures
            final(self).listed().to_multiset() == entries@.to_multiset(),
            in_order(final(self).listed()),
            final(self).search_text() == old(self).search_text(),
            final(self).folded() == old(self).folded(),
    {
        let ghost all = entries@;
        let mut rest = entries;
        let mut out: Vec<Entry> = Vec::new();
        proof {
            assert(out@.to_multiset() =~= Multiset::<Entry>::empty());
            assert(out@.to_multiset().add(rest@.to_multiset()) =~= all.to_multiset());
        }
        while rest.len() > 0
            invariant
                in_order(out@),
                out@.to_multiset().add(rest@.to_multiset()) == all.to_multiset(),
            decreases rest@.len(),
        {
            let ghost before_rest = rest@;
            let x = rest.pop().unwrap();
            proof {
                assert(before_rest =~= rest@.push(x));
                to_multiset_build(rest@, x);
            }
            let mut p: usize = 0;
            while p < out.len() && !before(&x, &out[p])
                invariant
                    p <= out@.len(),
                    forall|k: int| 0 <= k < p ==> !listed_before(x, #[trigger] out@[k]),
                decreases out@.len() - p,
            {
                p = p + 1;
            }
            let ghost old_out = out@;
            out.insert(p, x);
            proof {
                to_multiset_insert(old_out, p as int, x);
                assert(out@ == old_out.insert(p as int, x));
                assert forall|i: int, j: int| 0 <= i < j < out@.len() implies !listed_before(#[trigger] out@[j], #[trigger] out@[i]) by {
                    if j < p {
                        assert(out@[i] == old_out[i] && out@[j] == old_out[j]);
                    } else if j == p {
                        assert(out@[i] == old_out[i]);
                    } else if i < p {
                        assert(out@[i] == old_out[i] && out@[j] == old_out[j - 1]);
                    } else if i == p {
                        assert(out@[j] == old_out[j - 1]);
                        assert(listed_before(x, old_out[p as int]));
                        if listed_before(old_out[j - 1], x) {
                            lemma_listed_before_transitive(old_out[j - 1], x, old_out[p as int]);
                            lemma_listed_before_strict(old_out[p as int], old_out[p as int]);
                        }
                    } else {
                        assert(out@[i] == old_out[i - 1] && out@[j] == old_out[j - 1]);
                    }
                }
            }
        }
        proof {
            assert(rest@ =~= Seq::<Entry>::empty());
            assert(rest@.to_multiset() =~= Multiset::<Entry>::empty());
            assert(out@.to_multiset().add(Multiset::<Entry>::empty()) =~= out@.to_multiset());
        }
        self.entries = out;
    }

    /// Whether the search lets `e` through.
    fn passes(&self, e: &Entry) -> (r: bool)
        ensures
            r == self.matches(*e),
    {
        match &self.filter {
            Some(needle) => {
                let lower = to_lowercase(e.id.as_str());
                find_text(&chars_of(lower.as_str()), &chars_of(needle.as_str()))
            },
            None => true,
        }
    }

    /// Whether a folded folder hides `e`.
    fn is_hidden(&self, e: &Entry) -> (r: bool)
        ensures
            r == self.hidden(*e),
    {
        if self.filter.is_some() {
            return false;
        }
        let path = chars_of(e.id.as_str());
        let mut k: usize = 0;
        while k < self.collapsed.len()
            invariant
                self.filter is None,
                k <= self.collapsed@.len(),
                path@ == e.id@,
                forall|m: int| 0 <= m < k ==> !has_prefix(e.id@, #[trigger] self.folded()[m].push('/')),
            decreases self.collapsed@.len() - k,
        {
            let mut prefix = chars_of(self.collapsed[k].as_str());
            prefix.push('/');
            if prefix.len() <= path.len() {
                let mut j: usize = 0;
                let mut same = true;
                while j < prefix.len()
                    invariant
                        prefix@.len() <= path@.len(),
                        j <= prefix@.len(),
                        same == (forall|m: int| 0 <= m < j ==> path@[m] == prefix@[m]),
                    decreases prefix@.len() - j,
                {
                    if path[j] != prefix[j] {
                        same = false;
                    }
                    j = j + 1;
                }
                if same {
                    proof {
                        assert(path@.subrange(0, prefix@.len() as int) =~= prefix@);
                        assert(self.folded()[k as int] == self.collapsed@[k as int]@);
                    }
                    return true;
                }
                proof {
                    let m = choose|m: int| 0 <= m < j && path@[m] != prefix@[m];
                    assert(path@.subrange(0, prefix@.len() as int)[m] != prefix@[m]);
                    assert(self.folded()[k as int] == self.collapsed@[k as int]@);
                }
            } else {
                proof {
                    assert(self.folded()[k as int] == self.collapsed@[k as int]@);
                }
            }
            k = k + 1;
        }
        false
    }

    /// Every entry the list shows: those the search lets through, without
    /// what folded folders hide, in listing order.
    pub fn visible(&self) -> (r: Vec<&Entry>)
        ensures
            r@.map_values(|e: &Entry| *e) == self.listed().filter(|e: Entry| self.shows(e)),
    {
        let mut out: Vec<&Entry> = Vec::new();
        let mut i: usize = 0;
        while i < self.entries.len()
            invariant
                i <= self.entries@.len(),
                out@.map_values(|e: &Entry| *e) == self.entries@.take(i as int).filter(|e: Entry| self.shows(e)),
            decreases self.entries@.len() - i,
        {
            let e = &self.entries[i];
            let show = self.passes(e) && !self.is_hidden(e);
            proof {
                reveal(Seq::filter);
                assert(self.entries@.take(i as int + 1).drop_last() =~= self.entries@.take(i as int));
                assert(self.entries@.take(i as int + 1).last() == *e);
            }
            if show {
                let ghost before = out@;
                out.push(e);
                proof {
                    assert(out@.map_values(|e: &Entry| *e) =~= before.map_values(|e: &Entry| *e).push(*e));
                }
            }
            i = i + 1;
        }
        proof {
            assert(self.entries@.take(i as int) =~= self.entries@);
        }
        out
    }

    /// Sets the search text, trimmed and lowercased; an empty one clears it.
    pub fn search(&mut self, needle: &str)
        ensures
            final(self).listed() == old(self).listed(),
            final(self).folded() == old(self).folded(),
            final(self).search_text() == (if lowercased(trimmed(needle@)).len() == 0 {
                None
            } else {
                Some(lowercased(trimmed(needle@)))
            }),
    {
        let lower = to_lowercase(trim(needle));
        if lower.as_str().is_empty() {
            self.filter = None;
        } else {
            self.filter = Some(lower);
        }
    }

    /// The search text in force.
    pub fn filter(&self) -> (r: Option<&str>)
        ensures
            r is Some <==> self.search_text() is Some,
            r is Some ==> r->0@ == self.search_text()->0,
    {
        match &self.filter {
            Some(f) => Some(f.as_str()),
            None => None,
        }
    }

    /// Folds a folder, or unfolds it.
    pub fn toggle(&mut self, folder: &AssetId)
        ensures
            final(self).listed() == old(self).listed(),
            final(self).search_text() == old(self).search_text(),
            old(self).folded().contains(folder@) ==> exists|k: int|
                0 <= k < old(self).folded().len() && old(self).folded()[k] == folder@
                    && final(self).folded() == old(self).folded().remove(k),
            !old(self).folded().contains(folder@) ==> final(self).folded() == old(self).folded().push(folder@),
    {
        let mut k: usize = 0;
        while k < self.collapsed.len()
            invariant
                *self == *old(self),
                k <= self.collapsed@.len(),
                forall|m: int| 0 <= m < k ==> self.collapsed@[m]@ != folder@,
            decreases self.collapsed@.len() - k,
        {
            if self.collapsed[k] == *folder {
                let ghost before = self.collapsed@;
                self.collapsed.remove(k);
                proof {
                    assert(self.collapsed@ == before.remove(k as int));
                    assert(self.folded() =~= old(self).folded().remove(k as int));
                    assert(old(self).folded()[k as int] == folder@);
                }
                return;
            }
            k = k + 1;
        }
        let ghost before = self.collapsed@;
        self.collapsed.push(folder.clone());
        proof {
            assert(self.folded() =~= old(self).folded().push(folder@));
            assert forall|m: int| 0 <= m < old(self).folded().len() implies old(self).folded()[m] != folder@ by {
                assert(old(self).folded()[m] == before[m]@);
            }
        }
    }

    /// Whether a folder is folded.
    pub fn is_collapsed(&self, folder: &AssetId) -> (r: bool)
        ensures
            r == self.folded().contains(folder@),
    {
        let mut k: usize = 0;
        while k < self.collapsed.len()
            invariant
                k <= self.collapsed@.len(),
                forall|m: int| 0 <= m < k ==> self.collapsed@[m]@ != folder@,
            decreases self.collapsed@.len() - k,
        {
            if self.collapsed[k] == *folder {
                proof {
                    assert(self.folded()[k as int] == folder@);
                }
                return true;
            }
            k = k + 1;
        }
        proof {
            assert forall|m: int| 0 <= m < self.folded().len() implies self.folded()[m] != folder@ by {
                assert(self.folded()[m] == self.collapsed@[m]@);
            }
        }
        false
    }

    pub fn len(&self) -> (r: usize)
        ensures
            r == self.listed().len(),
    {
        self.entries.len()
    }

    pub fn is_empty(&self) -> (r: bool)
        ensures
            r == (self.listed().len() == 0),
    {
        self.entries.len() == 0
    }

    /// Every asset of one kind, in listing order.
    pub fn of_kind(&self, kind: Kind) -> (r: Vec<&Entry>)
        ensures
            r@.map_values(|e: &Entry| *e) == self.listed().filter(|e: Entry| e.kind == kind),
    {
        let mut out: Vec<&Entry> = Vec::new();
        let mut i: usize = 0;
        while i < self.entries.len()
            invariant
                i <= self.entries@.len(),
                out@.map_values(|e: &Entry| *e) == self.entries@.take(i as int).filter(|e: Entry| e.kind == kind),
            decreases self.entries@.len() - i,
        {
            let e = &self.entries[i];
            proof {
                reveal(Seq::filter);
                assert(self.entries@.take(i as int + 1).drop_last() =~= self.entries@.take(i as int));
                assert(self.entries@.take(i as int + 1).last() == *e);
            }
            if e.kind == kind {
                let ghost before = out@;
                out.push(e);
                proof {
                    assert(out@.map_values(|e: &Entry| *e) =~= before.map_values(|e: &Entry| *e).push(*e));
                }
            }
            i = i + 1;
        }
        proof {
            assert(self.entries@.take(i as int) =~= self.entries@);
        }
        out
    }
}

impl Browser {
    /// A search shows whatever matches it, folded folders notwithstanding.
    pub proof fn a_search_reaches_inside_folded_folders(b: Self, e: Entry)
        requires
            b.search_text() is Some,
            b.matches(e),
        ensures
            b.shows(e),
    {
    }

    /// Without a search, every entry shows except what a folded folder holds.
    pub proof fn without_a_search_only_folding_hides(b: Self, e: Entry)
        requires
            b.search_text() is None,
        ensures
            b.shows(e) == !b.hidden(e),
    {
    }

    /// Folding a folder and unfolding it again gives the folds back as they
    /// were.
    pub proof fn folding_twice_gives_the_folds_back(b0: Self, b1: Self, b2: Self, folder: Seq<char>)
        requires
            !b0.folded().contains(folder),
            b1.folded() == b0.folded().push(folder),
            b1.folded().contains(folder) ==> exists|k: int|
                0 <= k < b1.folded().len() && b1.folded()[k] == folder && b2.folded() == b1.folded().remove(k),
        ensures
            b2.folded() == b0.folded(),
    {
        let n = b0.folded().len() as int;
        assert(b1.folded()[n] == folder);
        let k = choose|k: int|
            0 <= k < b1.folded().len() && b1.folded()[k] == folder && b2.folded() == b1.folded().remove(k);
        if k < n {
            assert(b0.folded()[k] == folder);
        }
        assert(b1.folded().remove(n) =~= b0.folded());
    }
}

impl Default for Browser {
    fn default() -> (b: Self)
        ensures
            b.listed().len() == 0,
            b.search_text() is None,
            b.folded().len() == 0,
    {
        Self::new()
    }
}

/// The image extensions make sprites, wherever the asset lives: png, bmp,
/// jpg and jpeg, and whatever their case in ASCII.
pub proof fn images_are_sprites(path: Seq<char>, e: Seq<char>)
    ensures
        kind_for(Some("png"@), path) == Kind::Sprite,
        kind_for(Some("bmp"@), path) == Kind::Sprite,
        kind_for(Some("jpg"@), path) == Kind::Sprite,
        kind_for(Some("jpeg"@), path) == Kind::Sprite,
        is_ascii_text(e) && (ascii_lowercase(e) == "png"@ || ascii_lowercase(e) == "bmp"@ || ascii_lowercase(e)
            == "jpg"@ || ascii_lowercase(e) == "jpeg"@) ==> kind_for(Some(lowercased(e)), path) == Kind::Sprite,
{
}

/// The search ignores case: two entries whose ASCII paths differ only in the
/// case of their letters are let through or held back together.
pub proof fn the_search_ignores_case(b: Browser, e1: Entry, e2: Entry)
    requires
        is_ascii_text(e1.id@),
        is_ascii_text(e2.id@),
        ascii_lowercase(e1.id@) == ascii_lowercase(e2.id@),
    ensures
        b.matches(e1) == b.matches(e2),
{
}

/// A search finds an entry whose ASCII path, its capitals made small, holds
/// the search text, and only such an entry.
pub proof fn a_search_finds_its_text_in_any_case(b: Browser, e: Entry, text: Seq<char>)
    requires
        b.search_text() == Some(text),
        is_ascii_text(e.id@),
    ensures
        b.matches(e) == contains_text(ascii_lowercase(e.id@), text),
{
}

} // verus!
