use crate::text::{chars_of, is_separator, join, join_with, lemma_segments_nonempty, same_chars, segments, split, string_of};
use vstd::prelude::*;
use vstd::std_specs::cmp::PartialEqSpecImpl;

verus! {

/// `..`, the segment that climbs one folder up.
pub open spec fn dots() -> Seq<char> {
    seq!['.', '.']
}

/// Whether a character is an ASCII letter.
pub open spec fn is_ascii_letter(c: char) -> bool {
    ('a' <= c && c <= 'z') || ('A' <= c && c <= 'Z')
}

/// Whether a path starts outside any project: at a root (`/`, `\`) or a drive
/// (`C:`).
pub open spec fn starts_outside(p: Seq<char>) -> bool {
    ||| p.len() > 0 && (p[0] == '/' || p[0] == '\\')
    ||| p.len() >= 2 && is_ascii_letter(p[0]) && p[1] == ':'
}

/// One segment folded into the parts kept so far: empty segments and `.`
/// vanish, `..` climbs out of the last part unless there is nothing left to
/// climb out of, anything else is kept.
pub open spec fn step(parts: Seq<Seq<char>>, seg: Seq<char>) -> Seq<Seq<char>> {
    if seg.len() == 0 || seg == seq!['.'] {
        parts
    } else if seg == dots() {
        if parts.len() > 0 && parts.last() != dots() {
            parts.drop_last()
        } else {
            parts.push(dots())
        }
    } else {
        parts.push(seg)
    }
}

/// Every segment of `segs` folded in turn, from `parts`.
pub open spec fn fold_steps(parts: Seq<Seq<char>>, segs: Seq<Seq<char>>) -> Seq<Seq<char>>
    decreases segs.len(),
{
    if segs.len() == 0 {
        parts
    } else {
        step(fold_steps(parts, segs.drop_last()), segs.last())
    }
}

/// The normal form of a path: separators unified to `/`, empty and `.`
/// segments dropped, `..` resolved as far as it can be, and a path that starts
/// outside the project made to start with `..`.
pub open spec fn normalised(p: Seq<char>) -> Seq<char> {
    let start = if starts_outside(p) {
        seq![dots()]
    } else {
        Seq::<Seq<char>>::empty()
    };
    join(fold_steps(start, segments(p, true)), '/')
}

/// The index of the last `c` in `s`, or -1.
pub open spec fn last_index(s: Seq<char>, c: char) -> int
    decreases s.len(),
{
    if s.len() == 0 {
        -1
    } else if s.last() == c {
        s.len() - 1
    } else {
        last_index(s.drop_last(), c)
    }
}

pub proof fn lemma_last_index(s: Seq<char>, c: char)
    ensures
        -1 <= last_index(s, c) < s.len(),
        last_index(s, c) >= 0 ==> s[last_index(s, c)] == c,
        forall|k: int| last_index(s, c) < k < s.len() ==> s[k] != c,
    decreases s.len(),
{
    if s.len() > 0 {
        lemma_last_index(s.drop_last(), c);
        assert forall|k: int| last_index(s, c) < k < s.len() implies s[k] != c by {
            if k < s.len() - 1 {
                assert(s.drop_last()[k] == s[k]);
            }
        }
    }
}

/// What follows the last `/`: the whole path when there is none.
pub open spec fn file_name_of(s: Seq<char>) -> Seq<char> {
    s.subrange(last_index(s, '/') + 1, s.len() as int)
}

/// The extension as written: what follows the last dot of the file name,
/// unless the name has no dot or starts with its only dot.
pub open spec fn raw_extension(s: Seq<char>) -> Option<Seq<char>> {
    let name = file_name_of(s);
    let dot = last_index(name, '.');
    if dot <= 0 {
        None
    } else {
        Some(name.subrange(dot + 1, name.len() as int))
    }
}

/// What `str::to_lowercase` returns for a string: the Unicode lowercase
/// mapping of each character.
pub uninterp spec fn lowercase(s: Seq<char>) -> Seq<char>;

/// Whether every character of `s` is ASCII.
pub open spec fn is_ascii_text(s: Seq<char>) -> bool {
    forall|i: int| 0 <= i < s.len() ==> #[trigger] s[i] < '\u{80}'
}

/// An ASCII capital as its small letter; any other character as itself.
pub open spec fn ascii_lower(c: char) -> char {
    if 'A' <= c && c <= 'Z' {
        ((c as u32) + 32) as char
    } else {
        c
    }
}

/// `s` with every ASCII capital made small.
pub open spec fn ascii_lowercase(s: Seq<char>) -> Seq<char> {
    s.map_values(|c: char| ascii_lower(c))
}

/// What `str::to_lowercase` gives: for ASCII text each capital made small,
/// beyond ASCII the Unicode mapping, which is only named.
pub open spec fn lowercased(s: Seq<char>) -> Seq<char> {
    if is_ascii_text(s) {
        ascii_lowercase(s)
    } else {
        lowercase(s)
    }
}

/// `str::to_lowercase`: the string lowercased, as Unicode defines it. For
/// ASCII text that is each capital made small and every other character kept;
/// beyond ASCII the mapping is only named.
#[verifier::external_body]
pub(crate) fn to_lowercase(s: &str) -> (r: String)
    ensures
        r@ == lowercase(s@),
        is_ascii_text(s@) ==> r@ == ascii_lowercase(s@),
        r@ == lowercased(s@),
{
    s.to_lowercase()
}

/// A reference to an asset file, relative to the project root.
///
/// The path *is* the identity: two spellings of one file give one identifier.
#[derive(Debug, Hash, PartialOrd, Ord)]
pub struct AssetId(String);

impl PartialEq for AssetId {
    fn eq(&self, other: &Self) -> (r: bool) {
        self.0 == other.0
    }
}

impl Eq for AssetId {
}

impl PartialEqSpecImpl for AssetId {
    open spec fn obeys_eq_spec() -> bool {
        true
    }

    open spec fn eq_spec(&self, other: &AssetId) -> bool {
        self@ == other@
    }
}

impl Clone for AssetId {
    fn clone(&self) -> (r: Self)
        ensures
            r@ == self@,
    {
        AssetId(self.0.clone())
    }
}

impl View for AssetId {
    type V = Seq<char>;

    closed spec fn view(&self) -> Seq<char> {
        self.0@
    }
}

/// Whether a part is `.` alone.
fn is_dot(part: &Vec<char>) -> (r: bool)
    ensures
        r == (part@ == seq!['.']),
{
    let r = part.len() == 1 && part[0] == '.';
    proof {
        if part@.len() == 1 && part@[0] == '.' {
            assert(part@ =~= seq!['.']);
        }
    }
    r
}

/// Whether a part is `..`.
fn is_dots(part: &Vec<char>) -> (r: bool)
    ensures
        r == (part@ == dots()),
{
    let r = part.len() == 2 && part[0] == '.' && part[1] == '.';
    proof {
        if part@.len() == 2 && part@[0] == '.' && part@[1] == '.' {
            assert(part@ =~= dots());
        }
    }
    r
}

fn dots_part() -> (r: Vec<char>)
    ensures
        r@ == dots(),
{
    let mut v: Vec<char> = Vec::new();
    v.push('.');
    v.push('.');
    proof {
        assert(v@ =~= dots());
    }
    v
}

/// The normal form of a path, as characters.
fn normalise(path: &str) -> (r: Vec<char>)
    ensures
        r@ == normalised(path@),
{
    let chars = chars_of(path);
    let outside = if chars.len() > 0 && (chars[0] == '/' || chars[0] == '\\') {
        true
    } else {
        chars.len() >= 2 && (('a' <= chars[0] && chars[0] <= 'z') || ('A' <= chars[0] && chars[0]
            <= 'Z')) && chars[1] == ':'
    };
    let mut parts: Vec<Vec<char>> = Vec::new();
    if outside {
        parts.push(dots_part());
    }
    let ghost start = if starts_outside(path@) {
        seq![dots()]
    } else {
        Seq::<Seq<char>>::empty()
    };
    proof {
        assert(parts@.map_values(|p: Vec<char>| p@) =~= start);
    }
    let segs = split(&chars, true);
    let ghost all = segments(path@, true);
    let mut k: usize = 0;
    while k < segs.len()
        invariant
            k <= segs@.len(),
            segs@.len() == all.len(),
            forall|m: int| 0 <= m < segs@.len() ==> (#[trigger] segs@[m])@ == all[m],
            parts@.map_values(|p: Vec<char>| p@) == fold_steps(start, all.take(k as int)),
        decreases segs@.len() - k,
    {
        let ghost before = parts@.map_values(|p: Vec<char>| p@);
        proof {
            assert(all.take(k as int + 1).drop_last() == all.take(k as int));
            assert(all.take(k as int + 1).last() == all[k as int]);
        }
        let seg = &segs[k];
        if seg.len() == 0 || is_dot(seg) {
        } else if is_dots(seg) {
            let n = parts.len();
            if n > 0 && !is_dots(&parts[n - 1]) {
                parts.pop();
                proof {
                    assert(parts@.map_values(|p: Vec<char>| p@) =~= before.drop_last());
                }
            } else {
                parts.push(dots_part());
                proof {
                    assert(parts@.map_values(|p: Vec<char>| p@) =~= before.push(dots()));
                }
            }
        } else {
            let copy = seg.clone();
            parts.push(copy);
            proof {
                assert(parts@.map_values(|p: Vec<char>| p@) =~= before.push(all[k as int]));
            }
        }
        k = k + 1;
    }
    proof {
        assert(all.take(k as int) == all);
    }
    join_with(&parts, '/')
}

/// The index of the last `c` among `chars`, or `None`.
pub(crate) fn find_last(chars: &Vec<char>, c: char) -> (r: Option<usize>)
    ensures
        r is Some <==> last_index(chars@, c) >= 0,
        r is Some ==> r->0 == last_index(chars@, c),
{
    let mut found: Option<usize> = None;
    let mut i: usize = 0;
    while i < chars.len()
        invariant
            i <= chars@.len(),
            found is Some <==> last_index(chars@.take(i as int), c) >= 0,
            found is Some ==> found->0 == last_index(chars@.take(i as int), c),
        decreases chars@.len() - i,
    {
        proof {
            assert(chars@.take(i as int + 1).drop_last() == chars@.take(i as int));
        }
        if chars[i] == c {
            found = Some(i);
        }
        i = i + 1;
    }
    proof {
        assert(chars@.take(i as int) == chars@);
    }
    found
}

impl AssetId {
    /// Builds an identifier, normalising the path.
    ///
    /// Two spellings of one asset must give one identifier, or the cache would
    /// load it twice. A path that starts outside the project keeps a leading
    /// `..`, so that resolving it is refused rather than silently rooted.
    pub fn new(path: &str) -> (id: Self)
        ensures
            id@ == normalised(path@),
            starts_outside(path@) ==> id@.len() >= 2 && id@.subrange(0, 2) == dots(),
    {
        let chars = normalise(path);
        proof {
            lemma_outside_keeps_dots(path@);
        }
        AssetId(string_of(&chars))
    }

    pub fn as_str(&self) -> (r: &str)
        ensures
            r@ == self@,
    {
        self.0.as_str()
    }

    /// The lowercased extension, without the dot.
    pub fn extension(&self) -> (r: Option<String>)
        ensures
            r is Some <==> raw_extension(self@) is Some,
            r is Some ==> r->0@ == lowercase(raw_extension(self@)->0),
            r is Some ==> r->0@ == lowercased(raw_extension(self@)->0),
            r is Some && is_ascii_text(raw_extension(self@)->0) ==> r->0@ == ascii_lowercase(
                raw_extension(self@)->0,
            ),
    {
        let chars = chars_of(self.0.as_str());
        proof {
            lemma_last_index(chars@, '/');
        }
        let start = match find_last(&chars, '/') {
            Some(i) => {
                let n = chars.len();
                assert(i < n);
                i + 1
            },
            None => 0,
        };
        let mut name: Vec<char> = Vec::new();
        let mut i = start;
        while i < chars.len()
            invariant
                start <= i <= chars@.len(),
                name@ == chars@.subrange(start as int, i as int),
            decreases chars@.len() - i,
        {
            name.push(chars[i]);
            i = i + 1;
        }
        // A leading dot marks a hidden file, not an extension.
        match find_last(&name, '.') {
            Some(dot) => {
                if dot == 0 {
                    return None;
                }
                proof {
                    lemma_last_index(name@, '.');
                }
                let mut ext: Vec<char> = Vec::new();
                let mut j = dot + 1;
                while j < name.len()
                    invariant
                        dot + 1 <= j <= name@.len(),
                        ext@ == name@.subrange(dot + 1, j as int),
                    decreases name@.len() - j,
                {
                    ext.push(name[j]);
                    j = j + 1;
                }
                let raw = string_of(&ext);
                Some(to_lowercase(raw.as_str()))
            },
            None => None,
        }
    }

    /// The file name, extension included.
    pub fn file_name(&self) -> (r: &str)
        ensures
            r@ == file_name_of(self@),
    {
        let chars = chars_of(self.0.as_str());
        proof {
            lemma_last_index(chars@, '/');
        }
        let start = match find_last(&chars, '/') {
            Some(i) => {
                let n = chars.len();
                assert(i < n);
                i + 1
            },
            None => 0,
        };
        self.0.as_str().substring_char(start, chars.len())
    }

    pub fn is_empty(&self) -> (r: bool)
        ensures
            r == (self@.len() == 0),
    {
        self.0.as_str().is_empty()
    }
}

impl Default for AssetId {
    fn default() -> (r: Self)
        ensures
            r@ == normalised(Seq::<char>::empty()),
            r@.len() == 0,
    {
        proof {
            reveal_strlit("");
            let segs = seq![Seq::<char>::empty()];
            assert(segments(Seq::<char>::empty(), true) =~= segs);
            assert(segs.drop_last() =~= Seq::<Seq<char>>::empty());
            assert(segs.last() =~= Seq::<char>::empty());
            assert(fold_steps(Seq::<Seq<char>>::empty(), segs.drop_last()) =~= Seq::<Seq<char>>::empty());
            assert(step(Seq::<Seq<char>>::empty(), Seq::<char>::empty()) =~= Seq::<Seq<char>>::empty());
            assert(fold_steps(Seq::<Seq<char>>::empty(), segs) =~= Seq::<Seq<char>>::empty());
        }
        Self::new("")
    }
}

/// Folding keeps a leading `..` in place: a `..` only removes a part other
/// than `..`, and the first part is one.
proof fn lemma_fold_keeps_first_dots(start: Seq<Seq<char>>, segs: Seq<Seq<char>>)
    requires
        start.len() > 0,
        start[0] == dots(),
    ensures
        fold_steps(start, segs).len() > 0,
        fold_steps(start, segs)[0] == dots(),
    decreases segs.len(),
{
    if segs.len() > 0 {
        lemma_fold_keeps_first_dots(start, segs.drop_last());
    }
}

/// Joining keeps the first part at the front.
proof fn lemma_join_starts_with_first(parts: Seq<Seq<char>>, sep: char)
    requires
        parts.len() > 0,
    ensures
        join(parts, sep).len() >= parts[0].len(),
        join(parts, sep).subrange(0, parts[0].len() as int) == parts[0],
    decreases parts.len(),
{
    if parts.len() > 1 {
        lemma_join_starts_with_first(parts.drop_last(), sep);
        let j = join(parts.drop_last(), sep);
        assert((j.push(sep) + parts.last()).subrange(0, parts[0].len() as int) =~= j.subrange(0, parts[0].len() as int));
    } else {
        assert(parts[0].subrange(0, parts[0].len() as int) =~= parts[0]);
    }
}

proof fn lemma_outside_keeps_dots(p: Seq<char>)
    ensures
        starts_outside(p) ==> normalised(p).len() >= 2 && normalised(p).subrange(0, 2) == dots(),
{
    if starts_outside(p) {
        let start = seq![dots()];
        lemma_fold_keeps_first_dots(start, segments(p, true));
        lemma_join_starts_with_first(fold_steps(start, segments(p, true)), '/');
    }
}

} // verus!

verus! {

/// Whether no character of `s` separates path segments.
pub open spec fn no_separator(s: Seq<char>) -> bool {
    forall|i: int| 0 <= i < s.len() ==> !is_separator(#[trigger] s[i], true)
}

/// The parts a normal path is made of: none empty, none `.`, none holding a
/// separator, and the `..` parts all in front.
pub open spec fn canonical(parts: Seq<Seq<char>>) -> bool {
    &&& forall|k: int|
        0 <= k < parts.len() ==> (#[trigger] parts[k]).len() > 0 && parts[k] != seq!['.'] && no_separator(
            parts[k],
        )
    &&& forall|i: int, j: int| 0 <= i < j < parts.len() && #[trigger] parts[j] == dots() ==> #[trigger] parts[i] == dots()
}

proof fn lemma_segments_have_no_separator(s: Seq<char>)
    ensures
        forall|k: int| 0 <= k < segments(s, true).len() ==> no_separator(#[trigger] segments(s, true)[k]),
    decreases s.len(),
{
    if s.len() > 0 {
        lemma_segments_have_no_separator(s.drop_last());
        lemma_segments_nonempty(s.drop_last(), true);
        let p = segments(s.drop_last(), true);
        if !is_separator(s.last(), true) {
            let q = p.update(p.len() - 1, p.last().push(s.last()));
            assert forall|k: int| 0 <= k < q.len() implies no_separator(#[trigger] q[k]) by {
                if k == p.len() - 1 {
                    assert forall|i: int| 0 <= i < q[k].len() implies !is_separator(#[trigger] q[k][i], true) by {
                        if i < p.last().len() {
                            assert(q[k][i] == p.last()[i]);
                        }
                    }
                }
            }
        } else {
            let q = p.push(Seq::<char>::empty());
            assert forall|k: int| 0 <= k < q.len() implies no_separator(#[trigger] q[k]) by {
                if k < p.len() {
                    assert(q[k] == p[k]);
                }
            }
        }
    }
}

proof fn lemma_fold_canonical(start: Seq<Seq<char>>, segs: Seq<Seq<char>>)
    requires
        canonical(start),
        forall|k: int| 0 <= k < segs.len() ==> no_separator(#[trigger] segs[k]),
    ensures
        canonical(fold_steps(start, segs)),
    decreases segs.len(),
{
    if segs.len() > 0 {
        let rest = segs.drop_last();
        assert forall|k: int| 0 <= k < rest.len() implies no_separator(#[trigger] rest[k]) by {
            assert(rest[k] == segs[k]);
        }
        lemma_fold_canonical(start, rest);
        let parts = fold_steps(start, rest);
        let seg = segs.last();
        assert(no_separator(seg));
        if seg.len() == 0 || seg == seq!['.'] {
        } else if seg == dots() {
            if parts.len() > 0 && parts.last() != dots() {
                let q = parts.drop_last();
                assert forall|k: int| 0 <= k < q.len() implies (#[trigger] q[k]).len() > 0 && q[k] != seq!['.']
                    && no_separator(q[k]) by {
                    assert(q[k] == parts[k]);
                }
                assert forall|i: int, j: int| 0 <= i < j < q.len() && #[trigger] q[j] == dots() implies #[trigger] q[i]
                    == dots() by {
                    assert(q[i] == parts[i] && q[j] == parts[j]);
                }
            } else {
                let q = parts.push(dots());
                assert forall|k: int| 0 <= k < q.len() implies (#[trigger] q[k]).len() > 0 && q[k] != seq!['.']
                    && no_separator(q[k]) by {
                    if k < parts.len() {
                        assert(q[k] == parts[k]);
                    } else {
                        assert(q[k] == dots());
                        assert(dots()[0] != seq!['.'][0] || dots().len() != 1);
                    }
                }
                assert forall|i: int, j: int| 0 <= i < j < q.len() && #[trigger] q[j] == dots() implies #[trigger] q[i]
                    == dots() by {
                    if j == parts.len() && parts.len() > 0 {
                        assert(parts.last() == dots());
                        if i < parts.len() - 1 {
                            assert(parts[parts.len() - 1] == dots());
                        }
                    }
                    if j < parts.len() {
                        assert(q[i] == parts[i] && q[j] == parts[j]);
                    }
                }
            }
        } else {
            let q = parts.push(seg);
            assert forall|k: int| 0 <= k < q.len() implies (#[trigger] q[k]).len() > 0 && q[k] != seq!['.']
                && no_separator(q[k]) by {
                if k < parts.len() {
                    assert(q[k] == parts[k]);
                }
            }
            assert forall|i: int, j: int| 0 <= i < j < q.len() && #[trigger] q[j] == dots() implies #[trigger] q[i]
                == dots() by {
                if j < parts.len() {
                    assert(q[i] == parts[i] && q[j] == parts[j]);
                }
            }
        }
    }
}

/// Folding canonical parts from nothing gives them back.
proof fn lemma_fold_keeps_canonical(parts: Seq<Seq<char>>)
    requires
        canonical(parts),
    ensures
        fold_steps(Seq::<Seq<char>>::empty(), parts) == parts,
    decreases parts.len(),
{
    if parts.len() > 0 {
        let rest = parts.drop_last();
        assert(canonical(rest)) by {
            assert forall|k: int| 0 <= k < rest.len() implies (#[trigger] rest[k]).len() > 0 && rest[k] != seq!['.']
                && no_separator(rest[k]) by {
                assert(rest[k] == parts[k]);
            }
            assert forall|i: int, j: int| 0 <= i < j < rest.len() && #[trigger] rest[j] == dots() implies #[trigger] rest[i]
                == dots() by {
                assert(rest[i] == parts[i] && rest[j] == parts[j]);
            }
        }
        lemma_fold_keeps_canonical(rest);
        let last = parts.last();
        assert(last == parts[parts.len() - 1]);
        if last == dots() {
            if rest.len() > 0 {
                assert(rest.last() == parts[rest.len() - 1]);
                assert(parts[rest.len() - 1] == dots());
            }
        }
        assert(rest.push(last) =~= parts);
    }
}

/// A part without separators is its own single segment.
proof fn lemma_segments_of_part(b: Seq<char>)
    requires
        no_separator(b),
    ensures
        segments(b, true) == seq![b],
    decreases b.len(),
{
    if b.len() > 0 {
        assert(no_separator(b.drop_last())) by {
            assert forall|i: int| 0 <= i < b.drop_last().len() implies !is_separator(#[trigger] b.drop_last()[i], true) by {
                assert(b.drop_last()[i] == b[i]);
            }
        }
        lemma_segments_of_part(b.drop_last());
        assert(!is_separator(b[b.len() - 1], true));
        assert(b.drop_last().push(b.last()) =~= b);
        assert(seq![b.drop_last()].update(0, b.drop_last().push(b.last())) =~= seq![b]);
    } else {
        assert(b =~= Seq::<char>::empty());
    }
}

/// Past a separator, a part without separators is one more segment.
proof fn lemma_segments_after_separator(a: Seq<char>, b: Seq<char>)
    requires
        no_separator(b),
    ensures
        segments(a.push('/') + b, true) == segments(a, true).push(b),
    decreases b.len(),
{
    let s = a.push('/') + b;
    if b.len() == 0 {
        assert(s =~= a.push('/'));
        assert(s.drop_last() =~= a);
        assert(b =~= Seq::<char>::empty());
    } else {
        assert(no_separator(b.drop_last())) by {
            assert forall|i: int| 0 <= i < b.drop_last().len() implies !is_separator(#[trigger] b.drop_last()[i], true) by {
                assert(b.drop_last()[i] == b[i]);
            }
        }
        lemma_segments_after_separator(a, b.drop_last());
        assert(s.drop_last() =~= a.push('/') + b.drop_last());
        assert(s.last() == b[b.len() - 1]);
        let p = segments(a, true).push(b.drop_last());
        assert(p.update(p.len() - 1, p.last().push(s.last())) =~= segments(a, true).push(b)) by {
            assert(b.drop_last().push(b.last()) =~= b);
        }
    }
}

/// Joining parts without separators and splitting again gives them back.
proof fn lemma_split_join(parts: Seq<Seq<char>>)
    requires
        parts.len() > 0,
        forall|k: int| 0 <= k < parts.len() ==> no_separator(#[trigger] parts[k]),
    ensures
        segments(join(parts, '/'), true) == parts,
    decreases parts.len(),
{
    if parts.len() == 1 {
        lemma_segments_of_part(parts[0]);
        assert(seq![parts[0]] =~= parts);
    } else {
        let rest = parts.drop_last();
        assert forall|k: int| 0 <= k < rest.len() implies no_separator(#[trigger] rest[k]) by {
            assert(rest[k] == parts[k]);
        }
        lemma_split_join(rest);
        assert(no_separator(parts[parts.len() - 1]));
        lemma_segments_after_separator(join(rest, '/'), parts.last());
        assert(rest.push(parts.last()) =~= parts);
    }
}

/// An identifier is already normal: normalising its own path gives it back,
/// unless that path reads as a drive (`C:x`), which normalising puts outside
/// the project.
pub proof fn normalising_twice_changes_nothing(p: Seq<char>)
    requires
        !starts_outside(normalised(p)),
    ensures
        normalised(normalised(p)) == normalised(p),
{
    let start = if starts_outside(p) {
        seq![dots()]
    } else {
        Seq::<Seq<char>>::empty()
    };
    assert(canonical(start)) by {
        if starts_outside(p) {
            assert forall|k: int| 0 <= k < start.len() implies (#[trigger] start[k]).len() > 0 && start[k] != seq!['.']
                && no_separator(start[k]) by {
                assert(start[k] == dots());
                assert(dots().len() == 2);
            }
        }
    }
    lemma_segments_have_no_separator(p);
    lemma_fold_canonical(start, segments(p, true));
    let parts = fold_steps(start, segments(p, true));
    let q = normalised(p);
    assert(q == join(parts, '/'));
    if parts.len() == 0 {
        assert(q =~= Seq::<char>::empty());
        assert(segments(q, true) =~= seq![Seq::<char>::empty()]);
        let segs = seq![Seq::<char>::empty()];
        assert(segs.drop_last() =~= Seq::<Seq<char>>::empty());
        assert(fold_steps(Seq::<Seq<char>>::empty(), segs.drop_last()) =~= Seq::<Seq<char>>::empty());
        assert(segs.last() =~= Seq::<char>::empty());
        assert(step(Seq::<Seq<char>>::empty(), Seq::<char>::empty()) =~= Seq::<Seq<char>>::empty());
        assert(fold_steps(Seq::<Seq<char>>::empty(), segs) =~= Seq::<Seq<char>>::empty());
    } else {
        assert forall|k: int| 0 <= k < parts.len() implies no_separator(#[trigger] parts[k]) by {
        }
        lemma_split_join(parts);
        lemma_fold_keeps_canonical(parts);
    }
}

/// A normalised path is made of parts joined by `/`: no part is empty or `.`,
/// none holds a separator, every `..` comes before all other parts, and a path
/// that started outside the project starts with `..`.
pub proof fn a_normalised_path_is_canonical(p: Seq<char>)
    ensures
        exists|parts: Seq<Seq<char>>|
            #![trigger canonical(parts)]
            canonical(parts) && normalised(p) == join(parts, '/') && (starts_outside(p) ==> parts.len() > 0
                && parts[0] == dots()),
{
    let start = if starts_outside(p) {
        seq![dots()]
    } else {
        Seq::<Seq<char>>::empty()
    };
    assert(canonical(start)) by {
        if starts_outside(p) {
            assert forall|k: int| 0 <= k < start.len() implies (#[trigger] start[k]).len() > 0 && start[k] != seq!['.']
                && no_separator(start[k]) by {
                assert(start[k] == dots());
                assert(dots().len() == 2);
            }
        }
    }
    lemma_segments_have_no_separator(p);
    lemma_fold_canonical(start, segments(p, true));
    let parts = fold_steps(start, segments(p, true));
    if starts_outside(p) {
        lemma_fold_keeps_first_dots(start, segments(p, true));
    }
    assert(canonical(parts) && normalised(p) == join(parts, '/'));
}

} // verus!
