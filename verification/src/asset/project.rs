use super::AssetId;
use super::id::{dots, normalised};
use crate::text::{chars_of, join, join_with, same_chars, segments, split, string_of};
use vstd::prelude::*;

verus! {

/// `std::io::Error`, carried by the one error that comes from reading a file.
#[verifier::external_type_specification]
#[verifier::external_body]
pub struct ExIoError(std::io::Error);

/// `rel` appended to `base` as `Path::join` does on Unix: an absolute `rel`
/// replaces `base`, otherwise a `/` goes between them unless `base` is empty
/// or already ends with one.
pub open spec fn path_join(base: Seq<char>, rel: Seq<char>) -> Seq<char> {
    if rel.len() > 0 && rel[0] == '/' {
        rel
    } else if base.len() == 0 || base.last() == '/' {
        base + rel
    } else {
        base.push('/') + rel
    }
}

/// The segments that name something: neither empty nor `.`.
pub open spec fn named_parts(segs: Seq<Seq<char>>) -> Seq<Seq<char>>
    decreases segs.len(),
{
    if segs.len() == 0 {
        segs
    } else if segs.last().len() == 0 || segs.last() == seq!['.'] {
        named_parts(segs.drop_last())
    } else {
        named_parts(segs.drop_last()).push(segs.last())
    }
}

/// A path's components as `Path::components` gives them on Unix: the root
/// (written `/`) when the path is absolute, a leading `.` when a relative path
/// starts with one, then every named segment; repeated separators and other
/// `.` segments vanish.
pub open spec fn components(p: Seq<char>) -> Seq<Seq<char>> {
    let segs = segments(p, false);
    if p.len() > 0 && p[0] == '/' {
        seq![seq!['/']] + named_parts(segs)
    } else if segs[0] == seq!['.'] {
        seq![seq!['.']] + named_parts(segs)
    } else {
        named_parts(segs)
    }
}

/// What `Path::strip_prefix` leaves of `path` once `base` is taken off, as the
/// components of what remains, or `None` when `base` is not a leading run of
/// `path`'s components.
pub open spec fn strip_prefix(path: Seq<char>, base: Seq<char>) -> Option<Seq<Seq<char>>> {
    let p = components(path);
    let b = components(base);
    if b.len() <= p.len() && p.subrange(0, b.len() as int) == b {
        Some(p.skip(b.len() as int))
    } else {
        None
    }
}

/// The root a game's assets are named relative to.
///
/// A scene never holds an absolute path: that is what makes a project movable
/// from one machine to another.
#[derive(Debug, Clone, PartialEq, Eq)]
pub struct Project {
    root: String,
}

/// Why an asset could not be resolved or read.
#[derive(Debug)]
pub enum AssetError {
    /// An identifier with no path at all.
    Empty,
    /// An identifier that climbs out of the project.
    Escapes(AssetId),
    /// The file could not be read.
    Io { id: AssetId, source: std::io::Error },
}

fn named_parts_of(segs: &Vec<Vec<char>>) -> (r: Vec<Vec<char>>)
    ensures
        r@.map_values(|p: Vec<char>| p@) == named_parts(segs@.map_values(|p: Vec<char>| p@)),
{
    let ghost views = segs@.map_values(|p: Vec<char>| p@);
    let mut out: Vec<Vec<char>> = Vec::new();
    let mut k: usize = 0;
    while k < segs.len()
        invariant
            k <= segs@.len(),
            views == segs@.map_values(|p: Vec<char>| p@),
            out@.map_values(|p: Vec<char>| p@) == named_parts(views.take(k as int)),
        decreases segs@.len() - k,
    {
        proof {
            assert(views.take(k as int + 1).drop_last() == views.take(k as int));
            assert(views.take(k as int + 1).last() == segs@[k as int]@);
        }
        let seg = &segs[k];
        let ghost before = out@.map_values(|p: Vec<char>| p@);
        let is_dot = seg.len() == 1 && seg[0] == '.';
        proof {
            if seg@.len() == 1 && seg@[0] == '.' {
                assert(seg@ =~= seq!['.']);
            }
        }
        if seg.len() != 0 && !is_dot {
            out.push(seg.clone());
            proof {
                assert(out@.map_values(|p: Vec<char>| p@) =~= before.push(seg@));
            }
        }
        k = k + 1;
    }
    proof {
        assert(views.take(k as int) == views);
    }
    out
}

/// A path's components, as characters.
fn components_of(path: &str) -> (r: Vec<Vec<char>>)
    ensures
        r@.map_values(|p: Vec<char>| p@) == components(path@),
{
    let chars = chars_of(path);
    let segs = split(&chars, false);
    proof {
        crate::text::lemma_segments_nonempty(path@, false);
        assert(segs@.map_values(|p: Vec<char>| p@) =~= segments(path@, false));
    }
    let named = named_parts_of(&segs);
    let ghost n = named_parts(segs@.map_values(|p: Vec<char>| p@));
    let mut out: Vec<Vec<char>> = Vec::new();
    if chars.len() > 0 && chars[0] == '/' {
        let mut root: Vec<char> = Vec::new();
        root.push('/');
        out.push(root);
    } else if segs[0].len() == 1 && segs[0][0] == '.' {
        let mut here: Vec<char> = Vec::new();
        here.push('.');
        out.push(here);
        proof {
            assert(segs@[0]@ =~= seq!['.']);
        }
    }
    let ghost head = out@.map_values(|p: Vec<char>| p@);
    proof {
        if !(path@.len() > 0 && path@[0] == '/') && segs@[0]@ == seq!['.'] {
            assert(head =~= seq![seq!['.']]);
        } else if path@.len() > 0 && path@[0] == '/' {
            assert(head =~= seq![seq!['/']]);
        } else {
            assert(head =~= Seq::<Seq<char>>::empty());
        }
    }
    let mut k: usize = 0;
    while k < named.len()
        invariant
            k <= named@.len(),
            named@.map_values(|p: Vec<char>| p@) == n,
            out@.map_values(|p: Vec<char>| p@) == head + n.take(k as int),
        decreases named@.len() - k,
    {
        let ghost before = out@.map_values(|p: Vec<char>| p@);
        out.push(named[k].clone());
        proof {
            assert(n.take(k as int + 1) =~= n.take(k as int).push(n[k as int]));
            assert(out@.map_values(|p: Vec<char>| p@) =~= before.push(n[k as int]));
        }
        k = k + 1;
    }
    proof {
        assert(n.take(k as int) =~= n);
        if path@.len() > 0 && path@[0] == '/' {
        } else {
            assert(segments(path@, false)[0] == segs@[0]@);
            assert(head + n =~= components(path@));
        }
    }
    out
}

impl Project {
    /// The file that marks the root of a project.
    pub const MARKER: &'static str = "raster.toml";

    pub fn new(root: &str) -> (p: Self)
        ensures
            p.root_path() == root@,
    {
        Project { root: String::from_str(root) }
    }

    /// The project's root, as written.
    pub closed spec fn root_path(&self) -> Seq<char> {
        self.root@
    }

    pub fn root(&self) -> (r: &str)
        ensures
            r@ == self.root_path(),
    {
        self.root.as_str()
    }

    /// The path an asset lives at.
    ///
    /// Refuses an identifier that climbs out of the root: a scene must not be
    /// able to read an arbitrary file of the machine.
    pub fn resolve(&self, id: &AssetId) -> (r: Result<String, AssetError>)
        ensures
            id@.len() == 0 ==> r matches Err(AssetError::Empty),
            id@.len() > 0 && ((id@.len() >= 2 && id@.subrange(0, 2) == dots()) || id@[0] == '/')
                ==> (r matches Err(AssetError::Escapes(e)) && e@ == id@),
            id@.len() > 0 && !(id@.len() >= 2 && id@.subrange(0, 2) == dots()) && id@[0] != '/'
                ==> (r matches Ok(path) && path@ == path_join(self.root_path(), id@)),
    {
        let chars = chars_of(id.as_str());
        if chars.len() == 0 {
            return Err(AssetError::Empty);
        }
        let climbs = chars.len() >= 2 && chars[0] == '.' && chars[1] == '.';
        proof {
            if chars@.len() >= 2 && chars@[0] == '.' && chars@[1] == '.' {
                assert(chars@.subrange(0, 2) =~= dots());
            }
            if chars@.len() >= 2 && chars@.subrange(0, 2) == dots() {
                assert(chars@[0] == chars@.subrange(0, 2)[0]);
                assert(chars@[1] == chars@.subrange(0, 2)[1]);
            }
        }
        if climbs || chars[0] == '/' {
            return Err(AssetError::Escapes(id.clone()));
        }
        let base = chars_of(self.root.as_str());
        let mut out: Vec<char> = Vec::new();
        let mut i: usize = 0;
        while i < base.len()
            invariant
                i <= base@.len(),
                out@ == base@.take(i as int),
            decreases base@.len() - i,
        {
            out.push(base[i]);
            i = i + 1;
        }
        if base.len() > 0 && base[base.len() - 1] != '/' {
            out.push('/');
        }
        let ghost head = out@;
        let mut j: usize = 0;
        while j < chars.len()
            invariant
                j <= chars@.len(),
                out@ == head + chars@.take(j as int),
            decreases chars@.len() - j,
        {
            out.push(chars[j]);
            proof {
                assert(chars@.take(j as int + 1) =~= chars@.take(j as int).push(chars@[j as int]));
            }
            j = j + 1;
        }
        proof {
            assert(base@.take(i as int) =~= base@);
            assert(chars@.take(j as int) =~= chars@);
        }
        Ok(string_of(&out))
    }

    /// The identifier a path inside the project is known by, or `None` for a
    /// path outside it. Components are compared whole, as `Path::strip_prefix`
    /// does: `/games/demonic` is not inside `/games/demo`.
    pub fn id_of(&self, path: &str) -> (r: Option<AssetId>)
        ensures
            r is Some <==> strip_prefix(path@, self.root_path()) is Some,
            r is Some ==> r->0@ == normalised(join(strip_prefix(path@, self.root_path())->0, '/')),
    {
        let parts = components_of(path);
        let base = components_of(self.root.as_str());
        let ghost p = components(path@);
        let ghost b = components(self.root@);
        proof {
            assert(parts@.len() == p.len());
            assert(base@.len() == b.len());
            assert(forall|k: int| 0 <= k < parts@.len() ==> (#[trigger] parts@[k])@ == p[k]);
            assert(forall|k: int| 0 <= k < base@.len() ==> (#[trigger] base@[k])@ == b[k]);
        }
        if base.len() > parts.len() {
            return None;
        }
        let mut k: usize = 0;
        while k < base.len()
            invariant
                p == components(path@),
                b == components(self.root@),
                base@.len() <= parts@.len(),
                k <= base@.len(),
                parts@.len() == p.len(),
                base@.len() == b.len(),
                forall|m: int| 0 <= m < parts@.len() ==> (#[trigger] parts@[m])@ == p[m],
                forall|m: int| 0 <= m < base@.len() ==> (#[trigger] base@[m])@ == b[m],
                forall|m: int| 0 <= m < k ==> p[m] == b[m],
            decreases base@.len() - k,
        {
            if !same_chars(&parts[k], &base[k]) {
                proof {
                    assert(p.subrange(0, b.len() as int)[k as int] != b[k as int]);
                    assert(p.subrange(0, b.len() as int) != b);
                }
                return None;
            }
            k = k + 1;
        }
        proof {
            assert(p.subrange(0, b.len() as int) =~= b);
        }
        let mut rest: Vec<Vec<char>> = Vec::new();
        let mut m = k;
        while m < parts.len()
            invariant
                p == components(path@),
                b == components(self.root@),
                k == base@.len(),
                k <= m <= parts@.len(),
                parts@.len() == p.len(),
                forall|j: int| 0 <= j < parts@.len() ==> (#[trigger] parts@[j])@ == p[j],
                rest@.map_values(|q: Vec<char>| q@) == p.subrange(k as int, m as int),
            decreases parts@.len() - m,
        {
            let ghost before = rest@.map_values(|q: Vec<char>| q@);
            rest.push(parts[m].clone());
            proof {
                assert(rest@.map_values(|q: Vec<char>| q@) =~= before.push(p[m as int]));
                assert(p.subrange(k as int, m as int + 1) =~= p.subrange(k as int, m as int).push(p[m as int]));
            }
            m = m + 1;
        }
        proof {
            assert(p.subrange(k as int, m as int) =~= p.skip(b.len() as int));
        }
        let relative = string_of(&join_with(&rest, '/'));
        Some(AssetId::new(relative.as_str()))
    }
}

} // verus!
