//! The path model: a path is a flag saying whether it is absolute plus its
//! sequence of non-empty segments. Parsing drops duplicate and trailing
//! separators, so prefix tests and prefix stripping work on whole segments,
//! the way the change-attribution logic needs them: `/tmp/sample2` is not
//! under `/tmp/sample`, while `/tmp/sample/x` is.

use vstd::prelude::*;

use crate::bytes::{bytes_eq, clone_bytes, extend_bytes, is_sep, split_by, split_bytes, Sep};

verus! {

/// The mathematical value of a path.
#[verifier::ext_equal]
pub ghost struct PathV {
    /// Whether the path began with the separator.
    pub abs: bool,
    /// The non-empty segments, in order.
    pub segs: Seq<Seq<u8>>,
}

/// A filesystem path, held as segments of raw bytes.
pub struct MPath {
    /// Whether the path began with the separator.
    pub abs: bool,
    /// The non-empty segments, in order.
    pub segs: Vec<Vec<u8>>,
}

impl View for MPath {
    type V = PathV;

    open spec fn view(&self) -> PathV {
        PathV { abs: self.abs, segs: self.segs.deep_view() }
    }
}

impl DeepView for MPath {
    type V = PathV;

    open spec fn deep_view(&self) -> PathV {
        self.view()
    }
}

/// The path a byte string denotes.
pub open spec fn path_of(b: Seq<u8>) -> PathV {
    PathV { abs: b.len() > 0 && is_sep(Sep::Slash, b[0]), segs: split_by(Sep::Slash, b) }
}

/// The empty path: relative, no segments.
pub open spec fn path_is_empty(p: PathV) -> bool {
    !p.abs && p.segs.len() == 0
}

/// Joining: an absolute right side replaces the left side, a relative one
/// appends its segments.
pub open spec fn path_join(a: PathV, b: PathV) -> PathV {
    if b.abs {
        b
    } else {
        PathV { abs: a.abs, segs: a.segs + b.segs }
    }
}

/// Whether `base` is a whole-segment prefix of `p`. The empty path is a
/// prefix of everything.
pub open spec fn path_starts_with(p: PathV, base: PathV) -> bool {
    if path_is_empty(base) {
        true
    } else {
        base.abs == p.abs && base.segs.is_prefix_of(p.segs)
    }
}

/// What remains of `p` after its prefix `base`: a relative path, except
/// that stripping the empty path leaves `p` itself.
pub open spec fn path_strip(p: PathV, base: PathV) -> PathV {
    if path_is_empty(base) {
        p
    } else {
        PathV { abs: false, segs: p.segs.skip(base.segs.len() as int) }
    }
}

/// The segments joined with single separators.
pub open spec fn render_segs(segs: Seq<Seq<u8>>) -> Seq<u8>
    decreases segs.len(),
{
    if segs.len() == 0 {
        Seq::empty()
    } else if segs.len() == 1 {
        segs[0]
    } else {
        render_segs(segs.drop_last()) + seq![0x2fu8] + segs.last()
    }
}

/// The byte string a path is written as.
pub open spec fn path_render(p: PathV) -> Seq<u8> {
    if p.abs {
        seq![0x2fu8] + render_segs(p.segs)
    } else {
        render_segs(p.segs)
    }
}

/// A copy of a segment vector.
fn clone_segs(v: &Vec<Vec<u8>>) -> (r: Vec<Vec<u8>>)
    ensures
        r.deep_view() == v.deep_view(),
{
    let mut r: Vec<Vec<u8>> = Vec::new();
    let mut i: usize = 0;
    while i < v.len()
        invariant
            i <= v.len(),
            r.deep_view() == v.deep_view().take(i as int),
        decreases v.len() - i,
    {
        let ghost pre = r.deep_view();
        r.push(clone_bytes(&v[i]));
        proof {
            assert(r.deep_view() =~~= pre.push(v.deep_view()[i as int]));
            assert(v.deep_view().take(i + 1 as int) =~= pre.push(v.deep_view()[i as int]));
        }
        i += 1;
    }
    proof {
        assert(v.deep_view().take(v.deep_view().len() as int) =~= v.deep_view());
    }
    r
}

impl Clone for MPath {
    /// A copy with the same value.
    fn clone(&self) -> (r: Self)
        ensures
            r@ == self@,
    {
        let r = MPath { abs: self.abs, segs: clone_segs(&self.segs) };
        proof {
            assert(r@ =~~= self@);
        }
        r
    }
}

impl MPath {
    /// The empty path.
    pub fn empty() -> (r: MPath)
        ensures
            r@ == (PathV { abs: false, segs: Seq::empty() }),
    {
        let r = MPath { abs: false, segs: Vec::new() };
        proof {
            assert(r@ =~~= (PathV { abs: false, segs: Seq::empty() }));
        }
        r
    }

    /// Parses a byte string into a path.
    pub fn parse(b: &Vec<u8>) -> (r: MPath)
        ensures
            r@ == path_of(b@),
    {
        let abs = b.len() > 0 && b[0] == 0x2f;
        let segs = split_bytes(Sep::Slash, b);
        let r = MPath { abs, segs };
        proof {
            assert(r@ =~~= path_of(b@));
        }
        r
    }

    /// Writes the path back as bytes, with single separators.
    pub fn render(&self) -> (r: Vec<u8>)
        ensures
            r@ == path_render(self@),
    {
        let ghost dv = self.segs.deep_view();
        let mut r: Vec<u8> = Vec::new();
        if self.abs {
            r.push(0x2f);
        }
        let ghost prefix = r@;
        let mut i: usize = 0;
        proof {
            assert(r@ =~= prefix + render_segs(dv.take(0)));
        }
        while i < self.segs.len()
            invariant
                i <= self.segs.len(),
                dv == self.segs.deep_view(),
                dv.len() == self.segs@.len(),
                prefix == if self.abs { seq![0x2fu8] } else { Seq::<u8>::empty() },
                r@ == prefix + render_segs(dv.take(i as int)),
            decreases self.segs.len() - i,
        {
            let ghost pre = r@;
            if i > 0 {
                r.push(0x2f);
            }
            extend_bytes(&mut r, &self.segs[i]);
            proof {
                assert(self.segs@[i as int]@ == dv[i as int]);
                assert(dv.take(i + 1 as int).drop_last() =~= dv.take(i as int));
                assert(dv.take(i + 1 as int).last() == dv[i as int]);
                if i == 0 {
                    assert(render_segs(dv.take(1)) == dv[0]);
                    assert(r@ =~= prefix + render_segs(dv.take(1)));
                } else {
                    assert(render_segs(dv.take(i + 1 as int)) == render_segs(dv.take(i as int))
                        + seq![0x2fu8] + dv[i as int]);
                    assert(r@ =~= prefix + render_segs(dv.take(i + 1 as int)));
                }
            }
            i += 1;
        }
        proof {
            assert(dv.take(dv.len() as int) =~= dv);
        }
        r
    }

    /// Joins another path onto this one.
    pub fn join(&self, other: &MPath) -> (r: MPath)
        ensures
            r@ == path_join(self@, other@),
    {
        if other.abs {
            other.clone()
        } else {
            let mut segs = clone_segs(&self.segs);
            let mut i: usize = 0;
            while i < other.segs.len()
                invariant
                    i <= other.segs.len(),
                    segs.deep_view() == self.segs.deep_view() + other.segs.deep_view().take(
                        i as int,
                    ),
                decreases other.segs.len() - i,
            {
                let ghost pre = segs.deep_view();
                segs.push(clone_bytes(&other.segs[i]));
                proof {
                    assert(segs.deep_view() =~~= pre.push(other.segs.deep_view()[i as int]));
                    assert(self.segs.deep_view() + other.segs.deep_view().take(i + 1 as int)
                        =~= pre.push(other.segs.deep_view()[i as int]));
                }
                i += 1;
            }
            let r = MPath { abs: self.abs, segs };
            proof {
                assert(other.segs.deep_view().take(other.segs.deep_view().len() as int)
                    =~= other.segs.deep_view());
                assert(r@ =~~= path_join(self@, other@));
            }
            r
        }
    }

    /// Whether this path has no segments and is relative.
    pub fn is_empty(&self) -> (r: bool)
        ensures
            r == path_is_empty(self@),
    {
        !self.abs && self.segs.len() == 0
    }

    /// Whether `base` is a whole-segment prefix of this path.
    pub fn starts_with(&self, base: &MPath) -> (r: bool)
        ensures
            r == path_starts_with(self@, base@),
    {
        if !base.abs && base.segs.len() == 0 {
            return true;
        }
        if base.abs != self.abs || base.segs.len() > self.segs.len() {
            proof {
                if base.segs.len() > self.segs.len() {
                    assert(!base@.segs.is_prefix_of(self@.segs));
                }
            }
            return false;
        }
        let mut i: usize = 0;
        while i < base.segs.len()
            invariant
                i <= base.segs.len(),
                base.segs@.len() <= self.segs@.len(),
                forall|j: int|
                    0 <= j < i ==> base.segs.deep_view()[j] == self.segs.deep_view()[j],
            decreases base.segs.len() - i,
        {
            if !bytes_eq(&base.segs[i], &self.segs[i]) {
                proof {
                    assert(base.segs@[i as int].deep_view() =~= base.segs@[i as int]@);
                    assert(self.segs@[i as int].deep_view() =~= self.segs@[i as int]@);
                    assert(base.segs.deep_view()[i as int] != self.segs.deep_view()[i as int]);
                    assert(!base@.segs.is_prefix_of(self@.segs));
                }
                return false;
            }
            i += 1;
        }
        proof {
            assert(base@.segs =~= self@.segs.subrange(0, base@.segs.len() as int));
        }
        true
    }

    /// Strips the prefix `base`, giving what remains, or nothing when
    /// `base` is not a prefix.
    pub fn strip_prefix(&self, base: &MPath) -> (r: Option<MPath>)
        ensures
            path_starts_with(self@, base@) ==> (r matches Some(q) && q@ == path_strip(
                self@,
                base@,
            )),
            !path_starts_with(self@, base@) ==> r is None,
    {
        if !self.starts_with(base) {
            return None;
        }
        if !base.abs && base.segs.len() == 0 {
            return Some(self.clone());
        }
        let mut segs: Vec<Vec<u8>> = Vec::new();
        let mut i: usize = base.segs.len();
        let ghost lo = base.segs@.len() as int;
        proof {
            assert(base@.segs.is_prefix_of(self@.segs));
            assert(lo <= self.segs@.len());
            assert(segs.deep_view() =~= self.segs.deep_view().subrange(lo, lo));
        }
        while i < self.segs.len()
            invariant
                0 <= lo <= i <= self.segs.len(),
                lo <= self.segs@.len(),
                segs.deep_view() == self.segs.deep_view().subrange(lo, i as int),
            decreases self.segs.len() - i,
        {
            let ghost pre = segs.deep_view();
            segs.push(clone_bytes(&self.segs[i]));
            proof {
                assert(segs.deep_view() =~~= pre.push(self.segs.deep_view()[i as int]));
                assert(self.segs.deep_view().subrange(lo, i as int + 1) =~~= pre.push(
                    self.segs.deep_view()[i as int],
                ));
            }
            i += 1;
        }
        let r = MPath { abs: false, segs };
        proof {
            assert(self.segs.deep_view().subrange(lo, self.segs.deep_view().len() as int)
                =~= self@.segs.skip(lo));
            assert(r@ =~~= path_strip(self@, base@));
        }
        Some(r)
    }

    /// Whether two paths are the same value.
    pub fn path_eq(&self, other: &MPath) -> (r: bool)
        ensures
            r == (self@ == other@),
    {
        if self.abs != other.abs {
            return false;
        }
        if self.segs.len() != other.segs.len() {
            proof {
                assert(self@.segs.len() != other@.segs.len());
            }
            return false;
        }
        let mut i: usize = 0;
        while i < self.segs.len()
            invariant
                i <= self.segs.len(),
                self.segs@.len() == other.segs@.len(),
                self.abs == other.abs,
                forall|j: int|
                    0 <= j < i ==> self.segs.deep_view()[j] == other.segs.deep_view()[j],
            decreases self.segs.len() - i,
        {
            if !bytes_eq(&self.segs[i], &other.segs[i]) {
                proof {
                    assert(self.segs@[i as int].deep_view() =~= self.segs@[i as int]@);
                    assert(other.segs@[i as int].deep_view() =~= other.segs@[i as int]@);
                    assert(self@.segs[i as int] != other@.segs[i as int]);
                }
                return false;
            }
            i += 1;
        }
        proof {
            assert(self@ =~~= other@);
        }
        true
    }
}

/// A non-empty byte string denotes a path that is not the empty path.
pub proof fn lemma_path_of_nonempty(b: Seq<u8>)
    requires
        b.len() > 0,
    ensures
        !path_is_empty(path_of(b)),
{
    if !is_sep(Sep::Slash, b[0]) {
        crate::bytes::lemma_split_head_nonsep(Sep::Slash, b);
    }
}

/// Set-insert on a sequence holding distinct values: a value already
/// present leaves the sequence unchanged.
pub open spec fn pset_insert(s: Seq<PathV>, p: PathV) -> Seq<PathV> {
    if s.contains(p) {
        s
    } else {
        s.push(p)
    }
}

/// A copy of a path vector.
pub fn clone_paths(v: &Vec<MPath>) -> (r: Vec<MPath>)
    ensures
        r.deep_view() == v.deep_view(),
{
    let mut r: Vec<MPath> = Vec::new();
    let mut i: usize = 0;
    while i < v.len()
        invariant
            i <= v.len(),
            r.deep_view() == v.deep_view().take(i as int),
        decreases v.len() - i,
    {
        let ghost pre = r.deep_view();
        r.push(v[i].clone());
        proof {
            assert(r.deep_view() =~~= pre.push(v.deep_view()[i as int]));
            assert(v.deep_view().take(i + 1 as int) =~= pre.push(v.deep_view()[i as int]));
        }
        i += 1;
    }
    proof {
        assert(v.deep_view().take(v.deep_view().len() as int) =~= v.deep_view());
    }
    r
}

/// Whether a path vector holds a path value.
pub fn contains_path(v: &Vec<MPath>, p: &MPath) -> (r: bool)
    ensures
        r == v.deep_view().contains(p@),
{
    let mut i: usize = 0;
    while i < v.len()
        invariant
            i <= v.len(),
            forall|j: int| 0 <= j < i ==> v.deep_view()[j] != p@,
        decreases v.len() - i,
    {
        if v[i].path_eq(p) {
            proof {
                assert(v.deep_view()[i as int] == p@);
            }
            return true;
        }
        i += 1;
    }
    proof {
        assert(forall|j: int| 0 <= j < v.deep_view().len() ==> v.deep_view()[j] != p@);
    }
    false
}

/// Inserts a path into a vector with set semantics.
pub fn insert_path(v: &mut Vec<MPath>, p: MPath)
    ensures
        final(v).deep_view() == pset_insert(old(v).deep_view(), p@),
{
    let ghost pre = v.deep_view();
    if !contains_path(v, &p) {
        let ghost pv = p@;
        v.push(p);
        proof {
            assert(v.deep_view() =~~= pre.push(pv));
        }
    }
}

} // verus!
