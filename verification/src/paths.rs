//! Lexical path model.
//!
//! A host path is a sequence of segments.  A caller-supplied logical
//! path is a '/'-delimited string; it is parsed into tokens and folded
//! onto a base path, resolving `.` and `..` purely lexically, the way
//! a lexical normalizer collapses a joined path without touching the
//! host.  Containment of the result in the intended root is the
//! security invariant of the whole crate.

use vstd::prelude::*;
use vstd::string::StrSliceExecFns;
use vstd::string::StringExecFns;

verus! {

/// The sequence of views of a sequence's elements.
pub open spec fn views_of<T: View>(s: Seq<T>) -> Seq<T::V> {
    Seq::new(s.len(), |i: int| s[i]@)
}

pub broadcast proof fn lemma_views_of_push<T: View>(s: Seq<T>, x: T)
    ensures
        #[trigger] views_of(s.push(x)) == views_of(s).push(x@),
{
    assert(views_of(s.push(x)) =~= views_of(s).push(x@));
}

/// A proper path segment: non-empty, not a dot token, and free of
/// separators.
pub open spec fn valid_seg(s: Seq<char>) -> bool {
    &&& s.len() > 0
    &&& s != seq!['.']
    &&& s != seq!['.', '.']
    &&& !s.contains('/')
}

pub open spec fn valid_segs(p: Seq<Seq<char>>) -> bool {
    forall|i: int| 0 <= i < p.len() ==> valid_seg(#[trigger] p[i])
}

/// `p` lies at or below `pre` in the directory hierarchy.
pub open spec fn starts_with(p: Seq<Seq<char>>, pre: Seq<Seq<char>>) -> bool {
    pre.len() <= p.len() && p.take(pre.len() as int) == pre
}

/// Split a logical path into its non-empty tokens; `cur` accumulates
/// the token being read.  Repeated separators collapse and a trailing
/// separator is ignored.
pub open spec fn split_tokens(s: Seq<char>, cur: Seq<char>) -> Seq<Seq<char>>
    decreases s.len(),
{
    if s.len() == 0 {
        if cur.len() == 0 {
            Seq::empty()
        } else {
            seq![cur]
        }
    } else if s[0] == '/' {
        if cur.len() == 0 {
            split_tokens(s.skip(1), Seq::empty())
        } else {
            seq![cur] + split_tokens(s.skip(1), Seq::empty())
        }
    } else {
        split_tokens(s.skip(1), cur.push(s[0]))
    }
}

pub open spec fn tokens_of(s: Seq<char>) -> Seq<Seq<char>> {
    split_tokens(s, Seq::empty())
}

pub open spec fn is_abs_path(s: Seq<char>) -> bool {
    s.len() > 0 && s[0] == '/'
}

/// Fold tokens onto a base path: `.` is dropped, `..` pops one segment
/// where one is left (and stays put at the top, as a lexical
/// normalizer does at the filesystem root), anything else is appended.
pub open spec fn norm_onto(base: Seq<Seq<char>>, toks: Seq<Seq<char>>) -> Seq<Seq<char>>
    decreases toks.len(),
{
    if toks.len() == 0 {
        base
    } else {
        let t = toks[0];
        let base2 = if t == seq!['.'] {
            base
        } else if t == seq!['.', '.'] {
            if base.len() == 0 {
                base
            } else {
                base.drop_last()
            }
        } else {
            base.push(t)
        };
        norm_onto(base2, toks.skip(1))
    }
}

/// The normal form of joining a logical path onto a root: an absolute
/// logical path replaces the root entirely (as `join` on host paths
/// does), a relative one is folded onto it.
pub open spec fn resolved_under(root: Seq<Seq<char>>, path: Seq<char>) -> Seq<Seq<char>> {
    if is_abs_path(path) {
        norm_onto(Seq::empty(), tokens_of(path))
    } else {
        norm_onto(root, tokens_of(path))
    }
}

/// The containment check: the normalized join must stay at or below
/// the root.
pub open spec fn contained_in(root: Seq<Seq<char>>, path: Seq<char>) -> bool {
    starts_with(resolved_under(root, path), root)
}

/// Rendering of a relative path: segments joined by '/'.
pub open spec fn rel_string_of(p: Seq<Seq<char>>) -> Seq<char>
    decreases p.len(),
{
    if p.len() == 0 {
        Seq::empty()
    } else if p.len() == 1 {
        p[0]
    } else {
        p[0] + seq!['/'] + rel_string_of(p.skip(1))
    }
}

/// Rendering of an absolute host path.
pub open spec fn abs_string_of(p: Seq<Seq<char>>) -> Seq<char> {
    seq!['/'] + rel_string_of(p)
}

/// A host or scope path held as its segments.
pub struct FsPath {
    pub segments: Vec<String>,
}

impl View for FsPath {
    type V = Seq<Seq<char>>;

    open spec fn view(&self) -> Seq<Seq<char>> {
        views_of(self.segments@)
    }
}

impl Clone for FsPath {
    fn clone(&self) -> (r: Self)
        ensures
            r@ == self@,
    {
        broadcast use lemma_views_of_push;

        let mut segs: Vec<String> = Vec::new();
        let mut i: usize = 0;
        proof {
            assert(views_of(segs@) =~= self@.take(0));
        }
        while i < self.segments.len()
            invariant
                i <= self.segments.len(),
                views_of(segs@) == self@.take(i as int),
            decreases self.segments.len() - i,
        {
            segs.push(self.segments[i].clone());
            proof {
                assert(self@.take(i as int + 1) =~= self@.take(i as int).push(self@[i as int]));
            }
            i += 1;
        }
        proof {
            assert(self@.take(self.segments.len() as int) =~= self@);
        }
        FsPath { segments: segs }
    }
}

impl FsPath {
    pub open spec fn wf(&self) -> bool {
        valid_segs(self@)
    }

    pub fn empty() -> (r: Self)
        ensures
            r@ == Seq::<Seq<char>>::empty(),
    {
        let segs: Vec<String> = Vec::new();
        proof {
            assert(views_of(segs@) =~= Seq::<Seq<char>>::empty());
        }
        FsPath { segments: segs }
    }

    pub fn seg_count(&self) -> (n: usize)
        ensures
            n == self@.len(),
    {
        self.segments.len()
    }

    /// Exact prefix test over segments, the executable form of
    /// `starts_with`.
    pub fn starts_with_path(&self, pre: &FsPath) -> (b: bool)
        ensures
            b == starts_with(self@, pre@),
    {
        if pre.segments.len() > self.segments.len() {
            return false;
        }
        let mut i: usize = 0;
        while i < pre.segments.len()
            invariant
                i <= pre.segments.len() <= self.segments.len(),
                forall|j: int| 0 <= j < i ==> self@[j] == pre@[j],
            decreases pre.segments.len() - i,
        {
            if !self.segments[i].eq(&pre.segments[i]) {
                proof {
                    assert(self@[i as int] != pre@[i as int]);
                    assert(self@.take(pre@.len() as int)[i as int] == self@[i as int]);
                }
                return false;
            }
            i += 1;
        }
        proof {
            assert(self@.take(pre@.len() as int) =~= pre@);
        }
        true
    }

    /// Exact equality of two segment paths.
    pub fn path_eq(&self, other: &FsPath) -> (b: bool)
        ensures
            b == (self@ == other@),
    {
        if self.segments.len() != other.segments.len() {
            proof {
                assert(self@.len() != other@.len());
            }
            return false;
        }
        let b = self.starts_with_path(other);
        proof {
            if starts_with(self@, other@) {
                assert(self@.take(other@.len() as int) =~= self@);
            } else {
                if self@ == other@ {
                    assert(self@.take(other@.len() as int) =~= other@);
                }
            }
        }
        b
    }

    /// The path left after removing a leading prefix.
    pub fn strip_prefix(&self, pre: &FsPath) -> (r: FsPath)
        requires
            starts_with(self@, pre@),
        ensures
            r@ == self@.skip(pre@.len() as int),
    {
        broadcast use lemma_views_of_push;

        let mut segs: Vec<String> = Vec::new();
        let mut i: usize = pre.segments.len();
        proof {
            assert(pre.segments.len() == pre@.len());
            assert(views_of(segs@) =~= self@.subrange(pre@.len() as int, i as int));
        }
        while i < self.segments.len()
            invariant
                pre@.len() <= i <= self.segments.len(),
                views_of(segs@) == self@.subrange(pre@.len() as int, i as int),
            decreases self.segments.len() - i,
        {
            segs.push(self.segments[i].clone());
            proof {
                assert(self@.subrange(pre@.len() as int, i as int + 1) =~= self@.subrange(
                    pre@.len() as int,
                    i as int,
                ).push(self@[i as int]));
            }
            i += 1;
        }
        proof {
            assert(self@.subrange(pre@.len() as int, self@.len() as int) =~= self@.skip(
                pre@.len() as int,
            ));
        }
        FsPath { segments: segs }
    }

    /// The concatenation of two segment paths.
    pub fn join(&self, rest: &FsPath) -> (r: FsPath)
        ensures
            r@ == self@ + rest@,
    {
        broadcast use lemma_views_of_push;

        let mut out = self.clone();
        let mut j: usize = 0;
        proof {
            assert(out@ =~= self@ + rest@.take(0));
        }
        while j < rest.segments.len()
            invariant
                j <= rest.segments.len(),
                out@ == self@ + rest@.take(j as int),
            decreases rest.segments.len() - j,
        {
            out.segments.push(rest.segments[j].clone());
            proof {
                assert((self@ + rest@.take(j as int)).push(rest@[j as int]) =~= self@
                    + rest@.take(j as int + 1));
            }
            j += 1;
        }
        proof {
            assert(self@ + rest@.take(rest@.len() as int) =~= self@ + rest@);
        }
        out
    }

    /// The path made of the first `n` segments.
    pub fn prefix_of(&self, n: usize) -> (r: FsPath)
        requires
            n <= self@.len(),
        ensures
            r@ == self@.take(n as int),
    {
        broadcast use lemma_views_of_push;

        let mut segs: Vec<String> = Vec::new();
        let mut i: usize = 0;
        proof {
            assert(views_of(segs@) =~= self@.take(0));
        }
        while i < n
            invariant
                i <= n <= self@.len(),
                self@.len() == self.segments.len(),
                views_of(segs@) == self@.take(i as int),
            decreases n - i,
        {
            segs.push(self.segments[i].clone());
            proof {
                assert(self@.take(i as int + 1) =~= self@.take(i as int).push(self@[i as int]));
            }
            i += 1;
        }
        FsPath { segments: segs }
    }

    /// The path with its final segment removed.
    pub fn parent_path(&self) -> (r: FsPath)
        requires
            self@.len() >= 1,
        ensures
            r@ == self@.drop_last(),
    {
        let mut out = self.clone();
        let ghost pre = out@;
        out.segments.pop();
        proof {
            assert(out@ =~= pre.drop_last());
        }
        out
    }

    /// The final segment, or "." for the empty path, the way a host
    /// path reports its file name.
    pub fn item_name(&self) -> (r: String)
        ensures
            self@.len() > 0 ==> r@ == self@.last(),
            self@.len() == 0 ==> r@ == seq!['.'],
    {
        if self.segments.len() == 0 {
            let dot = String::from_str(".");
            proof {
                reveal_strlit(".");
                assert(dot@ =~= seq!['.']);
            }
            dot
        } else {
            self.segments[self.segments.len() - 1].clone()
        }
    }

    /// Rendering relative to the scope the path lives in.
    pub fn to_rel_string(&self) -> (r: String)
        ensures
            r@ == rel_string_of(self@),
    {
        let mut out = String::new();
        let mut i: usize = 0;
        while i < self.segments.len()
            invariant
                i <= self.segments.len(),
                i == 0 ==> out@ == Seq::<char>::empty(),
                i > 0 ==> out@ + rest_render(self@, i as int) == rel_string_of(self@),
            decreases self.segments.len() - i,
        {
            proof {
                lemma_rel_string_unfold(self@, i as int);
            }
            if i > 0 {
                out.append("/");
                proof {
                    reveal_strlit("/");
                }
            }
            out.append(self.segments[i].as_str());
            proof {
                if i == 0 {
                    if self@.len() == 1 {
                        assert(out@ =~= rel_string_of(self@));
                        assert(out@ + rest_render(self@, 1) =~= rel_string_of(self@));
                    } else {
                        assert(out@ + rest_render(self@, 1) =~= rel_string_of(self@));
                    }
                } else {
                    assert(out@ + rest_render(self@, i as int + 1) =~= rel_string_of(self@));
                }
            }
            i += 1;
        }
        proof {
            if self.segments.len() == 0 {
                assert(out@ =~= rel_string_of(self@));
            } else {
                assert(rest_render(self@, self@.len() as int) == Seq::<char>::empty());
                assert(out@ + Seq::<char>::empty() =~= out@);
            }
        }
        out
    }

    /// Rendering as an absolute host path.
    pub fn to_abs_string(&self) -> (r: String)
        ensures
            r@ == abs_string_of(self@),
    {
        let head = String::from_str("/");
        proof {
            reveal_strlit("/");
            assert(head@ =~= seq!['/']);
        }
        let rel = self.to_rel_string();
        let combined = head.concat(rel.as_str());
        proof {
            assert(combined@ =~= abs_string_of(self@));
        }
        combined
    }
}

/// Helper for the rendering loop invariant: what remains to be
/// appended once `i` segments are in the output.
pub open spec fn rest_render(p: Seq<Seq<char>>, i: int) -> Seq<char> {
    if i >= p.len() {
        Seq::empty()
    } else {
        seq!['/'] + rel_string_of(p.skip(i))
    }
}

/// One unfolding step of `rel_string_of` along a left-to-right render.
pub proof fn lemma_rel_string_unfold(p: Seq<Seq<char>>, i: int)
    requires
        0 <= i < p.len(),
    ensures
        i == 0 && p.len() == 1 ==> rel_string_of(p) == p[0],
        i == 0 && p.len() > 1 ==> rel_string_of(p) == p[0] + rest_render(p, 1),
        i > 0 ==> rest_render(p, i) == seq!['/'] + p[i] + rest_render(p, i + 1),
{
    if i == 0 {
        if p.len() > 1 {
            assert(rel_string_of(p) == p[0] + seq!['/'] + rel_string_of(p.skip(1)));
            assert(rest_render(p, 1) == seq!['/'] + rel_string_of(p.skip(1)));
            assert(rel_string_of(p) =~= p[0] + rest_render(p, 1));
        }
    } else {
        let q = p.skip(i);
        assert(q.len() == p.len() - i);
        if q.len() == 1 {
            assert(rel_string_of(q) == q[0]);
            assert(q[0] == p[i]);
            assert(rest_render(p, i + 1) == Seq::<char>::empty());
            assert(rest_render(p, i) =~= seq!['/'] + p[i] + rest_render(p, i + 1));
        } else {
            assert(rel_string_of(q) == q[0] + seq!['/'] + rel_string_of(q.skip(1)));
            assert(q.skip(1) =~= p.skip(i + 1));
            assert(q[0] == p[i]);
            assert(rest_render(p, i) =~= seq!['/'] + p[i] + rest_render(p, i + 1));
        }
    }
}

} // verus!
