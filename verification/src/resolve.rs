//! Executable path resolution: tokenizing a logical path string,
//! folding it onto a base path, and the round-trip facts that connect
//! rendered paths back to their segments.

use vstd::prelude::*;
use vstd::string::StrSliceExecFns;
use vstd::string::StringExecFns;
use crate::paths::FsPath;
use crate::paths::contained_in;
use crate::paths::is_abs_path;
use crate::paths::lemma_views_of_push;
use crate::paths::norm_onto;
use crate::paths::rel_string_of;
use crate::paths::resolved_under;
use crate::paths::split_tokens;
use crate::paths::starts_with;
use crate::paths::tokens_of;
use crate::paths::valid_seg;
use crate::paths::valid_segs;
use crate::paths::views_of;

verus! {

/// Does this string view hold the single character '.'?
fn is_dot_str(s: &str) -> (b: bool)
    ensures
        b == (s@ == seq!['.']),
{
    let n = s.unicode_len();
    if n == 1 {
        let c = s.get_char(0);
        if c == '.' {
            proof {
                assert(s@ =~= seq!['.']);
            }
            true
        } else {
            proof {
                assert(s@ != seq!['.']);
            }
            false
        }
    } else {
        proof {
            assert(s@ != seq!['.']);
        }
        false
    }
}

/// Does this string view hold exactly "..", two dots?
fn is_dotdot_str(s: &str) -> (b: bool)
    ensures
        b == (s@ == seq!['.', '.']),
{
    let n = s.unicode_len();
    if n == 2 {
        let c0 = s.get_char(0);
        let c1 = s.get_char(1);
        if c0 == '.' && c1 == '.' {
            proof {
                assert(s@ =~= seq!['.', '.']);
            }
            true
        } else {
            proof {
                assert(s@ != seq!['.', '.']);
            }
            false
        }
    } else {
        proof {
            assert(s@ != seq!['.', '.']);
        }
        false
    }
}

/// Whether the logical path begins with a separator, which makes the
/// host-level join discard its base.
pub fn is_abs_str(path: &str) -> (b: bool)
    ensures
        b == is_abs_path(path@),
{
    let n = path.unicode_len();
    n > 0 && path.get_char(0) == '/'
}

/// Tokenize a logical path string: maximal runs of non-separator
/// characters become segments.
pub fn parse_tokens(path: &str) -> (toks: Vec<String>)
    ensures
        views_of(toks@) == tokens_of(path@),
{
    broadcast use lemma_views_of_push;

    let n = path.unicode_len();
    let mut toks: Vec<String> = Vec::new();
    let mut i: usize = 0;
    let mut start: usize = 0;
    proof {
        assert(views_of(toks@) =~= Seq::<Seq<char>>::empty());
        assert(path@.skip(0) =~= path@);
        assert(path@.subrange(0, 0) =~= Seq::<char>::empty());
    }
    while i < n
        invariant
            start <= i <= n,
            n == path@.len(),
            tokens_of(path@) == views_of(toks@) + split_tokens(
                path@.skip(i as int),
                path@.subrange(start as int, i as int),
            ),
        decreases n - i,
    {
        let ghost cur = path@.subrange(start as int, i as int);
        let ghost rest = path@.skip(i as int);
        let c = path.get_char(i);
        proof {
            assert(rest.len() > 0);
            assert(rest[0] == path@[i as int]);
        }
        if c == '/' {
            if i > start {
                let tok = path.substring_char(start, i);
                toks.push(String::from_str(tok));
                proof {
                    assert(cur.len() > 0);
                    assert(split_tokens(rest, cur) == seq![cur] + split_tokens(
                        rest.skip(1),
                        Seq::empty(),
                    ));
                    assert(views_of(toks@) =~= views_of(toks@.drop_last()) + seq![cur]);
                    assert(rest.skip(1) =~= path@.skip(i as int + 1));
                    assert((views_of(toks@.drop_last()) + seq![cur]) + split_tokens(
                        path@.skip(i as int + 1),
                        Seq::empty(),
                    ) =~= views_of(toks@.drop_last()) + (seq![cur] + split_tokens(
                        path@.skip(i as int + 1),
                        Seq::empty(),
                    )));
                    assert(path@.subrange(i as int + 1, i as int + 1) =~= Seq::<char>::empty());
                }
            } else {
                proof {
                    assert(cur.len() == 0);
                    assert(split_tokens(rest, cur) == split_tokens(rest.skip(1), Seq::empty()));
                    assert(rest.skip(1) =~= path@.skip(i as int + 1));
                    assert(path@.subrange(i as int + 1, i as int + 1) =~= Seq::<char>::empty());
                }
            }
            i += 1;
            start = i;
        } else {
            proof {
                assert(split_tokens(rest, cur) == split_tokens(rest.skip(1), cur.push(rest[0])));
                assert(rest.skip(1) =~= path@.skip(i as int + 1));
                assert(cur.push(rest[0]) =~= path@.subrange(start as int, i as int + 1));
            }
            i += 1;
        }
    }
    proof {
        assert(path@.skip(n as int) =~= Seq::<char>::empty());
    }
    if i > start {
        let tok = path.substring_char(start, i);
        toks.push(String::from_str(tok));
        proof {
            let cur = path@.subrange(start as int, i as int);
            assert(cur.len() > 0);
            assert(split_tokens(Seq::<char>::empty(), cur) == seq![cur]);
            assert(views_of(toks@) =~= views_of(toks@.drop_last()) + seq![cur]);
            assert(views_of(toks@) =~= tokens_of(path@));
        }
    } else {
        proof {
            let cur = path@.subrange(start as int, i as int);
            assert(cur.len() == 0);
            assert(split_tokens(Seq::<char>::empty(), cur) =~= Seq::<Seq<char>>::empty());
            assert(views_of(toks@) + Seq::<Seq<char>>::empty() =~= views_of(toks@));
        }
    }
    toks
}

/// Fold parsed tokens onto a base path, the executable form of
/// `norm_onto`.
pub fn normalize_onto(base: &FsPath, toks: &Vec<String>) -> (r: FsPath)
    ensures
        r@ == norm_onto(base@, views_of(toks@)),
{
    broadcast use lemma_views_of_push;

    let mut out = base.clone();
    let mut i: usize = 0;
    proof {
        assert(views_of(toks@).skip(0) =~= views_of(toks@));
    }
    while i < toks.len()
        invariant
            i <= toks.len(),
            norm_onto(out@, views_of(toks@).skip(i as int)) == norm_onto(base@, views_of(toks@)),
        decreases toks.len() - i,
    {
        let ghost pending = views_of(toks@).skip(i as int);
        let ghost prev = out@;
        proof {
            assert(pending.len() > 0);
            assert(pending[0] == views_of(toks@)[i as int]);
            assert(pending.skip(1) =~= views_of(toks@).skip(i as int + 1));
        }
        let t = &toks[i];
        if is_dot_str(t.as_str()) {
            // A '.' token leaves the base untouched.
        } else if is_dotdot_str(t.as_str()) {
            if out.segments.len() > 0 {
                let ghost pre = out@;
                out.segments.pop();
                proof {
                    assert(out@ =~= pre.drop_last());
                }
            }
        } else {
            out.segments.push(t.clone());
        }
        proof {
            let tok = pending[0];
            let b2 = if tok == seq!['.'] {
                prev
            } else if tok == seq!['.', '.'] {
                if prev.len() == 0 {
                    prev
                } else {
                    prev.drop_last()
                }
            } else {
                prev.push(tok)
            };
            assert(out@ == b2);
            assert(norm_onto(prev, pending) == norm_onto(b2, pending.skip(1)));
        }
        i += 1;
    }
    proof {
        assert(views_of(toks@).skip(toks@.len() as int) =~= Seq::<Seq<char>>::empty());
    }
    out
}

/// Resolve a logical path string against a root: the normal form of
/// the host-level join.
pub fn resolve_under(root: &FsPath, path: &str) -> (r: FsPath)
    ensures
        r@ == resolved_under(root@, path@),
{
    let toks = parse_tokens(path);
    if is_abs_str(path) {
        let base = FsPath::empty();
        normalize_onto(&base, &toks)
    } else {
        normalize_onto(root, &toks)
    }
}

/// Tokens are non-empty and free of separators.
pub open spec fn sep_free_tokens(ts: Seq<Seq<char>>) -> bool {
    forall|i: int| 0 <= i < ts.len() ==> (#[trigger] ts[i]).len() > 0 && !ts[i].contains('/')
}

/// Every token a split produces is non-empty and free of separators.
pub proof fn lemma_split_tokens_wf(s: Seq<char>, cur: Seq<char>)
    requires
        !cur.contains('/'),
    ensures
        sep_free_tokens(split_tokens(s, cur)),
    decreases s.len(),
{
    if s.len() == 0 {
        if cur.len() > 0 {
            assert(split_tokens(s, cur) == seq![cur]);
            assert(split_tokens(s, cur)[0] == cur);
            assert(sep_free_tokens(split_tokens(s, cur)));
        } else {
            assert(sep_free_tokens(split_tokens(s, cur)));
        }
    } else if s[0] == '/' {
        lemma_split_tokens_wf(s.skip(1), Seq::empty());
        let rec = split_tokens(s.skip(1), Seq::<char>::empty());
        if cur.len() > 0 {
            let whole = seq![cur] + rec;
            assert(split_tokens(s, cur) == whole);
            assert(whole[0] == cur);
            assert(forall|i: int| 1 <= i < whole.len() ==> whole[i] == rec[i - 1]);
            assert(sep_free_tokens(whole));
        } else {
            assert(split_tokens(s, cur) == rec);
        }
    } else {
        assert(!cur.push(s[0]).contains('/')) by {
            if cur.push(s[0]).contains('/') {
                let k = choose|k: int|
                    0 <= k < cur.push(s[0]).len() && cur.push(s[0])[k] == '/';
                if k < cur.len() {
                    assert(cur[k] == '/');
                    assert(cur.contains('/'));
                } else {
                    assert(s[0] == '/');
                }
            }
        }
        lemma_split_tokens_wf(s.skip(1), cur.push(s[0]));
        assert(split_tokens(s, cur) == split_tokens(s.skip(1), cur.push(s[0])));
    }
}

/// Folding well-formed-or-dot tokens onto a well-formed base yields a
/// well-formed path: the normalizer only ever appends proper segments.
pub proof fn lemma_norm_onto_wf(base: Seq<Seq<char>>, toks: Seq<Seq<char>>)
    requires
        valid_segs(base),
        sep_free_tokens(toks),
    ensures
        valid_segs(norm_onto(base, toks)),
    decreases toks.len(),
{
    if toks.len() == 0 {
    } else {
        let t = toks[0];
        let base2 = if t == seq!['.'] {
            base
        } else if t == seq!['.', '.'] {
            if base.len() == 0 {
                base
            } else {
                base.drop_last()
            }
        } else {
            base.push(t)
        };
        assert(valid_segs(base2)) by {
            if t != seq!['.'] && t != seq!['.', '.'] {
                assert(valid_seg(t));
                assert(forall|i: int| 0 <= i < base.len() ==> base.push(t)[i] == base[i]);
            } else if t == seq!['.', '.'] && base.len() > 0 {
                assert(forall|i: int|
                    0 <= i < base.drop_last().len() ==> base.drop_last()[i] == base[i]);
            }
        }
        assert(sep_free_tokens(toks.skip(1))) by {
            assert(forall|i: int|
                0 <= i < toks.skip(1).len() ==> toks.skip(1)[i] == toks[i + 1]);
        }
        lemma_norm_onto_wf(base2, toks.skip(1));
    }
}

/// A resolved path is always made of proper segments.
pub proof fn lemma_resolved_wf(root: Seq<Seq<char>>, path: Seq<char>)
    requires
        valid_segs(root),
    ensures
        valid_segs(resolved_under(root, path)),
{
    lemma_split_tokens_wf(path, Seq::empty());
    if is_abs_path(path) {
        lemma_norm_onto_wf(Seq::empty(), tokens_of(path));
    } else {
        lemma_norm_onto_wf(root, tokens_of(path));
    }
}

/// Folding tokens that are themselves proper segments is plain
/// concatenation: nothing is dropped or popped.
pub proof fn lemma_norm_onto_appends(base: Seq<Seq<char>>, toks: Seq<Seq<char>>)
    requires
        valid_segs(toks),
    ensures
        norm_onto(base, toks) == base + toks,
    decreases toks.len(),
{
    if toks.len() == 0 {
        assert(base + toks =~= base);
    } else {
        let t = toks[0];
        assert(valid_seg(t));
        assert(forall|i: int|
            0 <= i < toks.skip(1).len() ==> valid_seg(#[trigger] toks.skip(1)[i]));
        lemma_norm_onto_appends(base.push(t), toks.skip(1));
        assert(base.push(t) + toks.skip(1) =~= base + toks);
    }
}

/// Splitting a separator-free run prepended to a remainder just grows
/// the accumulator.
pub proof fn lemma_split_run(seg: Seq<char>, rest: Seq<char>, cur: Seq<char>)
    requires
        !seg.contains('/'),
    ensures
        split_tokens(seg + rest, cur) == split_tokens(rest, cur + seg),
    decreases seg.len(),
{
    if seg.len() == 0 {
        assert(seg + rest =~= rest);
        assert(cur + seg =~= cur);
    } else {
        let s = seg + rest;
        assert(s[0] == seg[0]);
        assert(seg[0] != '/') by {
            assert(seg.contains(seg[0]));
        }
        assert(s.skip(1) =~= seg.skip(1) + rest);
        assert(cur.push(s[0]) =~= cur + seg.take(1));
        assert(!seg.skip(1).contains('/')) by {
            assert(forall|j: int| 0 <= j < seg.skip(1).len() ==> seg.skip(1)[j] != '/') by {
                assert(forall|j: int| 0 <= j < seg.len() ==> seg[j] != '/');
            }
        }
        lemma_split_run(seg.skip(1), rest, cur + seg.take(1));
        assert((cur + seg.take(1)) + seg.skip(1) =~= cur + seg);
        assert(split_tokens(seg + rest, cur) == split_tokens(seg.skip(1) + rest, cur + seg.take(1)));
    }
}

/// Tokenizing a rendered relative path gives back exactly its
/// segments.
pub proof fn lemma_tokens_of_rel_string(p: Seq<Seq<char>>)
    requires
        valid_segs(p),
    ensures
        tokens_of(rel_string_of(p)) == p,
    decreases p.len(),
{
    if p.len() == 0 {
        assert(tokens_of(rel_string_of(p)) =~= p);
    } else if p.len() == 1 {
        assert(valid_seg(p[0]));
        lemma_split_run(p[0], Seq::empty(), Seq::empty());
        assert(p[0] + Seq::<char>::empty() =~= p[0]);
        assert(Seq::<char>::empty() + p[0] =~= p[0]);
        assert(split_tokens(Seq::<char>::empty(), p[0]) == seq![p[0]]);
        assert(tokens_of(rel_string_of(p)) =~= p);
    } else {
        let head = p[0];
        let tail_string = rel_string_of(p.skip(1));
        assert(valid_seg(head));
        assert(rel_string_of(p) == head + seq!['/'] + tail_string);
        lemma_split_run(head, seq!['/'] + tail_string, Seq::empty());
        assert(head + (seq!['/'] + tail_string) =~= head + seq!['/'] + tail_string);
        assert(Seq::<char>::empty() + head =~= head);
        let after = seq!['/'] + tail_string;
        assert(after[0] == '/');
        assert(head.len() > 0);
        assert(split_tokens(after, head) == seq![head] + split_tokens(after.skip(1), Seq::empty()));
        assert(after.skip(1) =~= tail_string);
        assert(forall|i: int|
            0 <= i < p.skip(1).len() ==> valid_seg(#[trigger] p.skip(1)[i]));
        lemma_tokens_of_rel_string(p.skip(1));
        assert(seq![head] + p.skip(1) =~= p);
    }
}

/// A rendered relative path made of proper segments resolves, under
/// any well-formed root, to the root followed by those segments — so
/// re-rooting a scoped path inside a wider root never escapes it.
pub proof fn lemma_resolve_rendered_rel(root: Seq<Seq<char>>, p: Seq<Seq<char>>)
    requires
        valid_segs(root),
        valid_segs(p),
    ensures
        resolved_under(root, rel_string_of(p)) == root + p,
        contained_in(root, rel_string_of(p)),
{
    let s = rel_string_of(p);
    assert(!is_abs_path(s)) by {
        if p.len() > 0 {
            assert(valid_seg(p[0]));
            if p.len() == 1 {
                assert(s == p[0]);
                if s.len() > 0 {
                    assert(!p[0].contains('/'));
                    assert(s[0] != '/') by {
                        assert(p[0].contains(p[0][0]));
                    }
                }
            } else {
                assert(s == p[0] + seq!['/'] + rel_string_of(p.skip(1)));
                assert(s[0] == p[0][0]);
                assert(s[0] != '/') by {
                    assert(p[0].contains(p[0][0]));
                }
            }
        }
    }
    lemma_tokens_of_rel_string(p);
    lemma_norm_onto_appends(root, p);
    assert((root + p).take(root.len() as int) =~= root);
}

/// The current-directory path resolves to the base itself.
pub proof fn lemma_dot_resolves(base: Seq<Seq<char>>)
    ensures
        resolved_under(base, "."@) == base,
        contained_in(base, "."@),
{
    reveal_strlit(".");
    assert("."@ =~= seq!['.']);
    let s = seq!['.'];
    assert(!is_abs_path("."@));
    assert(split_tokens(s, Seq::empty()) == split_tokens(s.skip(1), Seq::<char>::empty().push('.')));
    assert(s.skip(1) =~= Seq::<char>::empty());
    assert(Seq::<char>::empty().push('.') =~= seq!['.']);
    assert(split_tokens(Seq::<char>::empty(), seq!['.']) == seq![seq!['.']]);
    assert(tokens_of("."@) == seq![seq!['.']]);
    assert(norm_onto(base, seq![seq!['.']]) == norm_onto(base, seq![seq!['.']].skip(1)));
    assert(seq![seq!['.']].skip(1) =~= Seq::<Seq<char>>::empty());
    assert(resolved_under(base, "."@) == base);
    assert(starts_with(base, base)) by {
        assert(base.take(base.len() as int) =~= base);
    }
}

/// A rendered absolute path made of proper segments resolves, under
/// any root, back to exactly those segments.
pub proof fn lemma_resolve_rendered_abs(root: Seq<Seq<char>>, p: Seq<Seq<char>>)
    requires
        valid_segs(p),
    ensures
        resolved_under(root, crate::paths::abs_string_of(p)) == p,
{
    let s = crate::paths::abs_string_of(p);
    assert(s[0] == '/');
    assert(is_abs_path(s));
    assert(s.skip(1) =~= rel_string_of(p));
    assert(tokens_of(s) == split_tokens(s.skip(1), Seq::empty()));
    lemma_tokens_of_rel_string(p);
    lemma_norm_onto_appends(Seq::empty(), p);
    assert(Seq::<Seq<char>>::empty() + p =~= p);
}

} // verus!
