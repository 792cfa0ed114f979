//! The crate-level laws: properties that tie several operations
//! together, stated over the same spec vocabulary the operations'
//! own contracts use.

use vstd::prelude::*;
use crate::disk::Disk;
use crate::disk::FileView;
use crate::disk::created_stamp;
use crate::disk::is_strictly_under;
use crate::disk::lemma_concat_skip;
use crate::disk::lemma_no_strict_descendants;
use crate::disk::lemma_starts_with_concat;
use crate::disk::some_entry_under;
use crate::filesystem::Filesystem;
use crate::filesystem::copy_conflict;
use crate::filesystem::copy_dirs_after;
use crate::filesystem::copy_files_after;
use crate::paths::contained_in;
use crate::paths::resolved_under;
use crate::paths::starts_with;
use crate::user_scope::uid_seq;

verus! {

/// Round trip: a successful write of bytes `data` to a path leaves
/// the disk with exactly `data` under that path's resolved form, so a
/// read of the same path returns exactly `data` — `write_file`
/// ensures the file map below, and `read_file` ensures its result is
/// the `data` field under the same key.
pub proof fn lemma_write_read_round_trip(
    fs: Filesystem,
    d0: Disk,
    d1: Disk,
    path: Seq<char>,
    data: Seq<u8>,
    now: i64,
)
    requires
        fs.wf(),
        contained_in(fs@.root, path),
        d1@.files == d0@.files.insert(
            resolved_under(fs@.root, path),
            FileView {
                data: data,
                created: created_stamp(d0@, resolved_under(fs@.root, path), now),
                modified: now,
            },
        ),
    ensures
        d1@.files.contains_key(resolved_under(fs@.root, path)),
        d1@.files[resolved_under(fs@.root, path)].data == data,
{
}

/// A directory copy reproduces the entire relative structure and the
/// byte-identical contents of every file: each source file at
/// relative position `rel` reappears at the same position under the
/// target with the same bytes, and each source directory reappears as
/// a directory.
pub proof fn lemma_copy_reproduces(
    d0: Disk,
    cs: Seq<Seq<char>>,
    ct: Seq<Seq<char>>,
    rel: Seq<Seq<char>>,
    now: i64,
)
    requires
        !d0@.files.contains_key(cs),
        some_entry_under(d0, cs),
        !copy_conflict(d0, cs, ct),
        rel.len() >= 1,
    ensures
        d0@.files.contains_key(cs + rel) ==> copy_files_after(d0, cs, ct, now).contains_key(
            ct + rel,
        ) && copy_files_after(d0, cs, ct, now)[ct + rel].data == d0@.files[cs + rel].data,
        d0@.dirs.contains_key(cs + rel) ==> copy_dirs_after(d0, cs, ct, now).contains_key(
            ct + rel,
        ),
{
    lemma_concat_skip(ct, rel);
    lemma_starts_with_concat(ct, rel);
    assert(cs + (ct + rel).skip(ct.len() as int) == cs + rel);
}

/// A fresh user's first operation without a configured template
/// leaves an empty, existing directory: the user's root is created,
/// and — it being absent beforehand — no file lies below it.
pub proof fn lemma_fresh_user_empty_root(d0: Disk, root: Seq<Seq<char>>, uid: int, now: i64)
    requires
        d0.wf(),
        root.len() >= 1,
        !d0@.dirs.contains_key(root + seq![uid_seq(uid)]),
        !d0@.files.contains_key(root + seq![uid_seq(uid)]),
    ensures
        ({
            let ub = root + seq![uid_seq(uid)];
            let dirs1 = d0@.dirs.insert(
                ub,
                crate::disk::DirView { created: now, modified: now },
            );
            &&& dirs1.contains_key(ub)
            &&& forall|k: Seq<Seq<char>>|
                is_strictly_under(k, ub) ==> !#[trigger] d0@.files.contains_key(k)
        }),
{
    let ub = root + seq![uid_seq(uid)];
    assert(ub.len() >= 1);
    assert forall|k: Seq<Seq<char>>| is_strictly_under(k, ub) implies !#[trigger] d0@.files.contains_key(
        k,
    ) by {
        if d0@.files.contains_key(k) {
            lemma_no_strict_descendants(d0, ub, k);
        }
    }
}

/// A fresh user's first operation with a configured template
/// populates the user's root with the template's image: combined
/// with the copy law above, every template file of `n` bytes shows up
/// in the user's root at the same relative position with those `n`
/// bytes.
pub proof fn lemma_fresh_user_template(
    d0: Disk,
    root: Seq<Seq<char>>,
    uid: int,
    t: Seq<Seq<char>>,
    rel: Seq<Seq<char>>,
    now: i64,
)
    requires
        !d0@.files.contains_key(t),
        some_entry_under(d0, t),
        !copy_conflict(d0, t, root + seq![uid_seq(uid)]),
        rel.len() >= 1,
        d0@.files.contains_key(t + rel),
    ensures
        ({
            let ub = root + seq![uid_seq(uid)];
            &&& copy_files_after(d0, t, ub, now).contains_key(ub + rel)
            &&& copy_files_after(d0, t, ub, now)[ub + rel].data == d0@.files[t + rel].data
        }),
{
    lemma_copy_reproduces(d0, t, root + seq![uid_seq(uid)], rel, now);
}

/// Scope containment: every path an in-scope user operation resolves
/// to lies at or below the user's own physical root, so a contained
/// operation can only ever name entries inside that subtree.
pub proof fn lemma_scope_containment(sv: crate::user_scope::ScopeView, path: Seq<char>)
    requires
        crate::user_scope::in_scope(sv, path),
    ensures
        starts_with(crate::user_scope::scope_abs(sv, path), sv.fsv.root + sv.base),
{
    assert((sv.fsv.root + resolved_under(sv.base, path)).take(
        sv.fsv.root.len() as int + sv.base.len() as int,
    ) =~= sv.fsv.root + resolved_under(sv.base, path).take(sv.base.len() as int));
}

/// Scope disjointness: distinct user identifiers yield disjoint
/// subtrees under one root — nothing below one user's root lies
/// below another's.
pub proof fn lemma_scopes_disjoint(
    root: Seq<Seq<char>>,
    uid1: int,
    uid2: int,
    k: Seq<Seq<char>>,
)
    requires
        uid1 != uid2,
        starts_with(k, root + seq![uid_seq(uid1)]),
    ensures
        !starts_with(k, root + seq![uid_seq(uid2)]),
{
    let tb1 = root + seq![uid_seq(uid1)];
    let tb2 = root + seq![uid_seq(uid2)];
    if starts_with(k, tb2) {
        assert(tb1.len() == tb2.len());
        assert(k.take(tb1.len() as int) == tb1);
        assert(k.take(tb2.len() as int) == tb2);
        assert(tb1[root.len() as int] == uid_seq(uid1));
        assert(tb2[root.len() as int] == uid_seq(uid2));
        crate::user_scope::lemma_uid_seq_injective(uid1, uid2);
    }
}

/// A descoped listing entry is the absolute path with the scope's
/// physical prefix removed: re-rooting it under that prefix recovers
/// the absolute path, so what the caller sees holds neither the host
/// root nor the user's identifier segment.
pub proof fn lemma_descoped_path_round_trip(tb: Seq<Seq<char>>, p: Seq<Seq<char>>)
    requires
        starts_with(p, tb),
    ensures
        tb + p.skip(tb.len() as int) == p,
{
    crate::disk::lemma_prefix_rejoin(p, tb);
}

} // verus!
