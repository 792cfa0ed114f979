//! The host directory tree, modelled in memory.
//!
//! A `Disk` holds every file and directory as an absolute segment
//! path, keyed views give the mathematical model: a map from paths to
//! file contents and a map from paths to directory metadata.  The
//! filesystem layers mutate a `Disk` only through the helpers here,
//! each of which states its effect on the maps.

use vstd::prelude::*;
use vstd::map::*;
use crate::paths::FsPath;
use crate::paths::starts_with;
use crate::paths::valid_segs;
use crate::paths::views_of;

verus! {

/// What the model records of one file.
pub struct FileNode {
    pub path: FsPath,
    pub data: Vec<u8>,
    pub created: i64,
    pub modified: i64,
}

/// What the model records of one directory.
pub struct DirNode {
    pub path: FsPath,
    pub created: i64,
    pub modified: i64,
}

pub struct FileView {
    pub data: Seq<u8>,
    pub created: i64,
    pub modified: i64,
}

pub struct DirView {
    pub created: i64,
    pub modified: i64,
}

impl View for FileNode {
    type V = FileView;

    open spec fn view(&self) -> FileView {
        FileView { data: self.data@, created: self.created, modified: self.modified }
    }
}

impl View for DirNode {
    type V = DirView;

    open spec fn view(&self) -> DirView {
        DirView { created: self.created, modified: self.modified }
    }
}

/// The mathematical model of a disk: two maps keyed by absolute
/// segment paths.
pub struct DiskView {
    pub files: Map<Seq<Seq<char>>, FileView>,
    pub dirs: Map<Seq<Seq<char>>, DirView>,
}

/// The map a sequence of file nodes denotes; a later node with the
/// same path would win, and well-formed disks have no duplicates.
pub open spec fn files_map(s: Seq<FileNode>) -> Map<Seq<Seq<char>>, FileView>
    decreases s.len(),
{
    if s.len() == 0 {
        Map::empty()
    } else {
        files_map(s.drop_last()).insert(s.last().path@, s.last()@)
    }
}

pub open spec fn dirs_map(s: Seq<DirNode>) -> Map<Seq<Seq<char>>, DirView>
    decreases s.len(),
{
    if s.len() == 0 {
        Map::empty()
    } else {
        dirs_map(s.drop_last()).insert(s.last().path@, s.last()@)
    }
}

/// The parent of `p` exists: `p` hangs directly under the host root or
/// under a directory the disk holds.
pub open spec fn dir_exists(dv: DiskView, p: Seq<Seq<char>>) -> bool {
    p.len() == 0 || dv.dirs.contains_key(p)
}

/// Bytes stored by files at or below `pre`.
pub open spec fn file_contrib(n: FileNode, pre: Seq<Seq<char>>) -> int {
    if starts_with(n.path@, pre) {
        n.data@.len() as int
    } else {
        0
    }
}

pub open spec fn usage_of(s: Seq<FileNode>, pre: Seq<Seq<char>>) -> int
    decreases s.len(),
{
    if s.len() == 0 {
        0
    } else {
        usage_of(s.drop_last(), pre) + file_contrib(s.last(), pre)
    }
}

pub open spec fn uniq_file_paths(s: Seq<FileNode>) -> bool {
    forall|i: int, j: int|
        0 <= i < j < s.len() ==> (#[trigger] s[i].path@) != (#[trigger] s[j].path@)
}

pub open spec fn uniq_dir_paths(s: Seq<DirNode>) -> bool {
    forall|i: int, j: int|
        0 <= i < j < s.len() ==> (#[trigger] s[i].path@) != (#[trigger] s[j].path@)
}

/// The in-memory host tree.
pub struct Disk {
    pub files: Vec<FileNode>,
    pub dirs: Vec<DirNode>,
}

impl View for Disk {
    type V = DiskView;

    open spec fn view(&self) -> DiskView {
        DiskView { files: files_map(self.files@), dirs: dirs_map(self.dirs@) }
    }
}

impl Disk {
    /// Every entry has a proper, non-root path, paths are unique, no
    /// path is both a file and a directory, every entry hangs under an
    /// existing directory, and the stored bytes fit the host's size
    /// type.
    pub open spec fn wf(&self) -> bool {
        &&& uniq_file_paths(self.files@)
        &&& uniq_dir_paths(self.dirs@)
        &&& forall|i: int|
            0 <= i < self.files@.len() ==> valid_segs(#[trigger] self.files@[i].path@)
                && self.files@[i].path@.len() >= 1
        &&& forall|i: int|
            0 <= i < self.dirs@.len() ==> valid_segs(#[trigger] self.dirs@[i].path@)
                && self.dirs@[i].path@.len() >= 1
        &&& forall|k: Seq<Seq<char>>|
            #[trigger] self@.files.contains_key(k) ==> !self@.dirs.contains_key(k)
        &&& forall|k: Seq<Seq<char>>|
            #[trigger] self@.files.contains_key(k) ==> dir_exists(self@, k.drop_last())
        &&& forall|k: Seq<Seq<char>>|
            #[trigger] self@.dirs.contains_key(k) ==> dir_exists(self@, k.drop_last())
        &&& usage_of(self.files@, Seq::empty()) <= u64::MAX
    }

    pub fn new() -> (d: Disk)
        ensures
            d.wf(),
            d@.files == Map::<Seq<Seq<char>>, FileView>::empty(),
            d@.dirs == Map::<Seq<Seq<char>>, DirView>::empty(),
            d.files@ == Seq::<FileNode>::empty(),
            d.dirs@ == Seq::<DirNode>::empty(),
    {
        let d = Disk { files: Vec::new(), dirs: Vec::new() };
        proof {
            assert(d.files@ =~= Seq::<FileNode>::empty());
            assert(d.dirs@ =~= Seq::<DirNode>::empty());
        }
        d
    }
}

/// Appending a node with a fresh path keeps paths unique.
pub proof fn lemma_uniq_files_push(s: Seq<FileNode>, n: FileNode)
    requires
        uniq_file_paths(s),
        forall|a: int| 0 <= a < s.len() ==> (#[trigger] s[a].path@) != n.path@,
    ensures
        uniq_file_paths(s.push(n)),
{
    let t = s.push(n);
    assert forall|i: int, j: int| 0 <= i < j < t.len() implies (#[trigger] t[i].path@) != (
    #[trigger] t[j].path@) by {
        if j == s.len() {
            assert(t[i] == s[i]);
            assert(t[j] == n);
        } else {
            assert(t[i] == s[i]);
            assert(t[j] == s[j]);
        }
    }
}

pub proof fn lemma_uniq_dirs_push(s: Seq<DirNode>, n: DirNode)
    requires
        uniq_dir_paths(s),
        forall|a: int| 0 <= a < s.len() ==> (#[trigger] s[a].path@) != n.path@,
    ensures
        uniq_dir_paths(s.push(n)),
{
    let t = s.push(n);
    assert forall|i: int, j: int| 0 <= i < j < t.len() implies (#[trigger] t[i].path@) != (
    #[trigger] t[j].path@) by {
        if j == s.len() {
            assert(t[i] == s[i]);
            assert(t[j] == n);
        } else {
            assert(t[i] == s[i]);
            assert(t[j] == s[j]);
        }
    }
}

/// Dropping the last node keeps paths unique.
pub proof fn lemma_uniq_files_drop(s: Seq<FileNode>)
    requires
        uniq_file_paths(s),
        s.len() > 0,
    ensures
        uniq_file_paths(s.drop_last()),
{
    assert forall|i: int, j: int| 0 <= i < j < s.drop_last().len() implies (
    #[trigger] s.drop_last()[i].path@) != (#[trigger] s.drop_last()[j].path@) by {
        assert(s.drop_last()[i] == s[i]);
        assert(s.drop_last()[j] == s[j]);
    }
}

pub proof fn lemma_uniq_dirs_drop(s: Seq<DirNode>)
    requires
        uniq_dir_paths(s),
        s.len() > 0,
    ensures
        uniq_dir_paths(s.drop_last()),
{
    assert forall|i: int, j: int| 0 <= i < j < s.drop_last().len() implies (
    #[trigger] s.drop_last()[i].path@) != (#[trigger] s.drop_last()[j].path@) by {
        assert(s.drop_last()[i] == s[i]);
        assert(s.drop_last()[j] == s[j]);
    }
}

/// A key is in the file map exactly where some node carries it.
pub proof fn lemma_files_map_keys(s: Seq<FileNode>)
    ensures
        forall|k: Seq<Seq<char>>|
            #[trigger] files_map(s).contains_key(k) <==> exists|i: int|
                0 <= i < s.len() && (#[trigger] s[i].path@) == k,
    decreases s.len(),
{
    if s.len() == 0 {
    } else {
        lemma_files_map_keys(s.drop_last());
        assert forall|k: Seq<Seq<char>>| #[trigger] files_map(s).contains_key(k) implies exists|
            i: int,
        |
            0 <= i < s.len() && (#[trigger] s[i].path@) == k by {
            if k == s.last().path@ {
                assert(s[s.len() - 1].path@ == k);
            } else {
                assert(files_map(s.drop_last()).contains_key(k));
                let i = choose|i: int| 0 <= i < s.drop_last().len() && (#[trigger] s.drop_last()[i].path@) == k;
                assert(s[i].path@ == k);
            }
        }
        assert forall|k: Seq<Seq<char>>|
            (exists|i: int| 0 <= i < s.len() && (#[trigger] s[i].path@) == k) implies files_map(
            s,
        ).contains_key(k) by {
            let i = choose|i: int| 0 <= i < s.len() && (#[trigger] s[i].path@) == k;
            if i == s.len() - 1 {
            } else {
                assert(s.drop_last()[i].path@ == k);
                assert(files_map(s.drop_last()).contains_key(k));
            }
        }
    }
}

pub proof fn lemma_dirs_map_keys(s: Seq<DirNode>)
    ensures
        forall|k: Seq<Seq<char>>|
            #[trigger] dirs_map(s).contains_key(k) <==> exists|i: int|
                0 <= i < s.len() && (#[trigger] s[i].path@) == k,
    decreases s.len(),
{
    if s.len() == 0 {
    } else {
        lemma_dirs_map_keys(s.drop_last());
        assert forall|k: Seq<Seq<char>>| #[trigger] dirs_map(s).contains_key(k) implies exists|
            i: int,
        |
            0 <= i < s.len() && (#[trigger] s[i].path@) == k by {
            if k == s.last().path@ {
                assert(s[s.len() - 1].path@ == k);
            } else {
                assert(dirs_map(s.drop_last()).contains_key(k));
                let i = choose|i: int| 0 <= i < s.drop_last().len() && (#[trigger] s.drop_last()[i].path@) == k;
                assert(s[i].path@ == k);
            }
        }
        assert forall|k: Seq<Seq<char>>|
            (exists|i: int| 0 <= i < s.len() && (#[trigger] s[i].path@) == k) implies dirs_map(
            s,
        ).contains_key(k) by {
            let i = choose|i: int| 0 <= i < s.len() && (#[trigger] s[i].path@) == k;
            if i == s.len() - 1 {
            } else {
                assert(s.drop_last()[i].path@ == k);
                assert(dirs_map(s.drop_last()).contains_key(k));
            }
        }
    }
}

/// With unique paths, the map holds each node's own view under its
/// path.
pub proof fn lemma_files_map_get(s: Seq<FileNode>, i: int)
    requires
        uniq_file_paths(s),
        0 <= i < s.len(),
    ensures
        files_map(s).contains_key(s[i].path@),
        files_map(s)[s[i].path@] == s[i]@,
    decreases s.len(),
{
    if i == s.len() - 1 {
    } else {
        assert(s[i].path@ != s.last().path@);
        assert(s.drop_last()[i] == s[i]);
        lemma_uniq_files_drop(s);
        lemma_files_map_get(s.drop_last(), i);
    }
}

pub proof fn lemma_dirs_map_get(s: Seq<DirNode>, i: int)
    requires
        uniq_dir_paths(s),
        0 <= i < s.len(),
    ensures
        dirs_map(s).contains_key(s[i].path@),
        dirs_map(s)[s[i].path@] == s[i]@,
    decreases s.len(),
{
    if i == s.len() - 1 {
    } else {
        assert(s[i].path@ != s.last().path@);
        assert(s.drop_last()[i] == s[i]);
        lemma_uniq_dirs_drop(s);
        lemma_dirs_map_get(s.drop_last(), i);
    }
}

/// Appending a node inserts its key.
pub proof fn lemma_files_map_push(s: Seq<FileNode>, n: FileNode)
    ensures
        files_map(s.push(n)) == files_map(s).insert(n.path@, n@),
{
    assert(s.push(n).drop_last() =~= s);
    assert(s.push(n).last() == n);
}

pub proof fn lemma_dirs_map_push(s: Seq<DirNode>, n: DirNode)
    ensures
        dirs_map(s.push(n)) == dirs_map(s).insert(n.path@, n@),
{
    assert(s.push(n).drop_last() =~= s);
    assert(s.push(n).last() == n);
}

/// With unique paths, removing a node removes exactly its key.
pub proof fn lemma_files_map_remove(s: Seq<FileNode>, i: int)
    requires
        uniq_file_paths(s),
        0 <= i < s.len(),
    ensures
        files_map(s.remove(i)) == files_map(s).remove(s[i].path@),
    decreases s.len(),
{
    if i == s.len() - 1 {
        assert(s.remove(i) =~= s.drop_last());
        lemma_files_map_keys(s.drop_last());
        assert forall|k: Seq<Seq<char>>| true implies #[trigger] files_map(
            s.drop_last(),
        ).contains_key(k) == files_map(s).remove(s[i].path@).contains_key(k) && (files_map(
            s.drop_last(),
        ).contains_key(k) ==> files_map(s.drop_last())[k] == files_map(s).remove(
            s[i].path@,
        )[k]) by {
            if files_map(s.drop_last()).contains_key(k) {
                let j = choose|j: int|
                    0 <= j < s.drop_last().len() && (#[trigger] s.drop_last()[j].path@) == k;
                assert(s[j].path@ == k);
                assert(k != s[i].path@);
            }
        }
        assert(files_map(s.remove(i)) =~= files_map(s).remove(s[i].path@));
    } else {
        let t = s.remove(i);
        assert(t.last() == s.last());
        assert(t.drop_last() =~= s.drop_last().remove(i));
        lemma_uniq_files_drop(s);
        assert(s.drop_last()[i] == s[i]);
        lemma_files_map_remove(s.drop_last(), i);
        assert(files_map(t) == files_map(s.drop_last()).remove(s[i].path@).insert(
            t.last().path@,
            t.last()@,
        ));
        assert(s[i].path@ != s.last().path@);
        assert(files_map(s.drop_last()).remove(s[i].path@).insert(s.last().path@, s.last()@)
            =~= files_map(s.drop_last()).insert(s.last().path@, s.last()@).remove(s[i].path@));
    }
}

pub proof fn lemma_dirs_map_remove(s: Seq<DirNode>, i: int)
    requires
        uniq_dir_paths(s),
        0 <= i < s.len(),
    ensures
        dirs_map(s.remove(i)) == dirs_map(s).remove(s[i].path@),
    decreases s.len(),
{
    if i == s.len() - 1 {
        assert(s.remove(i) =~= s.drop_last());
        lemma_dirs_map_keys(s.drop_last());
        assert forall|k: Seq<Seq<char>>| true implies #[trigger] dirs_map(
            s.drop_last(),
        ).contains_key(k) == dirs_map(s).remove(s[i].path@).contains_key(k) && (dirs_map(
            s.drop_last(),
        ).contains_key(k) ==> dirs_map(s.drop_last())[k] == dirs_map(s).remove(
            s[i].path@,
        )[k]) by {
            if dirs_map(s.drop_last()).contains_key(k) {
                let j = choose|j: int|
                    0 <= j < s.drop_last().len() && (#[trigger] s.drop_last()[j].path@) == k;
                assert(s[j].path@ == k);
                assert(k != s[i].path@);
            }
        }
        assert(dirs_map(s.remove(i)) =~= dirs_map(s).remove(s[i].path@));
    } else {
        let t = s.remove(i);
        assert(t.last() == s.last());
        assert(t.drop_last() =~= s.drop_last().remove(i));
        lemma_uniq_dirs_drop(s);
        assert(s.drop_last()[i] == s[i]);
        lemma_dirs_map_remove(s.drop_last(), i);
        assert(dirs_map(t) == dirs_map(s.drop_last()).remove(s[i].path@).insert(
            t.last().path@,
            t.last()@,
        ));
        assert(s[i].path@ != s.last().path@);
        assert(dirs_map(s.drop_last()).remove(s[i].path@).insert(s.last().path@, s.last()@)
            =~= dirs_map(s.drop_last()).insert(s.last().path@, s.last()@).remove(s[i].path@));
    }
}

pub proof fn lemma_usage_push(s: Seq<FileNode>, n: FileNode, pre: Seq<Seq<char>>)
    ensures
        usage_of(s.push(n), pre) == usage_of(s, pre) + file_contrib(n, pre),
{
    assert(s.push(n).drop_last() =~= s);
    assert(s.push(n).last() == n);
}

pub proof fn lemma_usage_remove(s: Seq<FileNode>, i: int, pre: Seq<Seq<char>>)
    requires
        0 <= i < s.len(),
    ensures
        usage_of(s.remove(i), pre) == usage_of(s, pre) - file_contrib(s[i], pre),
    decreases s.len(),
{
    if i == s.len() - 1 {
        assert(s.remove(i) =~= s.drop_last());
    } else {
        let t = s.remove(i);
        assert(t.last() == s.last());
        assert(t.drop_last() =~= s.drop_last().remove(i));
        assert(s.drop_last()[i] == s[i]);
        lemma_usage_remove(s.drop_last(), i, pre);
    }
}

pub proof fn lemma_usage_nonneg(s: Seq<FileNode>, pre: Seq<Seq<char>>)
    ensures
        usage_of(s, pre) >= 0,
    decreases s.len(),
{
    if s.len() > 0 {
        lemma_usage_nonneg(s.drop_last(), pre);
    }
}

pub proof fn lemma_usage_take_le(s: Seq<FileNode>, pre: Seq<Seq<char>>, i: int)
    requires
        0 <= i <= s.len(),
    ensures
        usage_of(s.take(i), pre) <= usage_of(s, pre),
    decreases s.len() - i,
{
    if i == s.len() {
        assert(s.take(i) =~= s);
    } else {
        assert(s.take(i + 1).drop_last() =~= s.take(i));
        assert(s.take(i + 1).last() == s[i]);
        assert(file_contrib(s[i], pre) >= 0);
        lemma_usage_take_le(s, pre, i + 1);
    }
}

pub proof fn lemma_usage_take_step(s: Seq<FileNode>, pre: Seq<Seq<char>>, i: int)
    requires
        0 <= i < s.len(),
    ensures
        usage_of(s.take(i + 1), pre) == usage_of(s.take(i), pre) + file_contrib(s[i], pre),
{
    assert(s.take(i + 1).drop_last() =~= s.take(i));
    assert(s.take(i + 1).last() == s[i]);
}

/// Prefix tests compose: what lies under `a` lies under every prefix
/// of `a`.
pub proof fn lemma_starts_with_trans(p: Seq<Seq<char>>, a: Seq<Seq<char>>, b: Seq<Seq<char>>)
    requires
        starts_with(p, a),
        starts_with(a, b),
    ensures
        starts_with(p, b),
{
    assert(p.take(b.len() as int) =~= p.take(a.len() as int).take(b.len() as int));
}


/// Extending a path keeps it under every prefix it was under.
pub proof fn lemma_starts_with_concat(a: Seq<Seq<char>>, b: Seq<Seq<char>>)
    ensures
        starts_with(a + b, a),
{
    assert((a + b).take(a.len() as int) =~= a);
}

/// Usage under a deeper prefix never exceeds usage under a shallower
/// one.
pub proof fn lemma_usage_prefix_le(s: Seq<FileNode>, a: Seq<Seq<char>>, b: Seq<Seq<char>>)
    requires
        starts_with(a, b),
    ensures
        usage_of(s, a) <= usage_of(s, b),
    decreases s.len(),
{
    if s.len() > 0 {
        lemma_usage_prefix_le(s.drop_last(), a, b);
        if starts_with(s.last().path@, a) {
            lemma_starts_with_trans(s.last().path@, a, b);
        }
    }
}

/// Every path lies under the host root.
pub proof fn lemma_starts_with_empty(p: Seq<Seq<char>>)
    ensures
        starts_with(p, Seq::empty()),
{
    assert(p.take(0) =~= Seq::<Seq<char>>::empty());
}

/// A child of a path under `pre` is under `pre` as well.
pub proof fn lemma_starts_with_parent(k: Seq<Seq<char>>, pre: Seq<Seq<char>>)
    requires
        k.len() >= 1,
        starts_with(k.drop_last(), pre),
    ensures
        starts_with(k, pre),
{
    assert(k.take(pre.len() as int) =~= k.drop_last().take(pre.len() as int));
}

/// A map restricted to the keys outside the subtree of `p`.
pub open spec fn restrict_out<V>(m: Map<Seq<Seq<char>>, V>, p: Seq<Seq<char>>) -> Map<
    Seq<Seq<char>>,
    V,
> {
    Map::new(|k: Seq<Seq<char>>| m.contains_key(k) && !starts_with(k, p), |k: Seq<Seq<char>>| m[k])
}

/// What a write stamps as creation time: an overwritten file keeps its
/// own, a fresh one is created now.
pub open spec fn created_stamp(dv: DiskView, p: Seq<Seq<char>>, now: i64) -> i64 {
    if dv.files.contains_key(p) {
        dv.files[p].created
    } else {
        now
    }
}

fn clone_bytes(v: &Vec<u8>) -> (r: Vec<u8>)
    ensures
        r@ == v@,
{
    let mut out: Vec<u8> = Vec::new();
    let mut i: usize = 0;
    while i < v.len()
        invariant
            i <= v.len(),
            out@ == v@.take(i as int),
        decreases v.len() - i,
    {
        out.push(v[i]);
        proof {
            assert(v@.take(i as int + 1) =~= v@.take(i as int).push(v@[i as int]));
        }
        i += 1;
    }
    proof {
        assert(v@.take(v@.len() as int) =~= v@);
    }
    out
}

/// Some entry lies strictly below `p`.
pub open spec fn some_entry_under(d: Disk, p: Seq<Seq<char>>) -> bool {
    exists|k: Seq<Seq<char>>|
        #![trigger d@.files.contains_key(k)]
        #![trigger d@.dirs.contains_key(k)]
        (d@.files.contains_key(k) || d@.dirs.contains_key(k)) && starts_with(k, p) && k.len()
            > p.len()
}

impl Disk {
    fn find_file_idx(&self, p: &FsPath) -> (r: Option<usize>)
        ensures
            match r {
                Option::Some(i) => i < self.files@.len() && self.files@[i as int].path@ == p@,
                Option::None => !self@.files.contains_key(p@),
            },
    {
        let mut i: usize = 0;
        while i < self.files.len()
            invariant
                i <= self.files.len(),
                forall|j: int| 0 <= j < i ==> (#[trigger] self.files@[j].path@) != p@,
            decreases self.files.len() - i,
        {
            if self.files[i].path.path_eq(p) {
                return Some(i);
            }
            i += 1;
        }
        proof {
            lemma_files_map_keys(self.files@);
        }
        None
    }

    fn find_dir_idx(&self, p: &FsPath) -> (r: Option<usize>)
        ensures
            match r {
                Option::Some(i) => i < self.dirs@.len() && self.dirs@[i as int].path@ == p@,
                Option::None => !self@.dirs.contains_key(p@),
            },
    {
        let mut i: usize = 0;
        while i < self.dirs.len()
            invariant
                i <= self.dirs.len(),
                forall|j: int| 0 <= j < i ==> (#[trigger] self.dirs@[j].path@) != p@,
            decreases self.dirs.len() - i,
        {
            if self.dirs[i].path.path_eq(p) {
                return Some(i);
            }
            i += 1;
        }
        proof {
            lemma_dirs_map_keys(self.dirs@);
        }
        None
    }

    pub fn file_exists(&self, p: &FsPath) -> (b: bool)
        requires
            self.wf(),
        ensures
            b == self@.files.contains_key(p@),
    {
        match self.find_file_idx(p) {
            Some(i) => {
                proof {
                    lemma_files_map_get(self.files@, i as int);
                }
                true
            },
            None => false,
        }
    }

    pub fn has_dir(&self, p: &FsPath) -> (b: bool)
        requires
            self.wf(),
        ensures
            b == self@.dirs.contains_key(p@),
    {
        match self.find_dir_idx(p) {
            Some(i) => {
                proof {
                    lemma_dirs_map_get(self.dirs@, i as int);
                }
                true
            },
            None => false,
        }
    }

    /// The bytes of the file at `p`, where one is there.
    pub fn read_file_data(&self, p: &FsPath) -> (r: Option<Vec<u8>>)
        requires
            self.wf(),
        ensures
            match r {
                Option::Some(data) => self@.files.contains_key(p@) && data@
                    == self@.files[p@].data,
                Option::None => !self@.files.contains_key(p@),
            },
    {
        match self.find_file_idx(p) {
            Some(i) => {
                proof {
                    lemma_files_map_get(self.files@, i as int);
                }
                Some(clone_bytes(&self.files[i].data))
            },
            None => None,
        }
    }

    /// Creation and modification stamps of the entry at `p`.
    pub fn entry_times(&self, p: &FsPath) -> (r: Option<(i64, i64)>)
        requires
            self.wf(),
        ensures
            match r {
                Option::Some(t) => (self@.files.contains_key(p@) && t.0
                    == self@.files[p@].created && t.1 == self@.files[p@].modified) || (
                !self@.files.contains_key(p@) && self@.dirs.contains_key(p@) && t.0
                    == self@.dirs[p@].created && t.1 == self@.dirs[p@].modified),
                Option::None => !self@.files.contains_key(p@) && !self@.dirs.contains_key(p@),
            },
    {
        match self.find_file_idx(p) {
            Some(i) => {
                proof {
                    lemma_files_map_get(self.files@, i as int);
                }
                Some((self.files[i].created, self.files[i].modified))
            },
            None => match self.find_dir_idx(p) {
                Some(i) => {
                    proof {
                        lemma_dirs_map_get(self.dirs@, i as int);
                    }
                    Some((self.dirs[i].created, self.dirs[i].modified))
                },
                None => None,
            },
        }
    }

    /// The length of the file at `p`.
    pub fn file_size(&self, p: &FsPath) -> (r: Option<u64>)
        requires
            self.wf(),
        ensures
            match r {
                Option::Some(n) => self@.files.contains_key(p@) && n
                    == self@.files[p@].data.len(),
                Option::None => !self@.files.contains_key(p@),
            },
    {
        match self.find_file_idx(p) {
            Some(i) => {
                proof {
                    lemma_files_map_get(self.files@, i as int);
                    lemma_usage_single(self.files@, i as int);
                }
                Some(self.files[i].data.len() as u64)
            },
            None => None,
        }
    }

    /// Bytes stored at or below `pre`.
    pub fn usage_under(&self, pre: &FsPath) -> (r: u64)
        requires
            self.wf(),
        ensures
            r as int == usage_of(self.files@, pre@),
    {
        proof {
            lemma_starts_with_empty(pre@);
            lemma_usage_prefix_le(self.files@, pre@, Seq::empty());
            lemma_usage_nonneg(self.files@, pre@);
        }
        let mut total: u64 = 0;
        let mut i: usize = 0;
        proof {
            assert(self.files@.take(0) =~= Seq::<FileNode>::empty());
        }
        while i < self.files.len()
            invariant
                i <= self.files.len(),
                self.wf(),
                total as int == usage_of(self.files@.take(i as int), pre@),
                usage_of(self.files@, pre@) <= u64::MAX,
            decreases self.files.len() - i,
        {
            proof {
                lemma_usage_take_step(self.files@, pre@, i as int);
                lemma_usage_take_le(self.files@, pre@, i as int + 1);
                lemma_usage_nonneg(self.files@.take(i as int), pre@);
            }
            if self.files[i].path.starts_with_path(pre) {
                total = total + self.files[i].data.len() as u64;
            }
            i += 1;
        }
        proof {
            assert(self.files@.take(self.files@.len() as int) =~= self.files@);
        }
        total
    }

    /// Write or overwrite the file at `p`: the model form of a whole-
    /// file write.
    pub fn set_file(&mut self, p: &FsPath, data: Vec<u8>, now: i64)
        requires
            old(self).wf(),
            valid_segs(p@),
            p@.len() >= 1,
            dir_exists(old(self)@, p@.drop_last()),
            !old(self)@.dirs.contains_key(p@),
            usage_of(old(self).files@, Seq::empty()) + data@.len() <= u64::MAX,
        ensures
            final(self).wf(),
            final(self)@.files == old(self)@.files.insert(
                p@,
                FileView {
                    data: data@,
                    created: created_stamp(old(self)@, p@, now),
                    modified: now,
                },
            ),
            final(self)@.dirs == old(self)@.dirs,
            final(self).dirs@ == old(self).dirs@,
            usage_of(final(self).files@, Seq::empty()) <= usage_of(
                old(self).files@,
                Seq::empty(),
            ) + data@.len(),
    {
        let ghost s0 = self.files@;
        proof {
            lemma_files_map_keys(s0);
        }
        match self.find_file_idx(p) {
            Some(i) => {
                proof {
                    lemma_files_map_get(s0, i as int);
                }
                let node = self.files.remove(i);
                let fresh = FileNode { path: p.clone(), data, created: node.created, modified: now };
                self.files.push(fresh);
                proof {
                    let s1 = s0.remove(i as int);
                    lemma_files_map_remove(s0, i as int);
                    lemma_files_map_push(s1, fresh);
                    lemma_usage_remove(s0, i as int, Seq::empty());
                    lemma_usage_push(s1, fresh, Seq::empty());
                    lemma_starts_with_empty(s0[i as int].path@);
                    lemma_starts_with_empty(fresh.path@);
                    assert(files_map(s0).remove(p@).insert(p@, fresh@) =~= files_map(s0).insert(
                        p@,
                        fresh@,
                    ));
                    assert(uniq_file_paths(self.files@)) by {
                        assert(forall|a: int, b: int|
                            0 <= a < b < s1.len() ==> (#[trigger] s1[a].path@) != (
                            #[trigger] s1[b].path@));
                        assert(forall|a: int|
                            0 <= a < s1.len() ==> (#[trigger] s1[a].path@) != p@);
                    }
                    assert(forall|j: int|
                        0 <= j < self.files@.len() ==> valid_segs(
                            #[trigger] self.files@[j].path@,
                        ) && self.files@[j].path@.len() >= 1);
                }
            },
            None => {
                let fresh = FileNode { path: p.clone(), data, created: now, modified: now };
                self.files.push(fresh);
                proof {
                    lemma_files_map_push(s0, fresh);
                    lemma_usage_push(s0, fresh, Seq::empty());
                    lemma_starts_with_empty(fresh.path@);
                    assert(uniq_file_paths(self.files@)) by {
                        assert(forall|a: int|
                            0 <= a < s0.len() ==> (#[trigger] s0[a].path@) != p@);
                    }
                }
            },
        }
    }

    /// Create the directory at `p` in the model.
    pub fn add_dir(&mut self, p: &FsPath, now: i64)
        requires
            old(self).wf(),
            valid_segs(p@),
            p@.len() >= 1,
            dir_exists(old(self)@, p@.drop_last()),
            !old(self)@.dirs.contains_key(p@),
            !old(self)@.files.contains_key(p@),
        ensures
            final(self).wf(),
            final(self)@.dirs == old(self)@.dirs.insert(p@, DirView { created: now, modified: now }),
            final(self)@.files == old(self)@.files,
            final(self).files@ == old(self).files@,
    {
        let ghost s0 = self.dirs@;
        proof {
            lemma_dirs_map_keys(s0);
        }
        let fresh = DirNode { path: p.clone(), created: now, modified: now };
        self.dirs.push(fresh);
        proof {
            lemma_dirs_map_push(s0, fresh);
            assert(forall|a: int| 0 <= a < s0.len() ==> (#[trigger] s0[a].path@) != p@);
            lemma_uniq_dirs_push(s0, fresh);
            assert forall|a: int| 0 <= a < self.dirs@.len() implies valid_segs(
                #[trigger] self.dirs@[a].path@,
            ) && self.dirs@[a].path@.len() >= 1 by {
                if a < s0.len() {
                    assert(self.dirs@[a] == s0[a]);
                } else {
                    assert(self.dirs@[a] == fresh);
                }
            }
        }
    }

    /// Delete the file at `p` from the model.
    pub fn remove_file_at(&mut self, p: &FsPath)
        requires
            old(self).wf(),
            old(self)@.files.contains_key(p@),
        ensures
            final(self).wf(),
            final(self)@.files == old(self)@.files.remove(p@),
            final(self)@.dirs == old(self)@.dirs,
            final(self).dirs@ == old(self).dirs@,
            usage_of(final(self).files@, Seq::empty()) <= usage_of(
                old(self).files@,
                Seq::empty(),
            ),
    {
        let ghost s0 = self.files@;
        let r = self.find_file_idx(p);
        match r {
            Some(i) => {
                self.files.remove(i);
                proof {
                    lemma_files_map_remove(s0, i as int);
                    lemma_usage_remove(s0, i as int, Seq::empty());
                    lemma_starts_with_empty(s0[i as int].path@);
                    assert(forall|a: int, b: int|
                        0 <= a < b < self.files@.len() ==> (#[trigger] self.files@[a].path@) != (
                        #[trigger] self.files@[b].path@));
                }
            },
            None => {
                proof {
                    assert(false);
                }
            },
        }
    }
}

fn clone_file_node(n: &FileNode) -> (r: FileNode)
    ensures
        r.path@ == n.path@,
        r@ == n@,
{
    FileNode {
        path: n.path.clone(),
        data: clone_bytes(&n.data),
        created: n.created,
        modified: n.modified,
    }
}

fn clone_dir_node(n: &DirNode) -> (r: DirNode)
    ensures
        r.path@ == n.path@,
        r@ == n@,
{
    DirNode { path: n.path.clone(), created: n.created, modified: n.modified }
}

impl Disk {
    /// Delete the whole subtree at `p`, the entry at `p` included:
    /// the model form of a recursive removal.
    pub fn remove_tree(&mut self, p: &FsPath)
        requires
            old(self).wf(),
        ensures
            final(self).wf(),
            final(self)@.files == restrict_out(old(self)@.files, p@),
            final(self)@.dirs == restrict_out(old(self)@.dirs, p@),
            usage_of(final(self).files@, Seq::empty()) <= usage_of(
                old(self).files@,
                Seq::empty(),
            ),
    {
        let ghost s0 = self.files@;
        let ghost d0 = self.dirs@;
        let mut kept_files: Vec<FileNode> = Vec::new();
        let mut i: usize = 0;
        proof {
            assert(s0.take(0) =~= Seq::<FileNode>::empty());
            assert(files_map(kept_files@) =~= restrict_out(files_map(s0.take(0)), p@));
        }
        while i < self.files.len()
            invariant
                *self == *old(self),
                self.files@ == s0,
                s0 == old(self).files@,
                d0 == old(self).dirs@,
                old(self).wf(),
                i <= s0.len(),
                files_map(kept_files@) == restrict_out(files_map(s0.take(i as int)), p@),
                forall|a: int|
                    0 <= a < kept_files@.len() ==> !starts_with(
                        #[trigger] kept_files@[a].path@,
                        p@,
                    ),
                forall|a: int|
                    0 <= a < kept_files@.len() ==> valid_segs(#[trigger] kept_files@[a].path@)
                        && kept_files@[a].path@.len() >= 1,
                forall|a: int|
                    0 <= a < kept_files@.len() ==> exists|j: int|
                        0 <= j < i && (#[trigger] kept_files@[a].path@) == s0[j].path@,
                uniq_file_paths(kept_files@),
                usage_of(kept_files@, Seq::empty()) <= usage_of(s0.take(i as int), Seq::empty()),
            decreases s0.len() - i,
        {
            proof {
                assert(s0.take(i as int + 1).drop_last() =~= s0.take(i as int));
                assert(s0.take(i as int + 1).last() == s0[i as int]);
                lemma_usage_take_step(s0, Seq::empty(), i as int);
                lemma_starts_with_empty(s0[i as int].path@);
            }
            let keep = !self.files[i].path.starts_with_path(p);
            if keep {
                let c = clone_file_node(&self.files[i]);
                let ghost kf0 = kept_files@;
                kept_files.push(c);
                proof {
                    lemma_files_map_push(kf0, c);
                    lemma_usage_push(kf0, c, Seq::empty());
                    assert(files_map(s0.take(i as int + 1)) == files_map(s0.take(i as int)).insert(
                        s0[i as int].path@,
                        s0[i as int]@,
                    ));
                    assert(restrict_out(
                        files_map(s0.take(i as int)).insert(s0[i as int].path@, s0[i as int]@),
                        p@,
                    ) =~= restrict_out(files_map(s0.take(i as int)), p@).insert(
                        s0[i as int].path@,
                        s0[i as int]@,
                    ));
                    assert(kept_files@.drop_last() =~= kf0);
                    assert forall|a: int| 0 <= a < kf0.len() implies (#[trigger] kf0[a].path@)
                        != c.path@ by {
                        let j = choose|j: int|
                            0 <= j < i && (#[trigger] kf0[a].path@) == s0[j].path@;
                        assert(s0[j].path@ != s0[i as int].path@);
                    }
                    lemma_uniq_files_push(kf0, c);
                    assert forall|a: int| 0 <= a < kept_files@.len() implies !starts_with(
                        #[trigger] kept_files@[a].path@,
                        p@,
                    ) && valid_segs(kept_files@[a].path@) && kept_files@[a].path@.len() >= 1 by {
                        if a < kf0.len() {
                            assert(kept_files@[a] == kf0[a]);
                        } else {
                            assert(kept_files@[a] == c);
                        }
                    }
                    assert(forall|a: int|
                        0 <= a < kept_files@.len() ==> exists|j: int|
                            0 <= j < i + 1 && (#[trigger] kept_files@[a].path@) == s0[j].path@)
                        by {
                        assert forall|a: int| 0 <= a < kept_files@.len() implies exists|j: int|
                            0 <= j < i + 1 && (#[trigger] kept_files@[a].path@) == s0[j].path@ by {
                            if a < kf0.len() {
                                let j = choose|j: int|
                                    0 <= j < i && (#[trigger] kf0[a].path@) == s0[j].path@;
                                assert(kept_files@[a].path@ == s0[j].path@);
                            } else {
                                assert(kept_files@[a].path@ == s0[i as int].path@);
                            }
                        }
                    }
                }
            } else {
                proof {
                    assert(files_map(s0.take(i as int + 1)) == files_map(s0.take(i as int)).insert(
                        s0[i as int].path@,
                        s0[i as int]@,
                    ));
                    assert(restrict_out(
                        files_map(s0.take(i as int)).insert(s0[i as int].path@, s0[i as int]@),
                        p@,
                    ) =~= restrict_out(files_map(s0.take(i as int)), p@));
                    assert(file_contrib(s0[i as int], Seq::empty()) >= 0);
                }
            }
            i += 1;
        }
        proof {
            assert(s0.take(s0.len() as int) =~= s0);
        }
        self.files = kept_files;
        let mut kept_dirs: Vec<DirNode> = Vec::new();
        let mut h: usize = 0;
        proof {
            assert(d0.take(0) =~= Seq::<DirNode>::empty());
            assert(dirs_map(kept_dirs@) =~= restrict_out(dirs_map(d0.take(0)), p@));
        }
        while h < self.dirs.len()
            invariant
                self.dirs@ == d0,
                s0 == old(self).files@,
                d0 == old(self).dirs@,
                old(self).wf(),
                files_map(self.files@) == restrict_out(files_map(s0), p@),
                forall|a: int|
                    0 <= a < self.files@.len() ==> !starts_with(
                        #[trigger] self.files@[a].path@,
                        p@,
                    ),
                forall|a: int|
                    0 <= a < self.files@.len() ==> valid_segs(#[trigger] self.files@[a].path@)
                        && self.files@[a].path@.len() >= 1,
                uniq_file_paths(self.files@),
                usage_of(self.files@, Seq::empty()) <= usage_of(s0, Seq::empty()),
                h <= d0.len(),
                dirs_map(kept_dirs@) == restrict_out(dirs_map(d0.take(h as int)), p@),
                forall|a: int|
                    0 <= a < kept_dirs@.len() ==> !starts_with(
                        #[trigger] kept_dirs@[a].path@,
                        p@,
                    ),
                forall|a: int|
                    0 <= a < kept_dirs@.len() ==> valid_segs(#[trigger] kept_dirs@[a].path@)
                        && kept_dirs@[a].path@.len() >= 1,
                forall|a: int|
                    0 <= a < kept_dirs@.len() ==> exists|j: int|
                        0 <= j < h && (#[trigger] kept_dirs@[a].path@) == d0[j].path@,
                uniq_dir_paths(kept_dirs@),
            decreases d0.len() - h,
        {
            proof {
                assert(d0.take(h as int + 1).drop_last() =~= d0.take(h as int));
                assert(d0.take(h as int + 1).last() == d0[h as int]);
            }
            let keep = !self.dirs[h].path.starts_with_path(p);
            if keep {
                let c = clone_dir_node(&self.dirs[h]);
                let ghost kd0 = kept_dirs@;
                kept_dirs.push(c);
                proof {
                    lemma_dirs_map_push(kd0, c);
                    assert(dirs_map(d0.take(h as int + 1)) == dirs_map(d0.take(h as int)).insert(
                        d0[h as int].path@,
                        d0[h as int]@,
                    ));
                    assert(restrict_out(
                        dirs_map(d0.take(h as int)).insert(d0[h as int].path@, d0[h as int]@),
                        p@,
                    ) =~= restrict_out(dirs_map(d0.take(h as int)), p@).insert(
                        d0[h as int].path@,
                        d0[h as int]@,
                    ));
                    assert(kept_dirs@.drop_last() =~= kd0);
                    assert forall|a: int| 0 <= a < kd0.len() implies (#[trigger] kd0[a].path@)
                        != c.path@ by {
                        let j = choose|j: int|
                            0 <= j < h && (#[trigger] kd0[a].path@) == d0[j].path@;
                        assert(d0[j].path@ != d0[h as int].path@);
                    }
                    lemma_uniq_dirs_push(kd0, c);
                    assert forall|a: int| 0 <= a < kept_dirs@.len() implies !starts_with(
                        #[trigger] kept_dirs@[a].path@,
                        p@,
                    ) && valid_segs(kept_dirs@[a].path@) && kept_dirs@[a].path@.len() >= 1 by {
                        if a < kd0.len() {
                            assert(kept_dirs@[a] == kd0[a]);
                        } else {
                            assert(kept_dirs@[a] == c);
                        }
                    }
                    assert(forall|a: int|
                        0 <= a < kept_dirs@.len() ==> exists|j: int|
                            0 <= j < h + 1 && (#[trigger] kept_dirs@[a].path@) == d0[j].path@) by {
                        assert forall|a: int| 0 <= a < kept_dirs@.len() implies exists|j: int|
                            0 <= j < h + 1 && (#[trigger] kept_dirs@[a].path@) == d0[j].path@ by {
                            if a < kd0.len() {
                                let j = choose|j: int|
                                    0 <= j < h && (#[trigger] kd0[a].path@) == d0[j].path@;
                                assert(kept_dirs@[a].path@ == d0[j].path@);
                            } else {
                                assert(kept_dirs@[a].path@ == d0[h as int].path@);
                            }
                        }
                    }
                }
            } else {
                proof {
                    assert(dirs_map(d0.take(h as int + 1)) == dirs_map(d0.take(h as int)).insert(
                        d0[h as int].path@,
                        d0[h as int]@,
                    ));
                    assert(restrict_out(
                        dirs_map(d0.take(h as int)).insert(d0[h as int].path@, d0[h as int]@),
                        p@,
                    ) =~= restrict_out(dirs_map(d0.take(h as int)), p@));
                }
            }
            h += 1;
        }
        proof {
            assert(d0.take(d0.len() as int) =~= d0);
        }
        self.dirs = kept_dirs;
        proof {
            lemma_files_map_keys(s0);
            lemma_dirs_map_keys(d0);
            lemma_files_map_keys(self.files@);
            lemma_dirs_map_keys(self.dirs@);
            assert(final(self).wf()) by {
                assert(forall|k: Seq<Seq<char>>|
                    #[trigger] self@.files.contains_key(k) ==> files_map(s0).contains_key(k)
                        && !starts_with(k, p@));
                assert(forall|k: Seq<Seq<char>>|
                    #[trigger] self@.dirs.contains_key(k) ==> dirs_map(d0).contains_key(k)
                        && !starts_with(k, p@));
                assert forall|k: Seq<Seq<char>>| #[trigger] self@.files.contains_key(
                    k,
                ) implies !self@.dirs.contains_key(k) by {
                    assert(old(self)@.files.contains_key(k));
                    if self@.dirs.contains_key(k) {
                        assert(old(self)@.dirs.contains_key(k));
                    }
                }
                assert(usage_of(self.files@, Seq::empty()) <= u64::MAX);
                assert forall|k: Seq<Seq<char>>| #[trigger] self@.files.contains_key(
                    k,
                ) implies dir_exists(self@, k.drop_last()) by {
                    assert(files_map(s0).contains_key(k));
                    assert(old(self)@.files.contains_key(k));
                    let j = choose|j: int| 0 <= j < s0.len() && (#[trigger] s0[j].path@) == k;
                    assert(k.len() >= 1);
                    assert(dir_exists(old(self)@, k.drop_last()));
                    if k.drop_last().len() > 0 {
                        if starts_with(k.drop_last(), p@) {
                            lemma_starts_with_parent(k, p@);
                            assert(false);
                        }
                        assert(self@.dirs.contains_key(k.drop_last()));
                    }
                }
                assert forall|k: Seq<Seq<char>>| #[trigger] self@.dirs.contains_key(
                    k,
                ) implies dir_exists(self@, k.drop_last()) by {
                    assert(dirs_map(d0).contains_key(k));
                    assert(old(self)@.dirs.contains_key(k));
                    let j = choose|j: int| 0 <= j < d0.len() && (#[trigger] d0[j].path@) == k;
                    assert(k.len() >= 1);
                    assert(dir_exists(old(self)@, k.drop_last()));
                    if k.drop_last().len() > 0 {
                        if starts_with(k.drop_last(), p@) {
                            lemma_starts_with_parent(k, p@);
                            assert(false);
                        }
                        assert(self@.dirs.contains_key(k.drop_last()));
                    }
                }
            }
        }
    }
}

/// `k` hangs directly inside the directory `c`.
pub open spec fn is_child_of(k: Seq<Seq<char>>, c: Seq<Seq<char>>) -> bool {
    k.len() == c.len() + 1 && k.drop_last() == c
}

/// `k` lies strictly below `c`.
pub open spec fn is_strictly_under(k: Seq<Seq<char>>, c: Seq<Seq<char>>) -> bool {
    starts_with(k, c) && k.len() > c.len()
}

/// The paths of the files that hang directly inside `c`, in disk
/// order.
pub open spec fn child_files_of(s: Seq<FileNode>, c: Seq<Seq<char>>) -> Seq<Seq<Seq<char>>>
    decreases s.len(),
{
    if s.len() == 0 {
        Seq::empty()
    } else {
        let rest = child_files_of(s.drop_last(), c);
        if is_child_of(s.last().path@, c) {
            rest.push(s.last().path@)
        } else {
            rest
        }
    }
}

pub open spec fn child_dirs_of(s: Seq<DirNode>, c: Seq<Seq<char>>) -> Seq<Seq<Seq<char>>>
    decreases s.len(),
{
    if s.len() == 0 {
        Seq::empty()
    } else {
        let rest = child_dirs_of(s.drop_last(), c);
        if is_child_of(s.last().path@, c) {
            rest.push(s.last().path@)
        } else {
            rest
        }
    }
}

/// The paths of the files strictly below `c`, in disk order.
pub open spec fn tree_files_of(s: Seq<FileNode>, c: Seq<Seq<char>>) -> Seq<Seq<Seq<char>>>
    decreases s.len(),
{
    if s.len() == 0 {
        Seq::empty()
    } else {
        let rest = tree_files_of(s.drop_last(), c);
        if is_strictly_under(s.last().path@, c) {
            rest.push(s.last().path@)
        } else {
            rest
        }
    }
}

/// Every path a child listing yields hangs directly inside `c`.
pub proof fn lemma_child_files_shape(s: Seq<FileNode>, c: Seq<Seq<char>>)
    ensures
        forall|i: int|
            0 <= i < child_files_of(s, c).len() ==> is_child_of(
                #[trigger] child_files_of(s, c)[i],
                c,
            ),
    decreases s.len(),
{
    if s.len() > 0 {
        lemma_child_files_shape(s.drop_last(), c);
        let rest = child_files_of(s.drop_last(), c);
        if is_child_of(s.last().path@, c) {
            assert(child_files_of(s, c) == rest.push(s.last().path@));
            assert forall|i: int| 0 <= i < child_files_of(s, c).len() implies is_child_of(
                #[trigger] child_files_of(s, c)[i],
                c,
            ) by {
                if i < rest.len() {
                    assert(child_files_of(s, c)[i] == rest[i]);
                } else {
                    assert(child_files_of(s, c)[i] == s.last().path@);
                }
            }
        } else {
            assert(child_files_of(s, c) == rest);
        }
    }
}

pub proof fn lemma_child_dirs_shape(s: Seq<DirNode>, c: Seq<Seq<char>>)
    ensures
        forall|i: int|
            0 <= i < child_dirs_of(s, c).len() ==> is_child_of(
                #[trigger] child_dirs_of(s, c)[i],
                c,
            ),
    decreases s.len(),
{
    if s.len() > 0 {
        lemma_child_dirs_shape(s.drop_last(), c);
        let rest = child_dirs_of(s.drop_last(), c);
        if is_child_of(s.last().path@, c) {
            assert(child_dirs_of(s, c) == rest.push(s.last().path@));
            assert forall|i: int| 0 <= i < child_dirs_of(s, c).len() implies is_child_of(
                #[trigger] child_dirs_of(s, c)[i],
                c,
            ) by {
                if i < rest.len() {
                    assert(child_dirs_of(s, c)[i] == rest[i]);
                } else {
                    assert(child_dirs_of(s, c)[i] == s.last().path@);
                }
            }
        } else {
            assert(child_dirs_of(s, c) == rest);
        }
    }
}

/// Every path a tree enumeration yields lies strictly below `c`.
pub proof fn lemma_tree_files_shape(s: Seq<FileNode>, c: Seq<Seq<char>>)
    ensures
        forall|i: int|
            0 <= i < tree_files_of(s, c).len() ==> is_strictly_under(
                #[trigger] tree_files_of(s, c)[i],
                c,
            ),
    decreases s.len(),
{
    if s.len() > 0 {
        lemma_tree_files_shape(s.drop_last(), c);
        let rest = tree_files_of(s.drop_last(), c);
        if is_strictly_under(s.last().path@, c) {
            assert(tree_files_of(s, c) == rest.push(s.last().path@));
            assert forall|i: int| 0 <= i < tree_files_of(s, c).len() implies is_strictly_under(
                #[trigger] tree_files_of(s, c)[i],
                c,
            ) by {
                if i < rest.len() {
                    assert(tree_files_of(s, c)[i] == rest[i]);
                } else {
                    assert(tree_files_of(s, c)[i] == s.last().path@);
                }
            }
        } else {
            assert(tree_files_of(s, c) == rest);
        }
    }
}

/// Every path a child listing yields is the path of some node.
pub proof fn lemma_child_files_members(s: Seq<FileNode>, c: Seq<Seq<char>>)
    ensures
        forall|i: int|
            0 <= i < child_files_of(s, c).len() ==> exists|j: int|
                0 <= j < s.len() && (#[trigger] child_files_of(s, c)[i]) == (
                #[trigger] s[j].path@),
    decreases s.len(),
{
    if s.len() > 0 {
        lemma_child_files_members(s.drop_last(), c);
        let rest = child_files_of(s.drop_last(), c);
        assert forall|i: int| 0 <= i < child_files_of(s, c).len() implies exists|j: int|
            0 <= j < s.len() && (#[trigger] child_files_of(s, c)[i]) == (#[trigger] s[j].path@) by {
            if i < rest.len() {
                assert(child_files_of(s, c)[i] == rest[i]);
                let j = choose|j: int|
                    0 <= j < s.drop_last().len() && (#[trigger] rest[i]) == (
                    #[trigger] s.drop_last()[j].path@);
                assert(child_files_of(s, c)[i] == s[j].path@);
            } else {
                assert(child_files_of(s, c)[i] == s[s.len() - 1].path@);
            }
        }
    }
}

pub proof fn lemma_child_dirs_members(s: Seq<DirNode>, c: Seq<Seq<char>>)
    ensures
        forall|i: int|
            0 <= i < child_dirs_of(s, c).len() ==> exists|j: int|
                0 <= j < s.len() && (#[trigger] child_dirs_of(s, c)[i]) == (#[trigger] s[j].path@),
    decreases s.len(),
{
    if s.len() > 0 {
        lemma_child_dirs_members(s.drop_last(), c);
        let rest = child_dirs_of(s.drop_last(), c);
        assert forall|i: int| 0 <= i < child_dirs_of(s, c).len() implies exists|j: int|
            0 <= j < s.len() && (#[trigger] child_dirs_of(s, c)[i]) == (#[trigger] s[j].path@) by {
            if i < rest.len() {
                assert(child_dirs_of(s, c)[i] == rest[i]);
                let j = choose|j: int|
                    0 <= j < s.drop_last().len() && (#[trigger] rest[i]) == (
                    #[trigger] s.drop_last()[j].path@);
                assert(child_dirs_of(s, c)[i] == s[j].path@);
            } else {
                assert(child_dirs_of(s, c)[i] == s[s.len() - 1].path@);
            }
        }
    }
}

pub proof fn lemma_tree_files_members(s: Seq<FileNode>, c: Seq<Seq<char>>)
    ensures
        forall|i: int|
            0 <= i < tree_files_of(s, c).len() ==> exists|j: int|
                0 <= j < s.len() && (#[trigger] tree_files_of(s, c)[i]) == (#[trigger] s[j].path@),
    decreases s.len(),
{
    if s.len() > 0 {
        lemma_tree_files_members(s.drop_last(), c);
        let rest = tree_files_of(s.drop_last(), c);
        assert forall|i: int| 0 <= i < tree_files_of(s, c).len() implies exists|j: int|
            0 <= j < s.len() && (#[trigger] tree_files_of(s, c)[i]) == (#[trigger] s[j].path@) by {
            if i < rest.len() {
                assert(tree_files_of(s, c)[i] == rest[i]);
                let j = choose|j: int|
                    0 <= j < s.drop_last().len() && (#[trigger] rest[i]) == (
                    #[trigger] s.drop_last()[j].path@);
                assert(tree_files_of(s, c)[i] == s[j].path@);
            } else {
                assert(tree_files_of(s, c)[i] == s[s.len() - 1].path@);
            }
        }
    }
}

impl Disk {
    /// The file and directory paths directly inside `c`, in disk
    /// order.
    pub fn children_of(&self, c: &FsPath) -> (r: (Vec<FsPath>, Vec<FsPath>))
        ensures
            views_of(r.0@) == child_files_of(self.files@, c@),
            views_of(r.1@) == child_dirs_of(self.dirs@, c@),
    {
        broadcast use crate::paths::lemma_views_of_push;

        let mut out_f: Vec<FsPath> = Vec::new();
        let mut i: usize = 0;
        proof {
            assert(self.files@.take(0) =~= Seq::<FileNode>::empty());
            assert(views_of(out_f@) =~= child_files_of(self.files@.take(0), c@));
        }
        while i < self.files.len()
            invariant
                i <= self.files@.len(),
                views_of(out_f@) == child_files_of(self.files@.take(i as int), c@),
            decreases self.files@.len() - i,
        {
            proof {
                assert(self.files@.take(i as int + 1).drop_last() =~= self.files@.take(i as int));
                assert(self.files@.take(i as int + 1).last() == self.files@[i as int]);
            }
            let node_path = &self.files[i].path;
            if node_path.seg_count() > 0 && node_path.seg_count() - 1 == c.seg_count() {
                let par = node_path.parent_path();
                if par.path_eq(c) {
                    out_f.push(node_path.clone());
                }
            } else {
                proof {
                    assert(!is_child_of(self.files@[i as int].path@, c@));
                }
            }
            i += 1;
        }
        proof {
            assert(self.files@.take(self.files@.len() as int) =~= self.files@);
        }
        let mut out_d: Vec<FsPath> = Vec::new();
        let mut h: usize = 0;
        proof {
            assert(self.dirs@.take(0) =~= Seq::<DirNode>::empty());
            assert(views_of(out_d@) =~= child_dirs_of(self.dirs@.take(0), c@));
        }
        while h < self.dirs.len()
            invariant
                h <= self.dirs@.len(),
                views_of(out_d@) == child_dirs_of(self.dirs@.take(h as int), c@),
            decreases self.dirs@.len() - h,
        {
            proof {
                assert(self.dirs@.take(h as int + 1).drop_last() =~= self.dirs@.take(h as int));
                assert(self.dirs@.take(h as int + 1).last() == self.dirs@[h as int]);
            }
            let node_path = &self.dirs[h].path;
            if node_path.seg_count() > 0 && node_path.seg_count() - 1 == c.seg_count() {
                let par = node_path.parent_path();
                if par.path_eq(c) {
                    out_d.push(node_path.clone());
                }
            } else {
                proof {
                    assert(!is_child_of(self.dirs@[h as int].path@, c@));
                }
            }
            h += 1;
        }
        proof {
            assert(self.dirs@.take(self.dirs@.len() as int) =~= self.dirs@);
        }
        (out_f, out_d)
    }

    /// Every file path strictly below `c`, in disk order: the flat
    /// recursive file enumeration of a subtree.
    pub fn tree_under(&self, c: &FsPath) -> (r: Vec<FsPath>)
        ensures
            views_of(r@) == tree_files_of(self.files@, c@),
    {
        broadcast use crate::paths::lemma_views_of_push;

        let mut out: Vec<FsPath> = Vec::new();
        let mut i: usize = 0;
        proof {
            assert(self.files@.take(0) =~= Seq::<FileNode>::empty());
            assert(views_of(out@) =~= tree_files_of(self.files@.take(0), c@));
        }
        while i < self.files.len()
            invariant
                i <= self.files@.len(),
                views_of(out@) == tree_files_of(self.files@.take(i as int), c@),
            decreases self.files@.len() - i,
        {
            proof {
                assert(self.files@.take(i as int + 1).drop_last() =~= self.files@.take(i as int));
                assert(self.files@.take(i as int + 1).last() == self.files@[i as int]);
            }
            let node_path = &self.files[i].path;
            if node_path.starts_with_path(c) && node_path.seg_count() > c.seg_count() {
                out.push(node_path.clone());
            }
            i += 1;
        }
        proof {
            assert(self.files@.take(self.files@.len() as int) =~= self.files@);
        }
        out
    }

    /// Does anything lie strictly below `p`?
    pub fn has_entry_under(&self, p: &FsPath) -> (b: bool)
        requires
            self.wf(),
        ensures
            b == some_entry_under(*self, p@),
    {
        let mut i: usize = 0;
        while i < self.files.len()
            invariant
                self.wf(),
                i <= self.files@.len(),
                forall|j: int|
                    0 <= j < i ==> !is_strictly_under(#[trigger] self.files@[j].path@, p@),
            decreases self.files@.len() - i,
        {
            let node_path = &self.files[i].path;
            if node_path.starts_with_path(p) && node_path.seg_count() > p.seg_count() {
                proof {
                    lemma_files_map_get(self.files@, i as int);
                    assert(self@.files.contains_key(self.files@[i as int].path@));
                }
                return true;
            }
            i += 1;
        }
        let mut h: usize = 0;
        while h < self.dirs.len()
            invariant
                self.wf(),
                h <= self.dirs@.len(),
                forall|j: int|
                    0 <= j < self.files@.len() ==> !is_strictly_under(
                        #[trigger] self.files@[j].path@,
                        p@,
                    ),
                forall|j: int|
                    0 <= j < h ==> !is_strictly_under(#[trigger] self.dirs@[j].path@, p@),
            decreases self.dirs@.len() - h,
        {
            let node_path = &self.dirs[h].path;
            if node_path.starts_with_path(p) && node_path.seg_count() > p.seg_count() {
                proof {
                    lemma_dirs_map_get(self.dirs@, h as int);
                    assert(self@.dirs.contains_key(self.dirs@[h as int].path@));
                }
                return true;
            }
            h += 1;
        }
        proof {
            lemma_files_map_keys(self.files@);
            lemma_dirs_map_keys(self.dirs@);
            if some_entry_under(*self, p@) {
                let k = choose|k: Seq<Seq<char>>|
                    (#[trigger] self@.files.contains_key(k) || #[trigger] self@.dirs.contains_key(
                        k,
                    )) && starts_with(k, p@) && k.len() > p@.len();
                if self@.files.contains_key(k) {
                    let j = choose|j: int|
                        0 <= j < self.files@.len() && (#[trigger] self.files@[j].path@) == k;
                    assert(false);
                } else {
                    let j = choose|j: int|
                        0 <= j < self.dirs@.len() && (#[trigger] self.dirs@[j].path@) == k;
                    assert(false);
                }
            }
        }
        false
    }
}

/// Splitting a path at a prefix boundary and rejoining gives it back.
pub proof fn lemma_take_skip(p: Seq<Seq<char>>, n: int)
    requires
        0 <= n <= p.len(),
    ensures
        p.take(n) + p.skip(n) == p,
{
    assert(p.take(n) + p.skip(n) =~= p);
}

/// Under a prefix, the remainder after the prefix rejoins to the
/// whole.
pub proof fn lemma_prefix_rejoin(p: Seq<Seq<char>>, pre: Seq<Seq<char>>)
    requires
        starts_with(p, pre),
    ensures
        pre + p.skip(pre.len() as int) == p,
{
    lemma_take_skip(p, pre.len() as int);
}

/// The remainder of a concatenation after its first part.
pub proof fn lemma_concat_skip(a: Seq<Seq<char>>, b: Seq<Seq<char>>)
    ensures
        (a + b).skip(a.len() as int) == b,
        (a + b).take(a.len() as int) == a,
{
    assert((a + b).skip(a.len() as int) =~= b);
    assert((a + b).take(a.len() as int) =~= a);
}

/// In a well-formed disk every proper, non-empty prefix of an entry's
/// path is a directory.
pub proof fn lemma_ancestors_are_dirs(d: Disk, k: Seq<Seq<char>>, m: int)
    requires
        d.wf(),
        d@.files.contains_key(k) || d@.dirs.contains_key(k),
        1 <= m < k.len(),
    ensures
        d@.dirs.contains_key(k.take(m)),
    decreases k.len(),
{
    let parent = k.drop_last();
    assert(parent =~= k.take(k.len() - 1));
    assert(dir_exists(d@, parent));
    assert(parent.len() >= 1);
    if m == k.len() - 1 {
    } else {
        lemma_ancestors_are_dirs(d, parent, m);
        assert(parent.take(m) =~= k.take(m));
    }
}

impl Disk {
    /// Create every missing directory along `t`, nearest the root
    /// first: the model form of a recursive directory creation.
    pub fn make_dirs_along(&mut self, t: &FsPath, now: i64)
        requires
            old(self).wf(),
            valid_segs(t@),
            forall|q: int| 1 <= q <= t@.len() ==> !old(self)@.files.contains_key(#[trigger] t@.take(q)),
        ensures
            final(self).wf(),
            final(self)@.files == old(self)@.files,
            final(self).files@ == old(self).files@,
            final(self)@.dirs == Map::new(
                |k: Seq<Seq<char>>|
                    old(self)@.dirs.contains_key(k) || (k.len() >= 1 && starts_with(t@, k)),
                |k: Seq<Seq<char>>|
                    if old(self)@.dirs.contains_key(k) {
                        old(self)@.dirs[k]
                    } else {
                        DirView { created: now, modified: now }
                    },
            ),
    {
        let ghost target_dirs = Map::new(
            |k: Seq<Seq<char>>|
                old(self)@.dirs.contains_key(k) || (k.len() >= 1 && starts_with(t@, k)),
            |k: Seq<Seq<char>>|
                if old(self)@.dirs.contains_key(k) {
                    old(self)@.dirs[k]
                } else {
                    DirView { created: now, modified: now }
                },
        );
        let n = t.seg_count();
        let mut q: usize = 0;
        proof {
            assert(self@.dirs =~= Map::new(
                |k: Seq<Seq<char>>|
                    old(self)@.dirs.contains_key(k) || (1 <= k.len() <= 0 && starts_with(t@, k)),
                |k: Seq<Seq<char>>|
                    if old(self)@.dirs.contains_key(k) {
                        old(self)@.dirs[k]
                    } else {
                        DirView { created: now, modified: now }
                    },
            ));
        }
        while q < n
            invariant
                q <= n,
                n == t@.len(),
                valid_segs(t@),
                forall|p: int|
                    1 <= p <= t@.len() ==> !old(self)@.files.contains_key(#[trigger] t@.take(p)),
                self.wf(),
                self@.files == old(self)@.files,
                self.files@ == old(self).files@,
                self@.dirs == Map::new(
                    |k: Seq<Seq<char>>|
                        old(self)@.dirs.contains_key(k) || (1 <= k.len() <= q && starts_with(
                            t@,
                            k,
                        )),
                    |k: Seq<Seq<char>>|
                        if old(self)@.dirs.contains_key(k) {
                            old(self)@.dirs[k]
                        } else {
                            DirView { created: now, modified: now }
                        },
                ),
            decreases n - q,
        {
            let pre = t.prefix_of(q + 1);
            proof {
                assert(starts_with(t@, pre@)) by {
                    assert(t@.take(pre@.len() as int) =~= pre@);
                }
                assert(valid_segs(pre@)) by {
                    assert(forall|i: int| 0 <= i < pre@.len() ==> pre@[i] == t@[i]);
                }
                assert(!old(self)@.files.contains_key(pre@));
                if q >= 1 {
                    assert(pre@.drop_last() =~= t@.take(q as int));
                    assert(starts_with(t@, pre@.drop_last())) by {
                        assert(t@.take(q as int) =~= pre@.drop_last());
                    }
                }
            }
            if !self.has_dir(&pre) {
                proof {
                    if q >= 1 {
                        assert(self@.dirs.contains_key(pre@.drop_last())) by {
                            assert(1 <= pre@.drop_last().len() <= q);
                        }
                    }
                    assert(dir_exists(self@, pre@.drop_last()));
                }
                self.add_dir(&pre, now);
            }
            proof {
                assert(self@.dirs =~= Map::new(
                    |k: Seq<Seq<char>>|
                        old(self)@.dirs.contains_key(k) || (1 <= k.len() <= q + 1 && starts_with(
                            t@,
                            k,
                        )),
                    |k: Seq<Seq<char>>|
                        if old(self)@.dirs.contains_key(k) {
                            old(self)@.dirs[k]
                        } else {
                            DirView { created: now, modified: now }
                        },
                )) by {
                    assert(forall|k: Seq<Seq<char>>|
                        #![trigger starts_with(t@, k)]
                        k.len() == q + 1 && starts_with(t@, k) ==> k == pre@);
                }
            }
            q += 1;
        }
        proof {
            assert(self@.dirs =~= target_dirs) by {
                assert(forall|k: Seq<Seq<char>>|
                    #![trigger starts_with(t@, k)]
                    k.len() >= 1 && starts_with(t@, k) ==> 1 <= k.len() <= n);
            }
        }
    }
}

/// Total bytes in a sequence of file nodes.
pub open spec fn data_sum(s: Seq<FileNode>) -> int
    decreases s.len(),
{
    if s.len() == 0 {
        0
    } else {
        data_sum(s.drop_last()) + s.last().data@.len()
    }
}

pub proof fn lemma_data_sum_nonneg(s: Seq<FileNode>)
    ensures
        data_sum(s) >= 0,
    decreases s.len(),
{
    if s.len() > 0 {
        lemma_data_sum_nonneg(s.drop_last());
    }
}

pub proof fn lemma_data_sum_take_le(s: Seq<FileNode>, i: int)
    requires
        0 <= i <= s.len(),
    ensures
        data_sum(s.take(i)) <= data_sum(s),
    decreases s.len() - i,
{
    if i == s.len() {
        assert(s.take(i) =~= s);
    } else {
        assert(s.take(i + 1).drop_last() =~= s.take(i));
        assert(s.take(i + 1).last() == s[i]);
        lemma_data_sum_take_le(s, i + 1);
    }
}

pub proof fn lemma_data_sum_take_step(s: Seq<FileNode>, i: int)
    requires
        0 <= i < s.len(),
    ensures
        data_sum(s.take(i + 1)) == data_sum(s.take(i)) + s[i].data@.len(),
{
    assert(s.take(i + 1).drop_last() =~= s.take(i));
    assert(s.take(i + 1).last() == s[i]);
}

/// With unique paths and no file at `c` itself, the usage under `c`
/// is the sum over the files strictly below it.
pub open spec fn strict_usage(s: Seq<FileNode>, c: Seq<Seq<char>>) -> int
    decreases s.len(),
{
    if s.len() == 0 {
        0
    } else {
        strict_usage(s.drop_last(), c) + if is_strictly_under(s.last().path@, c) {
            s.last().data@.len() as int
        } else {
            0
        }
    }
}

pub proof fn lemma_usage_strict(s: Seq<FileNode>, c: Seq<Seq<char>>)
    requires
        !files_map(s).contains_key(c),
    ensures
        usage_of(s, c) == strict_usage(s, c),
    decreases s.len(),
{
    if s.len() > 0 {
        assert(!files_map(s.drop_last()).contains_key(c)) by {
            lemma_files_map_keys(s);
            lemma_files_map_keys(s.drop_last());
            if files_map(s.drop_last()).contains_key(c) {
                let i = choose|i: int|
                    0 <= i < s.drop_last().len() && (#[trigger] s.drop_last()[i].path@) == c;
                assert(s[i].path@ == c);
            }
        }
        lemma_usage_strict(s.drop_last(), c);
        assert(s.last().path@ != c) by {
            lemma_files_map_keys(s);
            assert(s[s.len() - 1].path@ == s.last().path@);
        }
        if starts_with(s.last().path@, c) {
            assert(s.last().path@.len() >= c.len());
            if s.last().path@.len() == c.len() {
                assert(s.last().path@.take(c.len() as int) =~= s.last().path@);
                assert(false);
            }
            assert(is_strictly_under(s.last().path@, c));
        }
    }
}

pub proof fn lemma_strict_usage_take_step(s: Seq<FileNode>, c: Seq<Seq<char>>, i: int)
    requires
        0 <= i < s.len(),
    ensures
        strict_usage(s.take(i + 1), c) == strict_usage(s.take(i), c) + if is_strictly_under(
            s[i].path@,
            c,
        ) {
            s[i].data@.len() as int
        } else {
            0
        },
{
    assert(s.take(i + 1).drop_last() =~= s.take(i));
    assert(s.take(i + 1).last() == s[i]);
}

impl Disk {
    /// Clones of every file node strictly below `c`: the read half of
    /// a recursive copy, snapshotted before any mutation.
    pub fn snapshot_files_under(&self, c: &FsPath) -> (r: Vec<FileNode>)
        requires
            self.wf(),
        ensures
            forall|a: int|
                0 <= a < r@.len() ==> is_strictly_under(#[trigger] r@[a].path@, c@)
                    && self@.files.contains_key(r@[a].path@) && r@[a]@ == self@.files[r@[a].path@]
                    && valid_segs(r@[a].path@),
            forall|k: Seq<Seq<char>>|
                #[trigger] self@.files.contains_key(k) && is_strictly_under(k, c@)
                    ==> exists|a: int| 0 <= a < r@.len() && (#[trigger] r@[a].path@) == k,
            uniq_file_paths(r@),
            data_sum(r@) == strict_usage(self.files@, c@),
    {
        let ghost s0 = self.files@;
        let mut out: Vec<FileNode> = Vec::new();
        let mut i: usize = 0;
        proof {
            assert(s0.take(0) =~= Seq::<FileNode>::empty());
        }
        while i < self.files.len()
            invariant
                self.wf(),
                self.files@ == s0,
                i <= s0.len(),
                forall|a: int|
                    0 <= a < out@.len() ==> is_strictly_under(#[trigger] out@[a].path@, c@)
                        && self@.files.contains_key(out@[a].path@) && out@[a]@
                        == self@.files[out@[a].path@] && valid_segs(out@[a].path@),
                forall|j: int|
                    0 <= j < i && is_strictly_under(#[trigger] s0[j].path@, c@) ==> exists|a: int|
                        0 <= a < out@.len() && (#[trigger] out@[a].path@) == s0[j].path@,
                forall|a: int|
                    0 <= a < out@.len() ==> exists|j: int|
                        0 <= j < i && (#[trigger] out@[a].path@) == s0[j].path@,
                uniq_file_paths(out@),
                data_sum(out@) == strict_usage(s0.take(i as int), c@),
            decreases s0.len() - i,
        {
            proof {
                lemma_strict_usage_take_step(s0, c@, i as int);
            }
            let node_path = &self.files[i].path;
            if node_path.starts_with_path(c) && node_path.seg_count() > c.seg_count() {
                let ghost o0 = out@;
                proof {
                    lemma_files_map_get(s0, i as int);
                }
                let n = clone_file_node(&self.files[i]);
                out.push(n);
                proof {
                    assert(out@.drop_last() =~= o0);
                    assert forall|a: int| 0 <= a < o0.len() implies (#[trigger] o0[a].path@)
                        != n.path@ by {
                        let j = choose|j: int|
                            0 <= j < i && (#[trigger] o0[a].path@) == s0[j].path@;
                        assert(s0[j].path@ != s0[i as int].path@);
                    }
                    lemma_uniq_files_push(o0, n);
                    assert forall|a: int| 0 <= a < out@.len() implies is_strictly_under(
                        #[trigger] out@[a].path@,
                        c@,
                    ) && self@.files.contains_key(out@[a].path@) && out@[a]@
                        == self@.files[out@[a].path@] && valid_segs(out@[a].path@) by {
                        if a < o0.len() {
                            assert(out@[a] == o0[a]);
                        } else {
                            assert(out@[a] == n);
                        }
                    }
                    assert forall|a: int| 0 <= a < out@.len() implies exists|j: int|
                        0 <= j < i + 1 && (#[trigger] out@[a].path@) == s0[j].path@ by {
                        if a < o0.len() {
                            let j = choose|j: int|
                                0 <= j < i && (#[trigger] o0[a].path@) == s0[j].path@;
                            assert(out@[a].path@ == s0[j].path@);
                        } else {
                            assert(out@[a].path@ == s0[i as int].path@);
                        }
                    }
                    assert forall|j: int|
                        0 <= j < i + 1 && is_strictly_under(
                            #[trigger] s0[j].path@,
                            c@,
                        ) implies exists|a: int|
                        0 <= a < out@.len() && (#[trigger] out@[a].path@) == s0[j].path@ by {
                        if j < i {
                            let a = choose|a: int|
                                0 <= a < o0.len() && (#[trigger] o0[a].path@) == s0[j].path@;
                            assert(out@[a].path@ == s0[j].path@);
                        } else {
                            assert(out@[out@.len() - 1].path@ == s0[j].path@);
                        }
                    }
                }
            } else {
                proof {
                    assert(!is_strictly_under(s0[i as int].path@, c@));
                    assert forall|j: int|
                        0 <= j < i + 1 && is_strictly_under(
                            #[trigger] s0[j].path@,
                            c@,
                        ) implies exists|a: int|
                        0 <= a < out@.len() && (#[trigger] out@[a].path@) == s0[j].path@ by {
                        assert(j < i);
                        let a = choose|a: int|
                            0 <= a < out@.len() && (#[trigger] out@[a].path@) == s0[j].path@;
                    }
                }
            }
            i += 1;
        }
        proof {
            assert(s0.take(s0.len() as int) =~= s0);
            lemma_files_map_keys(s0);
            assert forall|k: Seq<Seq<char>>|
                #[trigger] self@.files.contains_key(k) && is_strictly_under(k, c@) implies exists|
                a: int,
            |
                0 <= a < out@.len() && (#[trigger] out@[a].path@) == k by {
                let j = choose|j: int| 0 <= j < s0.len() && (#[trigger] s0[j].path@) == k;
            }
        }
        out
    }

    /// Clones of every directory node strictly below `c`.
    pub fn snapshot_dirs_under(&self, c: &FsPath) -> (r: Vec<DirNode>)
        requires
            self.wf(),
        ensures
            forall|a: int|
                0 <= a < r@.len() ==> is_strictly_under(#[trigger] r@[a].path@, c@)
                    && self@.dirs.contains_key(r@[a].path@) && valid_segs(r@[a].path@),
            forall|k: Seq<Seq<char>>|
                #[trigger] self@.dirs.contains_key(k) && is_strictly_under(k, c@)
                    ==> exists|a: int| 0 <= a < r@.len() && (#[trigger] r@[a].path@) == k,
            uniq_dir_paths(r@),
    {
        let ghost d0 = self.dirs@;
        let mut out: Vec<DirNode> = Vec::new();
        let mut i: usize = 0;
        while i < self.dirs.len()
            invariant
                self.wf(),
                self.dirs@ == d0,
                i <= d0.len(),
                forall|a: int|
                    0 <= a < out@.len() ==> is_strictly_under(#[trigger] out@[a].path@, c@)
                        && self@.dirs.contains_key(out@[a].path@) && valid_segs(out@[a].path@),
                forall|j: int|
                    0 <= j < i && is_strictly_under(#[trigger] d0[j].path@, c@) ==> exists|a: int|
                        0 <= a < out@.len() && (#[trigger] out@[a].path@) == d0[j].path@,
                forall|a: int|
                    0 <= a < out@.len() ==> exists|j: int|
                        0 <= j < i && (#[trigger] out@[a].path@) == d0[j].path@,
                uniq_dir_paths(out@),
            decreases d0.len() - i,
        {
            let node_path = &self.dirs[i].path;
            if node_path.starts_with_path(c) && node_path.seg_count() > c.seg_count() {
                let ghost o0 = out@;
                proof {
                    lemma_dirs_map_get(d0, i as int);
                }
                let n = clone_dir_node(&self.dirs[i]);
                out.push(n);
                proof {
                    assert(out@.drop_last() =~= o0);
                    assert forall|a: int| 0 <= a < o0.len() implies (#[trigger] o0[a].path@)
                        != n.path@ by {
                        let j = choose|j: int|
                            0 <= j < i && (#[trigger] o0[a].path@) == d0[j].path@;
                        assert(d0[j].path@ != d0[i as int].path@);
                    }
                    lemma_uniq_dirs_push(o0, n);
                    assert forall|a: int| 0 <= a < out@.len() implies is_strictly_under(
                        #[trigger] out@[a].path@,
                        c@,
                    ) && self@.dirs.contains_key(out@[a].path@) && valid_segs(out@[a].path@) by {
                        if a < o0.len() {
                            assert(out@[a] == o0[a]);
                        } else {
                            assert(out@[a] == n);
                        }
                    }
                    assert forall|a: int| 0 <= a < out@.len() implies exists|j: int|
                        0 <= j < i + 1 && (#[trigger] out@[a].path@) == d0[j].path@ by {
                        if a < o0.len() {
                            let j = choose|j: int|
                                0 <= j < i && (#[trigger] o0[a].path@) == d0[j].path@;
                            assert(out@[a].path@ == d0[j].path@);
                        } else {
                            assert(out@[a].path@ == d0[i as int].path@);
                        }
                    }
                    assert forall|j: int|
                        0 <= j < i + 1 && is_strictly_under(
                            #[trigger] d0[j].path@,
                            c@,
                        ) implies exists|a: int|
                        0 <= a < out@.len() && (#[trigger] out@[a].path@) == d0[j].path@ by {
                        if j < i {
                            let a = choose|a: int|
                                0 <= a < out@.len() - 1 && (#[trigger] o0[a].path@)
                                    == d0[j].path@;
                            assert(out@[a].path@ == d0[j].path@);
                        } else {
                            assert(out@[out@.len() - 1].path@ == d0[j].path@);
                        }
                    }
                }
            } else {
                proof {
                    assert(!is_strictly_under(d0[i as int].path@, c@));
                    assert forall|j: int|
                        0 <= j < i + 1 && is_strictly_under(
                            #[trigger] d0[j].path@,
                            c@,
                        ) implies exists|a: int|
                        0 <= a < out@.len() && (#[trigger] out@[a].path@) == d0[j].path@ by {
                        assert(j < i);
                        let a = choose|a: int|
                            0 <= a < out@.len() && (#[trigger] out@[a].path@) == d0[j].path@;
                    }
                }
            }
            i += 1;
        }
        proof {
            lemma_dirs_map_keys(d0);
            assert forall|k: Seq<Seq<char>>|
                #[trigger] self@.dirs.contains_key(k) && is_strictly_under(k, c@) implies exists|
                a: int,
            |
                0 <= a < out@.len() && (#[trigger] out@[a].path@) == k by {
                let j = choose|j: int| 0 <= j < d0.len() && (#[trigger] d0[j].path@) == k;
            }
        }
        out
    }
}

/// Without a directory at `t` nothing can lie strictly below `t`.
pub proof fn lemma_no_strict_descendants(d: Disk, t: Seq<Seq<char>>, k: Seq<Seq<char>>)
    requires
        d.wf(),
        t.len() >= 1,
        !d@.dirs.contains_key(t),
        d@.files.contains_key(k) || d@.dirs.contains_key(k),
    ensures
        !is_strictly_under(k, t),
{
    if is_strictly_under(k, t) {
        lemma_ancestors_are_dirs(d, k, t.len() as int);
        assert(k.take(t.len() as int) == t);
    }
}

/// Where a rename of the subtree at `cs` to `ct` sends a key.
pub open spec fn retargeted(k: Seq<Seq<char>>, cs: Seq<Seq<char>>, ct: Seq<Seq<char>>) -> Seq<
    Seq<char>,
> {
    if starts_with(k, cs) {
        ct + k.skip(cs.len() as int)
    } else {
        k
    }
}

/// A keyed map after renaming the subtree at `cs` to `ct`: entries
/// outside the subtree keep their keys, entries inside reappear under
/// `ct`.
pub open spec fn moved_map<V>(
    m: Map<Seq<Seq<char>>, V>,
    cs: Seq<Seq<char>>,
    ct: Seq<Seq<char>>,
) -> Map<Seq<Seq<char>>, V> {
    Map::new(
        |k: Seq<Seq<char>>|
            (m.contains_key(k) && !starts_with(k, cs)) || (starts_with(k, ct) && m.contains_key(
                cs + k.skip(ct.len() as int),
            )),
        |k: Seq<Seq<char>>|
            if starts_with(k, ct) && m.contains_key(cs + k.skip(ct.len() as int)) {
                m[cs + k.skip(ct.len() as int)]
            } else {
                m[k]
            },
    )
}

/// Renaming commutes with inserting an entry outside the subtree and
/// outside the target.
pub proof fn lemma_moved_map_insert_outside<V>(
    m: Map<Seq<Seq<char>>, V>,
    cs: Seq<Seq<char>>,
    ct: Seq<Seq<char>>,
    k: Seq<Seq<char>>,
    v: V,
)
    requires
        !starts_with(k, cs),
        !starts_with(k, ct),
    ensures
        moved_map(m.insert(k, v), cs, ct) == moved_map(m, cs, ct).insert(k, v),
{
    assert forall|q: Seq<Seq<char>>| true implies #[trigger] moved_map(
        m.insert(k, v),
        cs,
        ct,
    ).contains_key(q) == moved_map(m, cs, ct).insert(k, v).contains_key(q) && (moved_map(
        m.insert(k, v),
        cs,
        ct,
    ).contains_key(q) ==> moved_map(m.insert(k, v), cs, ct)[q] == moved_map(m, cs, ct).insert(
        k,
        v,
    )[q]) by {
        if q != k {
            if starts_with(q, ct) {
                let key = cs + q.skip(ct.len() as int);
                assert(key != k) by {
                    lemma_starts_with_concat(cs, q.skip(ct.len() as int));
                }
            }
        } else {
            assert(!starts_with(k, ct));
        }
    }
    assert(moved_map(m.insert(k, v), cs, ct) =~= moved_map(m, cs, ct).insert(k, v));
}

/// Renaming sends an insert inside the subtree to an insert at the
/// retargeted key.
pub proof fn lemma_moved_map_insert_inside<V>(
    m: Map<Seq<Seq<char>>, V>,
    cs: Seq<Seq<char>>,
    ct: Seq<Seq<char>>,
    k: Seq<Seq<char>>,
    v: V,
)
    requires
        starts_with(k, cs),
        !starts_with(ct, cs),
    ensures
        moved_map(m.insert(k, v), cs, ct) == moved_map(m, cs, ct).insert(
            ct + k.skip(cs.len() as int),
            v,
        ),
{
    let kk = ct + k.skip(cs.len() as int);
    lemma_prefix_rejoin(k, cs);
    lemma_concat_skip(ct, k.skip(cs.len() as int));
    lemma_starts_with_concat(ct, k.skip(cs.len() as int));
    assert forall|q: Seq<Seq<char>>| true implies #[trigger] moved_map(
        m.insert(k, v),
        cs,
        ct,
    ).contains_key(q) == moved_map(m, cs, ct).insert(kk, v).contains_key(q) && (moved_map(
        m.insert(k, v),
        cs,
        ct,
    ).contains_key(q) ==> moved_map(m.insert(k, v), cs, ct)[q] == moved_map(m, cs, ct).insert(
        kk,
        v,
    )[q]) by {
        if q == kk {
            assert(kk.skip(ct.len() as int) == k.skip(cs.len() as int));
            assert(cs + kk.skip(ct.len() as int) == k);
            assert(m.insert(k, v).contains_key(cs + kk.skip(ct.len() as int)));
            assert(m.insert(k, v)[cs + kk.skip(ct.len() as int)] == v);
        } else {
            if starts_with(q, ct) {
                let key = cs + q.skip(ct.len() as int);
                if key == k {
                    lemma_concat_skip(cs, q.skip(ct.len() as int));
                    lemma_prefix_rejoin(q, ct);
                    assert(q.skip(ct.len() as int) == k.skip(cs.len() as int));
                    assert(q == ct + q.skip(ct.len() as int));
                    assert(false);
                }
            }
            if q == k {
                // the inserted key itself lies inside the subtree, so
                // only the target side can report it
                if starts_with(q, ct) && m.insert(k, v).contains_key(cs + q.skip(ct.len() as int)) {
                    assert(cs + q.skip(ct.len() as int) != k) by {
                        if cs + q.skip(ct.len() as int) == k {
                            lemma_concat_skip(cs, q.skip(ct.len() as int));
                            assert(q.skip(ct.len() as int) == k.skip(cs.len() as int));
                            lemma_prefix_rejoin(q, ct);
                            assert(q == ct + k.skip(cs.len() as int));
                            assert(false);
                        }
                    }
                }
            }
        }
    }
    assert(moved_map(m.insert(k, v), cs, ct) =~= moved_map(m, cs, ct).insert(kk, v));
}

/// Retargeting is injective on paths that are inside the subtree or
/// clear of the target.
pub proof fn lemma_retargeted_distinct(
    x: Seq<Seq<char>>,
    y: Seq<Seq<char>>,
    cs: Seq<Seq<char>>,
    ct: Seq<Seq<char>>,
)
    requires
        x != y,
        !starts_with(ct, cs),
        starts_with(x, cs) || !starts_with(x, ct),
        starts_with(y, cs) || !starts_with(y, ct),
    ensures
        retargeted(x, cs, ct) != retargeted(y, cs, ct),
{
    if starts_with(x, cs) && starts_with(y, cs) {
        lemma_prefix_rejoin(x, cs);
        lemma_prefix_rejoin(y, cs);
        if retargeted(x, cs, ct) == retargeted(y, cs, ct) {
            lemma_concat_skip(ct, x.skip(cs.len() as int));
            lemma_concat_skip(ct, y.skip(cs.len() as int));
            assert(x.skip(cs.len() as int) == y.skip(cs.len() as int));
            assert(false);
        }
    } else if starts_with(x, cs) {
        lemma_starts_with_concat(ct, x.skip(cs.len() as int));
        if retargeted(x, cs, ct) == retargeted(y, cs, ct) {
            assert(starts_with(y, ct));
            assert(false);
        }
    } else if starts_with(y, cs) {
        lemma_starts_with_concat(ct, y.skip(cs.len() as int));
        if retargeted(x, cs, ct) == retargeted(y, cs, ct) {
            assert(starts_with(x, ct));
            assert(false);
        }
    }
}

impl Disk {
    /// Rename the file at `cs` to `ct`, keeping its bytes and stamps:
    /// the model form of a rename of one file.
    pub fn relocate_file(&mut self, cs: &FsPath, ct: &FsPath)
        requires
            old(self).wf(),
            old(self)@.files.contains_key(cs@),
            cs@ != ct@,
            valid_segs(ct@),
            ct@.len() >= 1,
            !old(self)@.dirs.contains_key(ct@),
            dir_exists(old(self)@, ct@.drop_last()),
        ensures
            final(self).wf(),
            final(self)@.files == old(self)@.files.remove(cs@).insert(ct@, old(self)@.files[cs@]),
            final(self)@.dirs == old(self)@.dirs,
            final(self).dirs@ == old(self).dirs@,
    {
        let ghost m0 = self@.files;
        // The host rename replaces an existing file at the target.
        match self.find_file_idx(ct) {
            Some(j) => {
                proof {
                    lemma_files_map_get(self.files@, j as int);
                }
                self.remove_file_at(ct);
            },
            None => {},
        }
        proof {
            assert(self@.files.contains_key(cs@));
        }
        let ghost s0 = self.files@;
        let r = self.find_file_idx(cs);
        match r {
            Some(i) => {
                proof {
                    lemma_files_map_get(s0, i as int);
                }
                let node = self.files.remove(i);
                let moved = FileNode {
                    path: ct.clone(),
                    data: node.data,
                    created: node.created,
                    modified: node.modified,
                };
                self.files.push(moved);
                proof {
                    let s1 = s0.remove(i as int);
                    lemma_files_map_remove(s0, i as int);
                    lemma_files_map_push(s1, moved);
                    lemma_usage_remove(s0, i as int, Seq::empty());
                    lemma_usage_push(s1, moved, Seq::empty());
                    lemma_starts_with_empty(s0[i as int].path@);
                    lemma_starts_with_empty(moved.path@);
                    assert(moved@ == old(self)@.files[cs@]);
                    assert(uniq_file_paths(self.files@)) by {
                        assert(forall|a: int, b: int|
                            0 <= a < b < s1.len() ==> (#[trigger] s1[a].path@) != (
                            #[trigger] s1[b].path@));
                        lemma_files_map_keys(s0);
                        assert forall|a: int| 0 <= a < s1.len() implies (#[trigger] s1[a].path@)
                            != ct@ by {
                            if s1[a].path@ == ct@ {
                                if a < i {
                                    assert(s0[a].path@ == ct@);
                                } else {
                                    assert(s0[a + 1].path@ == ct@);
                                }
                                assert(files_map(s0).contains_key(ct@));
                            }
                        }
                    }
                    assert(self@.files =~= old(self)@.files.remove(cs@).insert(
                        ct@,
                        old(self)@.files[cs@],
                    ));
                }
            },
            None => {
                proof {
                    assert(false);
                }
            },
        }
    }
}

/// After a subtree rename every moved or kept file still hangs under
/// a directory of the renamed disk.
#[verifier::rlimit(100)]
#[verifier::spinoff_prover]
pub proof fn lemma_moved_parent_exists_file(
    d: Disk,
    cs: Seq<Seq<char>>,
    ct: Seq<Seq<char>>,
    k: Seq<Seq<char>>,
)
    requires
        d.wf(),
        d@.dirs.contains_key(cs),
        cs.len() >= 1,
        ct.len() >= 1,
        !d@.files.contains_key(ct),
        !starts_with(ct, cs),
        dir_exists(d@, ct.drop_last()),
        moved_map(d@.files, cs, ct).contains_key(k),
    ensures
        k.len() >= 1,
        k.drop_last().len() == 0 || moved_map(d@.dirs, cs, ct).contains_key(k.drop_last()),
{
    if d@.files.contains_key(k) && !starts_with(k, cs) {
        lemma_files_map_keys(d.files@);
        let j = choose|j: int| 0 <= j < d.files@.len() && (#[trigger] d.files@[j].path@) == k;
        assert(k.len() >= 1);
        assert(dir_exists(d@, k.drop_last()));
        if k.drop_last().len() > 0 {
            assert(!starts_with(k.drop_last(), cs)) by {
                if starts_with(k.drop_last(), cs) {
                    lemma_starts_with_parent(k, cs);
                }
            }
            assert(moved_map(d@.dirs, cs, ct).contains_key(k.drop_last()));
        }
    } else {
        let src = cs + k.skip(ct.len() as int);
        assert(starts_with(k, ct));
        assert(d@.files.contains_key(src));
        assert(k != ct);
        assert(k.len() > ct.len()) by {
            if k.len() == ct.len() {
                assert(k.take(ct.len() as int) =~= k);
            }
        }
        let srcp = src.drop_last();
        assert(dir_exists(d@, srcp));
        assert(srcp.len() >= cs.len() >= 1) by {
            assert(src.len() == cs.len() + (k.len() - ct.len()));
        }
        assert(d@.dirs.contains_key(srcp));
        let kp = k.drop_last();
        assert(kp.len() >= ct.len());
        assert(starts_with(kp, ct)) by {
            assert(kp.take(ct.len() as int) =~= k.take(ct.len() as int));
        }
        assert(cs + kp.skip(ct.len() as int) =~= srcp);
        assert(moved_map(d@.dirs, cs, ct).contains_key(kp));
    }
}

#[verifier::rlimit(100)]
#[verifier::spinoff_prover]
pub proof fn lemma_moved_parent_exists_dir(
    d: Disk,
    cs: Seq<Seq<char>>,
    ct: Seq<Seq<char>>,
    k: Seq<Seq<char>>,
)
    requires
        d.wf(),
        d@.dirs.contains_key(cs),
        cs.len() >= 1,
        ct.len() >= 1,
        !starts_with(ct, cs),
        dir_exists(d@, ct.drop_last()),
        moved_map(d@.dirs, cs, ct).contains_key(k),
    ensures
        k.len() >= 1,
        k.drop_last().len() == 0 || moved_map(d@.dirs, cs, ct).contains_key(k.drop_last()),
{
    if d@.dirs.contains_key(k) && !starts_with(k, cs) {
        lemma_dirs_map_keys(d.dirs@);
        let j = choose|j: int| 0 <= j < d.dirs@.len() && (#[trigger] d.dirs@[j].path@) == k;
        assert(k.len() >= 1);
        assert(dir_exists(d@, k.drop_last()));
        if k.drop_last().len() > 0 {
            assert(!starts_with(k.drop_last(), cs)) by {
                if starts_with(k.drop_last(), cs) {
                    lemma_starts_with_parent(k, cs);
                }
            }
            assert(moved_map(d@.dirs, cs, ct).contains_key(k.drop_last()));
        }
    } else {
        let src = cs + k.skip(ct.len() as int);
        assert(starts_with(k, ct));
        assert(d@.dirs.contains_key(src));
        if k == ct {
            assert(k.len() >= 1);
            let kp = k.drop_last();
            if kp.len() > 0 {
                assert(d@.dirs.contains_key(kp)) by {
                    assert(dir_exists(d@, ct.drop_last()));
                }
                assert(!starts_with(kp, cs)) by {
                    if starts_with(kp, cs) {
                        lemma_starts_with_parent(ct, cs);
                    }
                }
                assert(moved_map(d@.dirs, cs, ct).contains_key(kp));
            }
        } else {
            assert(k.len() > ct.len()) by {
                if k.len() == ct.len() {
                    assert(k.take(ct.len() as int) =~= k);
                }
            }
            let srcp = src.drop_last();
            assert(dir_exists(d@, srcp));
            assert(srcp.len() >= cs.len() >= 1) by {
                assert(src.len() == cs.len() + (k.len() - ct.len()));
            }
            assert(d@.dirs.contains_key(srcp));
            let kp = k.drop_last();
            assert(kp.len() >= ct.len());
            assert(starts_with(kp, ct)) by {
                assert(kp.take(ct.len() as int) =~= k.take(ct.len() as int));
            }
            assert(cs + kp.skip(ct.len() as int) =~= srcp);
            assert(moved_map(d@.dirs, cs, ct).contains_key(kp));
        }
    }
}

impl Disk {
    /// Rename the whole subtree at `cs` to `ct`, stamps preserved:
    /// the model form of a directory rename.  The target is absent
    /// and not inside the moved subtree; the caller has removed an
    /// empty target directory beforehand.
    #[verifier::loop_isolation(false)]
    #[verifier::rlimit(60)]
    pub fn relocate_tree(&mut self, cs: &FsPath, ct: &FsPath)
        requires
            old(self).wf(),
            old(self)@.dirs.contains_key(cs@),
            valid_segs(ct@),
            cs@.len() >= 1,
            ct@.len() >= 1,
            !old(self)@.dirs.contains_key(ct@),
            !old(self)@.files.contains_key(ct@),
            !starts_with(ct@, cs@),
            dir_exists(old(self)@, ct@.drop_last()),
        ensures
            final(self).wf(),
            final(self)@.files == moved_map(old(self)@.files, cs@, ct@),
            final(self)@.dirs == moved_map(old(self)@.dirs, cs@, ct@),
    {
        let ghost s0 = self.files@;
        let ghost d0 = self.dirs@;
        proof {
            lemma_files_map_keys(s0);
            lemma_dirs_map_keys(d0);
            // No entry lies at or under the absent target.
            assert forall|j: int| 0 <= j < s0.len() implies !starts_with(
                #[trigger] s0[j].path@,
                ct@,
            ) || starts_with(s0[j].path@, cs@) by {
                if starts_with(s0[j].path@, ct@) && !starts_with(s0[j].path@, cs@) {
                    assert(files_map(s0).contains_key(s0[j].path@));
                    if s0[j].path@.len() == ct@.len() {
                        assert(s0[j].path@.take(ct@.len() as int) =~= s0[j].path@);
                    } else {
                        lemma_no_strict_descendants(*old(self), ct@, s0[j].path@);
                    }
                }
            }
            assert forall|j: int| 0 <= j < d0.len() implies !starts_with(
                #[trigger] d0[j].path@,
                ct@,
            ) || starts_with(d0[j].path@, cs@) by {
                if starts_with(d0[j].path@, ct@) && !starts_with(d0[j].path@, cs@) {
                    assert(dirs_map(d0).contains_key(d0[j].path@));
                    if d0[j].path@.len() == ct@.len() {
                        assert(d0[j].path@.take(ct@.len() as int) =~= d0[j].path@);
                    } else {
                        lemma_no_strict_descendants(*old(self), ct@, d0[j].path@);
                    }
                }
            }
        }
        let mut out_f: Vec<FileNode> = Vec::new();
        let mut i: usize = 0;
        proof {
            assert(s0.take(0) =~= Seq::<FileNode>::empty());
            assert(files_map(out_f@) =~= moved_map(files_map(s0.take(0)), cs@, ct@));
        }
        while i < self.files.len()
            invariant
                i <= s0.len(),
                self.files@ == s0,
                self.dirs@ == d0,
                files_map(out_f@) == moved_map(files_map(s0.take(i as int)), cs@, ct@),
                out_f@.len() == i,
                forall|a: int|
                    0 <= a < i ==> (#[trigger] out_f@[a].path@) == retargeted(
                        s0[a].path@,
                        cs@,
                        ct@,
                    ) && out_f@[a]@ == s0[a]@,
                uniq_file_paths(out_f@),
                forall|a: int|
                    0 <= a < out_f@.len() ==> valid_segs(#[trigger] out_f@[a].path@)
                        && out_f@[a].path@.len() >= 1,
                usage_of(out_f@, Seq::empty()) == usage_of(s0.take(i as int), Seq::empty()),
            decreases s0.len() - i,
        {
            proof {
                assert(s0.take(i as int + 1).drop_last() =~= s0.take(i as int));
                assert(s0.take(i as int + 1).last() == s0[i as int]);
                lemma_usage_take_step(s0, Seq::empty(), i as int);
                lemma_starts_with_empty(s0[i as int].path@);
            }
            let node = &self.files[i];
            let moved = if node.path.starts_with_path(cs) {
                let rel = node.path.strip_prefix(cs);
                let np = ct.join(&rel);
                proof {
                    lemma_prefix_rejoin(s0[i as int].path@, cs@);
                    assert(np@ == retargeted(s0[i as int].path@, cs@, ct@));
                    assert(valid_segs(np@)) by {
                        assert(forall|x: int|
                            0 <= x < np@.len() ==> #[trigger] np@[x] == if x < ct@.len() {
                                ct@[x]
                            } else {
                                s0[i as int].path@[x - ct@.len() + cs@.len()]
                            });
                    }
                }
                FileNode {
                    path: np,
                    data: clone_bytes(&node.data),
                    created: node.created,
                    modified: node.modified,
                }
            } else {
                proof {
                    assert(retargeted(s0[i as int].path@, cs@, ct@) == s0[i as int].path@);
                }
                clone_file_node(node)
            };
            let ghost o0 = out_f@;
            out_f.push(moved);
            proof {
                lemma_files_map_push(o0, moved);
                lemma_usage_push(o0, moved, Seq::empty());
                lemma_starts_with_empty(moved.path@);
                assert(files_map(s0.take(i as int + 1)) == files_map(s0.take(i as int)).insert(
                    s0[i as int].path@,
                    s0[i as int]@,
                ));
                if starts_with(s0[i as int].path@, cs@) {
                    lemma_moved_map_insert_inside(
                        files_map(s0.take(i as int)),
                        cs@,
                        ct@,
                        s0[i as int].path@,
                        s0[i as int]@,
                    );
                } else {
                    assert(!starts_with(s0[i as int].path@, ct@));
                    lemma_moved_map_insert_outside(
                        files_map(s0.take(i as int)),
                        cs@,
                        ct@,
                        s0[i as int].path@,
                        s0[i as int]@,
                    );
                }
                assert forall|a: int| 0 <= a < o0.len() implies (#[trigger] o0[a].path@)
                    != moved.path@ by {
                    lemma_retargeted_distinct(s0[a].path@, s0[i as int].path@, cs@, ct@);
                }
                lemma_uniq_files_push(o0, moved);
                assert forall|a: int| 0 <= a < out_f@.len() implies valid_segs(
                    #[trigger] out_f@[a].path@,
                ) && out_f@[a].path@.len() >= 1 by {
                    if a < o0.len() {
                        assert(out_f@[a] == o0[a]);
                    } else {
                        assert(out_f@[a] == moved);
                    }
                }
            }
            i += 1;
        }
        proof {
            assert(s0.take(s0.len() as int) =~= s0);
        }
        self.files = out_f;
        let mut out_d: Vec<DirNode> = Vec::new();
        let mut h: usize = 0;
        proof {
            assert(d0.take(0) =~= Seq::<DirNode>::empty());
            assert(dirs_map(out_d@) =~= moved_map(dirs_map(d0.take(0)), cs@, ct@));
        }
        while h < self.dirs.len()
            invariant
                h <= d0.len(),
                self.dirs@ == d0,
                dirs_map(out_d@) == moved_map(dirs_map(d0.take(h as int)), cs@, ct@),
                out_d@.len() == h,
                forall|a: int|
                    0 <= a < h ==> (#[trigger] out_d@[a].path@) == retargeted(
                        d0[a].path@,
                        cs@,
                        ct@,
                    ) && out_d@[a]@ == d0[a]@,
                uniq_dir_paths(out_d@),
                forall|a: int|
                    0 <= a < out_d@.len() ==> valid_segs(#[trigger] out_d@[a].path@)
                        && out_d@[a].path@.len() >= 1,
            decreases d0.len() - h,
        {
            proof {
                assert(d0.take(h as int + 1).drop_last() =~= d0.take(h as int));
                assert(d0.take(h as int + 1).last() == d0[h as int]);
            }
            let node = &self.dirs[h];
            let moved = if node.path.starts_with_path(cs) {
                let rel = node.path.strip_prefix(cs);
                let np = ct.join(&rel);
                proof {
                    lemma_prefix_rejoin(d0[h as int].path@, cs@);
                    assert(np@ == retargeted(d0[h as int].path@, cs@, ct@));
                    assert(valid_segs(np@)) by {
                        assert(forall|x: int|
                            0 <= x < np@.len() ==> #[trigger] np@[x] == if x < ct@.len() {
                                ct@[x]
                            } else {
                                d0[h as int].path@[x - ct@.len() + cs@.len()]
                            });
                    }
                }
                DirNode { path: np, created: node.created, modified: node.modified }
            } else {
                proof {
                    assert(retargeted(d0[h as int].path@, cs@, ct@) == d0[h as int].path@);
                }
                clone_dir_node(node)
            };
            let ghost o0 = out_d@;
            out_d.push(moved);
            proof {
                lemma_dirs_map_push(o0, moved);
                assert(dirs_map(d0.take(h as int + 1)) == dirs_map(d0.take(h as int)).insert(
                    d0[h as int].path@,
                    d0[h as int]@,
                ));
                if starts_with(d0[h as int].path@, cs@) {
                    lemma_moved_map_insert_inside(
                        dirs_map(d0.take(h as int)),
                        cs@,
                        ct@,
                        d0[h as int].path@,
                        d0[h as int]@,
                    );
                } else {
                    assert(!starts_with(d0[h as int].path@, ct@));
                    lemma_moved_map_insert_outside(
                        dirs_map(d0.take(h as int)),
                        cs@,
                        ct@,
                        d0[h as int].path@,
                        d0[h as int]@,
                    );
                }
                assert forall|a: int| 0 <= a < o0.len() implies (#[trigger] o0[a].path@)
                    != moved.path@ by {
                    lemma_retargeted_distinct(d0[a].path@, d0[h as int].path@, cs@, ct@);
                }
                lemma_uniq_dirs_push(o0, moved);
                assert forall|a: int| 0 <= a < out_d@.len() implies valid_segs(
                    #[trigger] out_d@[a].path@,
                ) && out_d@[a].path@.len() >= 1 by {
                    if a < o0.len() {
                        assert(out_d@[a] == o0[a]);
                    } else {
                        assert(out_d@[a] == moved);
                    }
                }
                assert forall|a: int| 0 <= a < h + 1 implies (#[trigger] out_d@[a].path@)
                    == retargeted(d0[a].path@, cs@, ct@) && out_d@[a]@ == d0[a]@ by {
                    if a < o0.len() {
                        assert(out_d@[a] == o0[a]);
                    } else {
                        assert(out_d@[a] == moved);
                    }
                }
            }
            h += 1;
        }
        proof {
            assert(d0.take(d0.len() as int) =~= d0);
        }
        self.dirs = out_d;
        proof {
            let mf = moved_map(old(self)@.files, cs@, ct@);
            let md = moved_map(old(self)@.dirs, cs@, ct@);
            assert(self@.files == mf);
            assert(self@.dirs == md);
            assert(final(self).wf()) by {
                assert forall|k: Seq<Seq<char>>| #[trigger] self@.files.contains_key(
                    k,
                ) implies !self@.dirs.contains_key(k) by {
                    if self@.dirs.contains_key(k) {
                        if old(self)@.files.contains_key(k) && !starts_with(k, cs@) {
                            if old(self)@.dirs.contains_key(k) && !starts_with(k, cs@) {
                                assert(false);
                            } else {
                                let key = cs@ + k.skip(ct@.len() as int);
                                assert(old(self)@.dirs.contains_key(key));
                                assert(starts_with(k, ct@));
                                lemma_files_map_keys(s0);
                                let j = choose|j: int|
                                    0 <= j < s0.len() && (#[trigger] s0[j].path@) == k;
                                assert(false);
                            }
                        } else {
                            let key = cs@ + k.skip(ct@.len() as int);
                            assert(old(self)@.files.contains_key(key));
                            if old(self)@.dirs.contains_key(k) && !starts_with(k, cs@) {
                                lemma_dirs_map_keys(d0);
                                let j = choose|j: int|
                                    0 <= j < d0.len() && (#[trigger] d0[j].path@) == k;
                                assert(false);
                            } else {
                                assert(old(self)@.dirs.contains_key(key));
                                assert(false);
                            }
                        }
                    }
                }
                assert forall|k: Seq<Seq<char>>| #[trigger] self@.files.contains_key(
                    k,
                ) implies dir_exists(self@, k.drop_last()) by {
                    lemma_moved_parent_exists_file(*old(self), cs@, ct@, k);
                }
                assert forall|k: Seq<Seq<char>>| #[trigger] self@.dirs.contains_key(
                    k,
                ) implies dir_exists(self@, k.drop_last()) by {
                    lemma_moved_parent_exists_dir(*old(self), cs@, ct@, k);
                }
                assert(usage_of(self.files@, Seq::empty()) <= u64::MAX);
            }
        }
    }
}

/// A single file's contribution is bounded by the whole usage.
pub proof fn lemma_usage_single(s: Seq<FileNode>, i: int)
    requires
        0 <= i < s.len(),
    ensures
        s[i].data@.len() <= usage_of(s, Seq::empty()),
    decreases s.len(),
{
    lemma_starts_with_empty(s.last().path@);
    if i == s.len() - 1 {
        lemma_usage_nonneg(s.drop_last(), Seq::empty());
    } else {
        assert(s.drop_last()[i] == s[i]);
        lemma_usage_single(s.drop_last(), i);
        assert(file_contrib(s.last(), Seq::empty()) >= 0);
    }
}

} // verus!
