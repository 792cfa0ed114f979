//! The per-user scoping layer.
//!
//! A `UserScopedFS` wraps a shared storage root and a user
//! identifier; its own root is the root plus one segment derived from
//! the identifier.  Every operation re-roots the caller's path under
//! that segment before delegating, and paths handed back are stripped
//! of the physical prefix, so a caller only ever sees paths relative
//! to its own scope.

use vstd::prelude::*;
use vstd::string::StringExecFns;
use crate::disk::DirView;
use crate::disk::Disk;
use crate::disk::FileView;
use crate::disk::child_dirs_of;
use crate::disk::child_files_of;
use crate::filesystem::copy_conflict;
use crate::disk::created_stamp;
use crate::disk::dir_exists;
use crate::disk::is_strictly_under;
use crate::disk::some_entry_under;
use crate::disk::tree_files_of;
use crate::disk::usage_of;
use crate::filesystem::FSError;
use crate::filesystem::FSRes;
use crate::filesystem::Filesystem;
use crate::filesystem::FsInfo;
use crate::filesystem::HostErrorKind;
use crate::filesystem::copy_dirs_after;
use crate::filesystem::copy_files_after;
use crate::filesystem::mime_of;
use crate::filesystem::source_size_of;
use crate::paths::FsPath;
use crate::paths::abs_string_of;
use crate::paths::rel_string_of;
use crate::paths::resolved_under;
use crate::paths::starts_with;
use crate::paths::valid_seg;
use crate::paths::valid_segs;
use crate::paths::views_of;
use crate::resolve::lemma_resolve_rendered_abs;
use crate::resolve::lemma_resolve_rendered_rel;
use crate::resolve::lemma_resolved_wf;
use crate::resolve::resolve_under;

verus! {

/// The decimal digits of `n`, most significant first.
pub open spec fn dec_seq(n: nat) -> Seq<char>
    decreases n,
{
    if n < 10 {
        seq![digit_char(n)]
    } else {
        dec_seq(n / 10).push(digit_char(n % 10))
    }
}

pub open spec fn digit_char(d: nat) -> char {
    if d == 0 {
        '0'
    } else if d == 1 {
        '1'
    } else if d == 2 {
        '2'
    } else if d == 3 {
        '3'
    } else if d == 4 {
        '4'
    } else if d == 5 {
        '5'
    } else if d == 6 {
        '6'
    } else if d == 7 {
        '7'
    } else if d == 8 {
        '8'
    } else {
        '9'
    }
}

/// The path segment a user identifier turns into: its decimal
/// rendering, minus sign included.
pub open spec fn uid_seq(n: int) -> Seq<char> {
    if n < 0 {
        seq!['-'] + dec_seq((-n) as nat)
    } else {
        dec_seq(n as nat)
    }
}

pub open spec fn is_digit_char(c: char) -> bool {
    c == '0' || c == '1' || c == '2' || c == '3' || c == '4' || c == '5' || c == '6' || c == '7'
        || c == '8' || c == '9'
}

pub proof fn lemma_dec_seq_digits(n: nat)
    ensures
        dec_seq(n).len() >= 1,
        forall|i: int| 0 <= i < dec_seq(n).len() ==> is_digit_char(#[trigger] dec_seq(n)[i]),
    decreases n,
{
    if n < 10 {
    } else {
        lemma_dec_seq_digits(n / 10);
    }
}

/// A user identifier's segment is a proper path segment.
pub proof fn lemma_uid_seg_valid(n: int)
    ensures
        valid_seg(uid_seq(n)),
{
    let s = uid_seq(n);
    if n < 0 {
        lemma_dec_seq_digits((-n) as nat);
        assert(s[0] == '-');
        assert(forall|i: int| 1 <= i < s.len() ==> is_digit_char(#[trigger] s[i]));
    } else {
        lemma_dec_seq_digits(n as nat);
        assert(forall|i: int| 0 <= i < s.len() ==> is_digit_char(#[trigger] s[i]));
    }
    assert(s.len() >= 1);
    assert(s != seq!['.']) by {
        if s == seq!['.'] {
            assert(s[0] == '.');
        }
    }
    assert(s != seq!['.', '.']) by {
        if s == seq!['.', '.'] {
            assert(s[0] == '.');
        }
    }
    assert(!s.contains('/')) by {
        if s.contains('/') {
            let i = choose|i: int| 0 <= i < s.len() && s[i] == '/';
        }
    }
}

pub proof fn lemma_dec_seq_len(n: nat)
    ensures
        n < 10 <==> dec_seq(n).len() == 1,
        dec_seq(n).len() >= 1,
    decreases n,
{
    if n >= 10 {
        lemma_dec_seq_len(n / 10);
    }
}

/// Decimal renderings of distinct numbers differ.
pub proof fn lemma_dec_seq_injective(a: nat, b: nat)
    requires
        dec_seq(a) == dec_seq(b),
    ensures
        a == b,
    decreases a,
{
    lemma_dec_seq_len(a);
    lemma_dec_seq_len(b);
    if a < 10 && b < 10 {
        assert(dec_seq(a)[0] == digit_char(a));
        assert(dec_seq(b)[0] == digit_char(b));
    } else if a >= 10 && b >= 10 {
        assert(dec_seq(a).last() == digit_char(a % 10));
        assert(dec_seq(b).last() == digit_char(b % 10));
        assert(a % 10 == b % 10);
        assert(dec_seq(a).drop_last() == dec_seq(a / 10));
        assert(dec_seq(b).drop_last() == dec_seq(b / 10));
        lemma_dec_seq_injective(a / 10, b / 10);
    } else {
        assert(false);
    }
}

/// Segments of distinct user identifiers differ.
pub proof fn lemma_uid_seq_injective(a: int, b: int)
    requires
        uid_seq(a) == uid_seq(b),
    ensures
        a == b,
{
    if a >= 0 && b >= 0 {
        lemma_dec_seq_injective(a as nat, b as nat);
    } else if a < 0 && b < 0 {
        assert(uid_seq(a).skip(1) =~= dec_seq((-a) as nat));
        assert(uid_seq(b).skip(1) =~= dec_seq((-b) as nat));
        lemma_dec_seq_injective((-a) as nat, (-b) as nat);
    } else if a >= 0 && b < 0 {
        lemma_dec_seq_digits(a as nat);
        assert(uid_seq(a)[0] == dec_seq(a as nat)[0]);
        assert(is_digit_char(uid_seq(a)[0]));
        assert(uid_seq(b)[0] == '-');
        assert(false);
    } else {
        lemma_dec_seq_digits(b as nat);
        assert(uid_seq(b)[0] == dec_seq(b as nat)[0]);
        assert(is_digit_char(uid_seq(b)[0]));
        assert(uid_seq(a)[0] == '-');
        assert(false);
    }
}

/// Append the decimal rendering of `n`.
fn push_dec(s: &mut String, n: u64)
    ensures
        final(s)@ == old(s)@ + dec_seq(n as nat),
    decreases n,
{
    if n >= 10 {
        push_dec(s, n / 10);
    }
    let ghost mid = s@;
    let d = n % 10;
    if d == 0 {
        s.append("0");
        proof {
            reveal_strlit("0");
            assert("0"@ =~= seq!['0']);
        }
    } else if d == 1 {
        s.append("1");
        proof {
            reveal_strlit("1");
            assert("1"@ =~= seq!['1']);
        }
    } else if d == 2 {
        s.append("2");
        proof {
            reveal_strlit("2");
            assert("2"@ =~= seq!['2']);
        }
    } else if d == 3 {
        s.append("3");
        proof {
            reveal_strlit("3");
            assert("3"@ =~= seq!['3']);
        }
    } else if d == 4 {
        s.append("4");
        proof {
            reveal_strlit("4");
            assert("4"@ =~= seq!['4']);
        }
    } else if d == 5 {
        s.append("5");
        proof {
            reveal_strlit("5");
            assert("5"@ =~= seq!['5']);
        }
    } else if d == 6 {
        s.append("6");
        proof {
            reveal_strlit("6");
            assert("6"@ =~= seq!['6']);
        }
    } else if d == 7 {
        s.append("7");
        proof {
            reveal_strlit("7");
            assert("7"@ =~= seq!['7']);
        }
    } else if d == 8 {
        s.append("8");
        proof {
            reveal_strlit("8");
            assert("8"@ =~= seq!['8']);
        }
    } else {
        s.append("9");
        proof {
            reveal_strlit("9");
            assert("9"@ =~= seq!['9']);
        }
    }
    proof {
        assert(s@ == mid + seq![digit_char(n as nat % 10)]);
        if n < 10 {
            assert(dec_seq(n as nat) == seq![digit_char(n as nat)]);
            assert(old(s)@ + dec_seq(n as nat) =~= s@);
        } else {
            assert(mid == old(s)@ + dec_seq(n as nat / 10));
            assert(dec_seq(n as nat) == dec_seq(n as nat / 10).push(digit_char(n as nat % 10)));
            assert(old(s)@ + dec_seq(n as nat) =~= s@);
        }
    }
}

/// The decimal segment for a user identifier.
pub fn uid_string(user_id: i32) -> (r: String)
    ensures
        r@ == uid_seq(user_id as int),
{
    let mut s = String::new();
    if user_id < 0 {
        s.append("-");
        proof {
            reveal_strlit("-");
            assert("-"@ =~= seq!['-']);
        }
        let mag = (-(user_id as i64)) as u64;
        push_dec(&mut s, mag);
        proof {
            assert(mag as nat == (-(user_id as int)) as nat);
            assert(s@ =~= uid_seq(user_id as int));
        }
    } else {
        push_dec(&mut s, user_id as u64);
        proof {
            assert(s@ =~= uid_seq(user_id as int));
        }
    }
    s
}

/// What a user scope carries: the root's configuration, the user
/// identifier, and the scope's own base segment path.
pub struct ScopeView {
    pub fsv: FsInfo,
    pub uid: int,
    pub base: Seq<Seq<char>>,
}

/// An isolated, quota-scoped view of one user's subtree.
pub struct UserScopedFS<'a> {
    pub fs: &'a Filesystem,
    pub user_id: i32,
    pub base_path: FsPath,
}

impl<'a> View for UserScopedFS<'a> {
    type V = ScopeView;

    open spec fn view(&self) -> ScopeView {
        ScopeView { fsv: (*self.fs)@, uid: self.user_id as int, base: self.base_path@ }
    }
}

impl<'a> UserScopedFS<'a> {
    /// The base is exactly the user's own segment under a well-formed
    /// root.
    pub open spec fn wf(&self) -> bool {
        &&& (*self.fs).wf()
        &&& self@.base == seq![uid_seq(self@.uid)]
    }

    /// The scope's physical root: the storage root plus the user
    /// segment.
    pub open spec fn true_base(&self) -> Seq<Seq<char>> {
        self@.fsv.root + self@.base
    }

    pub fn fs(&self) -> (r: &'a Filesystem)
        ensures
            r == self.fs,
    {
        self.fs
    }

    pub fn user_id(&self) -> (r: i32)
        ensures
            r == self.user_id,
    {
        self.user_id
    }

    /// The containment check on an already constructed scope path.
    pub fn is_breaking_out(&self, final_path: &FsPath) -> (b: bool)
        ensures
            b == !starts_with(final_path@, self@.base),
    {
        !final_path.starts_with_path(&self.base_path)
    }

    /// Resolve a caller path against the user's own base and enforce
    /// the scope boundary.
    pub(crate) fn construct_path(&self, path: &str) -> (r: FSRes<FsPath>)
        requires
            self.wf(),
        ensures
            match r {
                Ok(p) => starts_with(resolved_under(self@.base, path@), self@.base) && p@
                    == resolved_under(self@.base, path@) && valid_segs(p@) && p@.len() >= 1,
                Err(e) => e == FSError::PathBreaksOut && !starts_with(
                    resolved_under(self@.base, path@),
                    self@.base,
                ),
            },
    {
        proof {
            lemma_uid_seg_valid(self@.uid);
            assert(valid_segs(self@.base)) by {
                assert(self@.base[0] == uid_seq(self@.uid));
            }
        }
        let resolved = resolve_under(&self.base_path, path);
        proof {
            lemma_resolved_wf(self@.base, path@);
        }
        if self.is_breaking_out(&resolved) {
            Err(FSError::PathBreaksOut)
        } else {
            Ok(resolved)
        }
    }
}

/// Does the caller's path stay inside the user's scope?
pub open spec fn in_scope(sv: ScopeView, path: Seq<char>) -> bool {
    starts_with(resolved_under(sv.base, path), sv.base)
}

/// The absolute host path a scoped caller path lands on.
pub open spec fn scope_abs(sv: ScopeView, path: Seq<char>) -> Seq<Seq<char>> {
    sv.fsv.root + resolved_under(sv.base, path)
}

/// Every path in the listing, with its leading `n` segments removed.
pub open spec fn strip_all(ps: Seq<Seq<Seq<char>>>, n: int) -> Seq<Seq<Seq<char>>> {
    ps.map_values(|p: Seq<Seq<char>>| p.skip(n))
}

impl<'a> UserScopedFS<'a> {
    /// Render a scoped path for delegation to the storage root.
    fn to_fs_path(&self, scoped: &FsPath) -> (r: String)
        requires
            self.wf(),
            valid_segs(scoped@),
        ensures
            r@ == rel_string_of(scoped@),
            resolved_under(self@.fsv.root, r@) == self@.fsv.root + scoped@,
            crate::paths::contained_in(self@.fsv.root, r@),
    {
        let s = scoped.to_rel_string();
        proof {
            lemma_resolve_rendered_rel(self@.fsv.root, scoped@);
        }
        s
    }

    /// Strip the physical prefix from paths handed back to the
    /// caller, so the caller's view stays self-contained.
    fn adapt_paths(&self, paths: Vec<FsPath>) -> (r: Vec<FsPath>)
        requires
            self.wf(),
            forall|i: int|
                0 <= i < paths@.len() ==> starts_with((#[trigger] paths@[i])@, self.true_base()),
        ensures
            views_of(r@) == strip_all(views_of(paths@), self.true_base().len() as int),
    {
        broadcast use crate::paths::lemma_views_of_push;

        let tb = self.fs.storage_path().join(&self.base_path);
        proof {
            assert(tb@ == self.true_base());
        }
        let n = tb.seg_count();
        let mut out: Vec<FsPath> = Vec::new();
        let mut i: usize = 0;
        proof {
            assert(views_of(out@) =~= strip_all(views_of(paths@.take(0)), n as int));
        }
        while i < paths.len()
            invariant
                i <= paths@.len(),
                n as int == self.true_base().len(),
                tb@ == self.true_base(),
                forall|j: int|
                    0 <= j < paths@.len() ==> starts_with(
                        (#[trigger] paths@[j])@,
                        self.true_base(),
                    ),
                views_of(out@) == strip_all(views_of(paths@.take(i as int)), n as int),
            decreases paths@.len() - i,
        {
            let ghost o0 = views_of(out@);
            let stripped = paths[i].strip_prefix(&tb);
            proof {
                assert(stripped@ == paths@[i as int]@.skip(n as int));
            }
            out.push(stripped);
            proof {
                assert(views_of(out@) == o0.push(stripped@));
                assert(views_of(out@) =~= strip_all(views_of(paths@.take(i as int + 1)), n as int));
            }
            i += 1;
        }
        proof {
            assert(paths@.take(paths@.len() as int) =~= paths@);
        }
        out
    }

    /// Create the directory at `path` inside the user's scope.
    pub fn create_dir(&self, disk: &mut Disk, path: &str, now: i64) -> (r: FSRes<()>)
        requires
            old(disk).wf(),
            self.wf(),
        ensures
            final(disk).wf(),
            ({
                let c = scope_abs(self@, path@);
                if !in_scope(self@, path@) {
                    r == FSRes::<()>::Err(FSError::PathBreaksOut) && *final(disk) == *old(disk)
                } else if old(disk)@.files.contains_key(c) || old(disk)@.dirs.contains_key(c) {
                    r == FSRes::<()>::Err(FSError::HFS(HostErrorKind::AlreadyExists)) && *final(disk) == *old(disk)
                } else if !dir_exists(old(disk)@, c.drop_last()) {
                    r == FSRes::<()>::Err(FSError::HFS(HostErrorKind::NotFound)) && *final(disk)
                        == *old(disk)
                } else {
                    r == FSRes::<()>::Ok(()) && final(disk)@.dirs == old(disk)@.dirs.insert(
                        c,
                        DirView { created: now, modified: now },
                    ) && final(disk)@.files == old(disk)@.files && final(disk).files@ == old(disk).files@
                }
            }),
    {
        let scoped = match self.construct_path(path) {
            Ok(p) => p,
            Err(e) => {
                return Err(e);
            },
        };
        let rendered = self.to_fs_path(&scoped);
        self.fs.create_dir(disk, rendered.as_str(), now)
    }

    /// Read the whole file at `path` inside the user's scope.
    pub fn read_file(&self, disk: &Disk, path: &str) -> (r: FSRes<Vec<u8>>)
        requires
            disk.wf(),
            self.wf(),
        ensures
            ({
                let c = scope_abs(self@, path@);
                match r {
                    Ok(data) => in_scope(self@, path@) && disk@.files.contains_key(c) && data@
                        == disk@.files[c].data,
                    Err(e) => if !in_scope(self@, path@) {
                        e == FSError::PathBreaksOut
                    } else if disk@.dirs.contains_key(c) {
                        e == FSError::HFS(HostErrorKind::Other)
                    } else {
                        !disk@.files.contains_key(c) && e == FSError::HFS(HostErrorKind::NotFound)
                    },
                }
            }),
    {
        let scoped = match self.construct_path(path) {
            Ok(p) => p,
            Err(e) => {
                return Err(e);
            },
        };
        let rendered = self.to_fs_path(&scoped);
        self.fs.read_file(disk, rendered.as_str())
    }

    /// Write the whole file at `path`, after checking the scope
    /// boundary, then the per-user capacity against the scope's own
    /// usage; the storage root then enforces the global capacity.
    pub fn write_file(&self, disk: &mut Disk, path: &str, data: &[u8], now: i64) -> (r: FSRes<
        (),
    >)
        requires
            old(disk).wf(),
            self.wf(),
            usage_of(old(disk).files@, Seq::empty()) + data@.len() <= u64::MAX,
        ensures
            final(disk).wf(),
            ({
                let c = scope_abs(self@, path@);
                if !in_scope(self@, path@) {
                    r == FSRes::<()>::Err(FSError::PathBreaksOut) && *final(disk) == *old(disk)
                } else if match self@.fsv.userspace_size {
                    Some(ucap) => usage_of(old(disk).files@, self.true_base()) + data@.len()
                        > ucap,
                    None => false,
                } {
                    r == FSRes::<()>::Err(FSError::NotEnoughStorage) && *final(disk) == *old(disk)
                } else if match self@.fsv.total_size {
                    Some(cap) => usage_of(old(disk).files@, self@.fsv.root) + data@.len() > cap,
                    None => false,
                } {
                    r == FSRes::<()>::Err(FSError::NotEnoughStorage) && *final(disk) == *old(disk)
                } else if old(disk)@.dirs.contains_key(c) {
                    r == FSRes::<()>::Err(FSError::HFS(HostErrorKind::Other)) && *final(disk)
                        == *old(disk)
                } else if !dir_exists(old(disk)@, c.drop_last()) {
                    r == FSRes::<()>::Err(FSError::HFS(HostErrorKind::NotFound)) && *final(disk)
                        == *old(disk)
                } else {
                    r == FSRes::<()>::Ok(()) && final(disk)@.files == old(disk)@.files.insert(
                        c,
                        FileView {
                            data: data@,
                            created: created_stamp(old(disk)@, c, now),
                            modified: now,
                        },
                    ) && final(disk)@.dirs == old(disk)@.dirs && final(disk).dirs@ == old(disk).dirs@
                }
            }),
    {
        let scoped = match self.construct_path(path) {
            Ok(p) => p,
            Err(e) => {
                return Err(e);
            },
        };
        if let Some(ucap) = self.fs.userspace_size() {
            let tb = self.fs.storage_path().join(&self.base_path);
            let used = disk.usage_under(&tb);
            if used > ucap || data.len() as u64 > ucap - used {
                return Err(FSError::NotEnoughStorage);
            }
        }
        let rendered = self.to_fs_path(&scoped);
        self.fs.write_file(disk, rendered.as_str(), data, now)
    }

    /// Delete the file or directory tree at `path` inside the user's
    /// scope.
    pub fn remove_item(&self, disk: &mut Disk, path: &str) -> (r: FSRes<()>)
        requires
            old(disk).wf(),
            self.wf(),
        ensures
            final(disk).wf(),
            ({
                let c = scope_abs(self@, path@);
                if !in_scope(self@, path@) {
                    r == FSRes::<()>::Err(FSError::PathBreaksOut) && *final(disk) == *old(disk)
                } else if old(disk)@.files.contains_key(c) {
                    r == FSRes::<()>::Ok(()) && final(disk)@.files == old(disk)@.files.remove(c)
                        && final(disk)@.dirs == old(disk)@.dirs && final(disk).dirs@ == old(disk).dirs@
                } else if old(disk)@.dirs.contains_key(c) {
                    r == FSRes::<()>::Ok(()) && final(disk)@.files
                        == crate::disk::restrict_out(old(disk)@.files, c) && final(disk)@.dirs
                        == crate::disk::restrict_out(old(disk)@.dirs, c)
                } else {
                    r == FSRes::<()>::Err(FSError::HFS(HostErrorKind::NotFound)) && *final(disk)
                        == *old(disk)
                }
            }),
    {
        let scoped = match self.construct_path(path) {
            Ok(p) => p,
            Err(e) => {
                return Err(e);
            },
        };
        let rendered = self.to_fs_path(&scoped);
        self.fs.remove_item(disk, rendered.as_str())
    }

    /// The size of the file at `path`, or of the whole subtree below
    /// it.
    pub fn get_item_size(&self, disk: &Disk, path: &str) -> (r: FSRes<u64>)
        requires
            disk.wf(),
            self.wf(),
        ensures
            ({
                let c = scope_abs(self@, path@);
                match r {
                    Ok(n) => in_scope(self@, path@) && if disk@.files.contains_key(c) {
                        n == disk@.files[c].data.len()
                    } else {
                        n as int == usage_of(disk.files@, c)
                    },
                    Err(e) => e == FSError::PathBreaksOut && !in_scope(self@, path@),
                }
            }),
    {
        let scoped = match self.construct_path(path) {
            Ok(p) => p,
            Err(e) => {
                return Err(e);
            },
        };
        let rendered = self.to_fs_path(&scoped);
        self.fs.get_item_size(disk, rendered.as_str())
    }

    /// Creation and modification stamps of the entry at `path`.
    pub fn get_item_time_info(&self, disk: &Disk, path: &str) -> (r: FSRes<(i64, i64)>)
        requires
            disk.wf(),
            self.wf(),
        ensures
            ({
                let c = scope_abs(self@, path@);
                match r {
                    Ok(t) => in_scope(self@, path@) && ((disk@.files.contains_key(c) && t.0
                        == disk@.files[c].created && t.1 == disk@.files[c].modified) || (
                    !disk@.files.contains_key(c) && disk@.dirs.contains_key(c) && t.0
                        == disk@.dirs[c].created && t.1 == disk@.dirs[c].modified)),
                    Err(e) => if !in_scope(self@, path@) {
                        e == FSError::PathBreaksOut
                    } else {
                        !disk@.files.contains_key(c) && !disk@.dirs.contains_key(c) && e
                            == FSError::HFS(HostErrorKind::NotFound)
                    },
                }
            }),
    {
        let scoped = match self.construct_path(path) {
            Ok(p) => p,
            Err(e) => {
                return Err(e);
            },
        };
        let rendered = self.to_fs_path(&scoped);
        self.fs.get_item_time_info(disk, rendered.as_str())
    }

    /// The content type guessed from the path's extension.
    pub fn get_mime(&self, path: &str) -> (r: FSRes<Option<String>>)
        requires
            self.wf(),
        ensures
            ({
                let c = scope_abs(self@, path@);
                match r {
                    Ok(m) => in_scope(self@, path@) && crate::filesystem::opt_str_view(m)
                        == mime_of(abs_string_of(c)),
                    Err(e) => e == FSError::PathBreaksOut && !in_scope(self@, path@),
                }
            }),
    {
        let scoped = match self.construct_path(path) {
            Ok(p) => p,
            Err(e) => {
                return Err(e);
            },
        };
        let rendered = self.to_fs_path(&scoped);
        self.fs.get_mime(rendered.as_str())
    }

    /// The two listings of the directory at `path`, every returned
    /// path relative to the user's own scope: the physical prefix
    /// never reaches the caller.
    pub fn list_dir(&self, disk: &Disk, path: &str) -> (r: FSRes<(Vec<FsPath>, Vec<FsPath>)>)
        requires
            disk.wf(),
            self.wf(),
        ensures
            ({
                let c = scope_abs(self@, path@);
                match r {
                    Ok(listing) => in_scope(self@, path@) && disk@.dirs.contains_key(c)
                        && views_of(listing.0@) == strip_all(
                        child_files_of(disk.files@, c),
                        self.true_base().len() as int,
                    ) && views_of(listing.1@) == strip_all(
                        child_dirs_of(disk.dirs@, c),
                        self.true_base().len() as int,
                    ),
                    Err(e) => if !in_scope(self@, path@) {
                        e == FSError::PathBreaksOut
                    } else if disk@.files.contains_key(c) {
                        e == FSError::HFS(HostErrorKind::Other)
                    } else {
                        !disk@.dirs.contains_key(c) && e == FSError::HFS(HostErrorKind::NotFound)
                    },
                }
            }),
    {
        let scoped = match self.construct_path(path) {
            Ok(p) => p,
            Err(e) => {
                return Err(e);
            },
        };
        let rendered = self.to_fs_path(&scoped);
        let ghost c = self@.fsv.root + scoped@;
        match self.fs.list_dir(disk, rendered.as_str()) {
            Ok((files, dirs)) => {
                proof {
                    lemma_scope_abs_under_base(self@, scoped@);
                    crate::disk::lemma_child_files_shape(disk.files@, c);
                    crate::disk::lemma_child_dirs_shape(disk.dirs@, c);
                    assert forall|i: int| 0 <= i < files@.len() implies starts_with(
                        (#[trigger] files@[i])@,
                        self.true_base(),
                    ) by {
                        assert(files@[i]@ == child_files_of(disk.files@, c)[i]);
                        lemma_child_under_base(files@[i]@, c, self.true_base());
                    }
                    assert forall|i: int| 0 <= i < dirs@.len() implies starts_with(
                        (#[trigger] dirs@[i])@,
                        self.true_base(),
                    ) by {
                        assert(dirs@[i]@ == child_dirs_of(disk.dirs@, c)[i]);
                        lemma_child_under_base(dirs@[i]@, c, self.true_base());
                    }
                }
                let out_f = self.adapt_paths(files);
                let out_d = self.adapt_paths(dirs);
                Ok((out_f, out_d))
            },
            Err(e) => Err(e),
        }
    }

    /// The flat recursive file enumeration of the subtree below
    /// `path`, every entry relative to the user's own scope.
    pub fn get_dir_tree(&self, disk: &Disk, path: &str) -> (r: FSRes<Vec<FsPath>>)
        requires
            disk.wf(),
            self.wf(),
        ensures
            ({
                let c = scope_abs(self@, path@);
                match r {
                    Ok(list) => in_scope(self@, path@) && views_of(list@) == strip_all(
                        tree_files_of(disk.files@, c),
                        self.true_base().len() as int,
                    ),
                    Err(e) => e == FSError::PathBreaksOut && !in_scope(self@, path@),
                }
            }),
    {
        let scoped = match self.construct_path(path) {
            Ok(p) => p,
            Err(e) => {
                return Err(e);
            },
        };
        let rendered = self.to_fs_path(&scoped);
        let ghost c = self@.fsv.root + scoped@;
        match self.fs.get_dir_tree(disk, rendered.as_str()) {
            Ok(list) => {
                proof {
                    lemma_scope_abs_under_base(self@, scoped@);
                    crate::disk::lemma_tree_files_shape(disk.files@, c);
                    let fl = tree_files_of(disk.files@, c);
                    assert(views_of(list@) == fl);
                    assert(list@.len() == fl.len()) by {
                        assert(views_of(list@).len() == list@.len());
                    }
                    assert forall|i: int| 0 <= i < list@.len() implies starts_with(
                        (#[trigger] list@[i])@,
                        self.true_base(),
                    ) by {
                        assert(list@[i]@ == views_of(list@)[i]);
                        assert(is_strictly_under(fl[i], c));
                        crate::disk::lemma_starts_with_trans(list@[i]@, c, self.true_base());
                    }
                }
                Ok(self.adapt_paths(list))
            },
            Err(e) => Err(e),
        }
    }
}

impl<'a> UserScopedFS<'a> {
    /// Rename the item at `source` to `target`, both inside the
    /// user's scope.
    pub fn move_item(&self, disk: &mut Disk, source: &str, target: &str) -> (r: FSRes<()>)
        requires
            old(disk).wf(),
            self.wf(),
        ensures
            final(disk).wf(),
            ({
                let cs = scope_abs(self@, source@);
                let ct = scope_abs(self@, target@);
                if !in_scope(self@, source@) {
                    r == FSRes::<()>::Err(FSError::PathBreaksOut) && *final(disk) == *old(disk)
                } else if !in_scope(self@, target@) {
                    r == FSRes::<()>::Err(FSError::PathBreaksOut) && *final(disk) == *old(disk)
                } else if old(disk)@.files.contains_key(cs) {
                    if ct == cs {
                        r == FSRes::<()>::Ok(()) && *final(disk) == *old(disk)
                    } else if old(disk)@.dirs.contains_key(ct) {
                        r == FSRes::<()>::Err(FSError::HFS(HostErrorKind::Other)) && *final(disk)
                            == *old(disk)
                    } else if !dir_exists(old(disk)@, ct.drop_last()) {
                        r == FSRes::<()>::Err(FSError::HFS(HostErrorKind::NotFound)) && *final(disk) == *old(disk)
                    } else {
                        r == FSRes::<()>::Ok(()) && final(disk)@.files
                            == old(disk)@.files.remove(cs).insert(ct, old(disk)@.files[cs])
                            && final(disk)@.dirs == old(disk)@.dirs && final(disk).dirs@ == old(disk).dirs@
                    }
                } else if old(disk)@.dirs.contains_key(cs) {
                    if ct == cs {
                        r == FSRes::<()>::Ok(()) && *final(disk) == *old(disk)
                    } else if old(disk)@.files.contains_key(ct) {
                        r == FSRes::<()>::Err(FSError::HFS(HostErrorKind::Other)) && *final(disk)
                            == *old(disk)
                    } else if starts_with(ct, cs) {
                        r == FSRes::<()>::Err(FSError::HFS(HostErrorKind::Other)) && *final(disk)
                            == *old(disk)
                    } else if !dir_exists(old(disk)@, ct.drop_last()) {
                        r == FSRes::<()>::Err(FSError::HFS(HostErrorKind::NotFound)) && *final(disk) == *old(disk)
                    } else if old(disk)@.dirs.contains_key(ct) && some_entry_under(
                        *old(disk),
                        ct,
                    ) {
                        r == FSRes::<()>::Err(FSError::HFS(HostErrorKind::Other)) && *final(disk)
                            == *old(disk)
                    } else {
                        r == FSRes::<()>::Ok(()) && final(disk)@.files == crate::disk::moved_map(
                            old(disk)@.files,
                            cs,
                            ct,
                        ) && final(disk)@.dirs == crate::disk::moved_map(old(disk)@.dirs, cs, ct)
                    }
                } else {
                    r == FSRes::<()>::Err(FSError::HFS(HostErrorKind::NotFound)) && *final(disk)
                        == *old(disk)
                }
            }),
    {
        let ssrc = match self.construct_path(source) {
            Ok(p) => p,
            Err(e) => {
                return Err(e);
            },
        };
        let stgt = match self.construct_path(target) {
            Ok(p) => p,
            Err(e) => {
                return Err(e);
            },
        };
        let rs = self.to_fs_path(&ssrc);
        let rt = self.to_fs_path(&stgt);
        self.fs.move_item(disk, rs.as_str(), rt.as_str())
    }

    /// Copy the item at `source` to `target`, both inside the user's
    /// scope, after checking the per-user capacity against the
    /// scope's usage plus the source's size.
    pub fn copy_item(&self, disk: &mut Disk, source: &str, target: &str, now: i64) -> (r: FSRes<
        (),
    >)
        requires
            old(disk).wf(),
            self.wf(),
            usage_of(old(disk).files@, Seq::empty()) + source_size_of(
                *old(disk),
                scope_abs(self@, source@),
            ) <= u64::MAX,
        ensures
            final(disk).wf(),
            ({
                let cs = scope_abs(self@, source@);
                let ct = scope_abs(self@, target@);
                if !in_scope(self@, source@) {
                    r == FSRes::<()>::Err(FSError::PathBreaksOut) && *final(disk) == *old(disk)
                } else if !in_scope(self@, target@) {
                    r == FSRes::<()>::Err(FSError::PathBreaksOut) && *final(disk) == *old(disk)
                } else if match self@.fsv.userspace_size {
                    Some(ucap) => usage_of(old(disk).files@, self.true_base()) + source_size_of(
                        *old(disk),
                        cs,
                    ) > ucap,
                    None => false,
                } {
                    r == FSRes::<()>::Err(FSError::NotEnoughStorage) && *final(disk) == *old(disk)
                } else if match self@.fsv.total_size {
                    Some(cap) => usage_of(old(disk).files@, self@.fsv.root) + source_size_of(
                        *old(disk),
                        cs,
                    ) > cap,
                    None => false,
                } {
                    r == FSRes::<()>::Err(FSError::NotEnoughStorage) && *final(disk) == *old(disk)
                } else if old(disk)@.files.contains_key(cs) {
                    if old(disk)@.dirs.contains_key(ct) {
                        r == FSRes::<()>::Err(FSError::HFS(HostErrorKind::Other)) && *final(disk)
                            == *old(disk)
                    } else if !dir_exists(old(disk)@, ct.drop_last()) {
                        r == FSRes::<()>::Err(FSError::HFS(HostErrorKind::NotFound)) && *final(disk) == *old(disk)
                    } else {
                        r == FSRes::<()>::Ok(()) && final(disk)@.files
                            == old(disk)@.files.insert(
                            ct,
                            FileView {
                                data: old(disk)@.files[cs].data,
                                created: created_stamp(old(disk)@, ct, now),
                                modified: now,
                            },
                        ) && final(disk)@.dirs == old(disk)@.dirs && final(disk).dirs@ == old(disk).dirs@
                    }
                } else if !some_entry_under(*old(disk), cs) {
                    r == FSRes::<()>::Ok(()) && *final(disk) == *old(disk)
                } else if copy_conflict(*old(disk), cs, ct) {
                    r == FSRes::<()>::Err(FSError::HFS(HostErrorKind::Other)) && *final(disk)
                        == *old(disk)
                } else {
                    r == FSRes::<()>::Ok(()) && final(disk)@.files == copy_files_after(
                        *old(disk),
                        cs,
                        ct,
                        now,
                    ) && final(disk)@.dirs == copy_dirs_after(*old(disk), cs, ct, now)
                }
            }),
    {
        let ssrc = match self.construct_path(source) {
            Ok(p) => p,
            Err(e) => {
                return Err(e);
            },
        };
        let stgt = match self.construct_path(target) {
            Ok(p) => p,
            Err(e) => {
                return Err(e);
            },
        };
        if let Some(ucap) = self.fs.userspace_size() {
            let tb = self.fs.storage_path().join(&self.base_path);
            let used = disk.usage_under(&tb);
            let abs_src = self.fs.storage_path().join(&ssrc);
            let ssize: u64 = match disk.file_size(&abs_src) {
                Some(n) => n,
                None => disk.usage_under(&abs_src),
            };
            if used > ucap || ssize > ucap - used {
                return Err(FSError::NotEnoughStorage);
            }
        }
        let rs = self.to_fs_path(&ssrc);
        let rt = self.to_fs_path(&stgt);
        self.fs.copy_item(disk, rs.as_str(), rt.as_str(), now)
    }

    /// Populate the user's root from the configured template tree,
    /// where one is configured.
    ///
    /// Deployment is all-or-nothing: the underlying copy validates
    /// the whole tree before it writes anything, so a failed
    /// deployment leaves no partially populated root behind.  A
    /// template with no entries deploys nothing at all — the user's
    /// root is then not created, and nothing gates a retry on the
    /// next operation.
    pub fn deploy_template(&self, disk: &mut Disk, now: i64) -> (r: Option<FSRes<()>>)
        requires
            old(disk).wf(),
            self.wf(),
            usage_of(old(disk).files@, Seq::empty()) + (match (*self.fs)@.template {
                Some(t) => source_size_of(*old(disk), t),
                None => 0,
            }) <= u64::MAX,
        ensures
            final(disk).wf(),
            ({
                let ub = self@.fsv.root + self@.base;
                match self@.fsv.template {
                    None => r is None && *final(disk) == *old(disk),
                    Some(t) => {
                        &&& r is Some
                        &&& {
                            let res = r->0;
                            if !starts_with(t, self@.fsv.root) {
                                res == FSRes::<()>::Err(FSError::PathBreaksOut) && *final(disk)
                                    == *old(disk)
                            } else if match self@.fsv.total_size {
                                Some(cap) => usage_of(old(disk).files@, self@.fsv.root)
                                    + source_size_of(*old(disk), t) > cap,
                                None => false,
                            } {
                                res == FSRes::<()>::Err(FSError::NotEnoughStorage) && *final(disk)
                                    == *old(disk)
                            } else if old(disk)@.files.contains_key(t) {
                                if old(disk)@.dirs.contains_key(ub) {
                                    res == FSRes::<()>::Err(FSError::HFS(HostErrorKind::Other))
                                        && *final(disk) == *old(disk)
                                } else if !dir_exists(old(disk)@, ub.drop_last()) {
                                    res == FSRes::<()>::Err(FSError::HFS(HostErrorKind::NotFound))
                                        && *final(disk) == *old(disk)
                                } else {
                                    res == FSRes::<()>::Ok(()) && final(disk)@.files
                                        == old(disk)@.files.insert(
                                        ub,
                                        FileView {
                                            data: old(disk)@.files[t].data,
                                            created: created_stamp(old(disk)@, ub, now),
                                            modified: now,
                                        },
                                    ) && final(disk)@.dirs == old(disk)@.dirs && final(disk).dirs@
                                        == old(disk).dirs@
                                }
                            } else if !some_entry_under(*old(disk), t) {
                                res == FSRes::<()>::Ok(()) && *final(disk) == *old(disk)
                            } else if copy_conflict(*old(disk), t, ub) {
                                res == FSRes::<()>::Err(FSError::HFS(HostErrorKind::Other))
                                    && *final(disk) == *old(disk)
                            } else {
                                res == FSRes::<()>::Ok(()) && final(disk)@.files
                                    == copy_files_after(*old(disk), t, ub, now) && final(disk)@.dirs == copy_dirs_after(*old(disk), t, ub, now)
                            }
                        }
                    },
                }
            }),
    {
        let tpc = match self.fs.template_path() {
            None => {
                return None;
            },
            Some(tp) => tp.clone(),
        };
        let src = tpc.to_abs_string();
        proof {
            lemma_resolve_rendered_abs(self@.fsv.root, tpc@);
            lemma_uid_seg_valid(self@.uid);
            assert(valid_segs(self@.base)) by {
                assert(self@.base[0] == uid_seq(self@.uid));
            }
        }
        let tgt = self.to_fs_path(&self.base_path);
        Some(self.fs.copy_item(disk, src.as_str(), tgt.as_str(), now))
    }

    /// Open the scope for a user: on the very first operation for a
    /// fresh identifier this creates the user's root, populating it
    /// from the template tree where one is configured.
    pub fn new(fs: &'a Filesystem, user_id: i32, disk: &mut Disk, now: i64) -> (r: FSRes<
        UserScopedFS<'a>,
    >)
        requires
            fs.wf(),
            old(disk).wf(),
            usage_of(old(disk).files@, Seq::empty()) + (match fs@.template {
                Some(t) => source_size_of(*old(disk), t),
                None => 0,
            }) <= u64::MAX,
        ensures
            final(disk).wf(),
            match r {
                Ok(u) => u.wf() && u.fs == fs && u.user_id == user_id && u@.base == seq![
                    uid_seq(user_id as int),
                ],
                Err(_) => true,
            },
            ({
                let base = seq![uid_seq(user_id as int)];
                let ub = fs@.root + base;
                if old(disk)@.files.contains_key(ub) || old(disk)@.dirs.contains_key(ub) {
                    r is Ok && *final(disk) == *old(disk)
                } else {
                    match fs@.template {
                        Some(t) => {
                            if !starts_with(t, fs@.root) {
                                r matches Err(e) && e == FSError::PathBreaksOut && *final(disk)
                                    == *old(disk)
                            } else if match fs@.total_size {
                                Some(cap) => usage_of(old(disk).files@, fs@.root)
                                    + source_size_of(*old(disk), t) > cap,
                                None => false,
                            } {
                                r matches Err(e) && e == FSError::NotEnoughStorage && *final(disk)
                                    == *old(disk)
                            } else if old(disk)@.files.contains_key(t) {
                                if !dir_exists(old(disk)@, ub.drop_last()) {
                                    r matches Err(e) && e == FSError::HFS(HostErrorKind::NotFound)
                                        && *final(disk) == *old(disk)
                                } else {
                                    r is Ok && final(disk)@.files == old(disk)@.files.insert(
                                        ub,
                                        FileView {
                                            data: old(disk)@.files[t].data,
                                            created: now,
                                            modified: now,
                                        },
                                    ) && final(disk)@.dirs == old(disk)@.dirs
                                }
                            } else if !some_entry_under(*old(disk), t) {
                                r is Ok && *final(disk) == *old(disk)
                            } else if copy_conflict(*old(disk), t, ub) {
                                r matches Err(e) && e == FSError::HFS(HostErrorKind::Other)
                                    && *final(disk) == *old(disk)
                            } else {
                                r is Ok && final(disk)@.files == copy_files_after(
                                    *old(disk),
                                    t,
                                    ub,
                                    now,
                                ) && final(disk)@.dirs == copy_dirs_after(*old(disk), t, ub, now)
                            }
                        },
                        None => {
                            if !dir_exists(old(disk)@, ub.drop_last()) {
                                r matches Err(e) && e == FSError::HFS(HostErrorKind::NotFound)
                                    && *final(disk) == *old(disk)
                            } else {
                                r is Ok && final(disk)@.dirs == old(disk)@.dirs.insert(
                                    ub,
                                    DirView { created: now, modified: now },
                                ) && final(disk)@.files == old(disk)@.files
                            }
                        },
                    }
                }
            }),
    {
        let seg = uid_string(user_id);
        let mut segs: Vec<String> = Vec::new();
        segs.push(seg);
        let base_path = FsPath { segments: segs };
        proof {
            assert(base_path@ =~= seq![uid_seq(user_id as int)]);
            lemma_uid_seg_valid(user_id as int);
        }
        let scope = UserScopedFS { fs, user_id, base_path };
        let tb = fs.storage_path().join(&scope.base_path);
        let exists_already = disk.file_exists(&tb) || disk.has_dir(&tb);
        if !exists_already {
            match scope.deploy_template(disk, now) {
                Some(res) => match res {
                    Ok(()) => {},
                    Err(e) => {
                        return Err(e);
                    },
                },
                None => {
                    proof {
                        assert(valid_segs(scope@.base)) by {
                            assert(scope@.base[0] == uid_seq(scope@.uid));
                        }
                    }
                    let rendered = scope.to_fs_path(&scope.base_path);
                    match fs.create_dir(disk, rendered.as_str(), now) {
                        Ok(()) => {},
                        Err(e) => {
                            return Err(e);
                        },
                    }
                },
            }
        }
        Ok(scope)
    }
}

/// A child of `c` lies under anything `c` lies under.
proof fn lemma_child_under_base(k: Seq<Seq<char>>, c: Seq<Seq<char>>, tb: Seq<Seq<char>>)
    requires
        crate::disk::is_child_of(k, c),
        starts_with(c, tb),
    ensures
        starts_with(k, tb),
{
    assert(starts_with(k, c)) by {
        assert(k.take(c.len() as int) =~= k.drop_last());
    }
    crate::disk::lemma_starts_with_trans(k, c, tb);
}

/// A scoped path's absolute form lies under the scope's physical
/// root.
proof fn lemma_scope_abs_under_base(sv: ScopeView, scoped: Seq<Seq<char>>)
    requires
        starts_with(scoped, sv.base),
    ensures
        starts_with(sv.fsv.root + scoped, sv.fsv.root + sv.base),
{
    assert((sv.fsv.root + scoped).take(sv.fsv.root.len() as int + sv.base.len() as int) =~= sv.fsv.root
        + scoped.take(sv.base.len() as int));
}

} // verus!
