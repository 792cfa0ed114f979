//! Filesystem views handed to the transport layer: quota summaries,
//! file descriptions, listings and trees, all phrased over a user's
//! own scope.

use vstd::prelude::*;
use vstd::string::StringExecFns;
use crate::disk::Disk;
use crate::disk::child_dirs_of;
use crate::disk::child_files_of;
use crate::disk::is_child_of;
use crate::disk::is_strictly_under;
use crate::disk::lemma_child_dirs_members;
use crate::disk::lemma_child_dirs_shape;
use crate::disk::lemma_child_files_members;
use crate::disk::lemma_child_files_shape;
use crate::disk::lemma_files_map_keys;
use crate::disk::lemma_prefix_rejoin;
use crate::disk::lemma_starts_with_trans;
use crate::disk::lemma_tree_files_members;
use crate::disk::lemma_tree_files_shape;
use crate::disk::tree_files_of;
use crate::disk::usage_of;
use crate::filesystem::FSError;
use crate::filesystem::FSRes;
use crate::filesystem::HostErrorKind;
use crate::filesystem::mime_of;
use crate::filesystem::opt_str_view;
use crate::paths::FsPath;
use crate::paths::abs_string_of;
use crate::paths::rel_string_of;
use crate::paths::resolved_under;
use crate::paths::starts_with;
use crate::paths::valid_segs;
use crate::paths::views_of;
use crate::resolve::lemma_dot_resolves;
use crate::resolve::lemma_resolve_rendered_rel;
use crate::user_scope::UserScopedFS;
use crate::user_scope::in_scope;
use crate::user_scope::lemma_uid_seg_valid;
use crate::user_scope::scope_abs;
use crate::user_scope::strip_all;
use crate::user_scope::uid_seq;

verus! {

pub const DEFAULT_MIME_TYPE: &'static str = "text/plain; charset=utf-8";

/// The last segment of a scope-relative path, or "." for the scope's
/// own root.
pub fn get_item_name(path: &FsPath) -> (r: String)
    ensures
        path@.len() > 0 ==> r@ == path@.last(),
        path@.len() == 0 ==> r@ == seq!['.'],
{
    path.item_name()
}

/// A user's storage allowance and what is left of it.
#[derive(Debug)]
pub struct FSQuota {
    pub username: String,
    pub max: u64,
    pub used: u64,
    pub free: u64,
}

impl FSQuota {
    /// The quota summary of one user's scope: the configured
    /// per-user capacity (unbounded reported as the size type's
    /// maximum) against the bytes stored under the scope.
    pub fn new(usfs: &UserScopedFS<'_>, disk: &Disk, username: &str) -> (r: FSRes<FSQuota>)
        requires
            disk.wf(),
            usfs.wf(),
        ensures
            ({
                match r {
                    Ok(q) => {
                        let used = if disk@.files.contains_key(usfs.true_base()) {
                            disk@.files[usfs.true_base()].data.len() as int
                        } else {
                            usage_of(disk.files@, usfs.true_base())
                        };
                        &&& q.username@ == username@
                        &&& q.max == (match usfs@.fsv.userspace_size {
                            Some(u) => u,
                            None => u64::MAX,
                        })
                        &&& q.used as int == used
                        &&& q.free as int == if used <= q.max as int {
                            q.max - used
                        } else {
                            0
                        }
                    },
                    Err(_) => false,
                }
            }),
    {
        let max = match usfs.fs().userspace_size() {
            Some(u) => u,
            None => u64::MAX,
        };
        proof {
            lemma_dot_resolves(usfs@.base);
        }
        let used = match usfs.get_item_size(disk, ".") {
            Ok(n) => n,
            Err(_) => {
                proof {
                    assert(false);
                }
                0
            },
        };
        let free = if used <= max {
            max - used
        } else {
            0
        };
        Ok(FSQuota { username: String::from_str(username), free, max, used })
    }
}

/// One file as a caller sees it: its name, its scope-relative path,
/// size, content type and stamps.
#[derive(Debug)]
pub struct FSFile {
    pub filename: String,
    pub scoped_path: String,
    pub size: u64,
    pub mime: String,
    pub date_created: i64,
    pub date_modified: i64,
}

impl FSFile {
    /// Describe the item at `path` inside the user's scope; the
    /// reported path is the normal form of the given one, relative to
    /// the scope.
    pub fn new(usfs: &UserScopedFS<'_>, disk: &Disk, path: &str) -> (r: FSRes<FSFile>)
        requires
            disk.wf(),
            usfs.wf(),
        ensures
            ({
                let c = scope_abs(usfs@, path@);
                let rel = resolved_under(usfs@.base, path@).skip(1);
                match r {
                    Ok(f) => {
                        &&& in_scope(usfs@, path@)
                        &&& (disk@.files.contains_key(c) || disk@.dirs.contains_key(c))
                        &&& f.scoped_path@ == rel_string_of(rel)
                        &&& (rel.len() > 0 ==> f.filename@ == rel.last())
                        &&& (rel.len() == 0 ==> f.filename@ == seq!['.'])
                        &&& f.size as int == (if disk@.files.contains_key(c) {
                            disk@.files[c].data.len() as int
                        } else {
                            usage_of(disk.files@, c)
                        })
                        &&& f.mime@ == (match mime_of(abs_string_of(c)) {
                            Some(m) => m,
                            None => DEFAULT_MIME_TYPE@,
                        })
                        &&& (disk@.files.contains_key(c) ==> f.date_created
                            == disk@.files[c].created && f.date_modified
                            == disk@.files[c].modified)
                        &&& (!disk@.files.contains_key(c) && disk@.dirs.contains_key(c)
                            ==> f.date_created == disk@.dirs[c].created && f.date_modified
                            == disk@.dirs[c].modified)
                    },
                    Err(e) => if !in_scope(usfs@, path@) {
                        e == FSError::PathBreaksOut
                    } else {
                        !disk@.files.contains_key(c) && !disk@.dirs.contains_key(c) && e
                            == FSError::HFS(HostErrorKind::NotFound)
                    },
                }
            }),
    {
        let times = match usfs.get_item_time_info(disk, path) {
            Ok(t) => t,
            Err(e) => {
                return Err(e);
            },
        };
        let size = match usfs.get_item_size(disk, path) {
            Ok(n) => n,
            Err(e) => {
                return Err(e);
            },
        };
        let mime = match usfs.get_mime(path) {
            Ok(m) => m,
            Err(e) => {
                return Err(e);
            },
        };
        let mime_str = match mime {
            Some(m) => m,
            None => String::from_str(DEFAULT_MIME_TYPE),
        };
        let scoped = match usfs.construct_path(path) {
            Ok(p) => p,
            Err(e) => {
                proof {
                    assert(false);
                }
                return Err(e);
            },
        };
        let rel = scoped.strip_prefix(&usfs.base_path);
        proof {
            assert(usfs@.base.len() == 1);
            assert(rel@ == scoped@.skip(1));
        }
        Ok(
            FSFile {
                filename: rel.item_name(),
                scoped_path: rel.to_rel_string(),
                size,
                mime: mime_str,
                date_created: times.0,
                date_modified: times.1,
            },
        )
    }
}

/// One directory entry as a caller sees it.
#[derive(Debug)]
pub struct FSDirectory {
    pub name: String,
    pub scoped_path: String,
}

impl FSDirectory {
    /// Describe a directory from its scope-relative path.
    pub fn new(path: &FsPath) -> (r: Self)
        ensures
            r.scoped_path@ == rel_string_of(path@),
            path@.len() > 0 ==> r.name@ == path@.last(),
            path@.len() == 0 ==> r.name@ == seq!['.'],
    {
        FSDirectory { name: path.item_name(), scoped_path: path.to_rel_string() }
    }
}

/// A listed entry with its scope-relative path and content type.
#[derive(Debug)]
pub struct FSPartialEntry {
    pub scoped_path: String,
    pub mime: String,
    pub filename: String,
}

impl FSPartialEntry {
    /// Describe one enumerated entry from its scope-relative path.
    pub fn new(usfs: &UserScopedFS<'_>, path: &FsPath) -> (r: FSRes<FSPartialEntry>)
        requires
            usfs.wf(),
            valid_segs(path@),
        ensures
            ({
                match r {
                    Ok(p) => {
                        &&& p.scoped_path@ == rel_string_of(path@)
                        &&& (path@.len() > 0 ==> p.filename@ == path@.last())
                        &&& (path@.len() == 0 ==> p.filename@ == seq!['.'])
                        &&& p.mime@ == (match mime_of(
                            abs_string_of(usfs@.fsv.root + usfs@.base + path@),
                        ) {
                            Some(m) => m,
                            None => DEFAULT_MIME_TYPE@,
                        })
                    },
                    Err(_) => false,
                }
            }),
    {
        let rendered = path.to_rel_string();
        proof {
            lemma_uid_seg_valid(usfs@.uid);
            assert(valid_segs(usfs@.base)) by {
                assert(usfs@.base[0] == uid_seq(usfs@.uid));
            }
            lemma_resolve_rendered_rel(usfs@.base, path@);
            assert((usfs@.fsv.root + (usfs@.base + path@)) =~= (usfs@.fsv.root + usfs@.base
                + path@));
        }
        let mime = match usfs.get_mime(rendered.as_str()) {
            Ok(m) => m,
            Err(e) => {
                proof {
                    assert(false);
                }
                return Err(e);
            },
        };
        let mime_str = match mime {
            Some(m) => m,
            None => String::from_str(DEFAULT_MIME_TYPE),
        };
        Ok(
            FSPartialEntry {
                scoped_path: path.to_rel_string(),
                mime: mime_str,
                filename: path.item_name(),
            },
        )
    }
}

/// A directory listing as a caller sees it: the directory itself and
/// a description of each child, every path relative to the scope.
#[derive(Debug)]
pub struct FSDirListing {
    pub name: String,
    pub scoped_path: String,
    pub files: Vec<FSFile>,
    pub directories: Vec<FSDirectory>,
}

impl FSDirListing {
    /// List the directory at `path` inside the user's scope, with a
    /// full description of each file child.
    pub fn new(usfs: &UserScopedFS<'_>, disk: &Disk, path: &str) -> (r: FSRes<FSDirListing>)
        requires
            disk.wf(),
            usfs.wf(),
        ensures
            ({
                let c = scope_abs(usfs@, path@);
                let n = usfs.true_base().len() as int;
                let kids_f = strip_all(child_files_of(disk.files@, c), n);
                let kids_d = strip_all(child_dirs_of(disk.dirs@, c), n);
                match r {
                    Ok(l) => {
                        &&& in_scope(usfs@, path@)
                        &&& disk@.dirs.contains_key(c)
                        &&& l.scoped_path@ == rel_string_of(
                            resolved_under(usfs@.base, path@).skip(1),
                        )
                        &&& l.directories@.len() == kids_d.len()
                        &&& (forall|i: int|
                            0 <= i < kids_d.len()
                                ==> (#[trigger] l.directories@[i]).scoped_path@ == rel_string_of(
                                kids_d[i],
                            ))
                        &&& l.files@.len() == kids_f.len()
                        &&& (forall|i: int|
                            0 <= i < kids_f.len() ==> (#[trigger] l.files@[i]).scoped_path@
                                == rel_string_of(kids_f[i]) && l.files@[i].size as int
                                == disk@.files[child_files_of(disk.files@, c)[i]].data.len())
                    },
                    Err(e) => if !in_scope(usfs@, path@) {
                        e == FSError::PathBreaksOut
                    } else if disk@.files.contains_key(c) {
                        e == FSError::HFS(HostErrorKind::Other)
                    } else {
                        !disk@.dirs.contains_key(c) && e == FSError::HFS(HostErrorKind::NotFound)
                    },
                }
            }),
    {
        let scoped = match usfs.construct_path(path) {
            Ok(p) => p,
            Err(e) => {
                return Err(e);
            },
        };
        let (kid_files, kid_dirs) = match usfs.list_dir(disk, path) {
            Ok(listing) => listing,
            Err(e) => {
                return Err(e);
            },
        };
        let ghost c = scope_abs(usfs@, path@);
        let ghost n = usfs.true_base().len() as int;
        let ghost abs_kids = child_files_of(disk.files@, c);
        proof {
            lemma_uid_seg_valid(usfs@.uid);
            assert(valid_segs(usfs@.base)) by {
                assert(usfs@.base[0] == uid_seq(usfs@.uid));
            }
            lemma_child_files_shape(disk.files@, c);
            lemma_child_files_members(disk.files@, c);
            lemma_files_map_keys(disk.files@);
            assert forall|j: int| 0 <= j < abs_kids.len() implies #[trigger] disk@.files.contains_key(
                abs_kids[j],
            ) && valid_segs(abs_kids[j]) by {
                let w = choose|w: int|
                    0 <= w < disk.files@.len() && abs_kids[j] == (#[trigger] disk.files@[w].path@);
                assert(disk.files@[w].path@ == abs_kids[j]);
            }
            assert(starts_with(c, usfs.true_base())) by {
                assert((usfs@.fsv.root + resolved_under(usfs@.base, path@)).take(
                    usfs@.fsv.root.len() as int + usfs@.base.len() as int,
                ) =~= usfs@.fsv.root + resolved_under(usfs@.base, path@).take(
                    usfs@.base.len() as int,
                ));
            }
        }
        let mut files_out: Vec<FSFile> = Vec::new();
        let mut i: usize = 0;
        while i < kid_files.len()
            invariant
                disk.wf(),
                usfs.wf(),
                i <= kid_files@.len(),
                n == usfs.true_base().len() as int,
                abs_kids == child_files_of(disk.files@, c),
                views_of(kid_files@) == strip_all(abs_kids, n),
                starts_with(c, usfs.true_base()),
                forall|j: int|
                    0 <= j < abs_kids.len() ==> is_child_of(#[trigger] abs_kids[j], c),
                forall|j: int|
                    0 <= j < abs_kids.len() ==> #[trigger] disk@.files.contains_key(abs_kids[j])
                        && valid_segs(abs_kids[j]),
                files_out@.len() == i,
                forall|j: int|
                    0 <= j < i ==> (#[trigger] files_out@[j]).scoped_path@ == rel_string_of(
                        strip_all(abs_kids, n)[j],
                    ) && files_out@[j].size as int == disk@.files[abs_kids[j]].data.len(),
            decreases kid_files@.len() - i,
        {
            let ghost childabs = abs_kids[i as int];
            proof {
                assert(views_of(kid_files@)[i as int] == kid_files@[i as int]@);
                assert(i < abs_kids.len()) by {
                    assert(views_of(kid_files@).len() == kid_files@.len());
                    assert(strip_all(abs_kids, n).len() == abs_kids.len());
                }
                assert(strip_all(abs_kids, n)[i as int] == abs_kids[i as int].skip(n));
                assert(kid_files@[i as int]@ == childabs.skip(n));
                assert(starts_with(childabs, c)) by {
                    assert(childabs.take(c.len() as int) =~= childabs.drop_last());
                }
                lemma_starts_with_trans(childabs, c, usfs.true_base());
                lemma_uid_seg_valid(usfs@.uid);
                assert(valid_segs(usfs@.base)) by {
                    assert(usfs@.base[0] == uid_seq(usfs@.uid));
                }
                assert(disk@.files.contains_key(abs_kids[i as int]));
                assert(valid_segs(childabs));
                assert(valid_segs(kid_files@[i as int]@)) by {
                    let kid = kid_files@[i as int]@;
                    assert forall|x: int| 0 <= x < kid.len() implies crate::paths::valid_seg(
                        #[trigger] kid[x],
                    ) by {
                        assert(kid[x] == childabs[x + n]);
                        assert(crate::paths::valid_seg(childabs[x + n]));
                    }
                }
                lemma_resolve_rendered_rel(usfs@.base, kid_files@[i as int]@);
                lemma_prefix_rejoin(childabs, usfs.true_base());
                assert(usfs@.fsv.root + (usfs@.base + childabs.skip(n)) =~= (usfs@.fsv.root
                    + usfs@.base) + childabs.skip(n));
                assert((usfs@.base + childabs.skip(n)).skip(1) =~= childabs.skip(n));
            }
            let rendered = kid_files[i].to_rel_string();
            let described = match FSFile::new(usfs, disk, rendered.as_str()) {
                Ok(f) => f,
                Err(e) => {
                    proof {
                        assert(false);
                    }
                    return Err(e);
                },
            };
            files_out.push(described);
            i += 1;
        }
        let mut dirs_out: Vec<FSDirectory> = Vec::new();
        let mut h: usize = 0;
        while h < kid_dirs.len()
            invariant
                h <= kid_dirs@.len(),
                views_of(kid_dirs@) == strip_all(child_dirs_of(disk.dirs@, c), n),
                dirs_out@.len() == h,
                forall|j: int|
                    0 <= j < h ==> (#[trigger] dirs_out@[j]).scoped_path@ == rel_string_of(
                        strip_all(child_dirs_of(disk.dirs@, c), n)[j],
                    ),
            decreases kid_dirs@.len() - h,
        {
            proof {
                assert(kid_dirs@[h as int]@ == strip_all(child_dirs_of(disk.dirs@, c), n)[h as int]);
            }
            dirs_out.push(FSDirectory::new(&kid_dirs[h]));
            h += 1;
        }
        let rel = scoped.strip_prefix(&usfs.base_path);
        proof {
            assert(usfs@.base.len() == 1);
        }
        Ok(
            FSDirListing {
                name: rel.item_name(),
                scoped_path: rel.to_rel_string(),
                files: files_out,
                directories: dirs_out,
            },
        )
    }
}

/// The flat recursive file enumeration below a path, every entry
/// relative to the scope.
#[derive(Debug)]
pub struct FSTree(pub Vec<FSPartialEntry>);

impl FSTree {
    /// Enumerate every file below `path` inside the user's scope.
    pub fn new(usfs: &UserScopedFS<'_>, disk: &Disk, path: &str) -> (r: FSRes<FSTree>)
        requires
            disk.wf(),
            usfs.wf(),
        ensures
            ({
                let c = scope_abs(usfs@, path@);
                let n = usfs.true_base().len() as int;
                let items = strip_all(tree_files_of(disk.files@, c), n);
                match r {
                    Ok(t) => {
                        &&& in_scope(usfs@, path@)
                        &&& t.0@.len() == items.len()
                        &&& (forall|i: int|
                            0 <= i < items.len() ==> (#[trigger] t.0@[i]).scoped_path@
                                == rel_string_of(items[i]))
                    },
                    Err(e) => e == FSError::PathBreaksOut && !in_scope(usfs@, path@),
                }
            }),
    {
        let list = match usfs.get_dir_tree(disk, path) {
            Ok(l) => l,
            Err(e) => {
                return Err(e);
            },
        };
        let ghost c = scope_abs(usfs@, path@);
        let ghost n = usfs.true_base().len() as int;
        let ghost whole = tree_files_of(disk.files@, c);
        proof {
            lemma_tree_files_shape(disk.files@, c);
            lemma_tree_files_members(disk.files@, c);
            lemma_files_map_keys(disk.files@);
            assert(starts_with(c, usfs.true_base())) by {
                assert((usfs@.fsv.root + resolved_under(usfs@.base, path@)).take(
                    usfs@.fsv.root.len() as int + usfs@.base.len() as int,
                ) =~= usfs@.fsv.root + resolved_under(usfs@.base, path@).take(
                    usfs@.base.len() as int,
                ));
            }
            assert forall|j: int| 0 <= j < whole.len() implies valid_segs(#[trigger] whole[j])
                && whole[j].len() > n by {
                assert(is_strictly_under(whole[j], c));
                let w = choose|w: int|
                    0 <= w < disk.files@.len() && whole[j] == (#[trigger] disk.files@[w].path@);
                assert(disk.files@[w].path@ == whole[j]);
                assert(c.len() >= n);
            }
        }
        let mut out: Vec<FSPartialEntry> = Vec::new();
        let mut i: usize = 0;
        while i < list.len()
            invariant
                disk.wf(),
                usfs.wf(),
                i <= list@.len(),
                n == usfs.true_base().len() as int,
                whole == tree_files_of(disk.files@, c),
                views_of(list@) == strip_all(whole, n),
                forall|j: int|
                    0 <= j < whole.len() ==> valid_segs(#[trigger] whole[j]) && whole[j].len()
                        > n,
                out@.len() == i,
                forall|j: int|
                    0 <= j < i ==> (#[trigger] out@[j]).scoped_path@ == rel_string_of(
                        strip_all(whole, n)[j],
                    ),
            decreases list@.len() - i,
        {
            proof {
                assert(views_of(list@)[i as int] == list@[i as int]@);
                assert(i < whole.len()) by {
                    assert(views_of(list@).len() == list@.len());
                    assert(strip_all(whole, n).len() == whole.len());
                }
                assert(strip_all(whole, n)[i as int] == whole[i as int].skip(n));
                assert(list@[i as int]@ == whole[i as int].skip(n));
                assert(valid_segs(list@[i as int]@)) by {
                    let w = whole[i as int];
                    assert(forall|x: int|
                        0 <= x < w.skip(n).len() ==> #[trigger] w.skip(n)[x] == w[x + n]);
                }
            }
            let entry = match FSPartialEntry::new(usfs, &list[i]) {
                Ok(p) => p,
                Err(e) => {
                    proof {
                        assert(false);
                    }
                    return Err(e);
                },
            };
            out.push(entry);
            i += 1;
        }
        Ok(FSTree(out))
    }
}

} // verus!
