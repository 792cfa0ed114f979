//! The shared storage root.
//!
//! A `Filesystem` anchors one canonical root directory inside a
//! `Disk` and offers the primitive operations on it, each
//! parameterized by a logical path relative to the root.  Every
//! operation resolves that path lexically and fails with
//! `PathBreaksOut` — before it touches anything — if the normal form
//! would escape the root.  Writes and copies enforce the configured
//! global capacity.

use vstd::prelude::*;
use vstd::slice::slice_to_vec;
use crate::disk::FileNode;
use crate::disk::uniq_file_paths;
use crate::disk::uniq_dir_paths;
use crate::disk::DirNode;
use crate::disk::data_sum;
use crate::disk::is_strictly_under;
use crate::disk::lemma_ancestors_are_dirs;
use crate::disk::lemma_concat_skip;
use crate::disk::lemma_data_sum_nonneg;
use crate::disk::lemma_data_sum_take_le;
use crate::disk::lemma_data_sum_take_step;
use crate::disk::lemma_prefix_rejoin;
use crate::disk::lemma_usage_strict;
use crate::disk::some_entry_under;
use crate::disk::strict_usage;
use crate::disk::DirView;
use crate::disk::Disk;
use crate::disk::FileView;
use crate::disk::child_dirs_of;
use crate::disk::child_files_of;
use crate::disk::created_stamp;
use crate::disk::dir_exists;
use crate::disk::lemma_starts_with_empty;
use crate::disk::lemma_usage_prefix_le;
use crate::disk::moved_map;
use crate::disk::restrict_out;
use crate::disk::tree_files_of;
use crate::disk::usage_of;
use crate::paths::FsPath;
use crate::paths::abs_string_of;
use crate::paths::contained_in;
use crate::paths::resolved_under;
use crate::paths::starts_with;
use crate::paths::valid_segs;
use crate::paths::views_of;
use crate::resolve::lemma_resolved_wf;
use crate::resolve::resolve_under;

verus! {

/// How a host failure is classified.
#[derive(Debug, Clone, Copy, PartialEq, Eq, Structural)]
pub enum HostErrorKind {
    NotFound,
    AlreadyExists,
    Other,
}

/// Why an operation failed.
#[derive(Debug, Clone, Copy, PartialEq, Eq, Structural)]
pub enum FSError {
    /// A host filesystem failure, classified by kind.
    HFS(HostErrorKind),
    /// The resolved path would escape the root.
    PathBreaksOut,
    /// The path is not valid UTF-8 text.
    InvalidUTF8Path,
    /// The write or copy would exceed the configured capacity.
    NotEnoughStorage,
}

impl FSError {
    /// A short description, in words.
    pub fn describe(&self) -> (r: &'static str)
    {
        match self {
            FSError::HFS(HostErrorKind::NotFound) => "a host fs error occured: not found",
            FSError::HFS(HostErrorKind::AlreadyExists) => "a host fs error occured: already exists",
            FSError::HFS(HostErrorKind::Other) => "a host fs error occured",
            FSError::PathBreaksOut => "the path is invalid",
            FSError::InvalidUTF8Path => "the path is not valid a UTF-8 string",
            FSError::NotEnoughStorage => "you haven't got enough storage to store a file of such size",
        }
    }
}

pub type FSRes<T> = Result<T, FSError>;

/// The configuration a storage root carries: its canonical root, an
/// optional template tree, and optional capacities in bytes.
pub struct FsInfo {
    pub root: Seq<Seq<char>>,
    pub template: Option<Seq<Seq<char>>>,
    pub total_size: Option<u64>,
    pub userspace_size: Option<u64>,
}

/// One canonical host directory and the operations on it.
pub struct Filesystem {
    pub storage_path: FsPath,
    pub template_path: Option<FsPath>,
    pub total_size: Option<u64>,
    pub userspace_size: Option<u64>,
}

impl View for Filesystem {
    type V = FsInfo;

    open spec fn view(&self) -> FsInfo {
        FsInfo {
            root: self.storage_path@,
            template: match self.template_path {
                Some(t) => Some(t@),
                None => None,
            },
            total_size: self.total_size,
            userspace_size: self.userspace_size,
        }
    }
}

/// The view of an optional owned string.
pub open spec fn opt_str_view(o: Option<String>) -> Option<Seq<char>> {
    match o {
        Some(s) => Some(s@),
        None => None,
    }
}

impl Filesystem {
    /// The root is a proper absolute directory path; so is the
    /// template tree, where one is configured.
    pub open spec fn wf(&self) -> bool {
        &&& valid_segs(self@.root)
        &&& self@.root.len() >= 1
        &&& match self@.template {
            Some(t) => valid_segs(t) && t.len() >= 1,
            None => true,
        }
    }

    /// Anchor a storage root.  Startup validation is split between
    /// the two sides, by deliberate choice: a missing root directory
    /// is created here rather than treated as fatal (a first run on
    /// an empty disk then needs no separate provisioning step), while
    /// anything else in the way — a file where the root should be, a
    /// missing parent, a template that is not an existing directory —
    /// is the fatal startup condition, excluded by the preconditions
    /// and checked by the caller before construction.
    pub fn new(
        storage_path: &str,
        template_path: Option<&str>,
        total_size: Option<u64>,
        userspace_size: Option<u64>,
        disk: &mut Disk,
        now: i64,
    ) -> (r: Self)
        requires
            old(disk).wf(),
            crate::paths::is_abs_path(storage_path@),
            resolved_under(Seq::empty(), storage_path@).len() >= 1,
            !old(disk)@.files.contains_key(resolved_under(Seq::empty(), storage_path@)),
            old(disk)@.dirs.contains_key(resolved_under(Seq::empty(), storage_path@))
                || dir_exists(
                old(disk)@,
                resolved_under(Seq::empty(), storage_path@).drop_last(),
            ),
            match template_path {
                Some(t) => crate::paths::is_abs_path(t@) && old(disk)@.dirs.contains_key(
                    resolved_under(Seq::empty(), t@),
                ),
                None => true,
            },
        ensures
            final(disk).wf(),
            r.wf(),
            r@.root == resolved_under(Seq::empty(), storage_path@),
            r@.template == match template_path {
                Some(t) => Some(resolved_under(Seq::empty(), t@)),
                None => None::<Seq<Seq<char>>>,
            },
            r@.total_size == total_size,
            r@.userspace_size == userspace_size,
            final(disk)@.dirs.contains_key(r@.root),
            old(disk)@.dirs.contains_key(r@.root) ==> *final(disk) == *old(disk),
            !old(disk)@.dirs.contains_key(r@.root) ==> final(disk)@.dirs
                == old(disk)@.dirs.insert(r@.root, DirView { created: now, modified: now })
                && final(disk)@.files == old(disk)@.files && final(disk).files@ == old(disk).files@,
    {
        let empty = FsPath::empty();
        let root = resolve_under(&empty, storage_path);
        proof {
            lemma_resolved_wf(Seq::empty(), storage_path@);
        }
        if !disk.has_dir(&root) {
            disk.add_dir(&root, now);
        }
        let template = match template_path {
            Some(t) => {
                let tp = resolve_under(&empty, t);
                proof {
                    lemma_resolved_wf(Seq::empty(), t@);
                    assert(old(disk)@.dirs.contains_key(tp@));
                    crate::disk::lemma_dirs_map_keys(old(disk).dirs@);
                    let j = choose|j: int|
                        0 <= j < old(disk).dirs@.len() && (#[trigger] old(disk).dirs@[j].path@)
                            == tp@;
                    assert(tp@.len() >= 1);
                }
                Some(tp)
            },
            None => None,
        };
        Filesystem {
            storage_path: root,
            template_path: template,
            total_size,
            userspace_size,
        }
    }

    pub fn storage_path(&self) -> (r: &FsPath)
        ensures
            r@ == self@.root,
    {
        &self.storage_path
    }

    pub fn template_path(&self) -> (r: Option<&FsPath>)
        ensures
            match r {
                Some(t) => self@.template == Some(t@),
                None => self@.template is None,
            },
    {
        match &self.template_path {
            Some(t) => Some(t),
            None => None,
        }
    }

    pub fn userspace_size(&self) -> (r: Option<u64>)
        ensures
            r == self@.userspace_size,
    {
        self.userspace_size
    }

    pub fn total_size(&self) -> (r: Option<u64>)
        ensures
            r == self@.total_size,
    {
        self.total_size
    }

    /// The containment check on an already constructed path.
    pub fn is_breaking_out(&self, final_path: &FsPath) -> (b: bool)
        ensures
            b == !starts_with(final_path@, self@.root),
    {
        !final_path.starts_with_path(&self.storage_path)
    }

    /// Resolve a logical path against the root and enforce
    /// containment: the only way a path ever reaches the disk.
    pub fn construct_path(&self, path: &str) -> (r: FSRes<FsPath>)
        requires
            self.wf(),
        ensures
            match r {
                Ok(c) => contained_in(self@.root, path@) && c@ == resolved_under(
                    self@.root,
                    path@,
                ) && valid_segs(c@) && starts_with(c@, self@.root) && c@.len() >= 1,
                Err(e) => e == FSError::PathBreaksOut && !contained_in(self@.root, path@),
            },
    {
        let resolved = resolve_under(&self.storage_path, path);
        proof {
            lemma_resolved_wf(self@.root, path@);
        }
        if self.is_breaking_out(&resolved) {
            Err(FSError::PathBreaksOut)
        } else {
            Ok(resolved)
        }
    }

    /// Create the directory at `path`.
    pub fn create_dir(&self, disk: &mut Disk, path: &str, now: i64) -> (r: FSRes<()>)
        requires
            old(disk).wf(),
            self.wf(),
        ensures
            final(disk).wf(),
            ({
                let c = resolved_under(self@.root, path@);
                if !contained_in(self@.root, path@) {
                    r == FSRes::<()>::Err(FSError::PathBreaksOut) && *final(disk) == *old(disk)
                } else if old(disk)@.files.contains_key(c) || old(disk)@.dirs.contains_key(c) {
                    r == FSRes::<()>::Err(FSError::HFS(HostErrorKind::AlreadyExists)) && *final(disk) == *old(disk)
                } else if !dir_exists(old(disk)@, c.drop_last()) {
                    r == FSRes::<()>::Err(FSError::HFS(HostErrorKind::NotFound)) && *final(disk)
                        == *old(disk)
                } else {
                    r == FSRes::<()>::Ok(()) && final(disk)@.dirs == old(disk)@.dirs.insert(
                        c,
                        DirView { created: now, modified: now },
                    ) && final(disk)@.files == old(disk)@.files && final(disk).files@ == old(disk).files@
                }
            }),
    {
        let c = match self.construct_path(path) {
            Ok(c) => c,
            Err(e) => {
                return Err(e);
            },
        };
        if disk.file_exists(&c) || disk.has_dir(&c) {
            return Err(FSError::HFS(HostErrorKind::AlreadyExists));
        }
        let parent = c.parent_path();
        if parent.seg_count() > 0 && !disk.has_dir(&parent) {
            return Err(FSError::HFS(HostErrorKind::NotFound));
        }
        disk.add_dir(&c, now);
        Ok(())
    }

    /// Read the whole file at `path`.
    pub fn read_file(&self, disk: &Disk, path: &str) -> (r: FSRes<Vec<u8>>)
        requires
            disk.wf(),
            self.wf(),
        ensures
            ({
                let c = resolved_under(self@.root, path@);
                match r {
                    Ok(data) => contained_in(self@.root, path@) && disk@.files.contains_key(c)
                        && data@ == disk@.files[c].data,
                    Err(e) => if !contained_in(self@.root, path@) {
                        e == FSError::PathBreaksOut
                    } else if disk@.dirs.contains_key(c) {
                        e == FSError::HFS(HostErrorKind::Other)
                    } else {
                        !disk@.files.contains_key(c) && e == FSError::HFS(HostErrorKind::NotFound)
                    },
                }
            }),
    {
        let c = match self.construct_path(path) {
            Ok(c) => c,
            Err(e) => {
                return Err(e);
            },
        };
        match disk.read_file_data(&c) {
            Some(data) => Ok(data),
            None => {
                if disk.has_dir(&c) {
                    Err(FSError::HFS(HostErrorKind::Other))
                } else {
                    Err(FSError::HFS(HostErrorKind::NotFound))
                }
            },
        }
    }

    /// Write the whole file at `path`, after checking containment and
    /// then the global capacity against the root's current usage.
    pub fn write_file(&self, disk: &mut Disk, path: &str, data: &[u8], now: i64) -> (r: FSRes<
        (),
    >)
        requires
            old(disk).wf(),
            self.wf(),
            usage_of(old(disk).files@, Seq::empty()) + data@.len() <= u64::MAX,
        ensures
            final(disk).wf(),
            ({
                let c = resolved_under(self@.root, path@);
                if !contained_in(self@.root, path@) {
                    r == FSRes::<()>::Err(FSError::PathBreaksOut) && *final(disk) == *old(disk)
                } else if match self@.total_size {
                    Some(cap) => usage_of(old(disk).files@, self@.root) + data@.len() > cap,
                    None => false,
                } {
                    r == FSRes::<()>::Err(FSError::NotEnoughStorage) && *final(disk) == *old(disk)
                } else if old(disk)@.dirs.contains_key(c) {
                    r == FSRes::<()>::Err(FSError::HFS(HostErrorKind::Other)) && *final(disk)
                        == *old(disk)
                } else if !dir_exists(old(disk)@, c.drop_last()) {
                    r == FSRes::<()>::Err(FSError::HFS(HostErrorKind::NotFound)) && *final(disk)
                        == *old(disk)
                } else {
                    r == FSRes::<()>::Ok(()) && final(disk)@.files == old(disk)@.files.insert(
                        c,
                        FileView {
                            data: data@,
                            created: created_stamp(old(disk)@, c, now),
                            modified: now,
                        },
                    ) && final(disk)@.dirs == old(disk)@.dirs && final(disk).dirs@ == old(disk).dirs@
                }
            }),
    {
        let c = match self.construct_path(path) {
            Ok(c) => c,
            Err(e) => {
                return Err(e);
            },
        };
        if let Some(cap) = self.total_size {
            let used = disk.usage_under(&self.storage_path);
            if used > cap || data.len() as u64 > cap - used {
                return Err(FSError::NotEnoughStorage);
            }
        }
        if disk.has_dir(&c) {
            return Err(FSError::HFS(HostErrorKind::Other));
        }
        let parent = c.parent_path();
        if parent.seg_count() > 0 && !disk.has_dir(&parent) {
            return Err(FSError::HFS(HostErrorKind::NotFound));
        }
        disk.set_file(&c, slice_to_vec(data), now);
        Ok(())
    }

    /// Delete the file at `path`, or the whole directory tree at
    /// `path`.
    pub fn remove_item(&self, disk: &mut Disk, path: &str) -> (r: FSRes<()>)
        requires
            old(disk).wf(),
            self.wf(),
        ensures
            final(disk).wf(),
            ({
                let c = resolved_under(self@.root, path@);
                if !contained_in(self@.root, path@) {
                    r == FSRes::<()>::Err(FSError::PathBreaksOut) && *final(disk) == *old(disk)
                } else if old(disk)@.files.contains_key(c) {
                    r == FSRes::<()>::Ok(()) && final(disk)@.files == old(disk)@.files.remove(c)
                        && final(disk)@.dirs == old(disk)@.dirs && final(disk).dirs@ == old(disk).dirs@
                } else if old(disk)@.dirs.contains_key(c) {
                    r == FSRes::<()>::Ok(()) && final(disk)@.files == restrict_out(
                        old(disk)@.files,
                        c,
                    ) && final(disk)@.dirs == restrict_out(old(disk)@.dirs, c)
                } else {
                    r == FSRes::<()>::Err(FSError::HFS(HostErrorKind::NotFound)) && *final(disk)
                        == *old(disk)
                }
            }),
    {
        let c = match self.construct_path(path) {
            Ok(c) => c,
            Err(e) => {
                return Err(e);
            },
        };
        if disk.file_exists(&c) {
            disk.remove_file_at(&c);
            Ok(())
        } else if disk.has_dir(&c) {
            disk.remove_tree(&c);
            Ok(())
        } else {
            Err(FSError::HFS(HostErrorKind::NotFound))
        }
    }

    /// The size of the file at `path`, or the total size of every
    /// file in the full recursive subtree where `path` is a
    /// directory.
    pub fn get_item_size(&self, disk: &Disk, path: &str) -> (r: FSRes<u64>)
        requires
            disk.wf(),
            self.wf(),
        ensures
            ({
                let c = resolved_under(self@.root, path@);
                match r {
                    Ok(n) => contained_in(self@.root, path@) && if disk@.files.contains_key(c) {
                        n == disk@.files[c].data.len()
                    } else {
                        n as int == usage_of(disk.files@, c)
                    },
                    Err(e) => e == FSError::PathBreaksOut && !contained_in(self@.root, path@),
                }
            }),
    {
        let c = match self.construct_path(path) {
            Ok(c) => c,
            Err(e) => {
                return Err(e);
            },
        };
        match disk.file_size(&c) {
            Some(n) => Ok(n),
            None => Ok(disk.usage_under(&c)),
        }
    }

    /// Creation and modification stamps of the entry at `path`.
    pub fn get_item_time_info(&self, disk: &Disk, path: &str) -> (r: FSRes<(i64, i64)>)
        requires
            disk.wf(),
            self.wf(),
        ensures
            ({
                let c = resolved_under(self@.root, path@);
                match r {
                    Ok(t) => contained_in(self@.root, path@) && ((disk@.files.contains_key(c)
                        && t.0 == disk@.files[c].created && t.1 == disk@.files[c].modified) || (
                    !disk@.files.contains_key(c) && disk@.dirs.contains_key(c) && t.0
                        == disk@.dirs[c].created && t.1 == disk@.dirs[c].modified)),
                    Err(e) => if !contained_in(self@.root, path@) {
                        e == FSError::PathBreaksOut
                    } else {
                        !disk@.files.contains_key(c) && !disk@.dirs.contains_key(c) && e
                            == FSError::HFS(HostErrorKind::NotFound)
                    },
                }
            }),
    {
        let c = match self.construct_path(path) {
            Ok(c) => c,
            Err(e) => {
                return Err(e);
            },
        };
        match disk.entry_times(&c) {
            Some(t) => Ok(t),
            None => Err(FSError::HFS(HostErrorKind::NotFound)),
        }
    }

    /// The content type guessed from the path's extension.
    pub fn get_mime(&self, path: &str) -> (r: FSRes<Option<String>>)
        requires
            self.wf(),
        ensures
            ({
                let c = resolved_under(self@.root, path@);
                match r {
                    Ok(m) => contained_in(self@.root, path@) && opt_str_view(m) == mime_of(
                        abs_string_of(c),
                    ),
                    Err(e) => e == FSError::PathBreaksOut && !contained_in(self@.root, path@),
                }
            }),
    {
        let c = match self.construct_path(path) {
            Ok(c) => c,
            Err(e) => {
                return Err(e);
            },
        };
        let rendered = c.to_abs_string();
        Ok(guess_mime(rendered.as_str()))
    }

    /// The two listings of the directory at `path`: files first, then
    /// directories, each as full canonical paths in disk order.
    pub fn list_dir(&self, disk: &Disk, path: &str) -> (r: FSRes<(Vec<FsPath>, Vec<FsPath>)>)
        requires
            disk.wf(),
            self.wf(),
        ensures
            ({
                let c = resolved_under(self@.root, path@);
                match r {
                    Ok(listing) => contained_in(self@.root, path@) && disk@.dirs.contains_key(c)
                        && views_of(listing.0@) == child_files_of(disk.files@, c) && views_of(
                        listing.1@,
                    ) == child_dirs_of(disk.dirs@, c),
                    Err(e) => if !contained_in(self@.root, path@) {
                        e == FSError::PathBreaksOut
                    } else if disk@.files.contains_key(c) {
                        e == FSError::HFS(HostErrorKind::Other)
                    } else {
                        !disk@.dirs.contains_key(c) && e == FSError::HFS(HostErrorKind::NotFound)
                    },
                }
            }),
    {
        let c = match self.construct_path(path) {
            Ok(c) => c,
            Err(e) => {
                return Err(e);
            },
        };
        if !disk.has_dir(&c) {
            if disk.file_exists(&c) {
                return Err(FSError::HFS(HostErrorKind::Other));
            }
            return Err(FSError::HFS(HostErrorKind::NotFound));
        }
        Ok(disk.children_of(&c))
    }

    /// The flat recursive file enumeration of the subtree below
    /// `path`: every file below it, as full canonical paths, in disk
    /// order.
    pub fn get_dir_tree(&self, disk: &Disk, path: &str) -> (r: FSRes<Vec<FsPath>>)
        requires
            disk.wf(),
            self.wf(),
        ensures
            ({
                let c = resolved_under(self@.root, path@);
                match r {
                    Ok(list) => contained_in(self@.root, path@) && views_of(list@)
                        == tree_files_of(disk.files@, c),
                    Err(e) => e == FSError::PathBreaksOut && !contained_in(self@.root, path@),
                }
            }),
    {
        let c = match self.construct_path(path) {
            Ok(c) => c,
            Err(e) => {
                return Err(e);
            },
        };
        Ok(disk.tree_under(&c))
    }
}

/// The bytes a copy would bring in: the source file's length, or the
/// usage under the source where it is not a file.
pub open spec fn source_size_of(d: Disk, cs: Seq<Seq<char>>) -> int {
    if d@.files.contains_key(cs) {
        d@.files[cs].data.len() as int
    } else {
        usage_of(d.files@, cs)
    }
}

/// In a directory copy from `cs` to `ct`, the key `k` receives a file:
/// it lies under `ct` and mirrors a source file.
pub open spec fn is_file_target(
    d: Disk,
    cs: Seq<Seq<char>>,
    ct: Seq<Seq<char>>,
    k: Seq<Seq<char>>,
) -> bool {
    starts_with(k, ct) && k.len() > ct.len() && d@.files.contains_key(
        cs + k.skip(ct.len() as int),
    )
}

/// In a directory copy from `cs` to `ct`, the key `k` is a directory
/// the copy creates or requires: an ancestor of `ct`, `ct` itself, or
/// the mirror of a source directory.
pub open spec fn copy_makes_dir(
    d: Disk,
    cs: Seq<Seq<char>>,
    ct: Seq<Seq<char>>,
    k: Seq<Seq<char>>,
) -> bool {
    some_entry_under(d, cs) && ((k.len() >= 1 && starts_with(ct, k)) || (starts_with(k, ct)
        && k.len() > ct.len() && d@.dirs.contains_key(cs + k.skip(ct.len() as int))))
}

/// A directory copy cannot proceed: a needed directory is an existing
/// file, or a file's destination is an existing directory.
pub open spec fn copy_conflict(d: Disk, cs: Seq<Seq<char>>, ct: Seq<Seq<char>>) -> bool {
    (exists|k: Seq<Seq<char>>|
        #[trigger] d@.files.contains_key(k) && copy_makes_dir(d, cs, ct, k)) || (exists|
        k: Seq<Seq<char>>,
    |
        #[trigger] d@.dirs.contains_key(k) && is_file_target(d, cs, ct, k))
}

/// The file map after a conflict-free directory copy.
pub open spec fn copy_files_after(
    d: Disk,
    cs: Seq<Seq<char>>,
    ct: Seq<Seq<char>>,
    now: i64,
) -> Map<Seq<Seq<char>>, FileView> {
    Map::new(
        |k: Seq<Seq<char>>| d@.files.contains_key(k) || is_file_target(d, cs, ct, k),
        |k: Seq<Seq<char>>|
            if is_file_target(d, cs, ct, k) {
                FileView {
                    data: d@.files[cs + k.skip(ct.len() as int)].data,
                    created: if d@.files.contains_key(k) {
                        d@.files[k].created
                    } else {
                        now
                    },
                    modified: now,
                }
            } else {
                d@.files[k]
            },
    )
}

/// The directory map after a conflict-free directory copy.
pub open spec fn copy_dirs_after(
    d: Disk,
    cs: Seq<Seq<char>>,
    ct: Seq<Seq<char>>,
    now: i64,
) -> Map<Seq<Seq<char>>, DirView> {
    Map::new(
        |k: Seq<Seq<char>>| d@.dirs.contains_key(k) || copy_makes_dir(d, cs, ct, k),
        |k: Seq<Seq<char>>|
            if d@.dirs.contains_key(k) {
                d@.dirs[k]
            } else {
                DirView { created: now, modified: now }
            },
    )
}

/// The directory keys present while a copy's directory mirrors are
/// built one by one.
spec fn made_dir_by(
    ct: Seq<Seq<char>>,
    cs: Seq<Seq<char>>,
    part: Seq<DirNode>,
    k: Seq<Seq<char>>,
) -> bool {
    (k.len() >= 1 && starts_with(ct, k)) || (exists|b: int|
        0 <= b < part.len() && k.len() >= 1 && k.len() > ct.len() && starts_with(
            ct + (#[trigger] part[b].path@).skip(cs.len() as int),
            k,
        ))
}

spec fn dirs_partial(
    d: Disk,
    cs: Seq<Seq<char>>,
    ct: Seq<Seq<char>>,
    part: Seq<DirNode>,
    now: i64,
) -> Map<Seq<Seq<char>>, DirView> {
    Map::new(
        |k: Seq<Seq<char>>| d@.dirs.contains_key(k) || made_dir_by(ct, cs, part, k),
        |k: Seq<Seq<char>>|
            if d@.dirs.contains_key(k) {
                d@.dirs[k]
            } else {
                DirView { created: now, modified: now }
            },
    )
}

/// The file keys written while a copy's files land one by one.
spec fn target_by(
    ct: Seq<Seq<char>>,
    cs: Seq<Seq<char>>,
    part: Seq<FileNode>,
    k: Seq<Seq<char>>,
) -> bool {
    exists|b: int|
        0 <= b < part.len() && k == ct + (#[trigger] part[b].path@).skip(cs.len() as int)
}

spec fn src_data_by(
    ct: Seq<Seq<char>>,
    cs: Seq<Seq<char>>,
    part: Seq<FileNode>,
    k: Seq<Seq<char>>,
) -> Seq<u8> {
    let b = choose|b: int|
        0 <= b < part.len() && k == ct + (#[trigger] part[b].path@).skip(cs.len() as int);
    part[b]@.data
}

spec fn files_partial(
    d: Disk,
    cs: Seq<Seq<char>>,
    ct: Seq<Seq<char>>,
    part: Seq<FileNode>,
    now: i64,
) -> Map<Seq<Seq<char>>, FileView> {
    Map::new(
        |k: Seq<Seq<char>>| d@.files.contains_key(k) || target_by(ct, cs, part, k),
        |k: Seq<Seq<char>>|
            if target_by(ct, cs, part, k) {
                FileView {
                    data: src_data_by(ct, cs, part, k),
                    created: if d@.files.contains_key(k) {
                        d@.files[k].created
                    } else {
                        now
                    },
                    modified: now,
                }
            } else {
                d@.files[k]
            },
    )
}

impl Filesystem {
    /// Rename the item at `source` to `target`, the way a host
    /// rename does: a file replaces an existing file, a directory may
    /// replace an empty directory, and nothing can move into its own
    /// subtree.
    #[verifier::rlimit(60)]
    pub fn move_item(&self, disk: &mut Disk, source: &str, target: &str) -> (r: FSRes<()>)
        requires
            old(disk).wf(),
            self.wf(),
        ensures
            final(disk).wf(),
            ({
                let cs = resolved_under(self@.root, source@);
                let ct = resolved_under(self@.root, target@);
                if !contained_in(self@.root, source@) {
                    r == FSRes::<()>::Err(FSError::PathBreaksOut) && *final(disk) == *old(disk)
                } else if !contained_in(self@.root, target@) {
                    r == FSRes::<()>::Err(FSError::PathBreaksOut) && *final(disk) == *old(disk)
                } else if old(disk)@.files.contains_key(cs) {
                    if ct == cs {
                        r == FSRes::<()>::Ok(()) && *final(disk) == *old(disk)
                    } else if old(disk)@.dirs.contains_key(ct) {
                        r == FSRes::<()>::Err(FSError::HFS(HostErrorKind::Other)) && *final(disk)
                            == *old(disk)
                    } else if !dir_exists(old(disk)@, ct.drop_last()) {
                        r == FSRes::<()>::Err(FSError::HFS(HostErrorKind::NotFound)) && *final(disk) == *old(disk)
                    } else {
                        r == FSRes::<()>::Ok(()) && final(disk)@.files
                            == old(disk)@.files.remove(cs).insert(ct, old(disk)@.files[cs])
                            && final(disk)@.dirs == old(disk)@.dirs && final(disk).dirs@ == old(disk).dirs@
                    }
                } else if old(disk)@.dirs.contains_key(cs) {
                    if ct == cs {
                        r == FSRes::<()>::Ok(()) && *final(disk) == *old(disk)
                    } else if old(disk)@.files.contains_key(ct) {
                        r == FSRes::<()>::Err(FSError::HFS(HostErrorKind::Other)) && *final(disk)
                            == *old(disk)
                    } else if starts_with(ct, cs) {
                        r == FSRes::<()>::Err(FSError::HFS(HostErrorKind::Other)) && *final(disk)
                            == *old(disk)
                    } else if !dir_exists(old(disk)@, ct.drop_last()) {
                        r == FSRes::<()>::Err(FSError::HFS(HostErrorKind::NotFound)) && *final(disk) == *old(disk)
                    } else if old(disk)@.dirs.contains_key(ct) && some_entry_under(
                        *old(disk),
                        ct,
                    ) {
                        r == FSRes::<()>::Err(FSError::HFS(HostErrorKind::Other)) && *final(disk)
                            == *old(disk)
                    } else {
                        r == FSRes::<()>::Ok(()) && final(disk)@.files == moved_map(
                            old(disk)@.files,
                            cs,
                            ct,
                        ) && final(disk)@.dirs == moved_map(old(disk)@.dirs, cs, ct)
                    }
                } else {
                    r == FSRes::<()>::Err(FSError::HFS(HostErrorKind::NotFound)) && *final(disk)
                        == *old(disk)
                }
            }),
    {
        let cs = match self.construct_path(source) {
            Ok(c) => c,
            Err(e) => {
                return Err(e);
            },
        };
        let ct = match self.construct_path(target) {
            Ok(c) => c,
            Err(e) => {
                return Err(e);
            },
        };
        if disk.file_exists(&cs) {
            if cs.path_eq(&ct) {
                return Ok(());
            }
            if disk.has_dir(&ct) {
                return Err(FSError::HFS(HostErrorKind::Other));
            }
            let parent = ct.parent_path();
            if parent.seg_count() > 0 && !disk.has_dir(&parent) {
                return Err(FSError::HFS(HostErrorKind::NotFound));
            }
            disk.relocate_file(&cs, &ct);
            Ok(())
        } else if disk.has_dir(&cs) {
            if cs.path_eq(&ct) {
                return Ok(());
            }
            if disk.file_exists(&ct) {
                return Err(FSError::HFS(HostErrorKind::Other));
            }
            if ct.starts_with_path(&cs) {
                return Err(FSError::HFS(HostErrorKind::Other));
            }
            let parent = ct.parent_path();
            if parent.seg_count() > 0 && !disk.has_dir(&parent) {
                return Err(FSError::HFS(HostErrorKind::NotFound));
            }
            let ghost d0 = *disk;
            if disk.has_dir(&ct) {
                if disk.has_entry_under(&ct) {
                    return Err(FSError::HFS(HostErrorKind::Other));
                }
                proof {
                    assert(!starts_with(cs@, ct@)) by {
                        if starts_with(cs@, ct@) {
                            assert(cs@.len() != ct@.len() || cs@ == ct@) by {
                                if cs@.len() == ct@.len() {
                                    assert(cs@.take(ct@.len() as int) =~= cs@);
                                }
                            }
                            assert(is_strictly_under(cs@, ct@));
                        }
                    }
                }
                disk.remove_tree(&ct);
                proof {
                    assert(disk@.files =~= d0@.files) by {
                        assert forall|q: Seq<Seq<char>>| #[trigger] d0@.files.contains_key(
                            q,
                        ) implies !starts_with(q, ct@) by {
                            if starts_with(q, ct@) {
                                if q.len() == ct@.len() {
                                    assert(q.take(ct@.len() as int) =~= q);
                                    assert(d0@.dirs.contains_key(q));
                                } else {
                                    assert(is_strictly_under(q, ct@));
                                }
                            }
                        }
                    }
                    assert(disk@.dirs =~= restrict_out(d0@.dirs, ct@));
                    assert(!disk@.dirs.contains_key(ct@)) by {
                        assert(starts_with(ct@, ct@)) by {
                            assert(ct@.take(ct@.len() as int) =~= ct@);
                        }
                    }
                }
            }
            proof {
                assert(disk@.dirs.contains_key(cs@)) by {
                    if d0@.dirs.contains_key(ct@) {
                        assert(!starts_with(cs@, ct@)) by {
                            if starts_with(cs@, ct@) && cs@.len() == ct@.len() {
                                assert(cs@.take(ct@.len() as int) =~= cs@);
                            }
                        }
                    }
                }
                assert(dir_exists(disk@, ct@.drop_last())) by {
                    if ct@.drop_last().len() > 0 {
                        assert(!starts_with(ct@.drop_last(), ct@));
                    }
                }
            }
            let ghost d1 = *disk;
            disk.relocate_tree(&cs, &ct);
            proof {
                if d0@.dirs.contains_key(ct@) {
                    assert(disk@.dirs =~= moved_map(d0@.dirs, cs@, ct@)) by {
                        assert forall|q: Seq<Seq<char>>| true implies #[trigger] moved_map(
                            d1@.dirs,
                            cs@,
                            ct@,
                        ).contains_key(q) == moved_map(d0@.dirs, cs@, ct@).contains_key(q) && (
                        moved_map(d1@.dirs, cs@, ct@).contains_key(q) ==> moved_map(
                            d1@.dirs,
                            cs@,
                            ct@,
                        )[q] == moved_map(d0@.dirs, cs@, ct@)[q]) by {
                            if starts_with(q, ct@) {
                                let key = cs@ + q.skip(ct@.len() as int);
                                crate::disk::lemma_starts_with_concat(
                                    cs@,
                                    q.skip(ct@.len() as int),
                                );
                                assert(!starts_with(key, ct@)) by {
                                    if starts_with(key, ct@) {
                                        if ct@.len() <= cs@.len() {
                                            assert(starts_with(cs@, ct@)) by {
                                                assert(cs@ == key.take(cs@.len() as int));
                                                assert(cs@.take(ct@.len() as int) =~= key.take(
                                                    ct@.len() as int,
                                                ));
                                            }
                                            assert(is_strictly_under(cs@, ct@)) by {
                                                if cs@.len() == ct@.len() {
                                                    assert(cs@.take(ct@.len() as int) =~= cs@);
                                                }
                                            }
                                            assert(d0@.dirs.contains_key(cs@));
                                            assert(some_entry_under(d0, ct@));
                                            assert(false);
                                        } else {
                                            assert(starts_with(ct@, cs@)) by {
                                                assert(ct@ == key.take(ct@.len() as int));
                                                assert(ct@.take(cs@.len() as int) =~= key.take(
                                                    cs@.len() as int,
                                                ));
                                            }
                                            assert(false);
                                        }
                                    }
                                }
                                assert(d1@.dirs.contains_key(key) == d0@.dirs.contains_key(key));
                            }
                            if d0@.dirs.contains_key(q) && !starts_with(q, cs@) && !(
                            d1@.dirs.contains_key(q) && !starts_with(q, cs@)) {
                                // only keys under `ct` were dropped,
                                // and of those only `ct` itself was
                                // present; the move re-creates it
                                assert(starts_with(q, ct@));
                                if q.len() > ct@.len() {
                                    assert(is_strictly_under(q, ct@));
                                    assert(some_entry_under(d0, ct@));
                                    assert(false);
                                } else {
                                    assert(q.take(ct@.len() as int) =~= q);
                                    assert(q == ct@);
                                    assert(d1@.dirs.contains_key(cs@ + q.skip(ct@.len() as int)))
                                        by {
                                        assert(cs@ + q.skip(ct@.len() as int) =~= cs@);
                                    }
                                }
                            }
                        }
                    }
                }
            }
            Ok(())
        } else {
            Err(FSError::HFS(HostErrorKind::NotFound))
        }
    }

    /// Copy the file at `source` to `target`, or mirror the whole
    /// directory tree below `source` under `target`.
    ///
    /// The subtree is snapshotted before any mutation and the copy is
    /// validated first, so it either fully applies or changes
    /// nothing.  An empty or missing source directory copies nothing,
    /// as a wildcard expansion of it would match nothing.
    pub fn copy_item(&self, disk: &mut Disk, source: &str, target: &str, now: i64) -> (r: FSRes<
        (),
    >)
        requires
            old(disk).wf(),
            self.wf(),
            usage_of(old(disk).files@, Seq::empty()) + source_size_of(
                *old(disk),
                resolved_under(self@.root, source@),
            ) <= u64::MAX,
        ensures
            final(disk).wf(),
            ({
                let cs = resolved_under(self@.root, source@);
                let ct = resolved_under(self@.root, target@);
                if !contained_in(self@.root, source@) {
                    r == FSRes::<()>::Err(FSError::PathBreaksOut) && *final(disk) == *old(disk)
                } else if !contained_in(self@.root, target@) {
                    r == FSRes::<()>::Err(FSError::PathBreaksOut) && *final(disk) == *old(disk)
                } else if match self@.total_size {
                    Some(cap) => usage_of(old(disk).files@, self@.root) + source_size_of(
                        *old(disk),
                        cs,
                    ) > cap,
                    None => false,
                } {
                    r == FSRes::<()>::Err(FSError::NotEnoughStorage) && *final(disk) == *old(disk)
                } else if old(disk)@.files.contains_key(cs) {
                    if old(disk)@.dirs.contains_key(ct) {
                        r == FSRes::<()>::Err(FSError::HFS(HostErrorKind::Other)) && *final(disk)
                            == *old(disk)
                    } else if !dir_exists(old(disk)@, ct.drop_last()) {
                        r == FSRes::<()>::Err(FSError::HFS(HostErrorKind::NotFound)) && *final(disk) == *old(disk)
                    } else {
                        r == FSRes::<()>::Ok(()) && final(disk)@.files
                            == old(disk)@.files.insert(
                            ct,
                            FileView {
                                data: old(disk)@.files[cs].data,
                                created: created_stamp(old(disk)@, ct, now),
                                modified: now,
                            },
                        ) && final(disk)@.dirs == old(disk)@.dirs && final(disk).dirs@ == old(disk).dirs@
                    }
                } else if !some_entry_under(*old(disk), cs) {
                    r == FSRes::<()>::Ok(()) && *final(disk) == *old(disk)
                } else if copy_conflict(*old(disk), cs, ct) {
                    r == FSRes::<()>::Err(FSError::HFS(HostErrorKind::Other)) && *final(disk)
                        == *old(disk)
                } else {
                    r == FSRes::<()>::Ok(()) && final(disk)@.files == copy_files_after(
                        *old(disk),
                        cs,
                        ct,
                        now,
                    ) && final(disk)@.dirs == copy_dirs_after(*old(disk), cs, ct, now)
                }
            }),
    {
        let cs = match self.construct_path(source) {
            Ok(c) => c,
            Err(e) => {
                return Err(e);
            },
        };
        let ct = match self.construct_path(target) {
            Ok(c) => c,
            Err(e) => {
                return Err(e);
            },
        };
        let src_size: u64 = match disk.file_size(&cs) {
            Some(n) => n,
            None => disk.usage_under(&cs),
        };
        if let Some(cap) = self.total_size {
            let used = disk.usage_under(&self.storage_path);
            if used > cap || src_size > cap - used {
                return Err(FSError::NotEnoughStorage);
            }
        }
        match disk.read_file_data(&cs) {
            Some(data) => {
                if disk.has_dir(&ct) {
                    return Err(FSError::HFS(HostErrorKind::Other));
                }
                let parent = ct.parent_path();
                if parent.seg_count() > 0 && !disk.has_dir(&parent) {
                    return Err(FSError::HFS(HostErrorKind::NotFound));
                }
                disk.set_file(&ct, data, now);
                Ok(())
            },
            None => self.copy_tree(disk, &cs, &ct, now),
        }
    }

    /// The directory half of a copy: mirror everything strictly below
    /// `cs` under `ct`.
    fn copy_tree(&self, disk: &mut Disk, cs: &FsPath, ct: &FsPath, now: i64) -> (r: FSRes<()>)
        requires
            old(disk).wf(),
            self.wf(),
            valid_segs(cs@),
            valid_segs(ct@),
            ct@.len() >= 1,
            !old(disk)@.files.contains_key(cs@),
            usage_of(old(disk).files@, Seq::empty()) + usage_of(old(disk).files@, cs@)
                <= u64::MAX,
        ensures
            final(disk).wf(),
            if !some_entry_under(*old(disk), cs@) {
                r == FSRes::<()>::Ok(()) && *final(disk) == *old(disk)
            } else if copy_conflict(*old(disk), cs@, ct@) {
                r == FSRes::<()>::Err(FSError::HFS(HostErrorKind::Other)) && *final(disk) == *old(disk)
            } else {
                r == FSRes::<()>::Ok(()) && final(disk)@.files == copy_files_after(
                    *old(disk),
                    cs@,
                    ct@,
                    now,
                ) && final(disk)@.dirs == copy_dirs_after(*old(disk), cs@, ct@, now)
            },
    {
        if !disk.has_entry_under(cs) {
            return Ok(());
        }
        let ghost d0 = *disk;
        let coll_f = disk.snapshot_files_under(cs);
        let coll_d = disk.snapshot_dirs_under(cs);
        // Validate first: a needed directory must not be an existing
        // file, a file's destination must not be an existing
        // directory.
        let nt = ct.seg_count();
        let mut q: usize = 0;
        while q < nt
            invariant
                *disk == d0,
                d0 == *old(disk),
                disk.wf(),
                q <= nt,
                nt == ct@.len(),
                some_entry_under(d0, cs@),
                forall|p: int| 1 <= p <= q ==> !d0@.files.contains_key(#[trigger] ct@.take(p)),
            decreases nt - q,
        {
            let pre = ct.prefix_of(q + 1);
            if disk.file_exists(&pre) {
                proof {
                    assert(starts_with(ct@, pre@)) by {
                        assert(ct@.take(pre@.len() as int) =~= pre@);
                    }
                    assert(copy_makes_dir(d0, cs@, ct@, pre@));
                }
                return Err(FSError::HFS(HostErrorKind::Other));
            }
            proof {
                assert(forall|p: int|
                    1 <= p <= q + 1 ==> !d0@.files.contains_key(#[trigger] ct@.take(p))) by {
                    assert(ct@.take(q as int + 1) == pre@);
                }
            }
            q += 1;
        }
        let mut b: usize = 0;
        while b < coll_d.len()
            invariant
                *disk == d0,
                d0 == *old(disk),
                disk.wf(),
                b <= coll_d@.len(),
                some_entry_under(d0, cs@),
                forall|a: int|
                    0 <= a < coll_d@.len() ==> is_strictly_under(#[trigger] coll_d@[a].path@, cs@)
                        && d0@.dirs.contains_key(coll_d@[a].path@) && valid_segs(
                        coll_d@[a].path@,
                    ),
                forall|a: int|
                    0 <= a < b ==> !d0@.files.contains_key(
                        ct@ + (#[trigger] coll_d@[a].path@).skip(cs@.len() as int),
                    ),
            decreases coll_d@.len() - b,
        {
            let rel = coll_d[b].path.strip_prefix(cs);
            let tgt = ct.join(&rel);
            proof {
                assert(tgt@ == ct@ + coll_d@[b as int].path@.skip(cs@.len() as int));
            }
            if disk.file_exists(&tgt) {
                proof {
                    lemma_concat_skip(ct@, rel@);
                    lemma_prefix_rejoin(coll_d@[b as int].path@, cs@);
                    assert(rel@.len() >= 1);
                    assert(d0@.dirs.contains_key(cs@ + tgt@.skip(ct@.len() as int)));
                    assert(copy_makes_dir(d0, cs@, ct@, tgt@)) by {
                        assert(starts_with(tgt@, ct@)) by {
                            assert(tgt@.take(ct@.len() as int) =~= ct@);
                        }
                    }
                }
                return Err(FSError::HFS(HostErrorKind::Other));
            }
            b += 1;
        }
        let mut b2: usize = 0;
        while b2 < coll_f.len()
            invariant
                *disk == d0,
                d0 == *old(disk),
                disk.wf(),
                b2 <= coll_f@.len(),
                some_entry_under(d0, cs@),
                forall|a: int|
                    0 <= a < coll_f@.len() ==> is_strictly_under(#[trigger] coll_f@[a].path@, cs@)
                        && d0@.files.contains_key(coll_f@[a].path@) && valid_segs(
                        coll_f@[a].path@,
                    ),
                forall|a: int|
                    0 <= a < b2 ==> !d0@.dirs.contains_key(
                        ct@ + (#[trigger] coll_f@[a].path@).skip(cs@.len() as int),
                    ),
            decreases coll_f@.len() - b2,
        {
            let rel = coll_f[b2].path.strip_prefix(cs);
            let tgt = ct.join(&rel);
            proof {
                assert(tgt@ == ct@ + coll_f@[b2 as int].path@.skip(cs@.len() as int));
            }
            if disk.has_dir(&tgt) {
                proof {
                    lemma_concat_skip(ct@, rel@);
                    lemma_prefix_rejoin(coll_f@[b2 as int].path@, cs@);
                    assert(rel@.len() >= 1);
                    assert(is_file_target(d0, cs@, ct@, tgt@)) by {
                        assert(starts_with(tgt@, ct@)) by {
                            assert(tgt@.take(ct@.len() as int) =~= ct@);
                        }
                        assert(d0@.files.contains_key(cs@ + tgt@.skip(ct@.len() as int)));
                    }
                }
                return Err(FSError::HFS(HostErrorKind::Other));
            }
            b2 += 1;
        }
        proof {
            assert(!copy_conflict(d0, cs@, ct@)) by {
                if exists|k: Seq<Seq<char>>|
                    #[trigger] d0@.files.contains_key(k) && copy_makes_dir(d0, cs@, ct@, k) {
                    let k = choose|k: Seq<Seq<char>>|
                        #[trigger] d0@.files.contains_key(k) && copy_makes_dir(d0, cs@, ct@, k);
                    if k.len() >= 1 && starts_with(ct@, k) {
                        assert(!d0@.files.contains_key(ct@.take(k.len() as int)));
                        assert(ct@.take(k.len() as int) == k);
                        assert(false);
                    } else {
                        let abs = cs@ + k.skip(ct@.len() as int);
                        assert(d0@.dirs.contains_key(abs));
                        assert(is_strictly_under(abs, cs@)) by {
                            lemma_concat_skip(cs@, k.skip(ct@.len() as int));
                            assert(starts_with(abs, cs@)) by {
                                assert(abs.take(cs@.len() as int) =~= cs@);
                            }
                        }
                        let a = choose|a: int|
                            0 <= a < coll_d@.len() && (#[trigger] coll_d@[a].path@) == abs;
                        assert(!d0@.files.contains_key(ct@ + coll_d@[a].path@.skip(cs@.len() as int)));
                        assert(ct@ + abs.skip(cs@.len() as int) == k) by {
                            lemma_concat_skip(cs@, k.skip(ct@.len() as int));
                            lemma_prefix_rejoin(k, ct@);
                        }
                        assert(false);
                    }
                }
                if exists|k: Seq<Seq<char>>|
                    #[trigger] d0@.dirs.contains_key(k) && is_file_target(d0, cs@, ct@, k) {
                    let k = choose|k: Seq<Seq<char>>|
                        #[trigger] d0@.dirs.contains_key(k) && is_file_target(d0, cs@, ct@, k);
                    let abs = cs@ + k.skip(ct@.len() as int);
                    assert(d0@.files.contains_key(abs));
                    assert(is_strictly_under(abs, cs@)) by {
                        lemma_concat_skip(cs@, k.skip(ct@.len() as int));
                        assert(starts_with(abs, cs@)) by {
                            assert(abs.take(cs@.len() as int) =~= cs@);
                        }
                    }
                    let a = choose|a: int|
                        0 <= a < coll_f@.len() && (#[trigger] coll_f@[a].path@) == abs;
                    assert(!d0@.dirs.contains_key(ct@ + coll_f@[a].path@.skip(cs@.len() as int)));
                    assert(ct@ + abs.skip(cs@.len() as int) == k) by {
                        lemma_concat_skip(cs@, k.skip(ct@.len() as int));
                        lemma_prefix_rejoin(k, ct@);
                    }
                    assert(false);
                }
            }
        }
        self.apply_tree_copy(disk, cs, ct, &coll_f, &coll_d, now, Ghost(d0));
        Ok(())
    }
}

impl Filesystem {
    /// The write half of a directory copy, after validation: build
    /// the directory mirrors, then land every file.
    #[verifier::loop_isolation(false)]
    #[verifier::rlimit(100)]
    #[verifier::spinoff_prover]
    fn apply_tree_copy(
        &self,
        disk: &mut Disk,
        cs: &FsPath,
        ct: &FsPath,
        coll_f: &Vec<FileNode>,
        coll_d: &Vec<DirNode>,
        now: i64,
        Ghost(d0): Ghost<Disk>,
    )
        requires
            *old(disk) == d0,
            d0.wf(),
            self.wf(),
            valid_segs(cs@),
            valid_segs(ct@),
            ct@.len() >= 1,
            !d0@.files.contains_key(cs@),
            usage_of(d0.files@, Seq::empty()) + usage_of(d0.files@, cs@) <= u64::MAX,
            some_entry_under(d0, cs@),
            forall|a: int|
                0 <= a < coll_f@.len() ==> is_strictly_under(#[trigger] coll_f@[a].path@, cs@)
                    && d0@.files.contains_key(coll_f@[a].path@) && coll_f@[a]@
                    == d0@.files[coll_f@[a].path@] && valid_segs(coll_f@[a].path@),
            forall|k: Seq<Seq<char>>|
                #[trigger] d0@.files.contains_key(k) && is_strictly_under(k, cs@) ==> exists|
                    a: int,
                | 0 <= a < coll_f@.len() && (#[trigger] coll_f@[a].path@) == k,
            uniq_file_paths(coll_f@),
            data_sum(coll_f@) == strict_usage(d0.files@, cs@),
            forall|a: int|
                0 <= a < coll_d@.len() ==> is_strictly_under(#[trigger] coll_d@[a].path@, cs@)
                    && d0@.dirs.contains_key(coll_d@[a].path@) && valid_segs(coll_d@[a].path@),
            forall|k: Seq<Seq<char>>|
                #[trigger] d0@.dirs.contains_key(k) && is_strictly_under(k, cs@) ==> exists|
                    a: int,
                | 0 <= a < coll_d@.len() && (#[trigger] coll_d@[a].path@) == k,
            uniq_dir_paths(coll_d@),
            forall|p: int| 1 <= p <= ct@.len() ==> !d0@.files.contains_key(#[trigger] ct@.take(p)),
            forall|a: int|
                0 <= a < coll_d@.len() ==> !d0@.files.contains_key(
                    ct@ + (#[trigger] coll_d@[a].path@).skip(cs@.len() as int),
                ),
            forall|a: int|
                0 <= a < coll_f@.len() ==> !d0@.dirs.contains_key(
                    ct@ + (#[trigger] coll_f@[a].path@).skip(cs@.len() as int),
                ),
        ensures
            final(disk).wf(),
            final(disk)@.files == copy_files_after(d0, cs@, ct@, now),
            final(disk)@.dirs == copy_dirs_after(d0, cs@, ct@, now),
    {
        disk.make_dirs_along(ct, now);
        proof {
            assert(disk@.dirs =~= dirs_partial(d0, cs@, ct@, coll_d@.take(0), now));
        }
        let mut b: usize = 0;
        while b < coll_d.len()
            invariant
                b <= coll_d@.len(),
                disk.wf(),
                disk@.files == d0@.files,
                disk.files@ == d0.files@,
                disk@.dirs == dirs_partial(d0, cs@, ct@, coll_d@.take(b as int), now),
            decreases coll_d@.len() - b,
        {
            let rel = coll_d[b].path.strip_prefix(cs);
            let tgt = ct.join(&rel);
            proof {
                lemma_concat_skip(ct@, rel@);
                lemma_prefix_rejoin(coll_d@[b as int].path@, cs@);
                assert(tgt@ == ct@ + coll_d@[b as int].path@.skip(cs@.len() as int));
                assert(valid_segs(tgt@)) by {
                    assert(forall|i: int|
                        0 <= i < tgt@.len() ==> #[trigger] tgt@[i] == if i < ct@.len() {
                            ct@[i]
                        } else {
                            coll_d@[b as int].path@[i - ct@.len() + cs@.len()]
                        });
                }
                assert forall|p: int| 1 <= p <= tgt@.len() implies !disk@.files.contains_key(
                    #[trigger] tgt@.take(p),
                ) by {
                    if p <= ct@.len() {
                        assert(tgt@.take(p) =~= ct@.take(p));
                    } else {
                        let m = p - ct@.len();
                        let node = coll_d@[b as int].path@;
                        assert(tgt@.take(p) =~= ct@ + rel@.take(m));
                        let anc = node.take(cs@.len() as int + m);
                        if cs@.len() + m < node.len() {
                            lemma_ancestors_are_dirs(d0, node, cs@.len() as int + m);
                        } else {
                            assert(anc =~= node);
                        }
                        assert(d0@.dirs.contains_key(anc));
                        assert(is_strictly_under(anc, cs@)) by {
                            assert(anc.take(cs@.len() as int) =~= node.take(cs@.len() as int));
                        }
                        let a = choose|a: int|
                            0 <= a < coll_d@.len() && (#[trigger] coll_d@[a].path@) == anc;
                        assert(!d0@.files.contains_key(
                            ct@ + coll_d@[a].path@.skip(cs@.len() as int),
                        ));
                        assert(anc.skip(cs@.len() as int) =~= rel@.take(m));
                    }
                }
            }
            disk.make_dirs_along(&tgt, now);
            proof {
                let part0 = coll_d@.take(b as int);
                let part1 = coll_d@.take(b as int + 1);
                assert(part1.drop_last() =~= part0);
                assert(part1[b as int] == coll_d@[b as int]);
                assert forall|k: Seq<Seq<char>>|
                    made_dir_by(ct@, cs@, part1, k) && !made_dir_by(
                        ct@,
                        cs@,
                        part0,
                        k,
                    ) implies k.len() >= 1 && starts_with(tgt@, k) by {
                    let w = choose|w: int|
                        0 <= w < part1.len() && k.len() >= 1 && k.len() > ct@.len()
                            && starts_with(ct@ + (#[trigger] part1[w].path@).skip(cs@.len() as int), k);
                    assert(w == b as int);
                }
                assert forall|k: Seq<Seq<char>>|
                    k.len() >= 1 && starts_with(tgt@, k) implies made_dir_by(
                    ct@,
                    cs@,
                    part1,
                    k,
                ) by {
                    if k.len() <= ct@.len() {
                        assert(k == tgt@.take(k.len() as int));
                        assert(tgt@.take(k.len() as int) =~= ct@.take(k.len() as int));
                        assert(starts_with(ct@, k));
                    } else {
                        assert(part1[b as int].path@ == coll_d@[b as int].path@);
                        assert(starts_with(
                            ct@ + part1[b as int].path@.skip(cs@.len() as int),
                            k,
                        ));
                    }
                }
                assert(disk@.dirs =~= dirs_partial(d0, cs@, ct@, part1, now));
            }
            b += 1;
        }
        proof {
            assert(coll_d@.take(coll_d@.len() as int) =~= coll_d@);
        }
        let ghost dirs_done = disk@.dirs;
        let mut f: usize = 0;
        proof {
            assert(disk@.files =~= files_partial(d0, cs@, ct@, coll_f@.take(0), now));
            lemma_usage_strict(d0.files@, cs@);
            lemma_data_sum_nonneg(coll_f@);
        }
        while f < coll_f.len()
            invariant
                f <= coll_f@.len(),
                disk.wf(),
                disk@.dirs == dirs_done,
                disk@.files == files_partial(d0, cs@, ct@, coll_f@.take(f as int), now),
                usage_of(disk.files@, Seq::empty()) <= usage_of(d0.files@, Seq::empty())
                    + data_sum(coll_f@.take(f as int)),
            decreases coll_f@.len() - f,
        {
            let rel = coll_f[f].path.strip_prefix(cs);
            let tgt = ct.join(&rel);
            let data = clone_file_bytes(&coll_f[f]);
            proof {
                lemma_concat_skip(ct@, rel@);
                lemma_prefix_rejoin(coll_f@[f as int].path@, cs@);
                assert(tgt@ == ct@ + coll_f@[f as int].path@.skip(cs@.len() as int));
                assert(rel@.len() >= 1);
                assert(valid_segs(tgt@)) by {
                    assert(forall|i: int|
                        0 <= i < tgt@.len() ==> #[trigger] tgt@[i] == if i < ct@.len() {
                            ct@[i]
                        } else {
                            coll_f@[f as int].path@[i - ct@.len() + cs@.len()]
                        });
                }
                // The destination is not a directory.
                assert(!disk@.dirs.contains_key(tgt@)) by {
                    if made_dir_by(ct@, cs@, coll_d@, tgt@) {
                        assert(!(tgt@.len() >= 1 && starts_with(ct@, tgt@)));
                        let w = choose|w: int|
                            0 <= w < coll_d@.len() && tgt@.len() >= 1 && tgt@.len() > ct@.len()
                                && starts_with(
                                ct@ + (#[trigger] coll_d@[w].path@).skip(cs@.len() as int),
                                tgt@,
                            );
                        let wrel = coll_d@[w].path@.skip(cs@.len() as int);
                        let m = tgt@.len() - ct@.len();
                        assert(tgt@ == (ct@ + wrel).take(tgt@.len() as int));
                        assert((ct@ + wrel).take(tgt@.len() as int) =~= ct@ + wrel.take(m));
                        assert(rel@ =~= wrel.take(m)) by {
                            lemma_concat_skip(ct@, wrel.take(m));
                        }
                        let node = coll_d@[w].path@;
                        let anc = node.take(cs@.len() as int + m);
                        assert(anc =~= cs@ + wrel.take(m)) by {
                            lemma_prefix_rejoin(node, cs@);
                        }
                        if cs@.len() + m < node.len() {
                            lemma_ancestors_are_dirs(d0, node, cs@.len() as int + m);
                        } else {
                            assert(anc =~= node);
                        }
                        assert(d0@.dirs.contains_key(anc));
                        assert(anc == coll_f@[f as int].path@) by {
                            lemma_prefix_rejoin(coll_f@[f as int].path@, cs@);
                        }
                        assert(false);
                    }
                }
                // The destination's parent directory is in place.
                assert(dir_exists(disk@, tgt@.drop_last())) by {
                    if rel@.len() == 1 {
                        assert(tgt@.drop_last() =~= ct@);
                        assert(starts_with(ct@, ct@)) by {
                            assert(ct@.take(ct@.len() as int) =~= ct@);
                        }
                        assert(made_dir_by(ct@, cs@, coll_d@, ct@));
                    } else {
                        let node = coll_f@[f as int].path@;
                        let par = node.drop_last();
                        assert(d0@.dirs.contains_key(par)) by {
                            assert(dir_exists(d0@, par));
                            assert(par.len() > 0);
                        }
                        assert(is_strictly_under(par, cs@)) by {
                            assert(par.take(cs@.len() as int) =~= node.take(cs@.len() as int));
                        }
                        let a = choose|a: int|
                            0 <= a < coll_d@.len() && (#[trigger] coll_d@[a].path@) == par;
                        assert(tgt@.drop_last() =~= ct@ + par.skip(cs@.len() as int)) by {
                            lemma_prefix_rejoin(node, cs@);
                        }
                        assert(starts_with(
                            ct@ + coll_d@[a].path@.skip(cs@.len() as int),
                            tgt@.drop_last(),
                        )) by {
                            let whole = ct@ + par.skip(cs@.len() as int);
                            assert(whole.take(whole.len() as int) =~= whole);
                        }
                        assert(made_dir_by(ct@, cs@, coll_d@, tgt@.drop_last()));
                    }
                }
                // The destination is not an already-landed file, so
                // its creation stamp comes from the pre-copy state.
                assert(!target_by(ct@, cs@, coll_f@.take(f as int), tgt@)) by {
                    if target_by(ct@, cs@, coll_f@.take(f as int), tgt@) {
                        let w = choose|w: int|
                            0 <= w < f && tgt@ == ct@ + (#[trigger] coll_f@.take(
                                f as int,
                            )[w].path@).skip(cs@.len() as int);
                        assert(coll_f@[w].path@.skip(cs@.len() as int) == rel@) by {
                            lemma_concat_skip(ct@, coll_f@[w].path@.skip(cs@.len() as int));
                        }
                        assert(coll_f@[w].path@ == coll_f@[f as int].path@) by {
                            lemma_prefix_rejoin(coll_f@[w].path@, cs@);
                            lemma_prefix_rejoin(coll_f@[f as int].path@, cs@);
                        }
                        assert(false);
                    }
                }
                // Stay within the size bound.
                lemma_data_sum_take_step(coll_f@, f as int);
                lemma_data_sum_take_le(coll_f@, f as int + 1);
            }
            disk.set_file(&tgt, data, now);
            proof {
                let part0 = coll_f@.take(f as int);
                let part1 = coll_f@.take(f as int + 1);
                assert(part1.drop_last() =~= part0);
                assert(part1[f as int] == coll_f@[f as int]);
                assert(target_by(ct@, cs@, part1, tgt@)) by {
                    assert(tgt@ == ct@ + (part1[f as int].path@).skip(cs@.len() as int));
                }
                assert(src_data_by(ct@, cs@, part1, tgt@) == coll_f@[f as int]@.data) by {
                    let w = choose|w: int|
                        0 <= w < part1.len() && tgt@ == ct@ + (#[trigger] part1[w].path@).skip(
                            cs@.len() as int,
                        );
                    assert(part1[w].path@ == coll_f@[f as int].path@) by {
                        lemma_concat_skip(ct@, part1[w].path@.skip(cs@.len() as int));
                        lemma_prefix_rejoin(part1[w].path@, cs@);
                        lemma_prefix_rejoin(coll_f@[f as int].path@, cs@);
                    }
                    assert(w == f as int);
                }
                assert forall|k: Seq<Seq<char>>|
                    target_by(ct@, cs@, part1, k) && k != tgt@ implies target_by(
                    ct@,
                    cs@,
                    part0,
                    k,
                ) && src_data_by(ct@, cs@, part1, k) == src_data_by(ct@, cs@, part0, k) by {
                    let w = choose|w: int|
                        0 <= w < part1.len() && k == ct@ + (#[trigger] part1[w].path@).skip(
                            cs@.len() as int,
                        );
                    assert(w != f as int);
                    assert(part0[w] == part1[w]);
                    assert(target_by(ct@, cs@, part0, k)) by {
                        assert(k == ct@ + (part0[w].path@).skip(cs@.len() as int));
                    }
                    let w1 = choose|w1: int|
                        0 <= w1 < part1.len() && k == ct@ + (#[trigger] part1[w1].path@).skip(
                            cs@.len() as int,
                        );
                    let w0 = choose|w0: int|
                        0 <= w0 < part0.len() && k == ct@ + (#[trigger] part0[w0].path@).skip(
                            cs@.len() as int,
                        );
                    assert(part1[w1].path@ == part0[w0].path@) by {
                        lemma_concat_skip(ct@, part1[w1].path@.skip(cs@.len() as int));
                        lemma_concat_skip(ct@, part0[w0].path@.skip(cs@.len() as int));
                        lemma_prefix_rejoin(part1[w1].path@, cs@);
                        lemma_prefix_rejoin(part0[w0].path@, cs@);
                    }
                    assert(coll_f@[w1]@.data == coll_f@[w0]@.data) by {
                        if w1 != w0 {
                            assert(coll_f@[w1].path@ == coll_f@[w0].path@);
                            assert(false);
                        }
                    }
                }
                assert forall|k: Seq<Seq<char>>|
                    target_by(ct@, cs@, part0, k) implies target_by(ct@, cs@, part1, k) by {
                    let w = choose|w: int|
                        0 <= w < part0.len() && k == ct@ + (#[trigger] part0[w].path@).skip(
                            cs@.len() as int,
                        );
                    assert(k == ct@ + (part1[w].path@).skip(cs@.len() as int));
                }
                assert(disk@.files =~= files_partial(d0, cs@, ct@, part1, now));
            }
            f += 1;
        }
        proof {
            assert(coll_f@.take(coll_f@.len() as int) =~= coll_f@);
            lemma_copy_partial_is_after(d0, cs@, ct@, coll_f@, coll_d@, now);
        }
    }
}

/// After the copy's two passes, the landed files are exactly the
/// copy's file targets and the built directories exactly its needed
/// directories.
#[verifier::rlimit(100)]
#[verifier::spinoff_prover]
proof fn lemma_copy_partial_is_after(
    d0: Disk,
    cs: Seq<Seq<char>>,
    ct: Seq<Seq<char>>,
    coll_f: Seq<FileNode>,
    coll_d: Seq<DirNode>,
    now: i64,
)
    requires
        d0.wf(),
        ct.len() >= 1,
        !d0@.files.contains_key(cs),
        some_entry_under(d0, cs),
        forall|a: int|
            0 <= a < coll_f.len() ==> is_strictly_under(#[trigger] coll_f[a].path@, cs)
                && d0@.files.contains_key(coll_f[a].path@) && coll_f[a]@
                == d0@.files[coll_f[a].path@],
        forall|k: Seq<Seq<char>>|
            #[trigger] d0@.files.contains_key(k) && is_strictly_under(k, cs) ==> exists|a: int|
                0 <= a < coll_f.len() && (#[trigger] coll_f[a].path@) == k,
        uniq_file_paths(coll_f),
        forall|a: int|
            0 <= a < coll_d.len() ==> is_strictly_under(#[trigger] coll_d[a].path@, cs)
                && d0@.dirs.contains_key(coll_d[a].path@),
        forall|k: Seq<Seq<char>>|
            #[trigger] d0@.dirs.contains_key(k) && is_strictly_under(k, cs) ==> exists|a: int|
                0 <= a < coll_d.len() && (#[trigger] coll_d[a].path@) == k,
        uniq_dir_paths(coll_d),
    ensures
        files_partial(d0, cs, ct, coll_f, now) == copy_files_after(d0, cs, ct, now),
        dirs_partial(d0, cs, ct, coll_d, now) == copy_dirs_after(d0, cs, ct, now),
{
    assert(coll_f.take(coll_f.len() as int) =~= coll_f);
    // The landed files are exactly the copy's file targets.
    assert forall|k: Seq<Seq<char>>|
        target_by(ct, cs, coll_f, k) implies is_file_target(d0, cs, ct, k)
            && src_data_by(ct, cs, coll_f, k) == d0@.files[cs + k.skip(
            ct.len() as int,
        )].data by {
        let w = choose|w: int|
            0 <= w < coll_f.len() && k == ct + (#[trigger] coll_f[w].path@).skip(
                cs.len() as int,
            );
        lemma_concat_skip(ct, coll_f[w].path@.skip(cs.len() as int));
        lemma_prefix_rejoin(coll_f[w].path@, cs);
        assert(starts_with(k, ct)) by {
            assert(k.take(ct.len() as int) =~= ct);
        }
        assert(cs + k.skip(ct.len() as int) == coll_f[w].path@);
        let w2 = choose|w2: int|
            0 <= w2 < coll_f.len() && k == ct + (#[trigger] coll_f[w2].path@).skip(
                cs.len() as int,
            );
        assert(coll_f[w2].path@ == coll_f[w].path@) by {
            lemma_concat_skip(ct, coll_f[w2].path@.skip(cs.len() as int));
            lemma_prefix_rejoin(coll_f[w2].path@, cs);
        }
        assert(coll_f[w2]@.data == coll_f[w]@.data) by {
            if w2 != w {
                assert(false);
            }
        }
    }
    assert forall|k: Seq<Seq<char>>|
        is_file_target(d0, cs, ct, k) implies target_by(ct, cs, coll_f, k) by {
        let abs = cs + k.skip(ct.len() as int);
        assert(is_strictly_under(abs, cs)) by {
            lemma_concat_skip(cs, k.skip(ct.len() as int));
            assert(starts_with(abs, cs)) by {
                assert(abs.take(cs.len() as int) =~= cs);
            }
        }
        assert(d0@.files.contains_key(abs));
        let a = choose|a: int|
            0 <= a < coll_f.len() && (#[trigger] coll_f[a].path@) == abs;
        assert(k == ct + (coll_f[a].path@).skip(cs.len() as int)) by {
            lemma_concat_skip(cs, k.skip(ct.len() as int));
            lemma_prefix_rejoin(k, ct);
        }
    }
    assert(files_partial(d0, cs, ct, coll_f, now) =~= copy_files_after(d0, cs, ct, now));
    // The built directories are exactly the copy's needed
    // directories.
    assert forall|k: Seq<Seq<char>>|
        made_dir_by(ct, cs, coll_d, k) implies copy_makes_dir(d0, cs, ct, k) by {
        if k.len() >= 1 && starts_with(ct, k) {
        } else {
            let w = choose|w: int|
                0 <= w < coll_d.len() && k.len() >= 1 && k.len() > ct.len()
                    && starts_with(
                    ct + (#[trigger] coll_d[w].path@).skip(cs.len() as int),
                    k,
                );
            let wrel = coll_d[w].path@.skip(cs.len() as int);
            let m = k.len() - ct.len();
            assert(k == (ct + wrel).take(k.len() as int));
            assert((ct + wrel).take(k.len() as int) =~= ct + wrel.take(m));
            assert(starts_with(k, ct)) by {
                assert(k.take(ct.len() as int) =~= ct);
            }
            let node = coll_d[w].path@;
            let anc = node.take(cs.len() as int + m);
            assert(anc =~= cs + wrel.take(m)) by {
                lemma_prefix_rejoin(node, cs);
            }
            if cs.len() + m < node.len() {
                lemma_ancestors_are_dirs(d0, node, cs.len() as int + m);
            } else {
                assert(anc =~= node);
            }
            assert(d0@.dirs.contains_key(anc));
            assert(cs + k.skip(ct.len() as int) == anc) by {
                lemma_concat_skip(ct, wrel.take(m));
            }
        }
    }
    assert forall|k: Seq<Seq<char>>|
        copy_makes_dir(d0, cs, ct, k) implies made_dir_by(ct, cs, coll_d, k) by {
        if k.len() >= 1 && starts_with(ct, k) {
        } else {
            let abs = cs + k.skip(ct.len() as int);
            assert(d0@.dirs.contains_key(abs));
            assert(is_strictly_under(abs, cs)) by {
                lemma_concat_skip(cs, k.skip(ct.len() as int));
                assert(starts_with(abs, cs)) by {
                    assert(abs.take(cs.len() as int) =~= cs);
                }
            }
            let a = choose|a: int|
                0 <= a < coll_d.len() && (#[trigger] coll_d[a].path@) == abs;
            assert(k == ct + (coll_d[a].path@).skip(cs.len() as int)) by {
                lemma_concat_skip(cs, k.skip(ct.len() as int));
                lemma_prefix_rejoin(k, ct);
            }
            assert(starts_with(ct + (coll_d[a].path@).skip(cs.len() as int), k)) by {
                assert(k.take(k.len() as int) =~= k);
            }
        }
    }
    assert(dirs_partial(d0, cs, ct, coll_d, now) =~= copy_dirs_after(d0, cs, ct, now));
}


/// Clones of one snapshotted file node's bytes.
fn clone_file_bytes(n: &FileNode) -> (r: Vec<u8>)
    ensures
        r@ == n@.data,
{
    let mut out: Vec<u8> = Vec::new();
    let mut i: usize = 0;
    while i < n.data.len()
        invariant
            i <= n.data@.len(),
            out@ == n.data@.take(i as int),
        decreases n.data@.len() - i,
    {
        out.push(n.data[i]);
        proof {
            assert(n.data@.take(i as int + 1) =~= n.data@.take(i as int).push(n.data@[i as int]));
        }
        i += 1;
    }
    proof {
        assert(n.data@.take(n.data@.len() as int) =~= n.data@);
    }
    out
}

/// The content type `mime_guess` derives from a path, a pure function
/// of the path text alone.
pub uninterp spec fn mime_of(path: Seq<char>) -> Option<Seq<char>>;

/// Relies on `mime_guess::from_path`: the first guess for a path is a
/// static table lookup on the path's extension, so it depends on the
/// path text alone.
#[verifier::external_body]
fn guess_mime(path: &str) -> (r: Option<String>)
    ensures
        opt_str_view(r) == mime_of(path@),
{
    mime_guess::from_path(path).first().map(|m| m.to_string())
}

} // verus!
