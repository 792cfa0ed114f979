//! Path containment: every operation rejects a path whose normal
//! form would escape its root, before anything happens.

use normalize_path::NormalizePath;
use scoped_fs::disk::Disk;
use scoped_fs::filesystem::FSError;
use scoped_fs::filesystem::Filesystem;
use scoped_fs::user_scope::UserScopedFS;
use std::path::Path;
use std::path::PathBuf;

fn setup() -> (Disk, Filesystem) {
    let mut disk = Disk::new();
    let fs = Filesystem::new("/data", None, None, None, &mut disk, 1000);
    (disk, fs)
}

#[test]
fn read_of_escaping_path_fails_without_host_read() {
    let (disk, fs) = setup();
    let r = fs.read_file(&disk, "../../etc/passwd");
    assert_eq!(r, Err(FSError::PathBreaksOut));
}

#[test]
fn every_operation_rejects_escaping_paths() {
    let (mut disk, fs) = setup();
    let bad = "../../etc/passwd";
    assert_eq!(fs.create_dir(&mut disk, bad, 1), Err(FSError::PathBreaksOut));
    assert_eq!(fs.write_file(&mut disk, bad, b"x", 1), Err(FSError::PathBreaksOut));
    assert_eq!(fs.read_file(&disk, bad), Err(FSError::PathBreaksOut));
    assert_eq!(fs.remove_item(&mut disk, bad), Err(FSError::PathBreaksOut));
    assert_eq!(fs.get_item_size(&disk, bad), Err(FSError::PathBreaksOut));
    assert_eq!(fs.get_item_time_info(&disk, bad), Err(FSError::PathBreaksOut));
    assert_eq!(fs.get_mime(bad), Err(FSError::PathBreaksOut));
    assert!(fs.list_dir(&disk, bad).is_err());
    assert!(fs.get_dir_tree(&disk, bad).is_err());
    assert_eq!(fs.move_item(&mut disk, bad, "ok"), Err(FSError::PathBreaksOut));
    assert_eq!(fs.move_item(&mut disk, "ok", bad), Err(FSError::PathBreaksOut));
    assert_eq!(fs.copy_item(&mut disk, bad, "ok", 1), Err(FSError::PathBreaksOut));
    assert_eq!(fs.copy_item(&mut disk, "ok", bad, 1), Err(FSError::PathBreaksOut));
    // nothing was created by any of the attempts
    let (files, dirs) = fs.list_dir(&disk, ".").unwrap();
    assert!(files.is_empty());
    assert!(dirs.is_empty());
}

#[test]
fn absolute_paths_replace_the_root_and_are_rejected() {
    let (disk, fs) = setup();
    assert_eq!(fs.read_file(&disk, "/etc/passwd"), Err(FSError::PathBreaksOut));
}

#[test]
fn dotdot_inside_the_tree_is_allowed() {
    let (mut disk, fs) = setup();
    fs.create_dir(&mut disk, "a", 1).unwrap();
    fs.write_file(&mut disk, "a/../b.txt", b"ok", 2).unwrap();
    assert_eq!(fs.read_file(&disk, "b.txt").unwrap(), b"ok".to_vec());
}

#[test]
fn construct_path_matches_a_lexical_normalizer() {
    let (_disk, fs) = setup();
    let root = PathBuf::from("/data");
    let cases = [
        ".",
        "a/b/c",
        "a/./b",
        "a//b/",
        "a/../b",
        "a/b/../../c",
        "..",
        "../..",
        "../data/inside",
        "/data/direct",
        "/etc/passwd",
        "a/b/../../../escape",
        "deep/x/y/z/../../..",
    ];
    for case in cases {
        let expected = root.join(case).normalize();
        match fs.construct_path(case) {
            Ok(c) => {
                assert!(
                    expected.starts_with(Path::new("/data")),
                    "case {case}: library accepted what the normalizer rejects"
                );
                assert_eq!(
                    c.to_abs_string(),
                    expected.to_str().unwrap(),
                    "case {case}: resolved forms differ"
                );
            },
            Err(e) => {
                assert_eq!(e, FSError::PathBreaksOut);
                assert!(
                    !expected.starts_with(Path::new("/data")),
                    "case {case}: library rejected a contained path"
                );
            },
        }
    }
}

#[test]
fn user_scope_rejects_reaching_a_sibling() {
    let mut disk = Disk::new();
    let fs = Filesystem::new("/data", None, None, None, &mut disk, 1);
    let other = UserScopedFS::new(&fs, 8, &mut disk, 2).unwrap();
    other.write_file(&mut disk, "secret.txt", b"mine", 3).unwrap();
    let me = UserScopedFS::new(&fs, 7, &mut disk, 4).unwrap();
    assert_eq!(me.read_file(&disk, "../8/secret.txt"), Err(FSError::PathBreaksOut));
    assert_eq!(me.read_file(&disk, "../../etc/passwd"), Err(FSError::PathBreaksOut));
    // the sibling still reads its own file through its own scope
    assert_eq!(other.read_file(&disk, "secret.txt").unwrap(), b"mine".to_vec());
}
