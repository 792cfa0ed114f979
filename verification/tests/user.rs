//! The per-user scoping layer: lazy root creation, template
//! deployment, per-user quota, and descoped listings.

use scoped_fs::disk::Disk;
use scoped_fs::filesystem::FSError;
use scoped_fs::filesystem::Filesystem;
use scoped_fs::user_scope::UserScopedFS;

#[test]
fn first_listing_creates_the_user_root_and_is_empty() {
    let mut disk = Disk::new();
    let fs = Filesystem::new("/data", None, None, None, &mut disk, 1);
    let user = UserScopedFS::new(&fs, 7, &mut disk, 2).unwrap();
    let (files, dirs) = user.list_dir(&disk, ".").unwrap();
    assert!(files.is_empty());
    assert!(dirs.is_empty());
    // the physical directory now exists under the root
    assert_eq!(fs.get_item_size(&disk, "7").unwrap(), 0);
    let (_, root_dirs) = fs.list_dir(&disk, ".").unwrap();
    let names: Vec<String> = root_dirs.iter().map(|p| p.to_abs_string()).collect();
    assert_eq!(names, vec!["/data/7".to_string()]);
}

#[test]
fn global_quota_seen_from_the_scope() {
    let mut disk = Disk::new();
    let fs = Filesystem::new("/data", None, Some(100), None, &mut disk, 1);
    let user = UserScopedFS::new(&fs, 7, &mut disk, 2).unwrap();
    user.write_file(&mut disk, "a.txt", &[b'a'; 60], 3).unwrap();
    assert_eq!(user.get_item_size(&disk, ".").unwrap(), 60);
    assert_eq!(
        user.write_file(&mut disk, "b.txt", &[b'b'; 50], 4),
        Err(FSError::NotEnoughStorage)
    );
    assert!(user.read_file(&disk, "b.txt").is_err());
    assert_eq!(user.get_item_size(&disk, ".").unwrap(), 60);
}

#[test]
fn per_user_quota_measures_only_the_own_subtree() {
    let mut disk = Disk::new();
    let fs = Filesystem::new("/data", None, None, Some(10), &mut disk, 1);
    let alice = UserScopedFS::new(&fs, 1, &mut disk, 2).unwrap();
    let bob = UserScopedFS::new(&fs, 2, &mut disk, 3).unwrap();
    alice.write_file(&mut disk, "a.bin", &[0u8; 10], 4).unwrap();
    // the neighbour's usage does not count against this scope
    bob.write_file(&mut disk, "b.bin", &[0u8; 10], 5).unwrap();
    // but the own capacity is enforced
    assert_eq!(
        alice.write_file(&mut disk, "more.bin", &[0u8; 1], 6),
        Err(FSError::NotEnoughStorage)
    );
}

#[test]
fn template_is_deployed_on_first_use() {
    let mut disk = Disk::new();
    let setup_fs = Filesystem::new("/data", None, None, None, &mut disk, 1);
    setup_fs.create_dir(&mut disk, "skel", 2).unwrap();
    setup_fs.write_file(&mut disk, "skel/welcome.txt", b"0123456789", 3).unwrap();
    let fs = Filesystem::new("/data", Some("/data/skel"), None, None, &mut disk, 4);
    let user = UserScopedFS::new(&fs, 5, &mut disk, 5).unwrap();
    // the fresh root holds the template's file with its ten bytes
    assert_eq!(user.get_item_size(&disk, ".").unwrap(), 10);
    assert_eq!(user.read_file(&disk, "welcome.txt").unwrap(), b"0123456789".to_vec());
    assert_eq!(user.get_item_size(&disk, "welcome.txt").unwrap(), 10);
}

#[test]
fn second_use_does_not_redeploy() {
    let mut disk = Disk::new();
    let setup_fs = Filesystem::new("/data", None, None, None, &mut disk, 1);
    setup_fs.create_dir(&mut disk, "skel", 2).unwrap();
    setup_fs.write_file(&mut disk, "skel/welcome.txt", b"0123456789", 3).unwrap();
    let fs = Filesystem::new("/data", Some("/data/skel"), None, None, &mut disk, 4);
    {
        let user = UserScopedFS::new(&fs, 5, &mut disk, 5).unwrap();
        user.remove_item(&mut disk, "welcome.txt").unwrap();
    }
    let user = UserScopedFS::new(&fs, 5, &mut disk, 6).unwrap();
    assert_eq!(user.get_item_size(&disk, ".").unwrap(), 0);
    assert!(user.read_file(&disk, "welcome.txt").is_err());
}

#[test]
fn empty_template_deploys_nothing() {
    let mut disk = Disk::new();
    let setup_fs = Filesystem::new("/data", None, None, None, &mut disk, 1);
    setup_fs.create_dir(&mut disk, "skel", 2).unwrap();
    let fs = Filesystem::new("/data", Some("/data/skel"), None, None, &mut disk, 3);
    // a wildcard expansion of an empty template matches nothing, so
    // nothing is copied and the user's root is not created
    let user = UserScopedFS::new(&fs, 5, &mut disk, 4).unwrap();
    assert!(user.list_dir(&disk, ".").is_err());
}

#[test]
fn template_outside_the_root_cannot_be_deployed() {
    let mut disk = Disk::new();
    let other_fs = Filesystem::new("/other", None, None, None, &mut disk, 1);
    other_fs.create_dir(&mut disk, "skel", 2).unwrap();
    other_fs.write_file(&mut disk, "skel/welcome.txt", b"hi", 3).unwrap();
    let fs = Filesystem::new("/data", Some("/other/skel"), None, None, &mut disk, 4);
    // the copy's source resolves outside the storage root, so the
    // containment check rejects the deployment
    assert!(matches!(
        UserScopedFS::new(&fs, 5, &mut disk, 5),
        Err(FSError::PathBreaksOut)
    ));
}

#[test]
fn listings_never_show_the_host_prefix() {
    let mut disk = Disk::new();
    let fs = Filesystem::new("/data", None, None, None, &mut disk, 1);
    let user = UserScopedFS::new(&fs, 7, &mut disk, 2).unwrap();
    user.create_dir(&mut disk, "docs", 3).unwrap();
    user.write_file(&mut disk, "docs/a.txt", b"a", 4).unwrap();
    user.write_file(&mut disk, "top.txt", b"t", 5).unwrap();
    let (files, dirs) = user.list_dir(&disk, ".").unwrap();
    let file_names: Vec<String> = files.iter().map(|p| p.to_rel_string()).collect();
    let dir_names: Vec<String> = dirs.iter().map(|p| p.to_rel_string()).collect();
    assert_eq!(file_names, vec!["top.txt".to_string()]);
    assert_eq!(dir_names, vec!["docs".to_string()]);
    let tree = user.get_dir_tree(&disk, ".").unwrap();
    let mut names: Vec<String> = tree.iter().map(|p| p.to_rel_string()).collect();
    names.sort();
    // files only, each relative to the scope
    assert_eq!(names, vec!["docs/a.txt".to_string(), "top.txt".to_string()]);
    for n in names {
        assert!(!n.contains("data"));
        assert!(!n.starts_with('/'));
        assert!(!n.starts_with("7/"));
    }
}

#[test]
fn scoped_copy_and_move_stay_inside_the_scope() {
    let mut disk = Disk::new();
    let fs = Filesystem::new("/data", None, None, None, &mut disk, 1);
    let user = UserScopedFS::new(&fs, 3, &mut disk, 2).unwrap();
    user.create_dir(&mut disk, "docs", 3).unwrap();
    user.create_dir(&mut disk, "docs/sub", 4).unwrap();
    user.write_file(&mut disk, "docs/a", b"A", 5).unwrap();
    user.write_file(&mut disk, "docs/sub/b", b"BB", 6).unwrap();
    user.write_file(&mut disk, "docs/sub/c", b"CCC", 7).unwrap();
    user.copy_item(&mut disk, "docs", "backup/docs", 8).unwrap();
    assert_eq!(user.read_file(&disk, "backup/docs/a").unwrap(), b"A".to_vec());
    assert_eq!(user.read_file(&disk, "backup/docs/sub/b").unwrap(), b"BB".to_vec());
    assert_eq!(user.read_file(&disk, "backup/docs/sub/c").unwrap(), b"CCC".to_vec());
    user.move_item(&mut disk, "backup/docs", "moved").unwrap();
    assert!(user.read_file(&disk, "backup/docs/a").is_err());
    assert_eq!(user.read_file(&disk, "moved/sub/c").unwrap(), b"CCC".to_vec());
    // nothing appeared outside the user's subtree
    let (root_files, root_dirs) = fs.list_dir(&disk, ".").unwrap();
    assert!(root_files.is_empty());
    assert_eq!(root_dirs.len(), 1);
}

#[test]
fn accessors_expose_the_configuration() {
    let mut disk = Disk::new();
    let fs = Filesystem::new("/data", None, Some(1000), Some(100), &mut disk, 1);
    assert_eq!(fs.total_size(), Some(1000));
    assert_eq!(fs.userspace_size(), Some(100));
    assert_eq!(fs.storage_path().to_abs_string(), "/data");
    assert!(fs.template_path().is_none());
    let user = UserScopedFS::new(&fs, -3, &mut disk, 2).unwrap();
    assert_eq!(user.user_id(), -3);
    assert_eq!(user.fs().total_size(), Some(1000));
    // a negative identifier still yields a proper segment
    assert_eq!(user.get_item_size(&disk, ".").unwrap(), 0);
    assert_eq!(fs.get_item_size(&disk, "-3").unwrap(), 0);
    let path = fs.construct_path("x").unwrap();
    assert!(!fs.is_breaking_out(&path));
}
