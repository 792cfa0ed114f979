//! Writes, reads, sizes and quotas at the storage-root level.

use scoped_fs::disk::Disk;
use scoped_fs::filesystem::FSError;
use scoped_fs::filesystem::Filesystem;
use scoped_fs::filesystem::HostErrorKind;

fn setup() -> (Disk, Filesystem) {
    let mut disk = Disk::new();
    let fs = Filesystem::new("/data", None, None, None, &mut disk, 1000);
    (disk, fs)
}

#[test]
fn write_then_read_returns_exactly_the_bytes() {
    let (mut disk, fs) = setup();
    let payload: Vec<u8> = vec![0, 1, 2, 250, 255, 7];
    fs.write_file(&mut disk, "p.bin", &payload, 1).unwrap();
    assert_eq!(fs.read_file(&disk, "p.bin").unwrap(), payload);
}

#[test]
fn overwrite_replaces_the_whole_file() {
    let (mut disk, fs) = setup();
    fs.write_file(&mut disk, "f.txt", b"first version", 1).unwrap();
    fs.write_file(&mut disk, "f.txt", b"2nd", 2).unwrap();
    assert_eq!(fs.read_file(&disk, "f.txt").unwrap(), b"2nd".to_vec());
    assert_eq!(fs.get_item_size(&disk, "f.txt").unwrap(), 3);
}

#[test]
fn quota_allows_exactly_up_to_capacity() {
    let mut disk = Disk::new();
    let fs = Filesystem::new("/data", None, Some(100), None, &mut disk, 1);
    // 60 + 40 == 100 is still within the capacity
    fs.write_file(&mut disk, "a.bin", &[7u8; 60], 2).unwrap();
    fs.write_file(&mut disk, "b.bin", &[8u8; 40], 3).unwrap();
    assert_eq!(fs.get_item_size(&disk, ".").unwrap(), 100);
    // one more byte would exceed it
    assert_eq!(
        fs.write_file(&mut disk, "c.bin", &[9u8; 1], 4),
        Err(FSError::NotEnoughStorage)
    );
    assert_eq!(fs.read_file(&disk, "c.bin"), Err(FSError::HFS(HostErrorKind::NotFound)));
    assert_eq!(fs.get_item_size(&disk, ".").unwrap(), 100);
}

#[test]
fn directory_size_sums_the_whole_subtree() {
    let (mut disk, fs) = setup();
    fs.create_dir(&mut disk, "d", 1).unwrap();
    fs.create_dir(&mut disk, "d/e", 2).unwrap();
    fs.create_dir(&mut disk, "d/e/f", 3).unwrap();
    fs.write_file(&mut disk, "d/one.bin", &[1u8; 10], 4).unwrap();
    fs.write_file(&mut disk, "d/e/two.bin", &[2u8; 20], 5).unwrap();
    fs.write_file(&mut disk, "d/e/f/three.bin", &[3u8; 30], 6).unwrap();
    fs.write_file(&mut disk, "outside.bin", &[4u8; 100], 7).unwrap();
    assert_eq!(fs.get_item_size(&disk, "d").unwrap(), 60);
    assert_eq!(fs.get_item_size(&disk, "d/e").unwrap(), 50);
    assert_eq!(fs.get_item_size(&disk, "d/e/f").unwrap(), 30);
    assert_eq!(fs.get_item_size(&disk, ".").unwrap(), 160);
}

#[test]
fn error_kinds_match_the_host_failures() {
    let (mut disk, fs) = setup();
    fs.create_dir(&mut disk, "d", 1).unwrap();
    // creating what exists
    assert_eq!(
        fs.create_dir(&mut disk, "d", 2),
        Err(FSError::HFS(HostErrorKind::AlreadyExists))
    );
    // creating under a missing parent
    assert_eq!(
        fs.create_dir(&mut disk, "missing/x", 3),
        Err(FSError::HFS(HostErrorKind::NotFound))
    );
    // reading what is not there
    assert_eq!(fs.read_file(&disk, "nope"), Err(FSError::HFS(HostErrorKind::NotFound)));
    // reading a directory as a file
    assert_eq!(fs.read_file(&disk, "d"), Err(FSError::HFS(HostErrorKind::Other)));
    // writing over a directory
    assert_eq!(
        fs.write_file(&mut disk, "d", b"x", 4),
        Err(FSError::HFS(HostErrorKind::Other))
    );
    // removing what is not there
    assert_eq!(fs.remove_item(&mut disk, "nope"), Err(FSError::HFS(HostErrorKind::NotFound)));
}

#[test]
fn time_info_reports_creation_and_modification() {
    let (mut disk, fs) = setup();
    fs.write_file(&mut disk, "t.txt", b"v1", 500).unwrap();
    assert_eq!(fs.get_item_time_info(&disk, "t.txt").unwrap(), (500, 500));
    fs.write_file(&mut disk, "t.txt", b"v2", 900).unwrap();
    // an overwrite keeps the creation stamp and moves the
    // modification stamp
    assert_eq!(fs.get_item_time_info(&disk, "t.txt").unwrap(), (500, 900));
}

#[test]
fn listing_separates_files_from_directories() {
    let (mut disk, fs) = setup();
    fs.create_dir(&mut disk, "sub", 1).unwrap();
    fs.write_file(&mut disk, "a.txt", b"a", 2).unwrap();
    fs.write_file(&mut disk, "sub/inner.txt", b"i", 3).unwrap();
    let (files, dirs) = fs.list_dir(&disk, ".").unwrap();
    let file_names: Vec<String> = files.iter().map(|p| p.to_abs_string()).collect();
    let dir_names: Vec<String> = dirs.iter().map(|p| p.to_abs_string()).collect();
    assert_eq!(file_names, vec!["/data/a.txt".to_string()]);
    assert_eq!(dir_names, vec!["/data/sub".to_string()]);
}

#[test]
fn tree_enumerates_every_descendant_file() {
    let (mut disk, fs) = setup();
    fs.create_dir(&mut disk, "x", 1).unwrap();
    fs.create_dir(&mut disk, "x/y", 2).unwrap();
    fs.create_dir(&mut disk, "x/y/empty", 3).unwrap();
    fs.write_file(&mut disk, "x/f1", b"1", 4).unwrap();
    fs.write_file(&mut disk, "x/y/f2", b"2", 5).unwrap();
    let tree = fs.get_dir_tree(&disk, "x").unwrap();
    let mut names: Vec<String> = tree.iter().map(|p| p.to_abs_string()).collect();
    names.sort();
    // a flat recursive file enumeration: directories do not appear
    assert_eq!(
        names,
        vec!["/data/x/f1".to_string(), "/data/x/y/f2".to_string()]
    );
}

#[test]
fn remove_item_deletes_files_and_whole_trees() {
    let (mut disk, fs) = setup();
    fs.create_dir(&mut disk, "gone", 1).unwrap();
    fs.write_file(&mut disk, "gone/a", b"a", 2).unwrap();
    fs.write_file(&mut disk, "gone/b", b"b", 3).unwrap();
    fs.write_file(&mut disk, "stays", b"s", 4).unwrap();
    fs.remove_item(&mut disk, "gone").unwrap();
    assert_eq!(fs.read_file(&disk, "gone/a"), Err(FSError::HFS(HostErrorKind::NotFound)));
    assert_eq!(fs.get_item_size(&disk, ".").unwrap(), 1);
    assert_eq!(fs.read_file(&disk, "stays").unwrap(), b"s".to_vec());
    fs.remove_item(&mut disk, "stays").unwrap();
    assert_eq!(fs.get_item_size(&disk, ".").unwrap(), 0);
}
