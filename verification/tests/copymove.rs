//! Recursive copies and renames.

use scoped_fs::disk::Disk;
use scoped_fs::filesystem::FSError;
use scoped_fs::filesystem::Filesystem;
use scoped_fs::filesystem::HostErrorKind;

fn setup() -> (Disk, Filesystem) {
    let mut disk = Disk::new();
    let fs = Filesystem::new("/data", None, None, None, &mut disk, 1000);
    (disk, fs)
}

fn build_docs(disk: &mut Disk, fs: &Filesystem) {
    fs.create_dir(disk, "docs", 1).unwrap();
    fs.create_dir(disk, "docs/draft", 2).unwrap();
    fs.create_dir(disk, "docs/draft/old", 3).unwrap();
    fs.write_file(disk, "docs/readme.txt", b"top level", 4).unwrap();
    fs.write_file(disk, "docs/draft/note.txt", b"in draft", 5).unwrap();
    fs.write_file(disk, "docs/draft/old/ancient.txt", b"kept for reference", 6).unwrap();
}

#[test]
fn directory_copy_reproduces_structure_and_contents() {
    let (mut disk, fs) = setup();
    build_docs(&mut disk, &fs);
    fs.copy_item(&mut disk, "docs", "backup/docs", 10).unwrap();
    // all three files sit at the same relative positions with the
    // same bytes
    assert_eq!(fs.read_file(&disk, "backup/docs/readme.txt").unwrap(), b"top level".to_vec());
    assert_eq!(fs.read_file(&disk, "backup/docs/draft/note.txt").unwrap(), b"in draft".to_vec());
    assert_eq!(
        fs.read_file(&disk, "backup/docs/draft/old/ancient.txt").unwrap(),
        b"kept for reference".to_vec()
    );
    // the copy carries the same total size as the source
    assert_eq!(
        fs.get_item_size(&disk, "backup/docs").unwrap(),
        fs.get_item_size(&disk, "docs").unwrap()
    );
    // the source is untouched
    assert_eq!(fs.read_file(&disk, "docs/readme.txt").unwrap(), b"top level".to_vec());
}

#[test]
fn file_copy_duplicates_one_file() {
    let (mut disk, fs) = setup();
    fs.write_file(&mut disk, "one.txt", b"contents", 1).unwrap();
    fs.copy_item(&mut disk, "one.txt", "two.txt", 2).unwrap();
    assert_eq!(fs.read_file(&disk, "two.txt").unwrap(), b"contents".to_vec());
    assert_eq!(fs.read_file(&disk, "one.txt").unwrap(), b"contents".to_vec());
}

#[test]
fn copy_of_empty_or_missing_directory_copies_nothing() {
    let (mut disk, fs) = setup();
    fs.create_dir(&mut disk, "empty", 1).unwrap();
    // a wildcard expansion of an empty tree matches nothing
    fs.copy_item(&mut disk, "empty", "clone", 2).unwrap();
    assert_eq!(fs.read_file(&disk, "clone"), Err(FSError::HFS(HostErrorKind::NotFound)));
    fs.copy_item(&mut disk, "missing", "elsewhere", 3).unwrap();
    assert_eq!(fs.read_file(&disk, "elsewhere"), Err(FSError::HFS(HostErrorKind::NotFound)));
}

#[test]
fn copy_respects_the_global_capacity() {
    let mut disk = Disk::new();
    let fs = Filesystem::new("/data", None, Some(100), None, &mut disk, 1);
    fs.create_dir(&mut disk, "d", 2).unwrap();
    fs.write_file(&mut disk, "d/big.bin", &[1u8; 60], 3).unwrap();
    // usage 60 + incoming 60 > 100
    assert_eq!(fs.copy_item(&mut disk, "d", "d2", 4), Err(FSError::NotEnoughStorage));
    assert_eq!(fs.get_item_size(&disk, ".").unwrap(), 60);
}

#[test]
fn copy_refuses_to_replace_a_directory_with_a_file() {
    let (mut disk, fs) = setup();
    fs.create_dir(&mut disk, "src", 1).unwrap();
    fs.write_file(&mut disk, "src/x", b"x", 2).unwrap();
    fs.create_dir(&mut disk, "dst", 3).unwrap();
    fs.create_dir(&mut disk, "dst/x", 4).unwrap();
    // the file src/x would land on the directory dst/x
    assert_eq!(fs.copy_item(&mut disk, "src", "dst", 5), Err(FSError::HFS(HostErrorKind::Other)));
    // and nothing changed
    assert_eq!(fs.read_file(&disk, "dst/x"), Err(FSError::HFS(HostErrorKind::Other)));
    assert_eq!(fs.get_item_size(&disk, "dst").unwrap(), 0);
}

#[test]
fn move_renames_a_file_and_keeps_its_stamps() {
    let (mut disk, fs) = setup();
    fs.write_file(&mut disk, "here.txt", b"payload", 700).unwrap();
    fs.move_item(&mut disk, "here.txt", "there.txt").unwrap();
    assert_eq!(fs.read_file(&disk, "here.txt"), Err(FSError::HFS(HostErrorKind::NotFound)));
    assert_eq!(fs.read_file(&disk, "there.txt").unwrap(), b"payload".to_vec());
    assert_eq!(fs.get_item_time_info(&disk, "there.txt").unwrap(), (700, 700));
}

#[test]
fn move_renames_a_whole_tree() {
    let (mut disk, fs) = setup();
    build_docs(&mut disk, &fs);
    fs.move_item(&mut disk, "docs", "archive").unwrap();
    assert_eq!(fs.read_file(&disk, "docs/readme.txt"), Err(FSError::HFS(HostErrorKind::NotFound)));
    assert_eq!(
        fs.read_file(&disk, "archive/draft/old/ancient.txt").unwrap(),
        b"kept for reference".to_vec()
    );
    assert_eq!(fs.get_item_size(&disk, "archive").unwrap(), 9 + 8 + 18);
}

#[test]
fn move_rejects_descending_into_itself() {
    let (mut disk, fs) = setup();
    build_docs(&mut disk, &fs);
    assert_eq!(
        fs.move_item(&mut disk, "docs", "docs/draft/inner"),
        Err(FSError::HFS(HostErrorKind::Other))
    );
    assert_eq!(fs.read_file(&disk, "docs/readme.txt").unwrap(), b"top level".to_vec());
}

#[test]
fn move_replaces_an_empty_directory_only() {
    let (mut disk, fs) = setup();
    build_docs(&mut disk, &fs);
    fs.create_dir(&mut disk, "slot", 7).unwrap();
    fs.move_item(&mut disk, "docs", "slot").unwrap();
    assert_eq!(fs.read_file(&disk, "slot/readme.txt").unwrap(), b"top level".to_vec());
    // a non-empty target is refused
    fs.create_dir(&mut disk, "full", 8).unwrap();
    fs.write_file(&mut disk, "full/present", b"p", 9).unwrap();
    assert_eq!(fs.move_item(&mut disk, "slot", "full"), Err(FSError::HFS(HostErrorKind::Other)));
}
