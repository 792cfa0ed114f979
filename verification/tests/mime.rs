//! Content-type guessing through the library's public surface.

use scoped_fs::disk::Disk;
use scoped_fs::filesystem::Filesystem;
use scoped_fs::user_scope::UserScopedFS;

fn setup() -> (Disk, Filesystem) {
    let mut disk = Disk::new();
    let fs = Filesystem::new("/data", None, None, None, &mut disk, 1);
    (disk, fs)
}

#[test]
fn known_extensions_map_to_their_types() {
    let (_disk, fs) = setup();
    assert_eq!(fs.get_mime("notes.txt").unwrap(), Some("text/plain".to_string()));
    assert_eq!(fs.get_mime("image.png").unwrap(), Some("image/png".to_string()));
    assert_eq!(fs.get_mime("page.html").unwrap(), Some("text/html".to_string()));
    assert_eq!(fs.get_mime("data.json").unwrap(), Some("application/json".to_string()));
}

#[test]
fn unknown_or_missing_extension_gives_no_guess() {
    let (_disk, fs) = setup();
    assert_eq!(fs.get_mime("no_extension").unwrap(), None);
    assert_eq!(fs.get_mime("odd.zzqq").unwrap(), None);
}

#[test]
fn scoped_guessing_agrees_with_the_root() {
    let mut disk = Disk::new();
    let fs = Filesystem::new("/data", None, None, None, &mut disk, 1);
    let user = UserScopedFS::new(&fs, 7, &mut disk, 2).unwrap();
    assert_eq!(user.get_mime("song.mp3").unwrap(), Some("audio/mpeg".to_string()));
    assert_eq!(user.get_mime("sub/dir/file.css").unwrap(), Some("text/css".to_string()));
}
