//! The response envelopes and filesystem views.

use scoped_fs::config::AuthConfig;
use scoped_fs::config::Config;
use scoped_fs::config::DBConfig;
use scoped_fs::config::FilesystemConfig;
use scoped_fs::config::ServerConfig;
use scoped_fs::data_response::DataResponse;
use scoped_fs::data_response::FlatDataResponse;
use scoped_fs::disk::Disk;
use scoped_fs::filesystem::FSError;
use scoped_fs::filesystem::Filesystem;
use scoped_fs::fs_schema::get_item_name;
use scoped_fs::fs_schema::FSDirListing;
use scoped_fs::fs_schema::FSDirectory;
use scoped_fs::fs_schema::FSFile;
use scoped_fs::fs_schema::FSQuota;
use scoped_fs::fs_schema::FSTree;
use scoped_fs::meta_info::MetaInfo;
use scoped_fs::user_scope::UserScopedFS;

fn sample_config() -> Config {
    Config {
        name: "storage".to_string(),
        server: ServerConfig { port: 8080, address: "127.0.0.1".to_string() },
        filesystem: FilesystemConfig {
            storage_path: "/data".to_string(),
            template_path: None,
            total_size: None,
            user_space_size: None,
        },
        database: DBConfig { path: "db.sqlite".to_string(), conn_pool_size: 4 },
        auth: AuthConfig { code: Some("on".to_string()), session_lifetime: Some(60) },
    }
}

#[test]
fn data_response_wraps_and_hands_back() {
    let mut r = DataResponse::new(41i32);
    assert!(r.valid);
    assert_eq!(r.status_code, 200);
    assert_eq!(*r.get_data_ref(), 41);
    *r.get_data_mut() += 1;
    assert_eq!(r.get_data(), 42);
}

#[test]
fn flat_data_response_behaves_the_same() {
    let mut r = FlatDataResponse::new("payload".to_string());
    assert!(r.valid);
    assert_eq!(r.status_code, 200);
    assert_eq!(r.get_data_ref().as_str(), "payload");
    r.get_data_mut().push('!');
    assert_eq!(r.get_data(), "payload!".to_string());
}

#[test]
fn meta_info_reflects_the_configuration() {
    let cfg = sample_config();
    let m = MetaInfo::new(&cfg);
    assert_eq!(m.platform, "storage");
    assert_eq!(m.port, 8080);
    assert_eq!(m.referrer, "/connect");
    assert_eq!(m.revision, 2);
    assert!(m.protected);
}

#[test]
fn quota_view_reports_max_used_and_free() {
    let mut disk = Disk::new();
    let fs = Filesystem::new("/data", None, None, Some(100), &mut disk, 1);
    let user = UserScopedFS::new(&fs, 9, &mut disk, 2).unwrap();
    user.write_file(&mut disk, "f.bin", &[0u8; 30], 3).unwrap();
    let q = FSQuota::new(&user, &disk, "alice").unwrap();
    assert_eq!(q.username, "alice");
    assert_eq!(q.max, 100);
    assert_eq!(q.used, 30);
    assert_eq!(q.free, 70);
}

#[test]
fn quota_without_a_limit_reports_the_maximum() {
    let mut disk = Disk::new();
    let fs = Filesystem::new("/data", None, None, None, &mut disk, 1);
    let user = UserScopedFS::new(&fs, 9, &mut disk, 2).unwrap();
    let q = FSQuota::new(&user, &disk, "bob").unwrap();
    assert_eq!(q.max, u64::MAX);
    assert_eq!(q.used, 0);
}

#[test]
fn file_view_describes_one_file() {
    let mut disk = Disk::new();
    let fs = Filesystem::new("/data", None, None, None, &mut disk, 1);
    let user = UserScopedFS::new(&fs, 4, &mut disk, 2).unwrap();
    user.create_dir(&mut disk, "docs", 3).unwrap();
    user.write_file(&mut disk, "docs/a.txt", b"hello", 700).unwrap();
    let f = FSFile::new(&user, &disk, "docs/a.txt").unwrap();
    assert_eq!(f.filename, "a.txt");
    assert_eq!(f.scoped_path, "docs/a.txt");
    assert_eq!(f.size, 5);
    assert_eq!(f.mime, "text/plain");
    assert_eq!(f.date_created, 700);
    assert_eq!(f.date_modified, 700);
    assert!(matches!(
        FSFile::new(&user, &disk, "docs/missing.txt"),
        Err(FSError::HFS(scoped_fs::filesystem::HostErrorKind::NotFound))
    ));
}

#[test]
fn listing_view_describes_children_relative_to_the_scope() {
    let mut disk = Disk::new();
    let fs = Filesystem::new("/data", None, None, None, &mut disk, 1);
    let user = UserScopedFS::new(&fs, 4, &mut disk, 2).unwrap();
    user.create_dir(&mut disk, "docs", 3).unwrap();
    user.create_dir(&mut disk, "docs/sub", 4).unwrap();
    user.write_file(&mut disk, "docs/a.txt", b"hello", 5).unwrap();
    let l = FSDirListing::new(&user, &disk, "docs").unwrap();
    assert_eq!(l.scoped_path, "docs");
    assert_eq!(l.name, "docs");
    assert_eq!(l.files.len(), 1);
    assert_eq!(l.files[0].scoped_path, "docs/a.txt");
    assert_eq!(l.files[0].size, 5);
    assert_eq!(l.directories.len(), 1);
    assert_eq!(l.directories[0].scoped_path, "docs/sub");
    assert_eq!(l.directories[0].name, "sub");
}

#[test]
fn tree_view_enumerates_descoped_files() {
    let mut disk = Disk::new();
    let fs = Filesystem::new("/data", None, None, None, &mut disk, 1);
    let user = UserScopedFS::new(&fs, 4, &mut disk, 2).unwrap();
    user.create_dir(&mut disk, "docs", 3).unwrap();
    user.write_file(&mut disk, "docs/a.txt", b"hello", 4).unwrap();
    user.write_file(&mut disk, "top.png", b"img", 5).unwrap();
    let t = FSTree::new(&user, &disk, ".").unwrap();
    let mut entries: Vec<(String, String)> = t.0.iter().map(|e| (e.scoped_path.clone(), e.mime.clone())).collect();
    entries.sort();
    assert_eq!(
        entries,
        vec![
            ("docs/a.txt".to_string(), "text/plain".to_string()),
            ("top.png".to_string(), "image/png".to_string()),
        ]
    );
}

#[test]
fn item_names_fall_back_to_the_current_directory() {
    let mut disk = Disk::new();
    let fs = Filesystem::new("/data", None, None, None, &mut disk, 1);
    let p = fs.construct_path("a/b/c.txt").unwrap();
    assert_eq!(get_item_name(&p), "c.txt");
    let d = FSDirectory::new(&p);
    assert_eq!(d.name, "c.txt");
    let empty = scoped_fs::paths::FsPath::empty();
    assert_eq!(get_item_name(&empty), ".");
}

#[test]
fn error_descriptions_are_stable() {
    assert_eq!(FSError::PathBreaksOut.describe(), "the path is invalid");
    assert_eq!(
        FSError::NotEnoughStorage.describe(),
        "you haven't got enough storage to store a file of such size"
    );
    assert_eq!(
        FSError::InvalidUTF8Path.describe(),
        "the path is not valid a UTF-8 string"
    );
}
