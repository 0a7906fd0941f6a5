//! Metadata of files and directories.
use rand::rngs::SmallRng;
use rand::SeedableRng;
use turmoil::fs::config::FsConfig;
use turmoil::fs::file::{File, OpenOptions};
use turmoil::fs::state::Fs;
use turmoil::fs::std_fs::{
    create_dir, create_dir_all, hard_link, metadata, path_exists, remove_dir, remove_file, rename,
    set_permissions, symlink, symlink_metadata, sync_dir, Chance, DirBuilder, Permissions,
};
use turmoil::fs::tree::remove_dir_all;
use turmoil::path::PathBuf;
use turmoil::time::Duration;

fn disk() -> Fs {
    Fs::new(FsConfig::default())
}

fn at(secs: u64) -> Duration {
    Duration::from_secs(secs)
}

fn open(fs: &mut Fs, now: Duration, path: &[u8]) -> File {
    OpenOptions::new()
        .read(true)
        .write(true)
        .create(true)
        .open(fs, now, path)
        .unwrap()
}

#[test]
fn metadata_is_file_is_dir() {
    let mut fs = disk();
    create_dir_all(&mut fs, at(1), b"/data").unwrap();
    let file = open(&mut fs, at(1), b"/data/file.txt");
    let meta = file.metadata(&fs).unwrap();
    assert!(meta.is_file());
    assert!(!meta.is_dir());
}

#[test]
fn metadata_free_function() {
    let mut fs = disk();
    create_dir_all(&mut fs, at(1), b"/data").unwrap();
    turmoil::fs::file::write(&mut fs, at(1), b"/data/file.txt", b"hello world", Chance::none()).unwrap();
    let file_meta = metadata(&fs, b"/data/file.txt").unwrap();
    assert!(file_meta.is_file());
    assert_eq!(file_meta.len(), 11);
    let dir_meta = metadata(&fs, b"/data").unwrap();
    assert!(dir_meta.is_dir());
    let root_meta = metadata(&fs, b"/").unwrap();
    assert!(root_meta.is_dir());
    assert!(metadata(&fs, b"/nonexistent").is_err());
}

#[test]
fn timestamp_on_creation() {
    let mut fs = disk();
    create_dir(&mut fs, at(1), b"/data").unwrap();
    let file = open(&mut fs, at(1), b"/data/file.txt");
    let meta = file.metadata(&fs).unwrap();
    let created = meta.created().unwrap();
    let modified = meta.modified().unwrap();
    assert!(created.nanos > 0);
    assert_eq!(created, modified);
    assert_eq!(created, at(1));
}

#[test]
fn mtime_updates_on_write() {
    let mut fs = disk();
    create_dir(&mut fs, at(1), b"/data").unwrap();
    let file = open(&mut fs, at(1), b"/data/file.txt");
    let initial = file.metadata(&fs).unwrap().modified().unwrap();
    file.write_at(&mut fs, at(2), b"hello", 0, 0, Chance::none()).unwrap();
    let after = file.metadata(&fs).unwrap().modified().unwrap();
    assert!(after.nanos > initial.nanos);
}

#[test]
fn mtime_updates_on_truncate() {
    let mut fs = disk();
    create_dir(&mut fs, at(1), b"/data").unwrap();
    let file = open(&mut fs, at(1), b"/data/file.txt");
    file.write_at(&mut fs, at(1), b"hello world", 0, 0, Chance::none()).unwrap();
    file.sync_all(&mut fs).unwrap();
    let before = file.metadata(&fs).unwrap().modified().unwrap();
    file.set_len(&mut fs, at(2), 5, Chance::none()).unwrap();
    let after = file.metadata(&fs).unwrap().modified().unwrap();
    assert!(after.nanos > before.nanos);
}

#[test]
fn noatime_behavior() {
    let mut fs = disk();
    create_dir(&mut fs, at(1), b"/data").unwrap();
    let file = open(&mut fs, at(1), b"/data/file.txt");
    file.write_at(&mut fs, at(1), b"hello", 0, 0, Chance::none()).unwrap();
    let before = file.metadata(&fs).unwrap().accessed().unwrap();
    let mut buf = [0u8; 5];
    file.read_at(&fs, &mut buf, 0, 0, Chance::none(), &mut SmallRng::seed_from_u64(1))
        .unwrap_or_else(|_| panic!("read failed"));
    let after = file.metadata(&fs).unwrap().accessed().unwrap();
    assert_eq!(before, after, "noatime: accessed should not change on read");
}

#[test]
fn directory_timestamps() {
    let mut fs = disk();
    create_dir(&mut fs, at(1), b"/mydir").unwrap();
    let meta = metadata(&fs, b"/mydir").unwrap();
    assert!(meta.is_dir());
    assert!(meta.created().unwrap().nanos > 0);
    create_dir(&mut fs, at(2), b"/mydir/subdir").unwrap();
    let sub_meta = metadata(&fs, b"/mydir/subdir").unwrap();
    assert!(sub_meta.created().unwrap().nanos > meta.created().unwrap().nanos);
}

#[test]
fn dir_mtime_updates_on_content_change() {
    let mut fs = disk();
    create_dir(&mut fs, at(1), b"/data").unwrap();
    let initial = metadata(&fs, b"/data").unwrap().modified().unwrap();
    turmoil::fs::file::write(&mut fs, at(2), b"/data/file.txt", b"hello", Chance::none()).unwrap();
    let after_create = metadata(&fs, b"/data").unwrap().modified().unwrap();
    assert!(after_create.nanos > initial.nanos);
    remove_file(&mut fs, at(3), b"/data/file.txt").unwrap();
    let after_remove = metadata(&fs, b"/data").unwrap().modified().unwrap();
    assert!(after_remove.nanos >= after_create.nanos);
}

#[test]
fn permissions_from_metadata() {
    let mut fs = disk();
    create_dir(&mut fs, at(1), b"/data").unwrap();

    // Test default file permissions (0o644)
    let file = open(&mut fs, at(1), b"/data/default.txt");
    let perms = file.metadata(&fs).unwrap().permissions();
    assert_eq!(perms.mode() & 0o777, 0o644);

    // Test custom file permissions
    let file2 = OpenOptions::new()
        .read(true)
        .write(true)
        .create(true)
        .mode(0o600)
        .open(&mut fs, at(1), b"/data/custom.txt")
        .unwrap();
    let perms2 = file2.metadata(&fs).unwrap().permissions();
    assert_eq!(perms2.mode() & 0o777, 0o600);

    // Test directory permissions (0o755 default)
    let dir_meta = metadata(&fs, b"/data").unwrap();
    assert_eq!(dir_meta.permissions().mode() & 0o777, 0o755);
}

#[test]
fn exists_function() {
    let mut fs = disk();
    // Non-existent paths
    assert!(!path_exists(&fs, b"/nonexistent"));
    assert!(!path_exists(&fs, b"/data/file.txt"));

    // Create directory
    create_dir(&mut fs, at(1), b"/data").unwrap();
    assert!(path_exists(&fs, b"/data"));

    // Create file
    turmoil::fs::file::write(&mut fs, at(1), b"/data/file.txt", b"hello", Chance::none()).unwrap();
    assert!(path_exists(&fs, b"/data/file.txt"));

    // Create symlink to existing target
    symlink(&mut fs, at(1), b"/data/file.txt", b"/link").unwrap();
    assert!(path_exists(&fs, b"/link"));

    // Symlink to non-existent target should return false
    symlink(&mut fs, at(1), b"/nonexistent", b"/broken_link").unwrap();
    assert!(!path_exists(&fs, b"/broken_link"));
}

#[test]
fn symlink_metadata_timestamps() {
    let mut fs = disk();
    turmoil::fs::file::write(&mut fs, at(1), b"/target.txt", b"hello", Chance::none()).unwrap();
    symlink(&mut fs, at(2), b"/target.txt", b"/link").unwrap();

    let link_meta = symlink_metadata(&fs, b"/link").unwrap();
    assert!(link_meta.is_symlink());
    assert!(!link_meta.is_file());
    assert!(!link_meta.is_dir());

    // Symlink should have its own timestamp
    let link_created = link_meta.created().unwrap();
    assert!(link_created.nanos > 0);

    // Target file should have earlier timestamp
    let target_meta = metadata(&fs, b"/target.txt").unwrap();
    assert!(target_meta.created().unwrap().nanos < link_created.nanos);
}

#[test]
fn readonly_is_a_bit_of_the_mode() {
    let mut fs = disk();
    turmoil::fs::file::write(&mut fs, at(1), b"/f", b"x", Chance::none()).unwrap();
    let mut perms = metadata(&fs, b"/f").unwrap().permissions();
    assert!(!perms.readonly());
    perms.set_readonly(true);
    assert_eq!(perms.mode(), 0o444);
    set_permissions(&mut fs, at(2), b"/f", perms).unwrap();
    assert!(metadata(&fs, b"/f").unwrap().permissions().readonly());
    assert!(set_permissions(&mut fs, at(2), b"/g", Permissions::from_mode(0)).is_err());
}

#[test]
fn directories_are_built() {
    let mut fs = disk();
    assert!(DirBuilder::new().create(&mut fs, at(1), b"/a/b").is_err());
    DirBuilder::new()
        .recursive(true)
        .mode(0o700)
        .create(&mut fs, at(1), b"/a/b")
        .unwrap();
    assert_eq!(metadata(&fs, b"/a/b").unwrap().permissions().mode(), 0o700);
    assert_eq!(metadata(&fs, b"/a/b").unwrap().st_mode(), 0o40700);
}

#[test]
fn blocks_are_counted() {
    let mut fs = disk();
    turmoil::fs::file::write(&mut fs, at(1), b"/f", &[1; 513], Chance::none()).unwrap();
    assert_eq!(metadata(&fs, b"/f").unwrap().blocks(), 2);
}

fn mtime(fs: &Fs, path: &[u8]) -> Duration {
    metadata(fs, path).unwrap().modified().unwrap()
}

#[test]
fn a_directory_is_modified_when_its_entries_change() {
    let mut fs = disk();
    create_dir(&mut fs, at(1), b"/d").unwrap();
    create_dir(&mut fs, at(1), b"/e").unwrap();
    open(&mut fs, at(2), b"/d/f");
    assert_eq!(mtime(&fs, b"/d"), at(2));
    symlink(&mut fs, at(3), b"/d/f", b"/d/l").unwrap();
    assert_eq!(mtime(&fs, b"/d"), at(3));
    hard_link(&mut fs, at(4), b"/d/f", b"/d/h").unwrap();
    assert_eq!(mtime(&fs, b"/d"), at(4));
    assert_eq!(mtime(&fs, b"/e"), at(1));
    rename(&mut fs, at(5), b"/d/h", b"/e/h").unwrap();
    assert_eq!(mtime(&fs, b"/d"), at(5));
    assert_eq!(mtime(&fs, b"/e"), at(5));
    remove_file(&mut fs, at(6), b"/d/f").unwrap();
    assert_eq!(mtime(&fs, b"/d"), at(6));
    create_dir(&mut fs, at(7), b"/d/s").unwrap();
    remove_dir(&mut fs, at(8), b"/d/s").unwrap();
    assert_eq!(mtime(&fs, b"/d"), at(8));
    create_dir_all(&mut fs, at(9), b"/d/t/u").unwrap();
    remove_dir_all(&mut fs, at(10), b"/d/t").unwrap();
    assert_eq!(mtime(&fs, b"/d"), at(10));
    assert_eq!(metadata(&fs, b"/d").unwrap().created().unwrap(), at(1));
    assert_eq!(mtime(&fs, b"/e"), at(5));
}

#[test]
fn a_sync_stamps_the_durable_directory() {
    let mut fs = disk();
    create_dir(&mut fs, at(1), b"/d").unwrap();
    open(&mut fs, at(2), b"/d/f");
    sync_dir(&mut fs, at(3), b"/").unwrap();
    sync_dir(&mut fs, at(4), b"/d").unwrap();
    assert_eq!(mtime(&fs, b"/d"), at(2));
    fs.discard_pending(&mut SmallRng::seed_from_u64(1));
    assert_eq!(mtime(&fs, b"/d"), at(4));
    assert_eq!(mtime(&fs, b"/"), at(3));
}

#[test]
fn changed_permissions_are_not_made_durable_by_a_sync() {
    let mut fs = disk();
    create_dir(&mut fs, at(1), b"/d").unwrap();
    sync_dir(&mut fs, at(2), b"/").unwrap();
    set_permissions(&mut fs, at(3), b"/d", Permissions::from_mode(0o700)).unwrap();
    sync_dir(&mut fs, at(4), b"/").unwrap();
    assert_eq!(metadata(&fs, b"/d").unwrap().permissions().mode(), 0o700);
    fs.discard_pending(&mut SmallRng::seed_from_u64(1));
    assert_eq!(metadata(&fs, b"/d").unwrap().permissions().mode(), 0o755);
    assert_eq!(mtime(&fs, b"/d"), at(1));
}

#[test]
fn permissions_changed_before_the_first_sync_are_not_durable() {
    let mut fs = disk();
    create_dir(&mut fs, at(1), b"/d").unwrap();
    set_permissions(&mut fs, at(2), b"/d", Permissions::from_mode(0o700)).unwrap();
    sync_dir(&mut fs, at(3), b"/").unwrap();
    fs.discard_pending(&mut SmallRng::seed_from_u64(1));
    assert_eq!(metadata(&fs, b"/d").unwrap().permissions().mode(), 0o755);
}

#[test]
fn creating_a_file_again_leaves_it_as_it_is() {
    let mut fs = disk();
    let path = PathBuf::new(b"/f");
    let ino = fs.create_file(&path, at(1));
    turmoil::fs::file::write(&mut fs, at(2), b"/f", b"hi", Chance::none()).unwrap();
    assert_eq!(fs.create_file(&path, at(3)), ino);
    assert_eq!(fs.create_file_with_mode(&path, at(3), 0o600), ino);
    let meta = metadata(&fs, b"/f").unwrap();
    assert_eq!(meta.len(), 2);
    assert_eq!(meta.created().unwrap(), at(1));
    assert_eq!(meta.modified().unwrap(), at(2));
    assert_eq!(meta.permissions().mode(), 0o644);
}
