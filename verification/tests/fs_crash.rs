//! What a crash leaves on a disk.
use rand::rngs::SmallRng;
use rand::SeedableRng;
use turmoil::error::{Cause, ErrorKind};
use turmoil::fs::config::FsConfig;
use turmoil::fs::file::{read, File, OpenOptions};
use turmoil::fs::state::Fs;
use turmoil::fs::std_fs::{
    create_dir, hard_link, metadata, path_exists, remove_dir, remove_file, rename, sync_dir, Chance,
};
use turmoil::path::PathBuf;
use turmoil::time::Duration;

fn now() -> Duration {
    Duration::from_secs(1)
}

fn rng() -> SmallRng {
    SmallRng::seed_from_u64(5)
}

fn disk() -> Fs {
    Fs::new(FsConfig::default())
}

fn create(fs: &mut Fs, path: &[u8], data: &[u8]) -> File {
    let file = OpenOptions::new()
        .read(true)
        .write(true)
        .create(true)
        .open(fs, now(), path)
        .unwrap();
    file.write_at(fs, now(), data, 0, 0, Chance::none()).unwrap();
    file
}

fn contents(fs: &mut Fs, path: &[u8]) -> Vec<u8> {
    read(fs, path, Chance::none(), &mut rng()).unwrap()
}

#[test]
fn what_is_not_synced_is_lost() {
    let mut fs = disk();
    create(&mut fs, b"/f", b"data");
    assert_eq!(contents(&mut fs, b"/f"), b"data");
    fs.discard_pending(&mut rng());
    assert!(!path_exists(&fs, b"/f"));
}

#[test]
fn a_file_without_a_durable_entry_is_lost() {
    let mut fs = disk();
    let file = create(&mut fs, b"/f", b"data");
    file.sync_all(&mut fs).unwrap();
    fs.discard_pending(&mut rng());
    assert!(!path_exists(&fs, b"/f"));
}

#[test]
fn a_synced_file_survives() {
    let mut fs = disk();
    let file = create(&mut fs, b"/f", b"data");
    file.sync_all(&mut fs).unwrap();
    sync_dir(&mut fs, now(), b"/").unwrap();
    file.write_at(&mut fs, now(), b"DATA and more", 0, 0, Chance::none()).unwrap();
    assert_eq!(contents(&mut fs, b"/f"), b"DATA and more");
    fs.discard_pending(&mut rng());
    assert_eq!(contents(&mut fs, b"/f"), b"data");
    // A second crash changes nothing.
    fs.discard_pending(&mut rng());
    assert_eq!(contents(&mut fs, b"/f"), b"data");
}

#[test]
fn syncing_data_changes_nothing_that_is_read() {
    let mut fs = disk();
    let file = create(&mut fs, b"/f", b"data");
    file.sync_data(&mut fs).unwrap();
    assert_eq!(contents(&mut fs, b"/f"), b"data");
}

#[test]
fn a_removed_file_comes_back_unless_the_directory_is_synced() {
    let mut fs = disk();
    let file = create(&mut fs, b"/f", b"data");
    file.sync_all(&mut fs).unwrap();
    sync_dir(&mut fs, now(), b"/").unwrap();
    remove_file(&mut fs, now(), b"/f").unwrap();
    assert!(!path_exists(&fs, b"/f"));
    fs.discard_pending(&mut rng());
    assert_eq!(contents(&mut fs, b"/f"), b"data");
    remove_file(&mut fs, now(), b"/f").unwrap();
    sync_dir(&mut fs, now(), b"/").unwrap();
    fs.discard_pending(&mut rng());
    assert!(!path_exists(&fs, b"/f"));
}

#[test]
fn a_torn_write_leaves_whole_blocks() {
    let mut config = FsConfig::default();
    config.block_size(4);
    let mut fs = Fs::new(config);
    let file = create(&mut fs, b"/f", b"................");
    file.sync_all(&mut fs).unwrap();
    sync_dir(&mut fs, now(), b"/").unwrap();
    file.write_at(&mut fs, now(), b"abcdefghij", 0, 0, Chance::none()).unwrap();
    let mut torn = Fs::new(FsConfig::default());
    std::mem::swap(&mut torn, &mut fs);
    torn.discard_pending_with(&vec![2]);
    assert_eq!(contents(&mut torn, b"/f"), b"abcdefgh........");
}

#[test]
fn random_tears_are_prefixes() {
    for seed in 0..20 {
        let mut config = FsConfig::default();
        config.block_size(4);
        let mut fs = Fs::new(config);
        let file = create(&mut fs, b"/f", b"..........");
        file.sync_all(&mut fs).unwrap();
        sync_dir(&mut fs, now(), b"/").unwrap();
        file.write_at(&mut fs, now(), b"abcdefghij", 0, 0, Chance::none()).unwrap();
        fs.discard_pending(&mut SmallRng::seed_from_u64(seed));
        let left = contents(&mut fs, b"/f");
        let kept = left.iter().take_while(|b| **b != b'.').count();
        assert!([0, 4, 8, 10].contains(&kept), "{kept}");
        assert_eq!(&left[..kept], &b"abcdefghij"[..kept]);
    }
}

#[test]
fn a_full_disk_takes_no_more() {
    let mut config = FsConfig::default();
    config.capacity(8);
    let mut fs = Fs::new(config);
    let file = create(&mut fs, b"/f", b"12345678");
    let e = file.write_at(&mut fs, now(), b"9", 0, 8, Chance::none()).unwrap_err();
    assert_eq!(e.cause, Cause::NoSpace);
    assert_eq!(fs.used_bytes(), 8);
    assert!(fs.check_space(1).is_err());
    assert!(fs.check_space(0).is_ok());
}

#[test]
fn renamed_and_linked_files_keep_their_bytes() {
    let mut fs = disk();
    create(&mut fs, b"/a", b"one");
    rename(&mut fs, now(), b"/a", b"/b").unwrap();
    assert!(!path_exists(&fs, b"/a"));
    assert_eq!(contents(&mut fs, b"/b"), b"one");
    hard_link(&mut fs, now(), b"/b", b"/c").unwrap();
    assert_eq!(contents(&mut fs, b"/c"), b"one");
    assert_eq!(metadata(&fs, b"/b").unwrap().nlink(), 2);
}

#[test]
fn errors_of_directories() {
    let mut fs = disk();
    create_dir(&mut fs, now(), b"/d").unwrap();
    let e = create_dir(&mut fs, now(), b"/d").unwrap_err();
    assert_eq!(e.kind, ErrorKind::Other);
    assert_eq!(e.cause, Cause::EntryExists);
    let e = create_dir(&mut fs, now(), b"/x/y").unwrap_err();
    assert_eq!(e.kind, ErrorKind::Other);
    assert_eq!(e.cause, Cause::NoSuchEntry);
    create(&mut fs, b"/d/f", b"1");
    let e = remove_dir(&mut fs, now(), b"/d").unwrap_err();
    assert_eq!(e.cause, Cause::DirectoryNotEmpty);
    assert!(remove_file(&mut fs, now(), b"/nothing").is_err());
    assert!(rename(&mut fs, now(), b"/nothing", b"/g").is_err());
    remove_file(&mut fs, now(), b"/d/f").unwrap();
    remove_dir(&mut fs, now(), b"/d").unwrap();
    assert!(!fs.dir_exists(&PathBuf::new(b"/d")));
    assert!(fs.dir_exists(&PathBuf::new(b"/")));
}

#[test]
fn sync_at_random_makes_durable() {
    let mut fs = disk();
    let file = create(&mut fs, b"/f", b"");
    file.sync_all(&mut fs).unwrap();
    sync_dir(&mut fs, now(), b"/").unwrap();
    let syncing = Chance { io_error: false, corrupt: false, sync: true };
    file.write_at(&mut fs, now(), b"kept", 0, 0, syncing).unwrap();
    file.write_at(&mut fs, now(), b"lost", 0, 4, Chance::none()).unwrap();
    fs.discard_pending(&mut rng());
    assert_eq!(contents(&mut fs, b"/f"), b"kept");
}
