//! Files under all their names, and directories with what stands in them.
use rand::rngs::SmallRng;
use rand::SeedableRng;
use turmoil::error::{Cause, ErrorKind};
use turmoil::fs::config::{FsConfig, IoLatency, PageCacheConfig};
use turmoil::fs::file::{copy, read, read_to_string, OpenOptions};
use turmoil::fs::state::Fs;
use turmoil::fs::std_fs::{
    create_dir, create_dir_all, hard_link, metadata, path_exists, read_dir, read_link, remove_dir,
    remove_file, rename, symlink, symlink_metadata, sync_dir, Chance,
};
use turmoil::fs::tree::{canonicalize, remove_dir_all};
use turmoil::path::PathBuf;
use turmoil::time::Duration;

fn disk() -> Fs {
    Fs::new(FsConfig::default())
}

fn now() -> Duration {
    Duration::from_secs(1)
}

fn rng() -> SmallRng {
    SmallRng::seed_from_u64(7)
}

fn put(fs: &mut Fs, path: &[u8], data: &[u8]) {
    turmoil::fs::file::write(fs, now(), path, data, Chance::none()).unwrap();
}

fn get(fs: &mut Fs, path: &[u8]) -> Vec<u8> {
    read(fs, path, Chance::none(), &mut rng()).unwrap()
}

fn list(fs: &Fs, path: &[u8]) -> Vec<Vec<u8>> {
    let mut dir = read_dir(fs, path).unwrap();
    let mut out = vec![];
    while let Some(e) = dir.next_entry() {
        out.push(e.path().to_bytes());
    }
    out.sort();
    out
}

fn writer() -> OpenOptions {
    let mut options = OpenOptions::new();
    options.write(true).create(true).read(true);
    options
}

#[test]
fn bytes_that_were_cut_off_are_zeros() {
    let mut fs = disk();
    let f = writer().open(&mut fs, now(), b"/f").unwrap();
    f.write_at(&mut fs, now(), b"0123456789", 0, 0, Chance::none()).unwrap();
    f.set_len(&mut fs, now(), 5, Chance::none()).unwrap();
    f.set_len(&mut fs, now(), 10, Chance::none()).unwrap();
    let mut buf = [9; 10];
    f.read_at(&fs, &mut buf, 0, 0, Chance::none(), &mut rng()).unwrap();
    assert_eq!(&buf, b"01234\0\0\0\0\0");
    f.sync_all(&mut fs).unwrap();
    f.read_at(&fs, &mut buf, 0, 0, Chance::none(), &mut rng()).unwrap();
    assert_eq!(&buf, b"01234\0\0\0\0\0");
}

#[test]
fn nothing_takes_time_without_latency() {
    let mut config = FsConfig::default();
    config.page_cache = Some(PageCacheConfig::default());
    let mut fs = Fs::new(config);
    assert_eq!(fs.calculate_latency(true, Duration::from_millis(3)), Duration::zero());
    assert_eq!(fs.calculate_latency(false, Duration::from_millis(3)), Duration::zero());
    let path = PathBuf::new(b"/f");
    fs.apply_write_latency(&path, 0, false, Duration::zero());
    let hit = fs.apply_read_latency(&path, 0, false, false, Duration::zero());
    assert_eq!(hit, Duration::zero());

    config.io_latency = Some(IoLatency::default());
    let fs = Fs::new(config);
    assert_eq!(fs.calculate_latency(true, Duration::from_millis(3)), Duration::from_nanos(100));
    assert_eq!(fs.calculate_latency(false, Duration::from_millis(3)).nanos, 3_050_000);
}

#[test]
fn renamed_directory_stays_one_with_all_in_it() {
    let mut fs = disk();
    create_dir_all(&mut fs, now(), b"/d/sub").unwrap();
    put(&mut fs, b"/d/f", b"1");
    put(&mut fs, b"/d/sub/g", b"2");
    create_dir(&mut fs, now(), b"/e").unwrap();
    rename(&mut fs, now(), b"/d", b"/e").unwrap();
    assert!(metadata(&fs, b"/e").unwrap().is_dir());
    assert!(!path_exists(&fs, b"/d"));
    assert!(!path_exists(&fs, b"/d/f"));
    assert_eq!(get(&mut fs, b"/e/f"), b"1");
    assert_eq!(get(&mut fs, b"/e/sub/g"), b"2");
    assert_eq!(list(&fs, b"/e"), vec![b"/e/f".to_vec(), b"/e/sub".to_vec()]);
    let e = rename(&mut fs, now(), b"/e", b"/e/sub/x").unwrap_err();
    assert_eq!(e.cause, Cause::IntoItself);
    assert_eq!(e.message(), "Invalid argument");
    assert!(rename(&mut fs, now(), b"/e", b"/e").is_ok());
    assert_eq!(get(&mut fs, b"/e/f"), b"1");
}

#[test]
fn rename_replaces_what_stood_there() {
    let mut fs = disk();
    put(&mut fs, b"/f", b"new");
    symlink(&mut fs, now(), b"/nowhere", b"/l").unwrap();
    rename(&mut fs, now(), b"/f", b"/l").unwrap();
    assert!(symlink_metadata(&fs, b"/l").unwrap().is_file());
    assert_eq!(get(&mut fs, b"/l"), b"new");
    symlink(&mut fs, now(), b"/l", b"/m").unwrap();
    put(&mut fs, b"/t", b"old");
    rename(&mut fs, now(), b"/m", b"/t").unwrap();
    assert_eq!(read_link(&fs, b"/t").unwrap(), b"/l");
    assert!(read_link(&fs, b"/m").is_err());
    remove_file(&mut fs, now(), b"/t").unwrap();
    symlink(&mut fs, now(), b"/other", b"/t").unwrap();
    assert_eq!(read_link(&fs, b"/t").unwrap(), b"/other");
}

#[test]
fn writes_are_seen_under_all_names() {
    let mut fs = disk();
    put(&mut fs, b"/a", b"first");
    rename(&mut fs, now(), b"/a", b"/b").unwrap();
    put(&mut fs, b"/b", b"x");
    assert_eq!(get(&mut fs, b"/b"), b"x");
    assert_eq!(metadata(&fs, b"/b").unwrap().len(), 1);

    hard_link(&mut fs, now(), b"/b", b"/c").unwrap();
    let f = writer().open(&mut fs, now(), b"/c").unwrap();
    f.write_at(&mut fs, now(), b"yz", 0, 0, Chance::none()).unwrap();
    assert_eq!(get(&mut fs, b"/b"), b"yz");

    let mut options = writer();
    options.truncate(true);
    let f = options.open(&mut fs, now(), b"/b").unwrap();
    assert_eq!(f.metadata(&fs).unwrap().len(), 0);
    assert_eq!(get(&mut fs, b"/c"), b"");
    assert_eq!(f.length(&fs), Some(0));
    assert_eq!(f.path(&fs).unwrap().to_bytes(), b"/b");
}

#[test]
fn directories_list_what_stands_in_them() {
    let mut fs = disk();
    create_dir(&mut fs, now(), b"/d").unwrap();
    put(&mut fs, b"/f", b"1");
    hard_link(&mut fs, now(), b"/f", b"/d/h").unwrap();
    symlink(&mut fs, now(), b"/f", b"/d/s").unwrap();
    rename(&mut fs, now(), b"/f", b"/d/f").unwrap();
    create_dir(&mut fs, now(), b"/d/sub").unwrap();
    put(&mut fs, b"/d/gone", b"");
    remove_file(&mut fs, now(), b"/d/gone").unwrap();
    let entries = [&b"/d/f"[..], b"/d/h", b"/d/s", b"/d/sub"];
    assert_eq!(list(&fs, b"/d"), entries.map(|e| e.to_vec()).to_vec());
    let e = remove_dir(&mut fs, now(), b"/d").unwrap_err();
    assert_eq!(e.cause, Cause::DirectoryNotEmpty);
    put(&mut fs, b"/outside", b"2");
    remove_dir_all(&mut fs, now(), b"/d").unwrap();
    for path in [&b"/d"[..], b"/d/f", b"/d/h", b"/d/s", b"/d/sub"] {
        assert_eq!(symlink_metadata(&fs, path).unwrap_err().kind, ErrorKind::NotFound);
    }
    assert_eq!(get(&mut fs, b"/outside"), b"2");
    assert_eq!(remove_dir_all(&mut fs, now(), b"/d").unwrap_err().cause, Cause::DirectoryNotFound);
}

#[test]
fn syncing_a_directory_changes_nothing_that_is_seen() {
    let mut fs = disk();
    create_dir(&mut fs, now(), b"/d").unwrap();
    put(&mut fs, b"/d/a", b"1");
    rename(&mut fs, now(), b"/d/a", b"/d/b").unwrap();
    hard_link(&mut fs, now(), b"/d/b", b"/d/c").unwrap();
    put(&mut fs, b"/d/c", b"22");
    let before = (list(&fs, b"/d"), metadata(&fs, b"/d").unwrap(), metadata(&fs, b"/d/b").unwrap());
    sync_dir(&mut fs, now(), b"/d").unwrap();
    let after = (list(&fs, b"/d"), metadata(&fs, b"/d").unwrap(), metadata(&fs, b"/d/b").unwrap());
    assert!(before == after);
    assert_eq!(get(&mut fs, b"/d/b"), b"22");
    assert_eq!(sync_dir(&mut fs, now(), b"/none").unwrap_err().cause, Cause::NoSuchEntry);
}

#[test]
fn links_are_followed_to_the_end() {
    let mut fs = disk();
    put(&mut fs, b"/f", b"123");
    symlink(&mut fs, now(), b"/f", b"/one").unwrap();
    symlink(&mut fs, now(), b"one", b"/two").unwrap();
    assert_eq!(metadata(&fs, b"/two").unwrap().len(), 3);
    assert_eq!(get(&mut fs, b"/two"), b"123");
    symlink(&mut fs, now(), b"/missing", b"/dangling").unwrap();
    symlink(&mut fs, now(), b"/dangling", b"/to_dangling").unwrap();
    assert!(!path_exists(&fs, b"/to_dangling"));
    assert_eq!(metadata(&fs, b"/to_dangling").unwrap_err().kind, ErrorKind::NotFound);
    symlink(&mut fs, now(), b"/y", b"/x").unwrap();
    symlink(&mut fs, now(), b"/x", b"/y").unwrap();
    assert!(!path_exists(&fs, b"/x"));
    assert!(read(&mut fs, b"/x", Chance::none(), &mut rng()).is_err());
}

#[test]
fn a_link_may_be_used_twice() {
    let mut fs = disk();
    create_dir(&mut fs, now(), b"/d").unwrap();
    put(&mut fs, b"/d/f", b"");
    symlink(&mut fs, now(), b"/d", b"/l").unwrap();
    assert_eq!(canonicalize(&fs, b"/l/../l/f").unwrap().to_bytes(), b"/d/f");
    symlink(&mut fs, now(), b"../l/f", b"/d/back").unwrap();
    assert_eq!(canonicalize(&fs, b"/l/back").unwrap().to_bytes(), b"/d/f");
    let r = canonicalize(&fs, b"/d/f/../f");
    assert_eq!(r.err().unwrap().cause, Cause::PathNotFound);
    let r = canonicalize(&fs, b"/d/none/../f");
    assert_eq!(r.err().unwrap().cause, Cause::PathNotFound);
    symlink(&mut fs, now(), b"/self/x", b"/self").unwrap();
    assert_eq!(canonicalize(&fs, b"/self").err().unwrap().cause, Cause::LinkLoop);
}

#[test]
fn too_many_links_are_an_error() {
    let mut fs = disk();
    put(&mut fs, b"/0", b"");
    for i in 1..=41u8 {
        let from = vec![b'/', b'0' + i];
        let to = vec![b'/', b'0' + i - 1];
        symlink(&mut fs, now(), &to, &from).unwrap();
    }
    assert_eq!(canonicalize(&fs, &[b'/', b'0' + 40]).unwrap().to_bytes(), b"/0");
    let r = canonicalize(&fs, &[b'/', b'0' + 41]);
    assert_eq!(r.err().unwrap().cause, Cause::TooManyLinks);
    assert!(path_exists(&fs, &[b'/', b'0' + 40]));
    assert!(!path_exists(&fs, &[b'/', b'0' + 41]));
}

#[test]
fn a_file_is_no_directory_to_create() {
    let mut fs = disk();
    put(&mut fs, b"/f", b"1");
    let e = create_dir_all(&mut fs, now(), b"/f").unwrap_err();
    assert_eq!(e.cause, Cause::EntryExists);
    assert!(create_dir_all(&mut fs, now(), b"/f/x").is_err());
    create_dir_all(&mut fs, now(), b"/a/b/c").unwrap();
    let before = metadata(&fs, b"/a/b").unwrap();
    create_dir_all(&mut fs, Duration::from_secs(5), b"/a/b/c").unwrap();
    assert!(before == metadata(&fs, b"/a/b").unwrap());
    let r = writer().open(&mut fs, now(), b"/a");
    assert_eq!(r.err().unwrap().cause, Cause::IsDirectory);
}

#[test]
fn overwritten_bytes_are_counted_once() {
    let mut config = FsConfig::default();
    config.capacity(100);
    let mut fs = Fs::new(config);
    let f = writer().open(&mut fs, now(), b"/f").unwrap();
    f.write_at(&mut fs, now(), &[1; 60], 0, 0, Chance::none()).unwrap();
    f.write_at(&mut fs, now(), &[2; 60], 0, 0, Chance::none()).unwrap();
    f.write_at(&mut fs, now(), &[3; 1], 0, 60, Chance::none()).unwrap();
    assert_eq!(fs.used_bytes(), 61);
    hard_link(&mut fs, now(), b"/f", b"/g").unwrap();
    assert_eq!(fs.used_bytes(), 61);
    let e = f.write_at(&mut fs, now(), &[4; 40], 0, 61, Chance::none()).unwrap_err();
    assert_eq!(e.cause, Cause::NoSpace);
    remove_file(&mut fs, now(), b"/f").unwrap();
    assert_eq!(fs.used_bytes(), 61);
    remove_file(&mut fs, now(), b"/g").unwrap();
    assert_eq!(fs.used_bytes(), 0);
}

#[test]
fn renames_and_links_survive_once_synced() {
    let mut fs = disk();
    create_dir(&mut fs, now(), b"/d").unwrap();
    put(&mut fs, b"/d/f", b"1");
    let f = writer().open(&mut fs, now(), b"/d/f").unwrap();
    f.sync_all(&mut fs).unwrap();
    sync_dir(&mut fs, now(), b"/d").unwrap();
    sync_dir(&mut fs, now(), b"/").unwrap();
    rename(&mut fs, now(), b"/d", b"/e").unwrap();
    fs.discard_pending(&mut rng());
    assert_eq!(get(&mut fs, b"/d/f"), b"1");
    rename(&mut fs, now(), b"/d", b"/e").unwrap();
    sync_dir(&mut fs, now(), b"/").unwrap();
    fs.discard_pending(&mut rng());
    assert!(!path_exists(&fs, b"/d"));
    assert_eq!(get(&mut fs, b"/e/f"), b"1");
}

#[test]
fn copies_share_nothing() {
    let mut fs = disk();
    put(&mut fs, b"/a", b"text");
    let (none, mut r) = (Chance::none(), rng());
    assert_eq!(copy(&mut fs, now(), b"/a", b"/b", none, none, &mut r).unwrap(), 4);
    put(&mut fs, b"/a", b"other");
    assert_eq!(read_to_string(&mut fs, b"/b", none, &mut r).unwrap(), "text");
    assert!(fs.has_descriptors(2));
}

#[test]
fn unsynced_data_of_a_synced_file_is_lost() {
    let mut fs = disk();
    put(&mut fs, b"/f", b"data");
    sync_dir(&mut fs, now(), b"/").unwrap();
    fs.discard_pending(&mut rng());
    assert_eq!(get(&mut fs, b"/f"), b"");
    fs.discard_pending(&mut rng());
    assert_eq!(get(&mut fs, b"/f"), b"");
}

#[test]
fn a_write_keeps_the_other_bytes() {
    let mut fs = disk();
    put(&mut fs, b"/f", b"abcdef");
    put(&mut fs, b"/g", b"other");
    let f = writer().open(&mut fs, now(), b"/f").unwrap();
    f.write_at(&mut fs, now(), b"XY", 0, 2, Chance::none()).unwrap();
    assert_eq!(get(&mut fs, b"/f"), b"abXYef");
    f.write_at(&mut fs, now(), b"Z", 0, 8, Chance::none()).unwrap();
    assert_eq!(get(&mut fs, b"/f"), b"abXYef\0\0Z");
    let mut buf = [0; 2];
    f.read_at(&fs, &mut buf, 0, 2, Chance::none(), &mut rng()).unwrap();
    assert_eq!(&buf, b"XY");
    assert_eq!(get(&mut fs, b"/g"), b"other");
}

#[test]
fn canonical_paths_are_their_own() {
    let mut fs = disk();
    create_dir_all(&mut fs, now(), b"/a/b").unwrap();
    symlink(&mut fs, now(), b"a/b", b"/l").unwrap();
    let p = canonicalize(&fs, b"l/./../b").unwrap().to_bytes();
    assert_eq!(p, b"/a/b");
    assert_eq!(canonicalize(&fs, &p).unwrap().to_bytes(), p);
    assert_eq!(canonicalize(&fs, b"/..").unwrap().to_bytes(), b"/");
}

#[test]
fn a_link_in_place_of_the_root_leads_nowhere() {
    let mut fs = disk();
    assert_eq!(canonicalize(&fs, b"/").unwrap().to_bytes(), b"/");
    remove_dir(&mut fs, now(), b"/").unwrap();
    assert!(canonicalize(&fs, b"/").is_err());
    symlink(&mut fs, now(), b"x", b"/").unwrap();
    assert!(canonicalize(&fs, b"/").is_err());
}

#[test]
fn whole_writes_go_through_both_names() {
    let mut fs = disk();
    put(&mut fs, b"/a", b"one");
    hard_link(&mut fs, now(), b"/a", b"/b").unwrap();
    assert_eq!(get(&mut fs, b"/b"), b"one");
    put(&mut fs, b"/b", b"second");
    assert_eq!(get(&mut fs, b"/a"), b"second");
    put(&mut fs, b"/a", b"3");
    assert_eq!(get(&mut fs, b"/b"), b"3");
}
