//! Symbolic links and hard links.
use rand::rngs::SmallRng;
use rand::SeedableRng;
use std::collections::HashSet;
use turmoil::error::Cause;
use turmoil::fs::config::FsConfig;
use turmoil::fs::file::read;
use turmoil::fs::state::Fs;
use turmoil::fs::std_fs::{
    create_dir, hard_link, metadata, path_exists, read_dir, read_link, remove_dir, remove_file,
    rename, symlink, symlink_metadata, Chance,
};
use turmoil::fs::tree::{canonicalize, remove_dir_all};
use turmoil::time::Duration;

fn disk() -> Fs {
    Fs::new(FsConfig::default())
}

fn now() -> Duration {
    Duration::from_secs(1)
}

fn put(fs: &mut Fs, path: &[u8], data: &[u8]) {
    turmoil::fs::file::write(fs, now(), path, data, Chance::none()).unwrap();
}

fn get(fs: &mut Fs, path: &[u8]) -> Vec<u8> {
    read(fs, path, Chance::none(), &mut SmallRng::seed_from_u64(1)).unwrap()
}

#[test]
fn canonicalize_normalizes_path() {
    let mut fs = disk();
    create_dir(&mut fs, now(), b"/data").unwrap();
    put(&mut fs, b"/data/file.txt", b"hello");
    assert_eq!(
        canonicalize(&fs, b"/data/./file.txt").unwrap().to_bytes(),
        b"/data/file.txt"
    );
    assert_eq!(
        canonicalize(&fs, b"/data/../data/file.txt").unwrap().to_bytes(),
        b"/data/file.txt"
    );
}

#[test]
fn canonicalize_resolves_symlinks() {
    let mut fs = disk();
    create_dir(&mut fs, now(), b"/data").unwrap();
    put(&mut fs, b"/data/real_file.txt", b"hello");
    symlink(&mut fs, now(), b"/data/real_file.txt", b"/link_to_file").unwrap();
    assert_eq!(
        canonicalize(&fs, b"/link_to_file").unwrap().to_bytes(),
        b"/data/real_file.txt"
    );
}

#[test]
fn hard_link_basic() {
    let mut fs = disk();
    create_dir(&mut fs, now(), b"/data").unwrap();
    put(&mut fs, b"/data/original.txt", b"hardlink test");
    hard_link(&mut fs, now(), b"/data/original.txt", b"/data/link.txt").unwrap();
    assert!(metadata(&fs, b"/data/link.txt").is_ok());
    assert_eq!(get(&mut fs, b"/data/link.txt"), b"hardlink test");
}

#[test]
fn rename_file_not_dir_or_symlink() {
    let mut fs = disk();
    put(&mut fs, b"/src.txt", b"data");
    rename(&mut fs, now(), b"/src.txt", b"/dst.txt").unwrap();
    remove_file(&mut fs, now(), b"/dst.txt").unwrap();
    assert!(
        metadata(&fs, b"/dst.txt").is_err(),
        "file should not exist after remove"
    );
}

#[test]
fn remove_symlink() {
    let mut fs = disk();
    create_dir(&mut fs, now(), b"/data").unwrap();
    put(&mut fs, b"/data/target.txt", b"hello");
    symlink(&mut fs, now(), b"/data/target.txt", b"/link").unwrap();

    // Symlink exists
    assert!(symlink_metadata(&fs, b"/link").is_ok());
    assert!(symlink_metadata(&fs, b"/link").unwrap().is_symlink());

    // Remove the symlink
    remove_file(&mut fs, now(), b"/link").unwrap();

    // Symlink should no longer exist
    assert!(symlink_metadata(&fs, b"/link").is_err());

    // But target still exists
    assert!(path_exists(&fs, b"/data/target.txt"));
}

#[test]
fn rmdir_fails_with_symlink() {
    let mut fs = disk();
    create_dir(&mut fs, now(), b"/data").unwrap();
    symlink(&mut fs, now(), b"/nonexistent", b"/data/link").unwrap();

    // Should fail because directory contains a symlink
    let e = remove_dir(&mut fs, now(), b"/data").unwrap_err();
    assert_eq!(e.cause, Cause::DirectoryNotEmpty);
}

#[test]
fn hard_link_nlink_count() {
    let mut fs = disk();
    create_dir(&mut fs, now(), b"/data").unwrap();
    put(&mut fs, b"/data/original.txt", b"test");

    // Original file starts with nlink=1
    let meta = metadata(&fs, b"/data/original.txt").unwrap();
    assert_eq!(meta.nlink(), 1);

    // After creating hard link, both should have nlink=2
    hard_link(&mut fs, now(), b"/data/original.txt", b"/data/link.txt").unwrap();
    let orig_meta = metadata(&fs, b"/data/original.txt").unwrap();
    let link_meta = metadata(&fs, b"/data/link.txt").unwrap();
    assert_eq!(orig_meta.nlink(), 2);
    assert_eq!(link_meta.nlink(), 2);
}

#[test]
fn symlinks_in_read_dir() {
    let mut fs = disk();
    create_dir(&mut fs, now(), b"/data").unwrap();
    put(&mut fs, b"/data/file.txt", b"hello");
    symlink(&mut fs, now(), b"/data/file.txt", b"/data/link").unwrap();

    // Read directory entries
    let mut dir = read_dir(&fs, b"/data").unwrap();
    let mut names: HashSet<Vec<u8>> = HashSet::new();
    while let Some(entry) = dir.next_entry() {
        names.insert(entry.file_name());
    }

    // Both file and symlink should appear
    assert!(names.contains(&b"file.txt".to_vec()), "file.txt should be in listing");
    assert!(names.contains(&b"link".to_vec()), "symlink should be in listing");
    assert_eq!(names.len(), 2);
}

#[test]
fn rename_symlink() {
    let mut fs = disk();
    create_dir(&mut fs, now(), b"/data").unwrap();
    put(&mut fs, b"/data/target.txt", b"hello");
    symlink(&mut fs, now(), b"/data/target.txt", b"/data/link").unwrap();

    // Rename the symlink
    rename(&mut fs, now(), b"/data/link", b"/data/renamed_link").unwrap();

    // Old name should not exist
    assert!(symlink_metadata(&fs, b"/data/link").is_err());

    // New name should be a symlink
    let meta = symlink_metadata(&fs, b"/data/renamed_link").unwrap();
    assert!(meta.is_symlink());

    // Should still point to the target
    assert_eq!(get(&mut fs, b"/data/renamed_link"), b"hello");
}

#[test]
fn symlink_cycle_detected() {
    let mut fs = disk();
    // Create a direct cycle: link1 -> link2 -> link1
    symlink(&mut fs, now(), b"/link2", b"/link1").unwrap();
    symlink(&mut fs, now(), b"/link1", b"/link2").unwrap();

    // canonicalize should detect the cycle and return an error
    let result = canonicalize(&fs, b"/link1");
    assert!(result.is_err(), "symlink cycle should be detected");
    assert_eq!(result.err().unwrap().cause, Cause::LinkLoop);
}

#[test]
fn symlink_chain_limit() {
    let mut fs = disk();
    // Create a chain that eventually resolves
    create_dir(&mut fs, now(), b"/data").unwrap();
    put(&mut fs, b"/data/file.txt", b"hello");

    // Create chain: /chain3 -> /chain2 -> /chain1 -> /data/file.txt
    symlink(&mut fs, now(), b"/data/file.txt", b"/chain1").unwrap();
    symlink(&mut fs, now(), b"/chain1", b"/chain2").unwrap();
    symlink(&mut fs, now(), b"/chain2", b"/chain3").unwrap();

    // Should resolve successfully
    let result = canonicalize(&fs, b"/chain3").unwrap();
    assert_eq!(result.to_bytes(), b"/data/file.txt");
}

#[test]
fn symlink_reads_back() {
    let mut fs = disk();
    symlink(&mut fs, now(), b"../elsewhere", b"/link").unwrap();
    assert_eq!(read_link(&fs, b"/link").unwrap(), b"../elsewhere");
    let e = symlink(&mut fs, now(), b"/x", b"/link").unwrap_err();
    assert_eq!(e.cause, Cause::EntryExists);
}

#[test]
fn a_tree_is_removed_whole() {
    let mut fs = disk();
    create_dir(&mut fs, now(), b"/a").unwrap();
    create_dir(&mut fs, now(), b"/a/b").unwrap();
    put(&mut fs, b"/a/b/f", b"1");
    symlink(&mut fs, now(), b"/a/b/f", b"/a/l").unwrap();
    put(&mut fs, b"/other", b"2");
    remove_dir_all(&mut fs, now(), b"/a").unwrap();
    assert!(!path_exists(&fs, b"/a"));
    assert!(!path_exists(&fs, b"/a/b/f"));
    assert!(path_exists(&fs, b"/other"));
    let e = remove_dir_all(&mut fs, now(), b"/a").unwrap_err();
    assert_eq!(e.cause, Cause::DirectoryNotFound);
}

#[test]
fn paths_read_back() {
    let path = turmoil::path::PathBuf::new(b"/a//b/./c/../d/");
    assert_eq!(path.to_bytes(), b"/a/b/c/../d");
    let again = turmoil::path::PathBuf::new(&path.to_bytes());
    assert!(again.same(&path));
    assert_eq!(turmoil::path::PathBuf::new(b"relative").to_bytes(), b"/relative");
}

#[test]
fn names_of_a_file_can_be_made_in_turn() {
    let mut fs = disk();
    put(&mut fs, b"/a", b"1");
    hard_link(&mut fs, now(), b"/a", b"/c").unwrap();
    remove_file(&mut fs, now(), b"/a").unwrap();
    hard_link(&mut fs, now(), b"/c", b"/a").unwrap();
    put(&mut fs, b"/a", b"22");
    assert_eq!(get(&mut fs, b"/c"), b"22");
    assert_eq!(metadata(&fs, b"/c").unwrap().nlink(), 2);
}
