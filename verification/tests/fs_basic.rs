//! Basic operations on files.
use rand::rngs::SmallRng;
use rand::SeedableRng;
use turmoil::error::{Cause, ErrorKind};
use turmoil::fs::config::FsConfig;
use turmoil::fs::file::{copy, read, read_to_string, File, OpenOptions, SeekFrom};
use turmoil::fs::state::Fs;
use turmoil::fs::std_fs::{create_dir, create_dir_all, Chance};
use turmoil::time::Duration;

const TEST_PATH: &[u8] = b"/test/data.db";

fn disk() -> Fs {
    Fs::new(FsConfig::default())
}

fn now() -> Duration {
    Duration::from_secs(1)
}

fn rng() -> SmallRng {
    SmallRng::seed_from_u64(7)
}

fn read_write(fs: &mut Fs, path: &[u8]) -> File {
    OpenOptions::new()
        .read(true)
        .write(true)
        .create(true)
        .open(fs, now(), path)
        .unwrap()
}

fn put(fs: &mut Fs, file: &File, data: &[u8], offset: u64) {
    let n = file.write_at(fs, now(), data, 0, offset, Chance::none()).unwrap();
    assert_eq!(n, data.len());
}

fn get(fs: &Fs, file: &File, buf: &mut [u8], offset: u64) -> usize {
    let (n, wrong) = file
        .read_at(fs, buf, 0, offset, Chance::none(), &mut rng())
        .unwrap();
    assert!(wrong.is_none());
    n
}

#[test]
fn basic_read_write() {
    let mut fs = disk();
    create_dir_all(&mut fs, now(), b"/test").unwrap();
    let file = read_write(&mut fs, TEST_PATH);
    put(&mut fs, &file, b"hello world", 0);
    let mut buf = [0u8; 11];
    let n = get(&fs, &file, &mut buf, 0);
    assert_eq!(n, 11);
    assert_eq!(&buf, b"hello world");
}

#[test]
fn write_at_offset() {
    let mut fs = disk();
    create_dir_all(&mut fs, now(), b"/test").unwrap();
    let file = read_write(&mut fs, TEST_PATH);
    put(&mut fs, &file, b"at offset", 100);
    let mut buf = [0u8; 9];
    get(&fs, &file, &mut buf, 100);
    assert_eq!(&buf, b"at offset");
}

#[test]
fn set_len_truncate() {
    let mut fs = disk();
    create_dir_all(&mut fs, now(), b"/test").unwrap();
    let file = read_write(&mut fs, TEST_PATH);
    put(&mut fs, &file, b"0123456789", 0);
    file.sync_all(&mut fs).unwrap();
    file.set_len(&mut fs, now(), 5, Chance::none()).unwrap();
    assert_eq!(file.metadata(&fs).unwrap().len(), 5);
}

#[test]
fn multiple_files() {
    let mut fs = disk();
    let f1 = read_write(&mut fs, b"/file1");
    let f2 = read_write(&mut fs, b"/file2");
    put(&mut fs, &f1, b"file one", 0);
    put(&mut fs, &f2, b"file two", 0);
    let mut b1 = [0u8; 8];
    let mut b2 = [0u8; 8];
    get(&fs, &f1, &mut b1, 0);
    get(&fs, &f2, &mut b2, 0);
    assert_eq!(&b1, b"file one");
    assert_eq!(&b2, b"file two");
}

#[test]
fn read_write_convenience() {
    let mut fs = disk();
    create_dir(&mut fs, now(), b"/data").unwrap();
    turmoil::fs::file::write(&mut fs, now(), b"/data/file.txt", b"hello world", Chance::none()).unwrap();
    assert_eq!(
        read(&mut fs, b"/data/file.txt", Chance::none(), &mut rng()).unwrap(),
        b"hello world"
    );
    assert_eq!(
        read_to_string(&mut fs, b"/data/file.txt", Chance::none(), &mut rng()).unwrap(),
        "hello world"
    );
}

#[test]
fn copy_file() {
    let mut fs = disk();
    create_dir(&mut fs, now(), b"/data").unwrap();
    turmoil::fs::file::write(&mut fs, now(), b"/data/source.txt", b"copy me", Chance::none()).unwrap();
    let bytes = copy(
        &mut fs,
        now(),
        b"/data/source.txt",
        b"/data/dest.txt",
        Chance::none(),
        Chance::none(),
        &mut rng(),
    )
    .unwrap();
    assert_eq!(bytes, 7);
    assert_eq!(
        read(&mut fs, b"/data/dest.txt", Chance::none(), &mut rng()).unwrap(),
        b"copy me"
    );
}

#[test]
fn set_len_extend() {
    let mut fs = disk();
    create_dir_all(&mut fs, now(), b"/test").unwrap();
    let file = read_write(&mut fs, b"/test/data.db");
    file.set_len(&mut fs, now(), 100, Chance::none()).unwrap();
    assert_eq!(file.metadata(&fs).unwrap().len(), 100);
    let mut buf = [0xffu8; 100];
    get(&fs, &file, &mut buf, 0);
    assert!(buf.iter().all(|&b| b == 0));
}

#[test]
fn open_options_create_new() {
    let mut fs = disk();
    create_dir_all(&mut fs, now(), b"/test").unwrap();
    let _file = OpenOptions::new()
        .read(true)
        .write(true)
        .create_new(true)
        .open(&mut fs, now(), TEST_PATH)
        .unwrap();
    let result = OpenOptions::new()
        .read(true)
        .write(true)
        .create_new(true)
        .open(&mut fs, now(), TEST_PATH);
    assert!(result.is_err());
    assert_eq!(result.unwrap_err().kind, ErrorKind::AlreadyExists);
}

#[test]
fn open_options_truncate() {
    let mut fs = disk();
    create_dir_all(&mut fs, now(), b"/test").unwrap();
    let file = read_write(&mut fs, TEST_PATH);
    put(&mut fs, &file, b"existing data", 0);
    file.sync_all(&mut fs).unwrap();
    file.close(&mut fs);
    let file = OpenOptions::new()
        .write(true)
        .truncate(true)
        .open(&mut fs, now(), TEST_PATH)
        .unwrap();
    assert_eq!(file.metadata(&fs).unwrap().len(), 0);
}

#[test]
fn read_exact_at() {
    let mut fs = disk();
    create_dir_all(&mut fs, now(), b"/test").unwrap();
    let file = read_write(&mut fs, TEST_PATH);
    put(&mut fs, &file, b"exact read test", 0);
    let mut buf = [0u8; 15];
    file.read_exact_at(&fs, &mut buf, 0, 0, Chance::none(), &mut rng())
        .unwrap();
    assert_eq!(&buf, b"exact read test");
    let mut buf2 = [0u8; 100];
    let r = file.read_exact_at(&fs, &mut buf2, 0, 0, Chance::none(), &mut rng());
    assert!(r.is_err());
    assert_eq!(r.unwrap_err().kind, ErrorKind::UnexpectedEof);
}

#[test]
fn overlapping_writes() {
    let mut fs = disk();
    create_dir_all(&mut fs, now(), b"/test").unwrap();
    let file = read_write(&mut fs, TEST_PATH);
    put(&mut fs, &file, &[b'A'; 10], 0);
    put(&mut fs, &file, &[b'B'; 3], 3);
    let mut buf = [0u8; 10];
    get(&fs, &file, &mut buf, 0);
    assert_eq!(&buf, b"AAABBBAAAA");
}

#[test]
fn cursor_based_io() {
    let mut fs = disk();
    create_dir(&mut fs, now(), b"/data").unwrap();
    let mut file = read_write(&mut fs, b"/data/file.txt");
    file.write(&mut fs, now(), b"hello world", 0, Chance::none())
        .unwrap();
    file.seek(&fs, SeekFrom::Start(0)).unwrap();
    let mut buf = [0u8; 11];
    let (n, _) = file.read(&fs, &mut buf, 0, Chance::none(), &mut rng()).unwrap();
    assert_eq!(n, 11);
    assert_eq!(&buf, b"hello world");
    file.seek(&fs, SeekFrom::End(-5)).unwrap();
    let mut buf2 = [0u8; 5];
    let (n, _) = file.read(&fs, &mut buf2, 0, Chance::none(), &mut rng()).unwrap();
    assert_eq!(n, 5);
    assert_eq!(&buf2, b"world");
}

#[test]
fn append_mode() {
    let mut fs = disk();
    create_dir(&mut fs, now(), b"/data").unwrap();
    let file = OpenOptions::new()
        .write(true)
        .create(true)
        .open(&mut fs, now(), b"/data/log.txt")
        .unwrap();
    put(&mut fs, &file, b"line1\n", 0);
    file.sync_all(&mut fs).unwrap();
    file.close(&mut fs);
    let mut file = OpenOptions::new()
        .append(true)
        .open(&mut fs, now(), b"/data/log.txt")
        .unwrap();
    file.write(&mut fs, now(), b"line2\n", 0, Chance::none()).unwrap();
    file.close(&mut fs);
    let file = OpenOptions::new()
        .read(true)
        .open(&mut fs, now(), b"/data/log.txt")
        .unwrap();
    let mut buf = [0u8; 12];
    file.read_exact_at(&fs, &mut buf, 0, 0, Chance::none(), &mut rng())
        .unwrap();
    assert_eq!(&buf, b"line1\nline2\n");
}

#[test]
fn file_try_clone() {
    let mut fs = disk();
    create_dir(&mut fs, now(), b"/data").unwrap();
    let file1 = read_write(&mut fs, b"/data/file.txt");
    put(&mut fs, &file1, b"hello world", 0);
    let file2 = file1.try_clone(&mut fs).unwrap();
    let mut buf = [0u8; 5];
    get(&fs, &file2, &mut buf, 6);
    assert_eq!(&buf, b"world");
    put(&mut fs, &file2, b"HELLO", 0);
    let mut buf2 = [0u8; 5];
    get(&fs, &file1, &mut buf2, 0);
    assert_eq!(&buf2, b"HELLO");
}

#[test]
fn per_host_isolation() {
    let mut host1 = disk();
    let mut host2 = disk();
    create_dir_all(&mut host1, now(), b"/shared").unwrap();
    turmoil::fs::file::write(&mut host1, now(), b"/shared/data", b"from host1", Chance::none()).unwrap();
    create_dir_all(&mut host2, now(), b"/shared").unwrap();
    turmoil::fs::file::write(&mut host2, now(), b"/shared/data", b"from host2", Chance::none()).unwrap();
    assert_eq!(
        read(&mut host2, b"/shared/data", Chance::none(), &mut rng()).unwrap(),
        b"from host2"
    );
    assert_eq!(
        read(&mut host1, b"/shared/data", Chance::none(), &mut rng()).unwrap(),
        b"from host1"
    );
}

#[test]
fn permissions_of_the_handle() {
    let mut fs = disk();
    let file = OpenOptions::new()
        .write(true)
        .create(true)
        .open(&mut fs, now(), b"/f")
        .unwrap();
    let mut buf = [0u8; 1];
    let e = file
        .read_at(&fs, &mut buf, 0, 0, Chance::none(), &mut rng())
        .err()
        .unwrap();
    assert_eq!(e.kind, ErrorKind::PermissionDenied);
    assert_eq!(e.cause, Cause::NotReadable);
    assert_eq!(e.message(), "file not opened for reading");
    let file = OpenOptions::new()
        .read(true)
        .open(&mut fs, now(), b"/f")
        .unwrap();
    let e = file
        .write_at(&mut fs, now(), b"x", 0, 0, Chance::none())
        .unwrap_err();
    assert_eq!(e.kind, ErrorKind::PermissionDenied);
    assert_eq!(e.cause, Cause::NotWritable);
    let e = file.set_len(&mut fs, now(), 3, Chance::none()).unwrap_err();
    assert_eq!(e.cause, Cause::NotWritable);
}

#[test]
fn a_failing_disk_changes_nothing() {
    let mut fs = disk();
    let file = read_write(&mut fs, b"/f");
    put(&mut fs, &file, b"abc", 0);
    let failing = Chance { io_error: true, corrupt: false, sync: false };
    let mut buf = [9u8; 3];
    let e = file.read_at(&fs, &mut buf, 0, 0, failing, &mut rng()).err().unwrap();
    assert_eq!(e.cause, Cause::Io);
    assert_eq!(buf, [9u8; 3]);
    let e = file.write_at(&mut fs, now(), b"x", 0, 0, failing).unwrap_err();
    assert_eq!(e.kind, ErrorKind::Other);
    get(&fs, &file, &mut buf, 0);
    assert_eq!(&buf, b"abc");
}

#[test]
fn corruption_changes_one_byte() {
    let mut fs = disk();
    let file = read_write(&mut fs, b"/f");
    put(&mut fs, &file, b"abcdef", 0);
    let corrupting = Chance { io_error: false, corrupt: true, sync: false };
    let mut buf = [0u8; 6];
    let (n, what) = file
        .read_at(&fs, &mut buf, 0, 0, corrupting, &mut rng())
        .unwrap_or_else(|_| panic!("read failed"));
    assert_eq!(n, 6);
    let what = what.unwrap();
    assert_eq!(what.len, 1);
    assert!(what.offset < 6);
    assert_eq!(what.path.to_bytes(), b"/f");
    let wrong: Vec<usize> = (0..6).filter(|&i| buf[i] != b"abcdef"[i]).collect();
    assert_eq!(wrong, vec![what.offset as usize]);
}

#[test]
fn not_text() {
    let mut fs = disk();
    turmoil::fs::file::write(&mut fs, now(), b"/f", &[0xff, 0xfe], Chance::none()).unwrap();
    let e = read_to_string(&mut fs, b"/f", Chance::none(), &mut rng()).unwrap_err();
    assert_eq!(e.kind, ErrorKind::InvalidData);
    assert_eq!(e.cause, Cause::NotUtf8);
}

#[test]
fn closed_handle_and_negative_seek() {
    let mut fs = disk();
    let mut file = read_write(&mut fs, b"/f");
    let e = file.seek(&fs, SeekFrom::Current(-1)).unwrap_err();
    assert_eq!(e.kind, ErrorKind::InvalidInput);
    assert_eq!(e.cause, Cause::NegativeSeek);
    let again = file.try_clone(&mut fs).unwrap();
    let copy = File {
        fd: again.fd,
        readable: true,
        writable: true,
        append_mode: false,
        direct_io: false,
        cursor: 0,
    };
    again.close(&mut fs);
    let e = copy.sync_all(&mut fs).unwrap_err();
    assert_eq!(e.kind, ErrorKind::NotFound);
    assert_eq!(e.cause, Cause::HandleNotFound);
}
