//! Alignment of unbuffered input and output.
use rand::rngs::SmallRng;
use rand::SeedableRng;
use turmoil::error::{Error, ErrorKind};
use turmoil::fs::config::FsConfig;
use turmoil::fs::file::{File, OpenOptions};
use turmoil::fs::state::Fs;
use turmoil::fs::std_fs::{create_dir_all, Chance};
use turmoil::time::Duration;

const TEST_PATH: &[u8] = b"/test/data.db";

fn now() -> Duration {
    Duration::from_secs(1)
}

fn disk(alignment: usize) -> Fs {
    let mut config = FsConfig::default();
    if alignment != 512 {
        config.direct_io_alignment(alignment);
    }
    let mut fs = Fs::new(config);
    create_dir_all(&mut fs, now(), b"/test").unwrap();
    fs
}

fn filled(alignment: usize) -> Fs {
    let mut fs = disk(alignment);
    let setup = OpenOptions::new()
        .write(true)
        .create(true)
        .open(&mut fs, now(), TEST_PATH)
        .unwrap();
    setup
        .write_at(&mut fs, now(), &[0xAB; 8192], 0, 0, Chance::none())
        .unwrap();
    setup.close(&mut fs);
    fs
}

fn direct(fs: &mut Fs, read: bool, write: bool) -> File {
    OpenOptions::new()
        .read(read)
        .write(write)
        .create(write)
        .direct_io(true)
        .open(fs, now(), TEST_PATH)
        .unwrap()
}

fn write_at(fs: &mut Fs, file: &File, len: usize, addr: usize, offset: u64) -> Result<usize, Error> {
    file.write_at(fs, now(), &vec![0; len], addr, offset, Chance::none())
}

fn read_at(fs: &Fs, file: &File, len: usize, addr: usize, offset: u64) -> Result<usize, Error> {
    let mut rng = SmallRng::seed_from_u64(1);
    let mut buf = vec![0; len];
    file.read_at(fs, &mut buf, addr, offset, Chance::none(), &mut rng)
        .map(|r| r.0)
}

#[test]
fn aligned_read_succeeds_default_512() {
    let mut fs = filled(512);
    let file = direct(&mut fs, true, false);
    assert_eq!(read_at(&fs, &file, 512, 512 * 9, 0).unwrap(), 512);
}

#[test]
fn aligned_write_succeeds_default_512() {
    let mut fs = disk(512);
    let file = direct(&mut fs, false, true);
    assert_eq!(write_at(&mut fs, &file, 512, 512 * 9, 0).unwrap(), 512);
}

#[test]
fn aligned_io_succeeds_4096() {
    let mut fs = filled(4096);
    let file = direct(&mut fs, true, true);
    assert_eq!(write_at(&mut fs, &file, 4096, 4096 * 3, 0).unwrap(), 4096);
    assert_eq!(read_at(&fs, &file, 4096, 4096 * 3, 0).unwrap(), 4096);
}

#[test]
fn misaligned_write_length_fails() {
    let mut fs = disk(512);
    let file = direct(&mut fs, false, true);
    // 100 bytes is not a multiple of 512
    let res = write_at(&mut fs, &file, 100, 512 * 9, 0);
    assert!(res.is_err(), "expected EINVAL for misaligned length");
    assert_eq!(res.unwrap_err().kind, ErrorKind::InvalidInput);
}

#[test]
fn misaligned_read_length_fails() {
    let mut fs = filled(512);
    let file = direct(&mut fs, true, false);
    let res = read_at(&fs, &file, 100, 512 * 9, 0);
    assert!(res.is_err(), "expected EINVAL for misaligned length");
}

#[test]
fn misaligned_write_offset_fails() {
    let mut fs = disk(512);
    let file = direct(&mut fs, false, true);
    let res = write_at(&mut fs, &file, 512, 512 * 9, 1); // offset not aligned
    assert!(res.is_err(), "expected EINVAL for misaligned offset");
}

#[test]
fn misaligned_read_offset_fails() {
    let mut fs = filled(512);
    let file = direct(&mut fs, true, false);
    let res = read_at(&fs, &file, 512, 512 * 9, 7); // offset not aligned
    assert!(res.is_err(), "expected EINVAL for misaligned offset");
}

#[test]
fn misaligned_buffer_pointer_fails() {
    let mut fs = disk(512);
    let file = direct(&mut fs, false, true);
    let res = write_at(&mut fs, &file, 512, 512 * 9 + 1, 0);
    assert!(
        res.is_err(),
        "expected EINVAL for misaligned buffer pointer"
    );
}

#[test]
fn non_direct_io_unaligned_succeeds() {
    let mut fs = disk(512);
    let file = OpenOptions::new()
        .read(true)
        .write(true)
        .create(true)
        .open(&mut fs, now(), TEST_PATH)
        .unwrap();

    // Unaligned length and offset - should succeed without direct_io.
    file.write_at(&mut fs, now(), b"hello", 1, 3, Chance::none()).unwrap();
    let mut buf = [0u8; 5];
    let mut rng = SmallRng::seed_from_u64(1);
    assert!(file.read_at(&fs, &mut buf, 1, 3, Chance::none(), &mut rng).is_ok());
    assert_eq!(&buf, b"hello");
}

#[test]
fn custom_alignment_rejects_512_buffer() {
    let mut fs = disk(4096);
    let file = direct(&mut fs, false, true);
    // 512 is aligned to 512 but not to 4096
    let res = write_at(&mut fs, &file, 512, 4096 * 3, 0);
    assert!(
        res.is_err(),
        "expected EINVAL: 512-byte buffer with 4096 alignment"
    );
}

#[test]
fn custom_alignment_rejects_misaligned_offset() {
    let mut fs = disk(4096);
    let file = direct(&mut fs, false, true);
    let res = write_at(&mut fs, &file, 4096, 4096 * 3, 512); // 512 not aligned to 4096
    assert!(
        res.is_err(),
        "expected EINVAL: offset 512 with 4096 alignment"
    );
}
