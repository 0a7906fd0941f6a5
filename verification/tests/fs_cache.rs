//! The page cache.
use rand::rngs::SmallRng;
use rand::SeedableRng;
use turmoil::fs::config::FsConfig;
use turmoil::fs::file::OpenOptions;
use turmoil::fs::state::Fs;
use turmoil::fs::std_fs::{create_dir, Chance};
use turmoil::fs::tokio_fs::{File, Pace};
use turmoil::time::Duration;

fn slow() -> FsConfig {
    let mut config = FsConfig::default();
    config
        .io_latency()
        .min_latency(Duration::from_millis(10))
        .max_latency(Duration::from_millis(10));
    config
}

fn pace() -> Pace {
    Pace { evict: false, scaled: Duration::zero() }
}

fn open(fs: &mut Fs, path: &[u8]) -> File {
    File::from_std(
        OpenOptions::new()
            .read(true)
            .write(true)
            .create(true)
            .open(fs, Duration::zero(), path)
            .unwrap(),
    )
}

fn write_at(fs: &mut Fs, file: &File, data: &[u8], offset: u64) -> Duration {
    let (r, latency) = file.write_at(fs, Duration::zero(), data, offset, Chance::none(), pace());
    assert_eq!(r.unwrap(), data.len());
    latency
}

fn read_at(fs: &mut Fs, file: &File, buf: &mut [u8], offset: u64, pace: Pace) -> Duration {
    let mut rng = SmallRng::seed_from_u64(1);
    let (r, latency) = file.read_at(fs, buf, offset, Chance::none(), pace, &mut rng);
    assert!(r.is_ok());
    latency
}

fn millis(d: Duration) -> u128 {
    d.nanos / 1_000_000
}

#[test]
fn cache_hit_reduces_latency() {
    let mut config = slow();
    config.page_cache();
    let mut fs = Fs::new(config);
    create_dir(&mut fs, Duration::zero(), b"/data").unwrap();

    // Write populates cache
    let file = open(&mut fs, b"/data/file.txt");
    write_at(&mut fs, &file, b"hello world", 0);

    // Read should hit cache - much faster than 10ms
    let mut buf = [0u8; 11];
    let elapsed = read_at(&mut fs, &file, &mut buf, 0, pace());
    assert!(millis(elapsed) < 5, "cache hit should be fast, got {:?}", elapsed);
    assert_eq!(&buf, b"hello world");
}

#[test]
fn no_cache_full_latency() {
    let mut fs = Fs::new(slow());
    create_dir(&mut fs, Duration::zero(), b"/data").unwrap();
    let file = open(&mut fs, b"/data/file.txt");
    write_at(&mut fs, &file, b"hello", 0);

    // Without cache, reads always have full latency
    let mut buf = [0u8; 5];
    let elapsed = read_at(&mut fs, &file, &mut buf, 0, pace());
    assert!(
        millis(elapsed) >= 10,
        "without cache, read should have full latency, got {:?}",
        elapsed
    );
}

#[test]
fn random_eviction_chaos() {
    let mut config = slow();
    config.page_cache();
    let mut fs = Fs::new(config);
    create_dir(&mut fs, Duration::zero(), b"/data").unwrap();
    let file = open(&mut fs, b"/data/file.txt");
    write_at(&mut fs, &file, b"hello", 0);

    // With 100% random eviction, reads should always miss cache
    let mut buf = [0u8; 5];
    let evicting = Pace { evict: true, scaled: Duration::zero() };
    let elapsed = read_at(&mut fs, &file, &mut buf, 0, evicting);
    assert!(
        millis(elapsed) >= 10,
        "with 100% eviction, read should have full latency, got {:?}",
        elapsed
    );
}

#[test]
fn direct_io_bypasses_cache() {
    let mut config = slow();
    config.page_cache();
    let mut fs = Fs::new(config);
    create_dir(&mut fs, Duration::zero(), b"/data").unwrap();

    // Write with normal I/O (populates cache)
    let normal_file = open(&mut fs, b"/data/file.txt");
    write_at(&mut fs, &normal_file, b"hello", 0);

    // Open with direct_io - should bypass cache
    let direct_file = File::from_std(
        OpenOptions::new()
            .read(true)
            .direct_io(true)
            .open(&mut fs, Duration::zero(), b"/data/file.txt")
            .unwrap(),
    );

    // Read with direct_io should have full latency even though data is cached
    let mut buf = [0u8; 5];
    let elapsed = read_at(&mut fs, &direct_file, &mut buf, 0, pace());
    assert!(
        millis(elapsed) >= 10,
        "direct_io should bypass cache and have full latency, got {:?}",
        elapsed
    );
    assert_eq!(&buf, b"hello");
}

#[test]
fn lru_eviction() {
    let mut config = slow();
    config.page_cache().max_pages(2); // Very small cache
    let mut fs = Fs::new(config);
    create_dir(&mut fs, Duration::zero(), b"/data").unwrap();
    let file = open(&mut fs, b"/data/file.txt");

    // Write to 3 different pages (cache only holds 2)
    write_at(&mut fs, &file, b"page0", 0); // Page 0
    write_at(&mut fs, &file, b"page1", 4096); // Page 1
    write_at(&mut fs, &file, b"page2", 8192); // Page 2 - evicts page 0

    // Page 0 should have been evicted (LRU)
    let mut buf = [0u8; 5];
    let elapsed = read_at(&mut fs, &file, &mut buf, 0, pace());
    assert!(
        millis(elapsed) >= 10,
        "evicted page should have full latency, got {:?}",
        elapsed
    );

    // Page 2 should still be cached
    let elapsed = read_at(&mut fs, &file, &mut buf, 8192, pace());
    assert!(
        millis(elapsed) < 5,
        "cached page should be fast, got {:?}",
        elapsed
    );
}

#[test]
fn cache_multiple_files() {
    let mut config = slow();
    config.page_cache();
    let mut fs = Fs::new(config);
    create_dir(&mut fs, Duration::zero(), b"/data").unwrap();

    // Write to two different files
    let file1 = open(&mut fs, b"/data/file1.txt");
    let file2 = open(&mut fs, b"/data/file2.txt");
    write_at(&mut fs, &file1, b"file1", 0);
    write_at(&mut fs, &file2, b"file2", 0);

    // Both should be cached
    let mut buf = [0u8; 5];
    let elapsed = read_at(&mut fs, &file1, &mut buf, 0, pace())
        .plus(read_at(&mut fs, &file2, &mut buf, 0, pace()));
    assert!(
        millis(elapsed) < 5,
        "both files should be cached, got {:?}",
        elapsed
    );
}

#[test]
fn reading_keeps_a_page_in_the_cache() {
    let mut config = slow();
    config.page_cache().max_pages(2);
    let mut fs = Fs::new(config);
    let file = open(&mut fs, b"/f");
    write_at(&mut fs, &file, b"a", 0);
    write_at(&mut fs, &file, b"b", 4096);
    let mut buf = [0u8; 1];
    // Page 0 is used again, so page 1 is the one that leaves.
    assert!(millis(read_at(&mut fs, &file, &mut buf, 0, pace())) < 5);
    write_at(&mut fs, &file, b"c", 8192);
    assert!(millis(read_at(&mut fs, &file, &mut buf, 0, pace())) < 5);
    assert!(millis(read_at(&mut fs, &file, &mut buf, 4096, pace())) >= 10);
}

#[test]
fn hits_take_a_tenth_of_a_microsecond() {
    let mut config = slow();
    config.page_cache();
    let mut fs = Fs::new(config);
    let file = open(&mut fs, b"/f");
    assert_eq!(write_at(&mut fs, &file, b"a", 0), Duration::from_millis(10));
    let mut buf = [0u8; 1];
    assert_eq!(
        read_at(&mut fs, &file, &mut buf, 0, pace()),
        Duration::from_nanos(100)
    );
    let (r, latency) = file.sync_all(&mut fs, pace());
    assert!(r.is_ok());
    assert_eq!(latency, Duration::from_millis(10));
}
