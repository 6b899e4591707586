use ntfs_reader::file_info::FileInfo;
use ntfs_reader::cache::{FileInfoCache, HashMapCache, VecCache};
use ntfs_reader::mft::{FileNameAttribute, Mft, NtfsFile, Volume};

const ROOT: u64 = 0;

fn record(number: u64, name: &str, parent: u64) -> NtfsFile {
    NtfsFile {
        number,
        sequence_value: 1,
        is_directory: false,
        file_name: Some(FileNameAttribute { name: String::from(name), parent }),
        attributes: Vec::new(),
    }
}

fn nameless(number: u64) -> NtfsFile {
    NtfsFile {
        number,
        sequence_value: 1,
        is_directory: false,
        file_name: None,
        attributes: Vec::new(),
    }
}

fn sample_table() -> Mft {
    let mut mft = Mft::new(Volume { path: String::from("C:\\") }, ROOT);
    mft.add_record(record(5, "Users", ROOT));
    mft.add_record(record(9, "kiki", 5));
    mft.add_record(record(42, "mmp-test.txt", 9));
    mft
}

#[test]
fn three_level_chain_resolves_uncached() {
    let mft = sample_table();
    let file = record(42, "mmp-test.txt", 9);
    let info = FileInfo::new(&mft, &file);
    assert_eq!(info.name, "mmp-test.txt");
    assert_eq!(info.path, "C:\\Users\\kiki\\mmp-test.txt");
}

#[test]
fn three_level_chain_resolves_with_cache_and_fills_it() {
    let mft = sample_table();
    let file = record(42, "mmp-test.txt", 9);
    let mut cache = HashMapCache::new();
    let info = FileInfo::with_cache(&mft, &file, &mut cache);
    assert_eq!(info.path, "C:\\Users\\kiki\\mmp-test.txt");
    assert_eq!(cache.get(5).map(|p| p.as_str()), Some("C:\\Users"));
    assert_eq!(cache.get(9).map(|p| p.as_str()), Some("C:\\Users\\kiki"));
    assert_eq!(cache.get(42).map(|p| p.as_str()), Some("C:\\Users\\kiki\\mmp-test.txt"));
}

#[test]
fn dense_cache_resolves_like_sparse_cache() {
    let mft = sample_table();
    let file = record(42, "mmp-test.txt", 9);
    let mut cache = VecCache::new();
    let info = FileInfo::with_cache(&mft, &file, &mut cache);
    assert_eq!(info.path, "C:\\Users\\kiki\\mmp-test.txt");
    assert_eq!(cache.get(5).map(|p| p.as_str()), Some("C:\\Users"));
    assert_eq!(cache.get(9).map(|p| p.as_str()), Some("C:\\Users\\kiki"));
}

#[test]
fn record_without_name_yields_empty_name_and_path() {
    let mut mft = sample_table();
    mft.add_record(nameless(7));
    let file = nameless(7);
    let info = FileInfo::new(&mft, &file);
    assert_eq!(info.name, "");
    assert_eq!(info.path, "");
}

#[test]
fn missing_ancestor_yields_name_but_empty_path() {
    let mut mft = sample_table();
    mft.add_record(record(8, "orphan.txt", 99));
    let file = record(8, "orphan.txt", 99);
    let info = FileInfo::new(&mft, &file);
    assert_eq!(info.name, "orphan.txt");
    assert_eq!(info.path, "");
}

#[test]
fn nameless_ancestor_yields_name_but_empty_path() {
    let mut mft = sample_table();
    mft.add_record(nameless(70));
    mft.add_record(record(71, "under-nameless.txt", 70));
    let file = record(71, "under-nameless.txt", 70);
    let info = FileInfo::new(&mft, &file);
    assert_eq!(info.name, "under-nameless.txt");
    assert_eq!(info.path, "");
}

#[test]
fn record_in_root_gets_root_path_prefix() {
    let mut mft = sample_table();
    mft.add_record(record(3, "pagefile.sys", ROOT));
    let file = record(3, "pagefile.sys", ROOT);
    let info = FileInfo::new(&mft, &file);
    assert_eq!(info.path, "C:\\pagefile.sys");
}

#[test]
fn volume_path_without_trailing_separator_gets_one() {
    let mut mft = Mft::new(Volume { path: String::from("D:") }, ROOT);
    mft.add_record(record(3, "a.txt", ROOT));
    let file = record(3, "a.txt", ROOT);
    let info = FileInfo::new(&mft, &file);
    assert_eq!(info.path, "D:\\a.txt");
}

#[test]
fn empty_volume_path_yields_relative_path() {
    let mut mft = Mft::new(Volume { path: String::new() }, ROOT);
    mft.add_record(record(3, "a.txt", ROOT));
    let file = record(3, "a.txt", ROOT);
    let info = FileInfo::new(&mft, &file);
    assert_eq!(info.path, "a.txt");
}

#[test]
fn parent_cycle_yields_name_but_empty_path() {
    // Records 1 and 2 reference each other and never reach the root: the
    // walk gives up after as many steps as the table has records.
    let mut mft = sample_table();
    mft.add_record(record(1, "ping", 2));
    mft.add_record(record(2, "pong", 1));
    let file = record(1, "ping", 2);
    let info = FileInfo::new(&mft, &file);
    assert_eq!(info.name, "ping");
    assert_eq!(info.path, "");
    let mut cache = HashMapCache::new();
    let cached = FileInfo::with_cache(&mft, &file, &mut cache);
    assert_eq!(cached.name, "ping");
    assert_eq!(cached.path, "");
    assert!(cache.get(1).is_none());
    assert!(cache.get(2).is_none());
}

#[test]
fn cached_and_uncached_resolution_agree_over_full_scan() {
    let mut mft = sample_table();
    mft.add_record(record(8, "orphan.txt", 99));
    mft.add_record(nameless(7));
    mft.add_record(record(3, "pagefile.sys", ROOT));
    mft.add_record(record(10, "deep", 9));
    mft.add_record(record(11, "deeper", 10));
    mft.add_record(record(12, "deepest.txt", 11));
    let numbers = [3u64, 5, 7, 8, 9, 10, 11, 12, 42];
    let mut sparse = HashMapCache::new();
    let mut dense = VecCache::new();
    for n in numbers {
        let file = match mft.get_record(n) {
            Some(f) => f,
            None => panic!("record {n} missing from the table"),
        };
        let plain = FileInfo::new(&mft, file);
        let with_sparse = FileInfo::with_cache(&mft, file, &mut sparse);
        let with_dense = FileInfo::with_cache(&mft, file, &mut dense);
        assert_eq!(plain.path, with_sparse.path);
        assert_eq!(plain.path, with_dense.path);
        assert_eq!(plain.name, with_sparse.name);
        assert_eq!(plain.name, with_dense.name);
    }
}

#[test]
fn second_resolution_reuses_cached_prefixes() {
    let mut mft = sample_table();
    mft.add_record(record(43, "sibling.txt", 9));
    let mut cache = HashMapCache::new();
    let first = FileInfo::with_cache(&mft, &record(42, "mmp-test.txt", 9), &mut cache);
    assert_eq!(first.path, "C:\\Users\\kiki\\mmp-test.txt");
    // The second walk stops at the cached entry for record 9.
    let second = FileInfo::with_cache(&mft, &record(43, "sibling.txt", 9), &mut cache);
    assert_eq!(second.path, "C:\\Users\\kiki\\sibling.txt");
}
