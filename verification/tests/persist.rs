//! Saving and loading, with files kept in memory and real codecs.

use file_parse_cache::persist::{accept, survives_saving, write_bytes, DISK_CACHE_VERSION};
use file_parse_cache::{
    Cause, DiskCache, DiskEntry, FileParseCache, Format, LoadError, MtimeStamp, SaveError,
};
use std::cell::{Cell, RefCell};
use std::collections::HashMap;
use std::io;
use std::path::PathBuf;
use std::time::{Duration, SystemTime};

type Lines = Vec<String>;

/// A [`DiskCache`] as nested tuples, which the codecs lay out as they would the
/// structs.
type Rows = (u32, Vec<(String, (i64, u32), Lines)>);

fn to_rows(disk: &DiskCache<Lines, MtimeStamp>) -> Rows {
    let rows = disk
        .entries
        .iter()
        .map(|e| (e.path.clone(), (e.stamp.secs, e.stamp.nanos), e.value.clone()))
        .collect();
    (disk.version, rows)
}

fn from_rows(rows: Rows) -> DiskCache<Lines, MtimeStamp> {
    let entries = rows
        .1
        .into_iter()
        .map(|(path, (secs, nanos), value)| DiskEntry {
            path,
            stamp: MtimeStamp { secs, nanos },
            value,
        })
        .collect();
    DiskCache { version: rows.0, entries }
}

struct BincodeRows;

impl Format<Lines, MtimeStamp> for BincodeRows {
    type Error = bincode::Error;

    fn serialize(&self, value: &DiskCache<Lines, MtimeStamp>) -> Result<Vec<u8>, bincode::Error> {
        bincode::serialize(&to_rows(value))
    }

    fn deserialize(&self, bytes: &[u8]) -> Result<DiskCache<Lines, MtimeStamp>, bincode::Error> {
        bincode::deserialize(bytes).map(from_rows)
    }
}

struct PostcardRows;

impl Format<Lines, MtimeStamp> for PostcardRows {
    type Error = postcard::Error;

    fn serialize(&self, value: &DiskCache<Lines, MtimeStamp>) -> Result<Vec<u8>, postcard::Error> {
        postcard::to_allocvec(&to_rows(value))
    }

    fn deserialize(&self, bytes: &[u8]) -> Result<DiskCache<Lines, MtimeStamp>, postcard::Error> {
        postcard::from_bytes(bytes).map(from_rows)
    }
}

struct JsonRows;

impl Format<Lines, MtimeStamp> for JsonRows {
    type Error = serde_json::Error;

    fn serialize(&self, value: &DiskCache<Lines, MtimeStamp>) -> Result<Vec<u8>, serde_json::Error> {
        serde_json::to_vec(&to_rows(value))
    }

    fn deserialize(
        &self,
        bytes: &[u8],
    ) -> Result<DiskCache<Lines, MtimeStamp>, serde_json::Error> {
        serde_json::from_slice(bytes).map(from_rows)
    }
}

struct FailingFormat;

impl Format<Lines, MtimeStamp> for FailingFormat {
    type Error = &'static str;

    fn serialize(&self, _: &DiskCache<Lines, MtimeStamp>) -> Result<Vec<u8>, &'static str> {
        Err("intentional failure")
    }

    fn deserialize(&self, _: &[u8]) -> Result<DiskCache<Lines, MtimeStamp>, &'static str> {
        Err("intentional failure")
    }
}

struct PanickingFormat;

impl Format<Lines, MtimeStamp> for PanickingFormat {
    type Error = &'static str;

    fn serialize(&self, _: &DiskCache<Lines, MtimeStamp>) -> Result<Vec<u8>, &'static str> {
        panic!("serialized")
    }

    fn deserialize(&self, _: &[u8]) -> Result<DiskCache<Lines, MtimeStamp>, &'static str> {
        panic!("deserialized")
    }
}

/// Files by path, each with its modification time.
struct Disk {
    files: RefCell<HashMap<PathBuf, (SystemTime, Vec<u8>)>>,
}

fn missing() -> io::Error {
    io::Error::new(io::ErrorKind::NotFound, "no such file")
}

fn at(secs: u64) -> SystemTime {
    SystemTime::UNIX_EPOCH + Duration::from_secs(secs)
}

impl Disk {
    fn new() -> Disk {
        Disk { files: RefCell::new(HashMap::new()) }
    }

    fn write(&self, name: &str, secs: u64, content: &str) -> PathBuf {
        let path = PathBuf::from(name);
        self.store(&path, secs, content.as_bytes());
        path
    }

    fn store(&self, path: &PathBuf, secs: u64, content: &[u8]) {
        self.files.borrow_mut().insert(path.clone(), (at(secs), content.to_vec()));
    }

    fn remove(&self, path: &PathBuf) {
        self.files.borrow_mut().remove(path);
    }

    fn has(&self, path: &PathBuf) -> bool {
        self.files.borrow().contains_key(path)
    }

    fn mtime(&self, path: &PathBuf) -> Result<SystemTime, io::Error> {
        self.files.borrow().get(path).map(|file| file.0).ok_or_else(missing)
    }

    fn bytes(&self, path: &PathBuf) -> Result<Vec<u8>, io::Error> {
        self.files.borrow().get(path).map(|file| file.1.clone()).ok_or_else(missing)
    }

    fn lines(&self, path: &PathBuf) -> Result<Lines, io::Error> {
        let text = String::from_utf8(self.bytes(path)?).unwrap();
        Ok(text.lines().map(String::from).collect())
    }
}

fn make_cache() -> FileParseCache<Lines> {
    FileParseCache::new(64)
}

fn get_lines(
    cache: &mut FileParseCache<Lines>,
    disk: &Disk,
    path: &PathBuf,
) -> Result<Lines, io::Error> {
    cache.get(path, |p: &PathBuf| disk.mtime(p), |p: &PathBuf| disk.lines(p))
}

fn save<Fmt: Format<Lines, MtimeStamp>>(
    cache: &mut FileParseCache<Lines>,
    disk: &Disk,
    path: &PathBuf,
    format: &Fmt,
) -> Result<(), SaveError<Fmt::Error>> {
    cache.save(
        path,
        format,
        |_: &PathBuf| Ok(()),
        |p: &PathBuf, bytes: &Vec<u8>| {
            disk.store(p, 9, bytes);
            Ok(())
        },
    )
}

fn load<Fmt: Format<Lines, MtimeStamp>>(
    cache: &mut FileParseCache<Lines>,
    disk: &Disk,
    path: &PathBuf,
    format: &Fmt,
) -> Result<file_parse_cache::LoadStats, LoadError<Fmt::Error>> {
    cache.load(path, format, |p: &PathBuf| disk.bytes(p), |p: &PathBuf| disk.mtime(p))
}

fn entry(path: &str, secs: i64, line: &str) -> DiskEntry<Lines, MtimeStamp> {
    DiskEntry {
        path: path.to_string(),
        stamp: MtimeStamp { secs, nanos: 0 },
        value: vec![line.to_string()],
    }
}

fn never_parsed(_: &PathBuf) -> Result<Lines, io::Error> {
    panic!("parsed again")
}

#[test]
fn save_and_load_roundtrip() {
    let disk = Disk::new();
    let cache_path = PathBuf::from("cache.bin");
    let p = disk.write("a.txt", 1, "hello\nworld");

    let mut cache = make_cache();
    get_lines(&mut cache, &disk, &p).unwrap();
    save(&mut cache, &disk, &cache_path, &BincodeRows).unwrap();
    assert!(disk.has(&cache_path));

    let mut cache2 = make_cache();
    let stats = load(&mut cache2, &disk, &cache_path, &BincodeRows).unwrap();
    assert_eq!(stats.loaded, 1);
    assert_eq!(stats.stale, 0);

    let entries = get_lines(&mut cache2, &disk, &p).unwrap();
    assert_eq!(entries, vec!["hello", "world"]);
}

#[test]
fn load_drops_stale_entries() {
    let disk = Disk::new();
    let cache_path = PathBuf::from("cache.bin");
    let p = disk.write("a.txt", 1, "v1");

    let mut cache = make_cache();
    get_lines(&mut cache, &disk, &p).unwrap();
    save(&mut cache, &disk, &cache_path, &BincodeRows).unwrap();

    disk.write("a.txt", 2, "v2");

    let mut cache2 = make_cache();
    let stats = load(&mut cache2, &disk, &cache_path, &BincodeRows).unwrap();
    assert_eq!(stats.loaded, 0);
    assert_eq!(stats.stale, 1);
    assert_eq!(cache2.len(), 0);
}

#[test]
fn load_drops_missing_files() {
    let disk = Disk::new();
    let cache_path = PathBuf::from("cache.bin");
    let p = disk.write("a.txt", 1, "v1");

    let mut cache = make_cache();
    get_lines(&mut cache, &disk, &p).unwrap();
    save(&mut cache, &disk, &cache_path, &BincodeRows).unwrap();

    disk.remove(&p);

    let mut cache2 = make_cache();
    let stats = load(&mut cache2, &disk, &cache_path, &BincodeRows).unwrap();
    assert_eq!(stats.loaded, 0);
    assert_eq!(stats.stale, 1);
}

#[test]
fn save_noop_when_not_dirty() {
    let disk = Disk::new();
    let cache_path = PathBuf::from("cache.bin");
    let mut cache = make_cache();

    save(&mut cache, &disk, &cache_path, &BincodeRows).unwrap();
    assert!(!disk.has(&cache_path));
}

#[test]
fn save_after_load_is_noop() {
    let disk = Disk::new();
    let cache_path = PathBuf::from("cache.bin");
    let p = disk.write("a.txt", 1, "hello");

    let mut cache = make_cache();
    get_lines(&mut cache, &disk, &p).unwrap();
    save(&mut cache, &disk, &cache_path, &BincodeRows).unwrap();

    let mut cache2 = make_cache();
    load(&mut cache2, &disk, &cache_path, &BincodeRows).unwrap();

    disk.remove(&cache_path);
    save(&mut cache2, &disk, &cache_path, &BincodeRows).unwrap();
    assert!(!disk.has(&cache_path));
}

#[test]
fn save_restores_dirty_on_failure() {
    let disk = Disk::new();
    let cache_path = PathBuf::from("cache.bin");
    let p = disk.write("a.txt", 1, "hello");
    let mut cache = make_cache();

    get_lines(&mut cache, &disk, &p).unwrap();

    let result = save(&mut cache, &disk, &cache_path, &FailingFormat);
    assert!(result.is_err());

    save(&mut cache, &disk, &cache_path, &BincodeRows).unwrap();
    assert!(disk.has(&cache_path));
}

#[test]
fn version_mismatch_returns_error() {
    let disk = Disk::new();
    let cache_path = PathBuf::from("cache.bin");

    let rows: Rows = (99, vec![]);
    let bytes = bincode::serialize(&rows).unwrap();
    disk.store(&cache_path, 1, &bytes);

    let mut cache = make_cache();
    let result = load(&mut cache, &disk, &cache_path, &BincodeRows);
    assert!(matches!(result, Err(LoadError::VersionMismatch { disk: 99, expected: 1 })));
}

#[test]
fn multiple_entries_roundtrip() {
    let disk = Disk::new();
    let cache_path = PathBuf::from("cache.bin");
    let a = disk.write("a.txt", 1, "alpha");
    let b = disk.write("b.txt", 1, "beta\ngamma");

    let mut cache = make_cache();
    get_lines(&mut cache, &disk, &a).unwrap();
    get_lines(&mut cache, &disk, &b).unwrap();
    save(&mut cache, &disk, &cache_path, &BincodeRows).unwrap();

    let mut cache2 = make_cache();
    let stats = load(&mut cache2, &disk, &cache_path, &BincodeRows).unwrap();
    assert_eq!(stats.loaded, 2);

    assert_eq!(get_lines(&mut cache2, &disk, &a).unwrap(), vec!["alpha"]);
    assert_eq!(get_lines(&mut cache2, &disk, &b).unwrap(), vec!["beta", "gamma"]);
}

#[test]
fn postcard_save_and_load_roundtrip() {
    let disk = Disk::new();
    let cache_path = PathBuf::from("cache.pc");
    let p = disk.write("a.txt", 1, "hello\nworld");

    let mut cache: FileParseCache<Lines> = FileParseCache::new(64);
    get_lines(&mut cache, &disk, &p).unwrap();
    save(&mut cache, &disk, &cache_path, &PostcardRows).unwrap();

    let mut cache2: FileParseCache<Lines> = FileParseCache::new(64);
    let stats = load(&mut cache2, &disk, &cache_path, &PostcardRows).unwrap();
    assert_eq!(stats.loaded, 1);
    assert_eq!(stats.stale, 0);

    let entries = get_lines(&mut cache2, &disk, &p).unwrap();
    assert_eq!(entries, vec!["hello", "world"]);
}

#[test]
fn saved_bytes_are_those_of_the_snapshot() {
    let disk = Disk::new();
    let cache_path = PathBuf::from("cache.json");
    let p = disk.write("dir/a.txt", 7, "one\ntwo");
    let mut cache = make_cache();
    get_lines(&mut cache, &disk, &p).unwrap();
    save(&mut cache, &disk, &cache_path, &JsonRows).unwrap();
    let text = String::from_utf8(disk.bytes(&cache_path).unwrap()).unwrap();
    assert_eq!(text, "[1,[[\"dir/a.txt\",[7,0],[\"one\",\"two\"]]]]");
}

#[test]
fn loaded_files_are_served_without_parsing() {
    let disk = Disk::new();
    let cache_path = PathBuf::from("cache.bin");
    let mut cache = make_cache();
    let paths: Vec<PathBuf> =
        (0..40).map(|i| disk.write(&format!("f{i}"), i, &format!("line {i}"))).collect();
    for p in &paths {
        get_lines(&mut cache, &disk, p).unwrap();
    }
    save(&mut cache, &disk, &cache_path, &BincodeRows).unwrap();

    disk.write("f3", 100, "changed");
    disk.remove(&paths[5]);

    let mut cache2 = make_cache();
    let stats = load(&mut cache2, &disk, &cache_path, &BincodeRows).unwrap();
    assert_eq!(stats.loaded, 38);
    assert_eq!(stats.stale, 2);
    assert_eq!(cache2.len(), 38);
    for (i, p) in paths.iter().enumerate() {
        if i != 3 && i != 5 {
            let served = cache2.get(p, |q: &PathBuf| disk.mtime(q), never_parsed).unwrap();
            assert_eq!(served, vec![format!("line {i}")]);
        }
    }
    assert_eq!(get_lines(&mut cache2, &disk, &paths[3]).unwrap(), vec!["changed"]);
    assert!(get_lines(&mut cache2, &disk, &paths[5]).is_err());
}

#[test]
fn snapshot_holds_every_entry_once() {
    let mut cache = make_cache();
    for i in 0..10 {
        let path = PathBuf::from(format!("f{i}"));
        cache.remember(&path, MtimeStamp { secs: i, nanos: 1 }, &vec![format!("v{i}")]);
    }
    let disk = cache.begin_save().unwrap();
    assert_eq!(disk.version, DISK_CACHE_VERSION);
    let mut found: Vec<(String, i64, u32, Lines)> = disk
        .entries
        .into_iter()
        .map(|e| (e.path, e.stamp.secs, e.stamp.nanos, e.value))
        .collect();
    found.sort();
    let expected: Vec<(String, i64, u32, Lines)> =
        (0..10).map(|i| (format!("f{i}"), i, 1, vec![format!("v{i}")])).collect();
    assert_eq!(found, expected);
}

#[test]
fn snapshot_spells_a_path_as_it_was_last_given() {
    let stamp = MtimeStamp { secs: 1, nanos: 0 };
    let mut cache = make_cache();
    cache.remember(&PathBuf::from("dir/a"), stamp, &vec![]);
    cache.remember(&PathBuf::from("dir//a"), stamp, &vec![]);
    let disk = cache.begin_save().unwrap();
    assert_eq!(disk.entries.len(), 1);
    assert_eq!(disk.entries[0].path, "dir//a");
}

#[test]
fn insert_during_save_is_saved_next() {
    let stamp = MtimeStamp { secs: 1, nanos: 0 };
    let mut cache = make_cache();
    cache.remember(&PathBuf::from("a"), stamp, &vec!["a".to_string()]);
    let first = cache.begin_save().unwrap();
    assert_eq!(first.entries.len(), 1);
    cache.remember(&PathBuf::from("b"), stamp, &vec!["b".to_string()]);
    let outcome: Result<(), SaveError<String>> = Ok(());
    assert!(cache.finish_save(outcome).is_ok());
    let second = cache.begin_save().unwrap();
    assert_eq!(second.entries.len(), 2);
    assert!(cache.begin_save().is_none());
}

#[test]
fn unfinished_save_has_to_be_done_again() {
    let mut cache = make_cache();
    cache.remember(&PathBuf::from("a"), MtimeStamp { secs: 1, nanos: 0 }, &vec![]);
    assert!(cache.begin_save().is_some());
    let outcome = cache.finish_save(Err(SaveError::Serialize("full")));
    assert!(matches!(outcome, Err(SaveError::Serialize("full"))));
    assert!(cache.begin_save().is_some());
}

#[test]
fn hit_does_not_make_the_cache_dirty() {
    let disk = Disk::new();
    let p = disk.write("a.txt", 1, "a");
    let mut cache = make_cache();
    get_lines(&mut cache, &disk, &p).unwrap();
    assert!(cache.begin_save().is_some());
    get_lines(&mut cache, &disk, &p).unwrap();
    assert!(cache.begin_save().is_none());
    disk.write("a.txt", 2, "b");
    get_lines(&mut cache, &disk, &p).unwrap();
    assert!(cache.begin_save().is_some());
}

#[test]
fn save_makes_the_parent_directory_first() {
    let made: RefCell<Vec<PathBuf>> = RefCell::new(vec![]);
    let wrote = Cell::new(0);
    for (name, parent) in [
        ("out/deep/cache.bin", Some("out/deep")),
        ("cache.bin", Some("")),
        ("/", None),
    ] {
        let mut cache = make_cache();
        cache.remember(&PathBuf::from("a"), MtimeStamp { secs: 1, nanos: 0 }, &vec![]);
        made.borrow_mut().clear();
        wrote.set(0);
        let result = cache.save(
            &PathBuf::from(name),
            &BincodeRows,
            |p: &PathBuf| {
                assert_eq!(wrote.get(), 0);
                made.borrow_mut().push(p.clone());
                Ok(())
            },
            |p: &PathBuf, bytes: &Vec<u8>| {
                assert_eq!(p, &PathBuf::from(name));
                wrote.set(bytes.len());
                Ok(())
            },
        );
        assert!(result.is_ok());
        assert!(wrote.get() > 0);
        let expected: Vec<PathBuf> = parent.map(PathBuf::from).into_iter().collect();
        assert_eq!(*made.borrow(), expected);
    }
}

#[test]
fn failing_directory_stops_the_save() {
    let mut cache = make_cache();
    cache.remember(&PathBuf::from("a"), MtimeStamp { secs: 1, nanos: 0 }, &vec![]);
    let result = cache.save(
        &PathBuf::from("out/cache.bin"),
        &BincodeRows,
        |_: &PathBuf| Err(io::Error::new(io::ErrorKind::PermissionDenied, "locked")),
        |_: &PathBuf, _: &Vec<u8>| -> Result<(), io::Error> { panic!("written") },
    );
    match result {
        Err(SaveError::Io(e)) => assert_eq!(e.kind(), io::ErrorKind::PermissionDenied),
        _ => panic!("the error of making the directory was expected"),
    }
    assert!(cache.begin_save().is_some());
}

#[test]
fn failing_write_keeps_the_cache_dirty() {
    let mut cache = make_cache();
    cache.remember(&PathBuf::from("a"), MtimeStamp { secs: 1, nanos: 0 }, &vec![]);
    let result = cache.save(
        &PathBuf::from("cache.bin"),
        &BincodeRows,
        |_: &PathBuf| Ok(()),
        |_: &PathBuf, _: &Vec<u8>| Err(io::Error::new(io::ErrorKind::WriteZero, "full")),
    );
    match result {
        Err(SaveError::Io(e)) => assert_eq!(e.kind(), io::ErrorKind::WriteZero),
        _ => panic!("the error of writing the file was expected"),
    }
    assert!(cache.begin_save().is_some());
}

#[test]
fn save_without_changes_touches_nothing() {
    let mut cache = make_cache();
    cache.clear();
    for _ in 0..2 {
        let result = cache.save(
            &PathBuf::from("out/cache.bin"),
            &PanickingFormat,
            |_: &PathBuf| -> Result<(), io::Error> { panic!("made a directory") },
            |_: &PathBuf, _: &Vec<u8>| -> Result<(), io::Error> { panic!("written") },
        );
        assert!(result.is_ok());
        assert!(cache.load_entry(entry("a", 1, "x"), Ok(at(1))));
    }
}

#[test]
fn bytes_are_written_only_if_there_are_any() {
    let path = PathBuf::from("out/cache.bin");
    let made = Cell::new(false);
    let failed = write_bytes(
        Err("no bytes"),
        &path,
        |_: &PathBuf| -> Result<(), io::Error> { panic!("made a directory") },
        |_: &PathBuf, _: &Vec<u8>| -> Result<(), io::Error> { panic!("written") },
    );
    assert!(matches!(failed, Err(SaveError::Serialize("no bytes"))));
    let done: Result<(), SaveError<&str>> = write_bytes(
        Ok(vec![1, 2, 3]),
        &path,
        |p: &PathBuf| {
            assert_eq!(p, &PathBuf::from("out"));
            made.set(true);
            Ok(())
        },
        |p: &PathBuf, bytes: &Vec<u8>| {
            assert!(made.get());
            assert_eq!((p, bytes), (&path, &vec![1, 2, 3]));
            Ok(())
        },
    );
    assert!(done.is_ok());
}

#[test]
fn another_version_is_refused_before_any_file_is_read() {
    let mut cache = make_cache();
    let disk = DiskCache { version: 0, entries: vec![entry("a", 1, "x")] };
    let result: Result<_, LoadError<String>> = cache.load_disk(
        disk,
        |_: &PathBuf| -> Result<SystemTime, io::Error> { panic!("read a file") },
    );
    assert!(matches!(result, Err(LoadError::VersionMismatch { disk: 0, expected: 1 })));
    let current: Result<_, LoadError<String>> =
        accept(DiskCache { version: DISK_CACHE_VERSION, entries: vec![entry("a", 1, "x")] });
    assert_eq!(current.unwrap().len(), 1);
}

#[test]
fn unicode_paths_survive_saving() {
    assert!(survives_saving(&PathBuf::from("dir/a.txt")));
    assert!(survives_saving(&PathBuf::from("\u{e4}/\u{1f980}.txt")));
    let stamp = MtimeStamp { secs: 1, nanos: 0 };
    let path = PathBuf::from("\u{e4}/\u{1f980}.txt");
    let mut cache = make_cache();
    cache.remember(&path, stamp, &vec!["crab".to_string()]);
    let disk = cache.begin_save().unwrap();
    let mut cache2 = make_cache();
    let result: Result<_, LoadError<String>> = cache2.load_disk(disk, |_: &PathBuf| Ok(at(1)));
    assert_eq!(result.unwrap().loaded, 1);
    assert_eq!(cache2.lookup(&path, &stamp), Some(vec!["crab".to_string()]));
}

#[test]
fn failing_format_stops_the_save() {
    let mut cache = make_cache();
    cache.remember(&PathBuf::from("a"), MtimeStamp { secs: 1, nanos: 0 }, &vec![]);
    let result = cache.save(
        &PathBuf::from("cache.bin"),
        &FailingFormat,
        |_: &PathBuf| -> Result<(), io::Error> { panic!("made a directory") },
        |_: &PathBuf, _: &Vec<u8>| -> Result<(), io::Error> { panic!("written") },
    );
    assert!(matches!(result, Err(SaveError::Serialize("intentional failure"))));
    assert!(cache.begin_save().is_some());
}

#[test]
fn missing_cache_file_is_an_io_error() {
    let disk = Disk::new();
    let mut cache = make_cache();
    match load(&mut cache, &disk, &PathBuf::from("cache.bin"), &BincodeRows) {
        Err(LoadError::Io(e)) => assert_eq!(e.kind(), io::ErrorKind::NotFound),
        _ => panic!("the error of reading the file was expected"),
    }
    assert!(cache.is_empty());
}

#[test]
fn undecodable_cache_file_is_a_deserialize_error() {
    let disk = Disk::new();
    let path = disk.write("cache.bin", 1, "no");
    let mut cache = make_cache();
    let result = load(&mut cache, &disk, &path, &BincodeRows);
    assert!(matches!(result, Err(LoadError::Deserialize(_))));
    let result = load(&mut cache, &disk, &path, &FailingFormat);
    assert!(matches!(result, Err(LoadError::Deserialize("intentional failure"))));
}

#[test]
fn failed_load_leaves_the_cache_alone() {
    let p = PathBuf::from("a");
    let stamp = MtimeStamp { secs: 1, nanos: 0 };
    let mut cache = make_cache();
    cache.remember(&p, stamp, &vec!["kept".to_string()]);
    let disk = DiskCache { version: 2, entries: vec![entry("a", 1, "other")] };
    let result: Result<_, LoadError<String>> =
        cache.load_disk(disk, |_: &PathBuf| Ok(at(1)));
    assert!(matches!(result, Err(LoadError::VersionMismatch { disk: 2, expected: 1 })));
    assert_eq!(cache.lookup(&p, &stamp), Some(vec!["kept".to_string()]));
    assert!(cache.begin_save().is_some());
}

#[test]
fn load_adds_to_what_is_cached() {
    let stamp = MtimeStamp { secs: 1, nanos: 0 };
    let mut cache = make_cache();
    cache.remember(&PathBuf::from("a"), stamp, &vec!["mine".to_string()]);
    cache.remember(&PathBuf::from("b"), stamp, &vec!["mine".to_string()]);
    let disk = DiskCache {
        version: DISK_CACHE_VERSION,
        entries: vec![entry("b", 1, "loaded"), entry("c", 1, "loaded"), entry("a", 2, "old")],
    };
    let result: Result<_, LoadError<String>> =
        cache.load_disk(disk, |_: &PathBuf| Ok(at(1)));
    let stats = result.unwrap();
    assert_eq!(stats.loaded, 2);
    assert_eq!(stats.stale, 1);
    assert_eq!(cache.len(), 3);
    assert_eq!(cache.lookup(&PathBuf::from("a"), &stamp), Some(vec!["mine".to_string()]));
    assert_eq!(cache.lookup(&PathBuf::from("b"), &stamp), Some(vec!["loaded".to_string()]));
    assert_eq!(cache.lookup(&PathBuf::from("c"), &stamp), Some(vec!["loaded".to_string()]));
}

#[test]
fn later_entry_for_a_path_wins() {
    let mut cache = make_cache();
    let disk = DiskCache {
        version: DISK_CACHE_VERSION,
        entries: vec![entry("a", 1, "first"), entry("a", 1, "second")],
    };
    let result: Result<_, LoadError<String>> =
        cache.load_disk(disk, |_: &PathBuf| Ok(at(1)));
    assert_eq!(result.unwrap().loaded, 2);
    assert_eq!(cache.len(), 1);
    let found = cache.lookup(&PathBuf::from("a"), &MtimeStamp { secs: 1, nanos: 0 });
    assert_eq!(found, Some(vec!["second".to_string()]));
}

#[test]
fn loading_keeps_within_the_capacity() {
    let mut cache: FileParseCache<Lines> = FileParseCache::new(4);
    let entries = (0..50).map(|i| entry(&format!("f{i}"), 1, "x")).collect();
    let disk = DiskCache { version: DISK_CACHE_VERSION, entries };
    let result: Result<_, LoadError<String>> =
        cache.load_disk(disk, |_: &PathBuf| Ok(at(1)));
    let stats = result.unwrap();
    assert_eq!(stats.loaded, 50);
    assert_eq!(stats.stale, 0);
    let mut left = cache.paths();
    left.sort();
    let last: Vec<PathBuf> = (46..50).map(|i| PathBuf::from(format!("f{i}"))).collect();
    assert_eq!(left, last);
    assert!(cache.begin_save().is_none());
}

#[test]
fn one_entry_is_loaded_if_its_file_is_unchanged() {
    let mut cache = make_cache();
    assert!(!cache.load_entry(entry("a", 1, "x"), Err(missing())));
    assert!(!cache.load_entry(entry("a", 1, "x"), Ok(at(2))));
    assert!(cache.is_empty());
    assert!(cache.load_entry(entry("a", 1, "x"), Ok(at(1))));
    assert_eq!(cache.len(), 1);
    assert!(cache.begin_save().is_none());
}

#[test]
fn messages_of_save_errors() {
    let io_error: SaveError<&str> = SaveError::Io(missing());
    assert_eq!(io_error.message("no such file"), "IO error: no such file");
    assert!(matches!(io_error.source(), Some(Cause::Io(e)) if e.kind() == io::ErrorKind::NotFound));
    let format_error = SaveError::Serialize("too deep");
    assert_eq!(format_error.message("too deep"), "serialization error: too deep");
    assert!(matches!(format_error.source(), Some(Cause::Format(e)) if *e == "too deep"));
}

#[test]
fn messages_of_load_errors() {
    let io_error: LoadError<&str> = LoadError::Io(missing());
    assert_eq!(io_error.message("no such file"), "IO error: no such file");
    assert!(matches!(io_error.source(), Some(Cause::Io(e)) if e.kind() == io::ErrorKind::NotFound));
    let format_error = LoadError::Deserialize("cut short");
    assert_eq!(format_error.message("cut short"), "deserialization error: cut short");
    assert!(matches!(format_error.source(), Some(Cause::Format(e)) if *e == "cut short"));
    let version: LoadError<&str> = LoadError::VersionMismatch { disk: 4294967295, expected: 1 };
    assert_eq!(version.message("unused"), "version mismatch: disk=4294967295, expected=1");
    assert!(version.source().is_none());
    let version: LoadError<&str> = LoadError::VersionMismatch { disk: 0, expected: 10 };
    assert_eq!(version.message(""), "version mismatch: disk=0, expected=10");
}
