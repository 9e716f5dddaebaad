//! Getting, purging, clearing and counting, with files kept in memory.

use file_parse_cache::{ContentHashFingerprint, FileParseCache, MtimeStamp};
use std::cell::{Cell, RefCell};
use std::collections::HashMap;
use std::io;
use std::path::PathBuf;
use std::time::{Duration, SystemTime};

/// Files by path, each with its modification time.
struct Disk {
    files: RefCell<HashMap<PathBuf, (SystemTime, Vec<u8>)>>,
}

fn missing() -> io::Error {
    io::Error::new(io::ErrorKind::NotFound, "no such file")
}

fn at(secs: u64) -> SystemTime {
    SystemTime::UNIX_EPOCH + Duration::from_secs(secs)
}

impl Disk {
    fn new() -> Disk {
        Disk { files: RefCell::new(HashMap::new()) }
    }

    fn write(&self, name: &str, secs: u64, content: &str) -> PathBuf {
        let path = PathBuf::from(name);
        self.files.borrow_mut().insert(path.clone(), (at(secs), content.as_bytes().to_vec()));
        path
    }

    fn mtime(&self, path: &PathBuf) -> Result<SystemTime, io::Error> {
        self.files.borrow().get(path).map(|file| file.0).ok_or_else(missing)
    }

    fn bytes(&self, path: &PathBuf) -> Result<Vec<u8>, io::Error> {
        self.files.borrow().get(path).map(|file| file.1.clone()).ok_or_else(missing)
    }

    fn text(&self, path: &PathBuf) -> Result<String, io::Error> {
        Ok(String::from_utf8(self.bytes(path)?).unwrap())
    }

    fn lines(&self, path: &PathBuf) -> Result<Vec<String>, io::Error> {
        Ok(self.text(path)?.lines().map(String::from).collect())
    }
}

fn make_cache() -> FileParseCache<Vec<String>> {
    FileParseCache::new(64)
}

fn get_lines(
    cache: &mut FileParseCache<Vec<String>>,
    disk: &Disk,
    path: &PathBuf,
) -> Result<Vec<String>, io::Error> {
    cache.get(path, |p: &PathBuf| disk.mtime(p), |p: &PathBuf| disk.lines(p))
}

fn get_hashed(
    cache: &mut FileParseCache<Vec<String>, ContentHashFingerprint>,
    disk: &Disk,
    path: &PathBuf,
) -> Result<Vec<String>, io::Error> {
    cache.get(path, |p: &PathBuf| disk.bytes(p), |p: &PathBuf| disk.lines(p))
}

#[test]
fn returns_parsed_value_and_caches_it() {
    let disk = Disk::new();
    let p = disk.write("a.txt", 1, "hello\nworld");
    let mut cache = make_cache();

    let first = get_lines(&mut cache, &disk, &p).unwrap();
    assert_eq!(first, vec!["hello", "world"]);

    let second = get_lines(&mut cache, &disk, &p).unwrap();
    assert_eq!(second, first);
}

#[test]
fn len_is_consistent_immediately_after_insert() {
    let disk = Disk::new();
    let a = disk.write("a.txt", 1, "a");
    let b = disk.write("b.txt", 1, "b");
    let mut cache = make_cache();

    assert_eq!(cache.len(), 0);
    get_lines(&mut cache, &disk, &a).unwrap();
    assert_eq!(cache.len(), 1);
    get_lines(&mut cache, &disk, &b).unwrap();
    assert_eq!(cache.len(), 2);
}

#[test]
fn missing_file_returns_error() {
    let disk = Disk::new();
    let mut cache = make_cache();
    let result = get_lines(&mut cache, &disk, &PathBuf::from("/no/such/file.txt"));
    assert!(result.is_err());
    assert_eq!(cache.len(), 0);
}

#[test]
fn reparses_when_mtime_changes() {
    let disk = Disk::new();
    let p = disk.write("a.txt", 1, "v1");
    let mut cache = make_cache();

    let first = get_lines(&mut cache, &disk, &p).unwrap();
    assert_eq!(first, vec!["v1"]);

    disk.write("a.txt", 2, "v2\nv3");

    let second = get_lines(&mut cache, &disk, &p).unwrap();
    assert_eq!(second, vec!["v2", "v3"]);
}

#[test]
fn content_hash_detects_same_mtime_different_content() {
    let disk = Disk::new();
    let p = disk.write("a.txt", 1, "original");
    let mut cache: FileParseCache<Vec<String>, ContentHashFingerprint> =
        FileParseCache::with_fingerprint(64, ContentHashFingerprint);

    let first = get_hashed(&mut cache, &disk, &p).unwrap();
    assert_eq!(first, vec!["original"]);

    disk.write("a.txt", 1, "changed");

    let second = get_hashed(&mut cache, &disk, &p).unwrap();
    assert_eq!(second, vec!["changed"]);
}

#[test]
fn content_hash_skips_reparse_on_identical_content() {
    let disk = Disk::new();
    let p = disk.write("a.txt", 1, "stable");
    let parse_count = Cell::new(0);
    let mut cache: FileParseCache<Vec<String>, ContentHashFingerprint> =
        FileParseCache::with_fingerprint(64, ContentHashFingerprint);

    let counting_parser = |path: &PathBuf| -> Result<Vec<String>, io::Error> {
        parse_count.set(parse_count.get() + 1);
        disk.lines(path)
    };

    cache.get(&p, |q: &PathBuf| disk.bytes(q), &counting_parser).unwrap();
    assert_eq!(parse_count.get(), 1);

    disk.write("a.txt", 2, "stable");

    cache.get(&p, |q: &PathBuf| disk.bytes(q), &counting_parser).unwrap();
    assert_eq!(parse_count.get(), 1);
}

#[test]
fn purge_if_removes_matching_entries() {
    let disk = Disk::new();
    let a = disk.write("dir/keep.txt", 1, "a");
    let b = disk.write("dir/drop.txt", 1, "b");
    let mut cache = make_cache();

    get_lines(&mut cache, &disk, &a).unwrap();
    get_lines(&mut cache, &disk, &b).unwrap();

    cache.purge_if(|p: &PathBuf| p.file_name().map_or(false, |n| n == "drop.txt"));

    assert_eq!(cache.len(), 1);
}

#[test]
fn clear_removes_all_entries() {
    let disk = Disk::new();
    let a = disk.write("a.txt", 1, "a");
    let b = disk.write("b.txt", 1, "b");
    let mut cache = make_cache();

    get_lines(&mut cache, &disk, &a).unwrap();
    get_lines(&mut cache, &disk, &b).unwrap();

    cache.clear();
    assert_eq!(cache.len(), 0);
}

#[derive(Debug)]
#[allow(dead_code)]
enum MyError {
    Io(io::Error),
    Parse(String),
}

impl From<io::Error> for MyError {
    fn from(e: io::Error) -> Self {
        MyError::Io(e)
    }
}

#[test]
fn parser_error_propagates_without_caching() {
    let disk = Disk::new();
    let p = disk.write("bad.txt", 1, "not-a-number");
    let mut cache: FileParseCache<i32> = FileParseCache::new(64);

    let result = cache.get(
        &p,
        |q: &PathBuf| disk.mtime(q),
        |path: &PathBuf| {
            let text = disk.text(path).map_err(MyError::Io)?;
            text.trim().parse::<i32>().map_err(|e| MyError::Parse(e.to_string()))
        },
    );

    assert!(matches!(result, Err(MyError::Parse(_))));
    assert_eq!(cache.len(), 0);
}

#[test]
fn parser_error_keeps_what_was_cached() {
    let disk = Disk::new();
    let p = disk.write("a.txt", 1, "old");
    let mut cache = make_cache();
    get_lines(&mut cache, &disk, &p).unwrap();

    let failed = cache.get(&p, |_: &PathBuf| Ok(at(2)), |_: &PathBuf| Err(missing()));
    assert_eq!(failed.unwrap_err().kind(), io::ErrorKind::NotFound);

    let stamp = MtimeStamp::from(at(1));
    assert_eq!(cache.lookup(&p, &stamp), Some(vec!["old".to_string()]));
    assert_eq!(cache.len(), 1);
}

#[test]
fn unreadable_file_is_not_parsed_and_converts_the_error() {
    let mut cache: FileParseCache<i32> = FileParseCache::new(64);
    let parsed = Cell::new(false);
    let result = cache.get(
        &PathBuf::from("gone.txt"),
        |_: &PathBuf| Err(io::Error::new(io::ErrorKind::PermissionDenied, "locked")),
        |_: &PathBuf| -> Result<i32, MyError> {
            parsed.set(true);
            Ok(1)
        },
    );
    match result {
        Err(MyError::Io(e)) => assert_eq!(e.kind(), io::ErrorKind::PermissionDenied),
        _ => panic!("the error of reading the file was expected"),
    }
    assert!(!parsed.get());
    assert!(cache.is_empty());
    assert!(cache.begin_save().is_none());
}

#[test]
fn hit_does_not_call_the_parser() {
    let disk = Disk::new();
    let p = disk.write("a.txt", 1, "once");
    let mut cache = make_cache();
    get_lines(&mut cache, &disk, &p).unwrap();

    let again = cache.get(
        &p,
        |q: &PathBuf| disk.mtime(q),
        |_: &PathBuf| -> Result<Vec<String>, io::Error> { panic!("parsed again") },
    );
    assert_eq!(again.unwrap(), vec!["once"]);
}

#[test]
fn reading_given_as_a_value_does_the_same() {
    let p = PathBuf::from("a.txt");
    let mut cache: FileParseCache<i32> = FileParseCache::new(4);
    let parse = |n: i32| move |_: &PathBuf| -> Result<i32, io::Error> { Ok(n) };
    assert_eq!(cache.get_read(&p, Ok(at(5)), parse(1)).unwrap(), 1);
    assert_eq!(cache.get_read(&p, Ok(at(5)), parse(2)).unwrap(), 1);
    assert_eq!(cache.get_read(&p, Ok(at(6)), parse(3)).unwrap(), 3);
    assert_eq!(cache.get_read(&p, Ok(at(5)), parse(4)).unwrap(), 4);
    let failed = cache.get_read(&p, Err(missing()), parse(5));
    assert_eq!(failed.unwrap_err().kind(), io::ErrorKind::NotFound);
    assert_eq!(cache.len(), 1);
}

#[test]
fn what_is_remembered_is_looked_up_by_stamp() {
    let p = PathBuf::from("a.txt");
    let stamp = MtimeStamp { secs: 3, nanos: 4 };
    let other = MtimeStamp { secs: 3, nanos: 5 };
    let mut cache: FileParseCache<i32> = FileParseCache::new(4);
    assert_eq!(cache.lookup(&p, &stamp), None);
    cache.remember(&p, stamp, &11);
    assert_eq!(cache.lookup(&p, &stamp), Some(11));
    assert_eq!(cache.lookup(&p, &other), None);
    cache.remember(&p, other, &12);
    assert_eq!(cache.lookup(&p, &stamp), None);
    assert_eq!(cache.lookup(&p, &other), Some(12));
    assert_eq!(cache.len(), 1);
}

#[test]
fn equal_paths_share_one_entry() {
    let stamp = MtimeStamp { secs: 1, nanos: 0 };
    let mut cache: FileParseCache<i32> = FileParseCache::new(4);
    cache.remember(&PathBuf::from("dir/a.txt"), stamp, &1);
    assert_eq!(cache.lookup(&PathBuf::from("dir//./a.txt"), &stamp), Some(1));
    assert_eq!(cache.lookup(&PathBuf::from("dir/b.txt"), &stamp), None);
    cache.remember(&PathBuf::from("dir//a.txt"), stamp, &2);
    assert_eq!(cache.len(), 1);
    assert_eq!(cache.lookup(&PathBuf::from("dir/a.txt"), &stamp), Some(2));
}

#[test]
fn other_files_stay_cached() {
    let disk = Disk::new();
    let mut cache = make_cache();
    let paths: Vec<PathBuf> =
        (0..64).map(|i| disk.write(&format!("f{i}"), 1, &format!("line {i}"))).collect();
    for p in &paths {
        get_lines(&mut cache, &disk, p).unwrap();
    }
    assert_eq!(cache.len(), 64);
    for (i, p) in paths.iter().enumerate() {
        let found = cache.lookup(p, &MtimeStamp { secs: 1, nanos: 0 });
        assert_eq!(found, Some(vec![format!("line {i}")]));
    }
}

#[test]
fn reparsing_does_not_add_an_entry() {
    let disk = Disk::new();
    let mut cache = make_cache();
    for secs in 1..100 {
        let p = disk.write("a.txt", secs, "text");
        get_lines(&mut cache, &disk, &p).unwrap();
        assert_eq!(cache.len(), 1);
    }
}

fn numbered(i: i32) -> PathBuf {
    PathBuf::from(format!("f{i}"))
}

#[test]
fn least_recently_cached_files_leave() {
    let stamp = MtimeStamp { secs: 1, nanos: 0 };
    let mut cache: FileParseCache<i32> = FileParseCache::new(8);
    for i in 0..500 {
        cache.remember(&numbered(i), stamp, &i);
        assert_eq!(cache.len(), 8.min(i as u64 + 1));
    }
    for i in 0..500 {
        let expected = if i >= 492 { Some(i) } else { None };
        assert_eq!(cache.lookup(&numbered(i), &stamp), expected);
    }
}

#[test]
fn files_that_were_used_stay() {
    let stamp = MtimeStamp { secs: 1, nanos: 0 };
    let mut cache: FileParseCache<i32> = FileParseCache::new(3);
    for i in 0..3 {
        cache.remember(&numbered(i), stamp, &i);
    }
    assert_eq!(cache.lookup(&numbered(0), &stamp), Some(0));
    cache.remember(&numbered(3), stamp, &3);
    assert_eq!(cache.lookup(&numbered(1), &stamp), None);
    assert_eq!(cache.lookup(&numbered(0), &stamp), Some(0));
    cache.remember(&numbered(2), stamp, &22);
    cache.remember(&numbered(4), stamp, &4);
    let mut left = cache.paths();
    left.sort();
    assert_eq!(left, vec![numbered(0), numbered(2), numbered(4)]);
    assert_eq!(cache.lookup(&numbered(2), &stamp), Some(22));
}

#[test]
fn listing_the_paths_is_no_use() {
    let stamp = MtimeStamp { secs: 1, nanos: 0 };
    let mut cache: FileParseCache<i32> = FileParseCache::new(2);
    cache.remember(&numbered(0), stamp, &0);
    cache.remember(&numbered(1), stamp, &1);
    assert_eq!(cache.paths().len(), 2);
    assert!(cache.begin_save().is_some());
    cache.remember(&numbered(2), stamp, &2);
    assert_eq!(cache.lookup(&numbered(0), &stamp), None);
    assert_eq!(cache.lookup(&numbered(1), &stamp), Some(1));
}

#[test]
fn newest_file_stays_however_often_the_others_were_cached() {
    let stamp = MtimeStamp { secs: 1, nanos: 0 };
    let mut cache: FileParseCache<i32> = FileParseCache::new(1);
    for i in 0..70_000 {
        cache.remember(&numbered(0), stamp, &i);
    }
    cache.remember(&numbered(1), stamp, &-1);
    assert_eq!(cache.len(), 1);
    assert_eq!(cache.lookup(&numbered(1), &stamp), Some(-1));
    assert_eq!(cache.lookup(&numbered(0), &stamp), None);
}

#[test]
fn room_after_a_clear_is_used_in_full() {
    let stamp = MtimeStamp { secs: 1, nanos: 0 };
    let mut cache: FileParseCache<i32> = FileParseCache::new(4);
    for i in 0..20 {
        cache.remember(&numbered(i), stamp, &i);
    }
    cache.clear();
    for i in 0..4 {
        cache.remember(&numbered(i), stamp, &i);
    }
    for i in 0..4 {
        assert_eq!(cache.lookup(&numbered(i), &stamp), Some(i));
    }
}

#[test]
fn purging_paths_that_are_not_cached_changes_nothing() {
    let stamp = MtimeStamp { secs: 1, nanos: 0 };
    let mut cache: FileParseCache<i32> = FileParseCache::new(4);
    cache.remember(&numbered(0), stamp, &0);
    cache.remember(&numbered(1), stamp, &1);
    assert!(cache.begin_save().is_some());
    cache.purge(&vec![numbered(7)]);
    assert!(cache.begin_save().is_none());
    assert_eq!(cache.len(), 2);
    cache.purge(&vec![numbered(7), numbered(0), numbered(0)]);
    assert!(cache.begin_save().is_some());
    assert_eq!(cache.paths(), vec![numbered(1)]);
}

#[test]
fn cache_without_room_keeps_nothing() {
    let stamp = MtimeStamp { secs: 1, nanos: 0 };
    let mut cache: FileParseCache<i32> = FileParseCache::new(0);
    let p = PathBuf::from("a.txt");
    cache.remember(&p, stamp, &1);
    assert_eq!(cache.lookup(&p, &stamp), None);
    assert_eq!(cache.len(), 0);
    assert!(cache.is_empty());
    assert!(cache.begin_save().is_none());
    let parsed = cache.get_read(&p, Ok(at(1)), |_: &PathBuf| -> Result<i32, io::Error> { Ok(7) });
    assert_eq!(parsed.unwrap(), 7);
    assert_eq!(cache.len(), 0);
    assert!(cache.begin_save().is_none());
}

#[test]
fn purged_entries_are_invisible_at_once() {
    let stamp = MtimeStamp { secs: 1, nanos: 0 };
    let mut cache: FileParseCache<i32> = FileParseCache::new(8);
    for i in 0..6 {
        cache.remember(&PathBuf::from(format!("f{i}")), stamp, &i);
    }
    cache.purge_if(|p: &PathBuf| {
        p == &PathBuf::from("f1") || p == &PathBuf::from("f4") || p == &PathBuf::from("f9")
    });
    for i in 0..6 {
        let found = cache.lookup(&PathBuf::from(format!("f{i}")), &stamp);
        let expected = if i == 1 || i == 4 { None } else { Some(i) };
        assert_eq!(found, expected);
    }
    assert_eq!(cache.len(), 4);
}

#[test]
fn only_a_purge_that_drops_something_makes_the_cache_dirty() {
    let stamp = MtimeStamp { secs: 1, nanos: 0 };
    let mut cache: FileParseCache<i32> = FileParseCache::new(8);
    cache.remember(&PathBuf::from("a"), stamp, &1);
    assert!(cache.begin_save().is_some());
    assert!(cache.begin_save().is_none());
    cache.purge_if(|_: &PathBuf| false);
    assert!(cache.begin_save().is_none());
    assert_eq!(cache.len(), 1);
    cache.purge_if(|_: &PathBuf| true);
    assert_eq!(cache.begin_save().unwrap().entries.len(), 0);
}

#[test]
fn cleared_files_are_parsed_again() {
    let disk = Disk::new();
    let p = disk.write("a.txt", 1, "a");
    let mut cache = make_cache();
    get_lines(&mut cache, &disk, &p).unwrap();
    cache.clear();
    assert!(cache.is_empty());
    let parsed = cache.get(
        &p,
        |q: &PathBuf| disk.mtime(q),
        |_: &PathBuf| -> Result<Vec<String>, io::Error> { Ok(vec!["fresh".to_string()]) },
    );
    assert_eq!(parsed.unwrap(), vec!["fresh"]);
    assert_eq!(cache.len(), 1);
}

#[test]
fn clearing_makes_the_cache_dirty_if_there_was_something() {
    let mut cache = make_cache();
    cache.clear();
    assert!(cache.begin_save().is_none());
    cache.remember(&PathBuf::from("a"), MtimeStamp { secs: 1, nanos: 0 }, &vec![]);
    assert!(cache.begin_save().is_some());
    cache.clear();
    assert_eq!(cache.begin_save().unwrap().entries.len(), 0);
    cache.clear();
    assert!(cache.begin_save().is_none());
}

#[test]
fn empty_until_something_is_cached() {
    let mut cache: FileParseCache<i32> = FileParseCache::new(8);
    assert!(cache.is_empty());
    cache.remember(&PathBuf::from("a"), MtimeStamp { secs: 1, nanos: 0 }, &1);
    assert!(!cache.is_empty());
}
