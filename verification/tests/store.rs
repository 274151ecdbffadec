use cosmic_freedesktop_icons::bytes::{
    append, bytes_eq, bytes_less, contains_bytes, find_last, join_path, starts_with, to_decimal,
    to_lower, trim_ascii, trim_quotes, utf8_string,
};
use cosmic_freedesktop_icons::cache::{is_fresh, Cache, CacheEntry, GRACE_MS};
use cosmic_freedesktop_icons::disk::{lies_in, Disk};

#[test]
fn a_new_cache_knows_nothing() {
    let cache = Cache::new();
    assert_eq!(cache.get("hicolor", 24, 1, "firefox"), CacheEntry::Unknown);
    assert_eq!(Cache::default().get("", 0, 0, ""), CacheEntry::Unknown);
}

#[test]
fn entries_are_kept_by_theme_name_size_and_scale() {
    let mut cache = Cache::new();
    cache.insert("hicolor", 24, 1, "firefox", &Some(b"/a.png".to_vec()), 5);
    cache.insert("hicolor", 24, 2, "firefox", &None, 6);
    cache.insert("hicolor", 48, 1, "firefox", &Some(b"/b.png".to_vec()), 7);
    cache.insert("Arc", 24, 1, "firefox", &Some(b"/c.png".to_vec()), 8);
    cache.insert("hicolor", 24, 1, "files", &None, 9);
    assert_eq!(cache.get("hicolor", 24, 1, "firefox"), CacheEntry::Found(b"/a.png".to_vec()));
    assert_eq!(cache.get("hicolor", 24, 2, "firefox"), CacheEntry::NotFound(6));
    assert_eq!(cache.get("hicolor", 48, 1, "firefox"), CacheEntry::Found(b"/b.png".to_vec()));
    assert_eq!(cache.get("Arc", 24, 1, "firefox"), CacheEntry::Found(b"/c.png".to_vec()));
    assert_eq!(cache.get("hicolor", 24, 1, "files"), CacheEntry::NotFound(9));
    assert_eq!(cache.get("firefox", 24, 1, "hicolor"), CacheEntry::Unknown);
    assert_eq!(cache.get("hicolor", 1, 24, "firefox"), CacheEntry::Unknown);
}

#[test]
fn a_later_entry_replaces_the_earlier_one() {
    let mut cache = Cache::new();
    cache.insert("hicolor", 24, 1, "firefox", &None, 5);
    cache.insert("hicolor", 24, 1, "other", &None, 6);
    cache.insert("hicolor", 24, 1, "firefox", &Some(b"/a.png".to_vec()), 7);
    assert_eq!(cache.get("hicolor", 24, 1, "firefox"), CacheEntry::Found(b"/a.png".to_vec()));
    cache.insert("hicolor", 24, 1, "firefox", &None, 8);
    assert_eq!(cache.get("hicolor", 24, 1, "firefox"), CacheEntry::NotFound(8));
    assert_eq!(cache.get("hicolor", 24, 1, "other"), CacheEntry::NotFound(6));
}

#[test]
fn reset_none_forgets_misses_and_keeps_paths() {
    let mut cache = Cache::new();
    cache.insert("hicolor", 24, 1, "firefox", &Some(b"/a.png".to_vec()), 5);
    cache.insert("hicolor", 24, 1, "old", &None, 0);
    cache.insert("Arc", 16, 2, "new", &None, u64::MAX);
    cache.reset_none();
    assert_eq!(cache.get("hicolor", 24, 1, "firefox"), CacheEntry::Found(b"/a.png".to_vec()));
    assert_eq!(cache.get("hicolor", 24, 1, "old"), CacheEntry::Unknown);
    assert_eq!(cache.get("Arc", 16, 2, "new"), CacheEntry::Unknown);
    cache.insert("hicolor", 24, 1, "old", &None, 3);
    assert_eq!(cache.get("hicolor", 24, 1, "old"), CacheEntry::NotFound(3));
}

#[test]
fn clear_forgets_everything() {
    let mut cache = Cache::new();
    cache.insert("hicolor", 24, 1, "firefox", &Some(b"/a.png".to_vec()), 5);
    cache.insert("hicolor", 24, 1, "old", &None, 0);
    cache.clear();
    assert_eq!(cache.get("hicolor", 24, 1, "firefox"), CacheEntry::Unknown);
    assert_eq!(cache.get("hicolor", 24, 1, "old"), CacheEntry::Unknown);
}

#[test]
fn a_miss_is_fresh_for_less_than_five_seconds() {
    assert_eq!(GRACE_MS, 5000);
    assert!(is_fresh(1_000, 1_000));
    assert!(is_fresh(1_000, 5_999));
    assert!(!is_fresh(1_000, 6_000));
    assert!(!is_fresh(0, u64::MAX));
    assert!(is_fresh(2_000, 1_000));
    assert!(is_fresh(u64::MAX, 0));
}

#[test]
fn the_disk_says_what_exists() {
    let mut disk = Disk::new();
    disk.add_dir(b"/a");
    disk.add_file(b"/a/one", Some(b"1"));
    disk.add_file(b"/a/two", None);
    disk.add_file(b"/a/one", Some(b"again"));
    disk.add_dir(b"/a/two");
    assert!(disk.has(b"/a"));
    assert!(disk.has(b"/a/one"));
    assert!(!disk.has(b"/a/"));
    assert!(!disk.has(b"/a/three"));
    assert!(disk.is_dir(b"/a"));
    assert!(!disk.is_dir(b"/a/one"));
    assert!(!disk.is_dir(b"/a/two"));
    assert!(!disk.is_dir(b"/b"));
    assert_eq!(disk.read(b"/a/one"), Some(&b"1"[..]));
    assert_eq!(disk.read(b"/a/two"), None);
    assert_eq!(disk.read(b"/a"), None);
    assert_eq!(disk.read(b"/b"), None);
}

#[test]
fn a_directory_lists_what_lies_directly_in_it() {
    let mut disk = Disk::new();
    disk.add_file(b"/a/z", None);
    disk.add_dir(b"/a");
    disk.add_dir(b"/a/b");
    disk.add_file(b"/a/b/c", None);
    disk.add_file(b"/ab", None);
    disk.add_file(b"/a/", None);
    disk.add_file(b"/a/y", None);
    disk.add_file(b"rel", None);
    let expected: Vec<&[u8]> = vec![b"/a/z", b"/a/b", b"/a/y"];
    assert_eq!(disk.read_dir(b"/a"), expected);
    assert_eq!(disk.read_dir(b"/a/"), expected);
    let expected: Vec<&[u8]> = vec![b"/a/b/c"];
    assert_eq!(disk.read_dir(b"/a/b"), expected);
    let expected: Vec<&[u8]> = vec![b"/a", b"/ab"];
    assert_eq!(disk.read_dir(b"/"), expected);
    let expected: Vec<&[u8]> = vec![b"rel"];
    assert_eq!(disk.read_dir(b""), expected);
    assert!(disk.read_dir(b"/c").is_empty());
    assert!(lies_in(b"/a", b"/a/b"));
    assert!(!lies_in(b"/a", b"/a"));
    assert!(!lies_in(b"/a", b"/a/"));
    assert!(!lies_in(b"/a", b"/a/b/c"));
    assert!(!lies_in(b"/a", b"/ab"));
}

#[test]
fn paths_are_joined_with_one_slash() {
    assert_eq!(join_path(b"/a", b"b"), b"/a/b");
    assert_eq!(join_path(b"/a/", b"b"), b"/a/b");
    assert_eq!(join_path(b"/", b"b"), b"/b");
    assert_eq!(join_path(b"", b"b"), b"b");
    assert_eq!(join_path(b"a", b""), b"a/");
    assert_eq!(append(b"ab", b"cd"), b"abcd");
}

#[test]
fn bytes_are_compared_trimmed_and_searched() {
    assert!(bytes_eq(b"abc", b"abc"));
    assert!(!bytes_eq(b"abc", b"abd"));
    assert!(!bytes_eq(b"abc", b"ab"));
    assert!(starts_with(b"abc", b"ab"));
    assert!(starts_with(b"abc", b""));
    assert!(!starts_with(b"ab", b"abc"));
    assert_eq!(trim_ascii(b" \t\r\n\x0ca b\x0c\n\r\t "), b"a b");
    assert_eq!(trim_ascii(b"\x0bab\x0b"), b"\x0bab\x0b");
    assert_eq!(trim_ascii(b"  "), b"");
    assert_eq!(trim_quotes(b"''a'b''"), b"a'b");
    assert_eq!(trim_quotes(b"'''"), b"");
    assert_eq!(find_last(b"a/b/c", b'/'), Some(3));
    assert_eq!(find_last(b"abc", b'/'), None);
    assert!(contains_bytes(b"maskable", b"ask"));
    assert!(contains_bytes(b"maskable", b""));
    assert!(contains_bytes(b"", b""));
    assert!(!contains_bytes(b"mask", b"masks"));
    assert!(!contains_bytes(b"mask", b"x"));
    assert_eq!(to_lower(b"AZ az @[ \xc9"), b"az az @[ \xc9");
    assert_eq!(utf8_string(b"caf\xc3\xa9"), Some(String::from("café")));
    assert_eq!(utf8_string(b"caf\xe9"), None);
}

#[test]
fn byte_strings_are_ordered_by_their_first_difference() {
    assert!(bytes_less(b"", b"a"));
    assert!(!bytes_less(b"", b""));
    assert!(!bytes_less(b"a", b""));
    assert!(bytes_less(b"Yaru", b"gnome"));
    assert!(bytes_less(b"Arc", b"Arc-Dark"));
    assert!(!bytes_less(b"Arc-Dark", b"Arc"));
    assert!(bytes_less(b"ab", b"b"));
    assert!(!bytes_less(b"abc", b"abc"));
    assert!(bytes_less(b"a\x7f", b"a\x80"));
}

#[test]
fn numbers_are_written_in_decimal() {
    assert_eq!(to_decimal(0), b"0");
    assert_eq!(to_decimal(7), b"7");
    assert_eq!(to_decimal(10), b"10");
    assert_eq!(to_decimal(512), b"512");
    assert_eq!(to_decimal(65535), b"65535");
}
