use beancount_lsp::file_path::FilePath;
use beancount_lsp::paths::{PathMap, PathSet};
use beancount_lsp::requests::{RequestId, RequestSet};
use beancount_lsp::strings;
use std::path::PathBuf;

#[test]
fn lengths_agree_with_std() {
    for s in ["", "abc", "\u{e8}\u{20ac}\u{1f389}", "a\u{1f389}\n", "\u{ffff}\u{10000}"] {
        assert_eq!(strings::byte_len(s), s.len());
        assert_eq!(strings::utf16_count(s), s.encode_utf16().count());
        for c in s.chars() {
            assert_eq!(strings::utf8_char_len(c), c.len_utf8());
        }
        for byte in 0..s.len() + 2 {
            assert_eq!(strings::is_char_boundary(s, byte), s.is_char_boundary(byte));
        }
    }
}

#[test]
fn white_space_agrees_with_std() {
    for code in 0..0x11_0000u32 {
        if let Some(c) = char::from_u32(code) {
            assert_eq!(strings::is_white_space(c), c.is_whitespace(), "{code:x}");
        }
    }
    for s in ["", " ", "a ", " a\u{2009}\u{85}", "a b", "\u{3000}\u{e8}\u{3000}\n"] {
        assert_eq!(strings::trimmed_end_len(s), s.trim_end().len());
        assert_eq!(strings::is_all_white_space(s), s.trim().is_empty());
    }
}

#[test]
fn numbers_agree_with_std() {
    for n in [0, 7, 10, 99, 100, 4_294_967_296, u64::MAX] {
        assert_eq!(strings::decimal(n), n.to_string());
    }
}

#[test]
fn strings_are_sliced_joined_and_compared() {
    let s = "a\u{e8}\u{1f389}b";
    assert_eq!(strings::slice(s, 1, 7), "\u{e8}\u{1f389}");
    assert_eq!(strings::slice(s, 3, 3), "");
    assert_eq!(strings::slice(s, 0, 8), s);
    assert_eq!(strings::join("ab", "\u{e8}"), "ab\u{e8}");
    assert!(strings::equal("ab\u{e8}", "ab\u{e8}"));
    assert!(!strings::equal("ab", "abc"));
    assert!(!strings::equal("abd", "abc"));
    assert!(strings::equal("", ""));
}

#[test]
fn path_maps_keep_one_value_per_path() {
    let mut map: PathMap<u32> = PathMap::new();
    assert_eq!(map.len(), 0);
    map.insert(FilePath::new("b"), 1);
    map.insert(FilePath::new("a"), 2);
    map.insert(FilePath::new("b"), 3);
    assert_eq!(map.len(), 2);
    assert_eq!(map.get(&FilePath::new("b")), Some(&3));
    assert_eq!(map.entry(0), (&FilePath::new("b"), &3));
    assert_eq!(map.entry(1), (&FilePath::new("a"), &2));
    assert_eq!(map.keys(), vec![FilePath::new("b"), FilePath::new("a")]);
    assert_eq!(map.place(&FilePath::new("a")), Some(1));
    assert_eq!(map.place(&FilePath::new("c")), None);
    assert_eq!(map.remove(&FilePath::new("b")), Some(3));
    assert_eq!(map.remove(&FilePath::new("b")), None);
    assert!(!map.contains_key(&FilePath::new("b")));
    assert!(map.contains_key(&FilePath::new("a")));
    let mut other: PathMap<u8> = PathMap::new();
    assert_eq!(map.keys_missing_in(&other), vec![FilePath::new("a")]);
    other.insert(FilePath::new("a"), 0);
    assert!(map.keys_missing_in(&other).is_empty());
}

#[test]
fn path_sets_tell_what_is_new() {
    let mut set = PathSet::new();
    assert!(set.insert(FilePath::new("a")));
    assert!(!set.insert(FilePath::new("a")));
    assert!(set.contains(&FilePath::new("a")));
    assert!(!set.contains(&FilePath::new("b")));
    let mut map: PathMap<u32> = PathMap::new();
    map.insert(FilePath::new("a"), 1);
    map.insert(FilePath::new("b"), 1);
    assert_eq!(map.keys_missing_in_both(&PathMap::<u8>::new(), &set), vec![FilePath::new("b")]);
    assert!(set.remove(&FilePath::new("a")));
    assert!(!set.remove(&FilePath::new("a")));
}

#[test]
fn spellings_go_by_their_components() {
    let parts = ["", ".", "a", "/", "//", "..", "./"];
    let mut spellings = Vec::new();
    for first in parts {
        for second in parts {
            for third in parts {
                spellings.push(format!("{first}{second}{third}"));
            }
        }
    }
    for a in &spellings {
        assert_eq!(&FilePath::new(a).display(), a);
        assert_eq!(FilePath::new(a).as_path(), &PathBuf::from(a));
        for b in &spellings {
            let same = FilePath::new(a).same(&FilePath::new(b));
            assert_eq!(same, PathBuf::from(a) == PathBuf::from(b), "{a:?} {b:?}");
            assert_eq!(FilePath::new(a).clone().same(&FilePath::new(b)), same);
        }
    }
    assert!(FilePath::new("/a/b").same(&FilePath::new("//a/./b//")));
    assert!(!FilePath::new("/a/b").same(&FilePath::new("a/b")));
    assert!(!FilePath::new("./a").same(&FilePath::new("a")));
    assert!(!FilePath::new("/a/../b").same(&FilePath::new("/b")));
    assert!(!FilePath::new("/b\u{fc}cher").same(&FilePath::new("/bucher")));
}

#[test]
fn a_path_keeps_the_spelling_that_it_came_in_with() {
    let mut map: PathMap<u32> = PathMap::new();
    map.insert(FilePath::new("/a//b"), 1);
    map.insert(FilePath::new("/a/b"), 2);
    assert_eq!(map.len(), 1);
    assert_eq!(map.entry(0).0.display(), "/a//b");
    assert_eq!(map.get(&FilePath::new("/a/b/.")), Some(&2));
}

#[test]
fn request_ids_tell_numbers_from_texts() {
    let number = RequestId::Number(1);
    let text = RequestId::Text("1".to_string());
    assert!(!number.same(&text));
    assert!(!number.same(&RequestId::Number(2)));
    assert!(number.same(&RequestId::Number(1)));
    assert!(text.same(&RequestId::Text("1".to_string())));
    let mut set = RequestSet::new();
    set.insert(number.clone());
    set.insert(number.clone());
    assert!(set.contains(&number));
    assert!(!set.contains(&text));
    set.insert(text.clone());
    set.remove(&number);
    let copy = set.clone();
    assert!(!set.contains(&number));
    assert!(set.contains(&text));
    set.remove(&text);
    assert!(copy.contains(&text));
}
