use automata_lab::state_set::StateSet;
use automata_lab::word_set::{digest, same_text, WordSet};

#[test]
fn state_set_insert_and_contains() {
    let mut set = StateSet::empty(5);
    assert_eq!(set.capacity(), 5);
    assert!(set.is_empty());
    assert!(!set.contains(3));
    set.insert(3);
    assert!(set.contains(3));
    assert!(!set.contains(2));
    assert!(!set.contains(5));
    assert!(!set.contains(usize::MAX));
    assert!(!set.is_empty());
    set.insert(3);
    assert!(set.contains(3));
    assert_eq!(set.capacity(), 5);
}

#[test]
fn state_set_intersects() {
    let mut left = StateSet::empty(4);
    let mut right = StateSet::empty(6);
    assert!(!left.intersects(&right));
    left.insert(1);
    right.insert(2);
    right.insert(5);
    assert!(!left.intersects(&right));
    assert!(!right.intersects(&left));
    left.insert(2);
    assert!(left.intersects(&right));
    assert!(right.intersects(&left));
    assert!(!StateSet::empty(0).intersects(&right));
}

#[test]
fn same_text_compares_bytes() {
    assert!(same_text("", ""));
    assert!(same_text("abc", "abc"));
    assert!(!same_text("abc", "abd"));
    assert!(!same_text("abc", "ab"));
    assert!(!same_text("", "a"));
    assert!(same_text("é√", "é√"));
    assert!(!same_text("é", "e"));
}

#[test]
fn digest_mixes_every_byte() {
    assert_eq!(digest(""), 0xcbf2_9ce4_8422_2325);
    assert_eq!(digest("a"), 0xaf63_dc4c_8601_ec8c);
    assert_eq!(digest("foobar"), 0x8594_4171_f739_67e8);
    assert_ne!(digest("ab"), digest("ba"));
}

#[test]
fn word_set_holds_many_words() {
    let mut set = WordSet::new();
    for i in 0..3000u32 {
        assert!(set.insert(format!("w{}", i)));
    }
    for i in 0..3000u32 {
        assert!(!set.insert(format!("w{}", i)));
        assert!(set.contains(&format!("w{}", i)));
    }
    assert!(!set.contains("w3000"));
    assert_eq!(set.len(), 3000);
    assert_eq!(set.get(2999), "w2999");
}

#[test]
fn word_set_keeps_each_word_once() {
    let mut set = WordSet::new();
    assert!(set.is_empty());
    assert_eq!(set.len(), 0);
    assert!(!set.contains("ab"));
    assert!(set.insert(String::from("ab")));
    assert!(set.insert(String::from("")));
    assert!(!set.insert(String::from("ab")));
    assert!(set.insert(String::from("ba")));
    assert_eq!(set.len(), 3);
    assert!(!set.is_empty());
    assert!(set.contains("ab"));
    assert!(set.contains(""));
    assert!(set.contains("ba"));
    assert!(!set.contains("a"));
    assert_eq!(set.get(0), "ab");
    assert_eq!(set.get(1), "");
    assert_eq!(set.get(2), "ba");
}
