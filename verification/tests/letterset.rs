use fivewords::letterset::WordSet;

fn mask(word: &[u8]) -> u32 {
    WordSet::from_word(word).0
}

#[test]
fn from_word_single_letters() {
    // 'A' is the highest of the 26 low bits, 'Z' the lowest
    assert_eq!(mask(b"A"), 1 << 25);
    assert_eq!(mask(b"Z"), 1);
    assert_eq!(mask(b"ABCDE"), 0b11111 << 21);
    assert_eq!(mask(b"VWXYZ"), 0b11111);
}

#[test]
fn from_word_case_insensitive() {
    assert_eq!(mask(b"abcde"), mask(b"ABCDE"));
    assert_eq!(mask(b"FjOrD"), mask(b"fjord"));
}

#[test]
fn from_word_anagrams_share_mask() {
    assert_eq!(mask(b"LEAST"), mask(b"SLATE"));
    assert_eq!(mask(b"drojf"), mask(b"fjord"));
}

#[test]
fn size_counts_distinct_letters() {
    assert_eq!(WordSet::from_word(b"ABCDE").size(), 5);
    assert_eq!(WordSet::from_word(b"EERIE").size(), 3);
    assert_eq!(WordSet::from_word(b"AAAAA").size(), 1);
    assert_eq!(WordSet::empty().size(), 0);
}

#[test]
fn intersection_and_union() {
    let ab = WordSet::from_word(b"AB");
    let bc = WordSet::from_word(b"BC");
    assert_eq!(ab.intersection(bc).0, mask(b"B"));
    assert_eq!(ab.union(bc).0, mask(b"ABC"));
    assert_eq!(ab.intersection(WordSet::from_word(b"CD")), WordSet::empty());
    assert!(ab.intersection(WordSet::from_word(b"CD")).is_empty());
    assert!(!ab.is_empty());
    assert!(WordSet::empty().is_empty());
}

#[test]
fn show_renders_26_slots() {
    let w = WordSet::from_word(b"ABCDE");
    assert_eq!(w.show(), b"ABCDE---------------------".to_vec());
    let z = WordSet::from_word(b"VWXYZ");
    assert_eq!(z.show(), b"---------------------VWXYZ".to_vec());
    assert_eq!(WordSet::empty().show(), vec![b'-'; 26]);
}
