use std::cmp::Ordering;
use wordcount::delims::{isdelim, DelimSet};
use wordcount::lex::compare_words;
use wordcount::table::{merge, MergeSortIter};
use wordcount::words::count_words;

fn entry(w: &str, n: usize) -> (Vec<u8>, usize) {
    (w.as_bytes().to_vec(), n)
}

#[test]
fn merge_sums_equal_keys() {
    let a = vec![entry("a", 1), entry("c", 2)];
    let b = vec![entry("b", 5), entry("c", 3), entry("d", 1)];
    assert_eq!(
        merge(a, b),
        vec![entry("a", 1), entry("b", 5), entry("c", 5), entry("d", 1)]
    );
}

#[test]
fn merge_is_commutative() {
    let a = vec![entry("apple", 2), entry("kiwi", 1), entry("pear", 4)];
    let b = vec![entry("banana", 3), entry("kiwi", 6)];
    assert_eq!(merge(a.clone(), b.clone()), merge(b, a));
}

#[test]
fn merge_is_associative() {
    let a = vec![entry("a", 1), entry("m", 2)];
    let b = vec![entry("b", 1), entry("m", 3), entry("z", 1)];
    let c = vec![entry("a", 4), entry("z", 2)];
    let left = merge(merge(a.clone(), b.clone()), c.clone());
    let right = merge(a, merge(b, c));
    assert_eq!(left, right);
    assert_eq!(left, vec![entry("a", 5), entry("b", 1), entry("m", 5), entry("z", 3)]);
}

#[test]
fn merge_with_empty() {
    let a = vec![entry("x", 1)];
    assert_eq!(merge(a.clone(), vec![]), a);
    assert_eq!(merge(vec![], a.clone()), a);
    assert_eq!(merge(vec![], vec![]), vec![]);
}

#[test]
fn merge_iter_hands_out_in_order() {
    let mut it = MergeSortIter::new(vec![entry("b", 1)], vec![entry("a", 2), entry("b", 3)]);
    assert_eq!(it.next(), Some(entry("a", 2)));
    assert_eq!(it.next(), Some(entry("b", 4)));
    assert_eq!(it.next(), None);
    assert_eq!(it.next(), None);
}

#[test]
fn count_words_counts_and_sorts() {
    let d = DelimSet::from_fn(isdelim);
    assert_eq!(
        count_words(b"  b a,b;;c\tb  ", &d),
        vec![entry("a", 1), entry("b", 3), entry("c", 1)]
    );
    assert_eq!(count_words(b"", &d), vec![]);
    assert_eq!(count_words(b" .,", &d), vec![]);
}

#[test]
fn compare_words_is_lexicographic() {
    assert_eq!(compare_words(b"ab", b"abc"), Ordering::Less);
    assert_eq!(compare_words(b"b", b"abc"), Ordering::Greater);
    assert_eq!(compare_words(b"abc", b"abc"), Ordering::Equal);
    assert_eq!(compare_words(b"", b""), Ordering::Equal);
    assert_eq!(compare_words(b"", b"a"), Ordering::Less);
}

#[test]
fn isdelim_is_space_or_punctuation() {
    for c in 0u8..=255 {
        let expected = c.is_ascii_whitespace() || c.is_ascii_punctuation() || c == 11;
        assert_eq!(isdelim(&c), expected, "byte {}", c);
    }
}

#[test]
fn delim_set_tabulates_the_predicate() {
    let d = DelimSet::from_fn(|&c| c == b'x' || c == 200);
    for c in 0u8..=255 {
        assert_eq!(d.contains(c), c == b'x' || c == 200);
    }
}
