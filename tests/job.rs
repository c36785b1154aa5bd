use wordcount::job::Job;

#[test]
fn mapping_empty_input_on_one_thread() {
    let job = Job::new(b"", 1, |&c| c.is_ascii_whitespace());
    assert_eq!(job.iter().next(), None);
}

#[test]
fn mapping_empty_input_on_10_threads() {
    let job = Job::new(b"", 10, |&c| c.is_ascii_whitespace());
    assert_eq!(job.iter().next(), None);
}

#[test]
fn mapping_two_words_on_two_threads() {
    let v = b"hello world";
    let job = Job::new(v, 2, |&c| c.is_ascii_whitespace());
    let mut it = job.iter();
    assert_eq!(&v[it.next().unwrap()], b"hello");
    assert_eq!(&v[it.next().unwrap()], b" world");
    assert_eq!(it.next(), None);
}

#[test]
fn mapping_8_words_on_3_threads() {
    let v = b"a b c d e f g h";
    let job = Job::new(v, 3, |&c| c.is_ascii_whitespace());
    let mut it = job.iter();
    assert_eq!(&v[it.next().unwrap()], b"a b c");
    assert_eq!(&v[it.next().unwrap()], b" d e f");
    assert_eq!(&v[it.next().unwrap()], b" g h");
    assert_eq!(it.next(), None);
}

#[test]
fn mapping_4_uneven_words_on_3_threads() {
    let v = b"a b c ef";
    let job = Job::new(v, 3, |&c| c.is_ascii_whitespace());
    let mut it = job.iter();
    assert_eq!(&v[it.next().unwrap()], b"a b");
    assert_eq!(&v[it.next().unwrap()], b" c");
    assert_eq!(&v[it.next().unwrap()], b" ef");
    assert_eq!(it.next(), None);
}

#[test]
fn mapping_one_word_on_two_threads() {
    let v = b"bouh";
    let job = Job::new(v, 2, |&c| c.is_ascii_whitespace());
    let mut it = job.iter();
    assert_eq!(&v[it.next().unwrap()], b"bouh");
    assert_eq!(it.next(), None);
}

#[test]
fn more_threads_than_bytes_gives_non_empty_ranges() {
    let v = b"a b";
    let job = Job::new(v, 10, |&c| c.is_ascii_whitespace());
    assert_eq!(job.ranges(), vec![0..1, 1..3]);
}

#[test]
fn ranges_match_the_iterator() {
    let v = b"a b c d e f g h";
    let job = Job::new(v, 3, |&c| c.is_ascii_whitespace());
    assert_eq!(job.ranges(), vec![0..5, 5..11, 11..15]);
}

#[test]
fn repartitioning_gives_the_same_ranges() {
    let v = b"the cat the dog the cat";
    let job = Job::new(v, 4, |&c| c.is_ascii_whitespace());
    let first = job.ranges();
    let second = job.ranges();
    assert_eq!(first, second);
    let again = Job::new(v, 4, |&c| c.is_ascii_whitespace());
    assert_eq!(again.ranges(), first);
    let mut it = job.iter();
    let mut walked = Vec::new();
    while let Some(r) = it.next() {
        walked.push(r);
    }
    assert_eq!(walked, first);
}

#[test]
fn inner_boundaries_fall_on_delimiters() {
    let v = b"xx x x ";
    let job = Job::new(v, 3, |&c| c.is_ascii_whitespace());
    let ranges = job.ranges();
    assert_eq!(ranges, vec![0..2, 2..4, 4..6, 6..7]);
    for r in &ranges[..ranges.len() - 1] {
        assert!(v[r.end].is_ascii_whitespace());
    }
    assert_eq!(ranges.last().unwrap().end, v.len());
}

#[test]
fn buffer_and_delims_are_kept() {
    let v = b"one two";
    let job = Job::new(v, 2, |&c| c == b' ');
    assert_eq!(job.buffer(), b"one two");
    assert!(job.delims().contains(b' '));
    assert!(!job.delims().contains(b'\t'));
}
