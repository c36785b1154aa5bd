use wordcount::delims::isdelim;
use wordcount::job::Job;

fn entry(w: &str, n: usize) -> (Vec<u8>, usize) {
    (w.as_bytes().to_vec(), n)
}

fn run(buf: &[u8], n: usize) -> Vec<(Vec<u8>, usize)> {
    Job::new(buf, n, isdelim).run()
}

#[test]
fn run_empty_buffer() {
    assert_eq!(run(b"", 1), vec![]);
    assert_eq!(run(b"", 7), vec![]);
}

#[test]
fn run_two_words_on_two_threads() {
    assert_eq!(run(b"hello world", 2), vec![entry("hello", 1), entry("world", 1)]);
}

#[test]
fn run_eight_words_on_three_threads() {
    let expected: Vec<_> = ["a", "b", "c", "d", "e", "f", "g", "h"]
        .iter()
        .map(|w| entry(w, 1))
        .collect();
    assert_eq!(run(b"a b c d e f g h", 3), expected);
}

#[test]
fn run_uneven_words_on_three_threads() {
    assert_eq!(
        run(b"a b c ef", 3),
        vec![entry("a", 1), entry("b", 1), entry("c", 1), entry("ef", 1)]
    );
}

#[test]
fn run_repeated_words_on_four_threads() {
    assert_eq!(
        run(b"the cat the dog the cat", 4),
        vec![entry("cat", 2), entry("dog", 1), entry("the", 3)]
    );
}

#[test]
fn run_same_result_for_every_thread_count() {
    let buf = b"to be, or not to be: that is the question. To be!";
    let one = run(buf, 1);
    for n in 2..60 {
        assert_eq!(run(buf, n), one);
    }
    assert_eq!(
        one,
        vec![
            entry("To", 1),
            entry("be", 3),
            entry("is", 1),
            entry("not", 1),
            entry("or", 1),
            entry("question", 1),
            entry("that", 1),
            entry("the", 1),
            entry("to", 2),
        ]
    );
}

#[test]
fn run_far_more_threads_than_bytes() {
    assert_eq!(run(b"ab cd ab", 1000), run(b"ab cd ab", 1));
    assert_eq!(run(b"ab cd ab", 1000), vec![entry("ab", 2), entry("cd", 1)]);
}

#[test]
fn run_only_delimiters() {
    assert_eq!(run(b" ,.;\t\n!? ", 1), vec![]);
    assert_eq!(run(b" ,.;\t\n!? ", 3), vec![]);
}

#[test]
fn run_words_are_case_sensitive_bytes() {
    assert_eq!(
        run(b"Word word WORD word", 2),
        vec![entry("WORD", 1), entry("Word", 1), entry("word", 2)]
    );
}

#[test]
fn run_prefix_sorts_first() {
    assert_eq!(
        run(b"abc ab abcd a", 2),
        vec![entry("a", 1), entry("ab", 1), entry("abc", 1), entry("abcd", 1)]
    );
}

#[test]
fn run_high_bytes_sort_after_ascii() {
    let buf = [0xffu8, b' ', b'z', b' ', 0x80, b' ', 0xff];
    assert_eq!(run(&buf, 2), vec![(vec![b'z'], 1), (vec![0x80], 1), (vec![0xff], 2)]);
}
