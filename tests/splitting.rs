use lazy_split::{char_width, until_char, Delimiter, Splitter};

#[test]
fn splitter_test() {
    let mut splitter = Splitter::new("hi there", "e");

    assert_eq!(splitter.next(), Some("hi th"));
    assert_eq!(splitter.next(), Some("r"));
    assert_eq!(splitter.next(), Some(""));
    assert_eq!(splitter.next(), None);
}

#[test]
fn until_char_test() {
    assert_eq!(until_char("hello world", 'o'), "hell")
}

#[test]
fn splits_on_a_char() {
    let mut splitter = Splitter::new("hi there", 'e');
    assert_eq!(splitter.next(), Some("hi th"));
    assert_eq!(splitter.next(), Some("r"));
    assert_eq!(splitter.next(), Some(""));
    assert_eq!(splitter.next(), None);
}

#[test]
fn every_byte_a_delimiter() {
    let mut splitter = Splitter::new("aaa", 'a');
    for _ in 0..4 {
        assert_eq!(splitter.next(), Some(""));
    }
    assert_eq!(splitter.next(), None);
}

#[test]
fn no_match_yields_whole_haystack() {
    let mut splitter = Splitter::new("abc", "xyz");
    assert_eq!(splitter.next(), Some("abc"));
    assert_eq!(splitter.next(), None);
    assert_eq!(splitter.next(), None);
}

#[test]
fn empty_haystack_yields_one_empty_segment() {
    let mut splitter = Splitter::new("", ',');
    assert_eq!(splitter.next(), Some(""));
    assert_eq!(splitter.next(), None);
    let mut by_str = Splitter::new("", "--");
    assert_eq!(by_str.next(), Some(""));
    assert_eq!(by_str.next(), None);
}

#[test]
fn exhausted_stays_exhausted() {
    let mut splitter = Splitter::new("a,b", ',');
    assert_eq!(splitter.next(), Some("a"));
    assert_eq!(splitter.next(), Some("b"));
    for _ in 0..5 {
        assert_eq!(splitter.next(), None);
    }
}

#[test]
fn multi_byte_string_delimiter() {
    let mut splitter = Splitter::new("one<->two<->", "<->");
    assert_eq!(splitter.next(), Some("one"));
    assert_eq!(splitter.next(), Some("two"));
    assert_eq!(splitter.next(), Some(""));
    assert_eq!(splitter.next(), None);
}

#[test]
fn delimiter_at_the_start() {
    let mut splitter = Splitter::new(",x", ',');
    assert_eq!(splitter.next(), Some(""));
    assert_eq!(splitter.next(), Some("x"));
    assert_eq!(splitter.next(), None);
}

#[test]
fn multi_byte_char_delimiter() {
    let mut splitter = Splitter::new("caf\u{e9}\u{e9}t\u{e9}", '\u{e9}');
    assert_eq!(splitter.next(), Some("caf"));
    assert_eq!(splitter.next(), Some(""));
    assert_eq!(splitter.next(), Some("t"));
    assert_eq!(splitter.next(), Some(""));
    assert_eq!(splitter.next(), None);
}

#[test]
fn four_byte_char_delimiter() {
    let mut splitter = Splitter::new("x\u{1f600}y", '\u{1f600}');
    assert_eq!(splitter.next(), Some("x"));
    assert_eq!(splitter.next(), Some("y"));
    assert_eq!(splitter.next(), None);
}

#[test]
fn segments_and_delimiters_rebuild_haystack() {
    let hay = "a--b----c--";
    let mut splitter = Splitter::new(hay, "--");
    let mut parts: Vec<&str> = Vec::new();
    while let Some(seg) = splitter.next() {
        parts.push(seg);
    }
    assert_eq!(parts, vec!["a", "b", "", "c", ""]);
    assert_eq!(parts.join("--"), hay);
}

#[test]
fn segments_borrow_the_haystack() {
    let hay = String::from("left|right");
    let mut splitter = Splitter::new(hay.as_str(), '|');
    let left = splitter.next().unwrap();
    let right = splitter.next().unwrap();
    let base = hay.as_ptr() as usize;
    assert_eq!(left.as_ptr() as usize, base);
    assert_eq!(right.as_ptr() as usize, base + 5);
}

#[test]
fn until_char_without_match_is_whole_text() {
    assert_eq!(until_char("hello", 'z'), "hello");
    assert_eq!(until_char("", 'z'), "");
}

#[test]
fn until_char_with_string_delimiter() {
    assert_eq!(until_char("key=value", "="), "key");
    assert_eq!(until_char("a::b::c", "::"), "a");
}

#[test]
fn find_next_reports_byte_ranges() {
    assert_eq!("lo".find_next("hello"), Some((3, 5)));
    assert_eq!('\u{e9}'.find_next("caf\u{e9}"), Some((3, 5)));
    assert_eq!('z'.find_next("caf\u{e9}"), None);
    assert_eq!("".find_next("abc"), Some((0, 0)));
}

#[test]
fn char_width_of_each_encoding_length() {
    assert_eq!(char_width('a'), 1);
    assert_eq!(char_width('\u{e9}'), 2);
    assert_eq!(char_width('\u{20ac}'), 3);
    assert_eq!(char_width('\u{1f600}'), 4);
}
