use lindera_dictionary::bytes::{bytes_eq, bytes_lt, slice_between, split_text};
use lindera_dictionary::lines::split_lines;

const TEXTS: [&str; 16] = [
    "",
    ",",
    ",,",
    "a",
    "a,b",
    "a,b,",
    ",a,b",
    "a,,b",
    "すし,1,スシ",
    "東京,2,6,500,名詞,固有名詞,地名,一般,*,*,東京,トウキョウ,トーキョー",
    "a\nb",
    "a\nb\n",
    "a\r\nb\r\n",
    "\n\n",
    "a\r",
    "𠮷野家,牛丼,ヨシノヤ\n\r\n🍣,鮨,スシ\r",
];

#[test]
fn split_text_splits_as_std_does() {
    for text in TEXTS.iter() {
        let expected: Vec<&str> = text.split(',').collect();
        assert_eq!(split_text(text, b','), expected, "{:?}", text);
    }
}

#[test]
fn split_text_exact_pieces() {
    assert_eq!(split_text("", b','), vec![""]);
    assert_eq!(split_text(",", b','), vec!["", ""]);
    assert_eq!(split_text("a,b,", b','), vec!["a", "b", ""]);
    assert_eq!(split_text("すし,1,スシ", b','), vec!["すし", "1", "スシ"]);
    assert_eq!(split_text("a b", b' '), vec!["a", "b"]);
}

#[test]
fn split_lines_splits_as_std_does() {
    for text in TEXTS.iter() {
        let expected: Vec<&str> = text.lines().collect();
        assert_eq!(split_lines(text), expected, "{:?}", text);
    }
}

#[test]
fn split_lines_exact_lines() {
    assert_eq!(split_lines(""), Vec::<&str>::new());
    assert_eq!(split_lines("a"), vec!["a"]);
    assert_eq!(split_lines("a\n"), vec!["a"]);
    assert_eq!(split_lines("a\n\n"), vec!["a", ""]);
    assert_eq!(split_lines("a\r\nb"), vec!["a", "b"]);
    assert_eq!(split_lines("a\rb\n"), vec!["a\rb"]);
    assert_eq!(split_lines("foo\nbar\n\r\nbaz\r"), vec!["foo", "bar", "", "baz\r"]);
    assert_eq!(split_lines("a\r\r\n"), vec!["a\r"]);
}

#[test]
fn bytes_lt_is_the_order_of_slices() {
    let samples: [&[u8]; 9] =
        [b"", b"a", b"aa", b"ab", b"b", b"\x00", b"\xff", "すし".as_bytes(), "スシ".as_bytes()];
    for a in samples.iter() {
        for b in samples.iter() {
            assert_eq!(bytes_lt(a, b), a < b, "{:?} {:?}", a, b);
            assert_eq!(bytes_eq(a, b), a == b, "{:?} {:?}", a, b);
        }
    }
}

#[test]
fn bytes_lt_exact_cases() {
    assert!(bytes_lt(b"", b"a"));
    assert!(!bytes_lt(b"a", b""));
    assert!(!bytes_lt(b"a", b"a"));
    assert!(bytes_lt(b"a", b"ab"));
    assert!(bytes_lt(b"ab", b"b"));
    assert!(bytes_lt("すし".as_bytes(), "スシ".as_bytes()));
}

#[test]
fn slice_between_cuts_at_bytes() {
    assert_eq!(slice_between("すし,1", 0, 6), "すし");
    assert_eq!(slice_between("すし,1", 7, 8), "1");
    assert_eq!(slice_between("すし,1", 3, 3), "");
}
