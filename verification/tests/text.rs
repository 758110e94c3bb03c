//! Texts against the standard library.

use kintuba::text::{
    contains, digit, ends_with, equal_ignoring_case, find, lines, matches_at, parse_usize,
    position, split, split_once, text_precedes, to_ascii_lowercase, to_ascii_uppercase, to_chars,
    to_decimal, to_text, trim, trim_set, white, words, CharSet,
};

/// A stream of short texts.
struct Stream(u64);

impl Stream {
    fn draw(&mut self) -> u64 {
        self.0 ^= self.0 << 13;
        self.0 ^= self.0 >> 7;
        self.0 ^= self.0 << 17;
        self.0 >> 11
    }

    fn text(&mut self, alphabet: &str, len: u64) -> String {
        let letters: Vec<char> = alphabet.chars().collect();
        let n = self.draw() % (len + 1);
        (0..n).map(|_| letters[(self.draw() % letters.len() as u64) as usize]).collect()
    }
}

fn chars(s: &str) -> Vec<char> {
    s.chars().collect()
}

fn texts(v: Vec<Vec<char>>) -> Vec<String> {
    v.into_iter().map(|c| c.into_iter().collect()).collect()
}

/// How many characters stand before a byte position.
fn place(s: &str, at: usize) -> usize {
    s[..at].chars().count()
}

#[test]
fn whitespace_and_digits_are_those_of_the_standard_library() {
    for c in '\0'..=char::MAX {
        assert_eq!(white(c), c.is_whitespace(), "{c:?}");
        assert_eq!(digit(c), c.is_ascii_digit(), "{c:?}");
    }
}

#[test]
fn texts_are_taken_apart_like_the_standard_library_does() {
    let mut s = Stream(99);
    for _ in 0..4000 {
        let t = s.text(" \t\r\n:ab\u{3000}é\"", 12);
        let c = chars(&t);
        assert_eq!(to_chars(&t), c);
        assert_eq!(to_text(&c), t);
        assert_eq!(to_text(trim(&c)), t.trim());
        assert_eq!(texts(words(&c)), t.split_whitespace().collect::<Vec<_>>());
        assert_eq!(texts(lines(&c)), t.lines().collect::<Vec<_>>());
        assert_eq!(texts(split(&c, ':')), t.split(':').collect::<Vec<_>>());
        assert_eq!(to_text(trim_set(&c, CharSet::Quote)), t.trim_matches('"'));
        assert_eq!(position(&c, 'a'), t.find('a').map(|i| place(&t, i)));
        for pat in [":", "::", "ab", "\r\n", "é"] {
            let p = chars(pat);
            assert_eq!(find(&c, &p), t.find(pat).map(|i| place(&t, i)), "{t:?} {pat:?}");
            assert_eq!(contains(&c, &p), t.contains(pat));
            assert_eq!(ends_with(&c, &p), t.ends_with(pat));
            assert_eq!(matches_at(&c, &p, 0), t.starts_with(pat));
            let halves = split_once(&c, &p).map(|(a, b)| (to_text(a), to_text(b)));
            let want = t.split_once(pat).map(|(a, b)| (a.to_string(), b.to_string()));
            assert_eq!(halves, want);
        }
    }
}

#[test]
fn texts_are_compared_like_the_standard_library_does() {
    let mut s = Stream(7);
    for _ in 0..4000 {
        let (a, b) = (s.text("abABé_1", 4), s.text("abABé_1", 4));
        let (x, y) = (chars(&a), chars(&b));
        assert_eq!(text_precedes(&x, &y), a < b, "{a:?} {b:?}");
        assert_eq!(equal_ignoring_case(&x, &y), a.eq_ignore_ascii_case(&b));
        assert_eq!(to_text(&to_ascii_lowercase(&x)), a.to_ascii_lowercase());
        assert_eq!(to_text(&to_ascii_uppercase(&x)), a.to_ascii_uppercase());
    }
}

#[test]
fn integers_are_read_and_written_like_the_standard_library_does() {
    let mut s = Stream(31);
    for _ in 0..4000 {
        let t = s.text("+-0129 ", 6);
        assert_eq!(parse_usize(&chars(&t)), t.parse::<usize>().ok(), "{t:?}");
        let n = s.draw() as usize;
        assert_eq!(to_text(&to_decimal(n)), n.to_string());
    }
    for t in ["18446744073709551615", "18446744073709551616", "+18446744073709551615"] {
        assert_eq!(parse_usize(&chars(t)), t.parse::<usize>().ok());
    }
    assert_eq!(to_text(&to_decimal(usize::MAX)), usize::MAX.to_string());
}
