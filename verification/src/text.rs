//! Text as sequences of characters: trimming, splitting, searching, ordering.
//!
//! Every function works on `char` slices, whose views are `Seq<char>`; the
//! specification functions say what the results are in those terms.

use vstd::prelude::*;

verus! {

/// `String::push` appends one character to the end of the string.
pub assume_specification[ String::push ](s: &mut String, c: char)
    ensures
        final(s)@ == old(s)@.push(c),
;

/// The characters of a string.
pub fn to_chars(s: &str) -> (r: Vec<char>)
    ensures
        r@ == s@,
{
    let mut r: Vec<char> = Vec::new();
    for c in it: s.chars()
        invariant
            r@ == it.seq().take(it.index()),
            it.seq() == s@,
    {
        r.push(c);
    }
    assert(r@ == s@);
    r
}

/// The string made of some characters.
pub fn to_text(s: &[char]) -> (r: String)
    ensures
        r@ == s@,
{
    let mut r = String::new();
    let mut i: usize = 0;
    while i < s.len()
        invariant
            i <= s@.len(),
            r@ == s@.take(i as int),
        decreases s@.len() - i,
    {
        r.push(s[i]);
        i += 1;
        assert(s@.take(i as int) == s@.take(i as int - 1).push(s@[i as int - 1]));
    }
    assert(s@.take(i as int) == s@);
    r
}

// ---- character classes ----

/// The Unicode property White_Space.
pub open spec fn is_white(c: char) -> bool {
    ||| '\u{9}' <= c && c <= '\u{d}'
    ||| c == ' '
    ||| c == '\u{85}'
    ||| c == '\u{a0}'
    ||| c == '\u{1680}'
    ||| '\u{2000}' <= c && c <= '\u{200a}'
    ||| c == '\u{2028}'
    ||| c == '\u{2029}'
    ||| c == '\u{202f}'
    ||| c == '\u{205f}'
    ||| c == '\u{3000}'
}

pub open spec fn is_digit(c: char) -> bool {
    '0' <= c && c <= '9'
}

/// The value of a decimal digit.
pub open spec fn digit_value(c: char) -> nat {
    (c as u32 - '0' as u32) as nat
}

/// The lower-case form of an ASCII letter; any other character unchanged.
pub open spec fn lower(c: char) -> char {
    if 'A' <= c && c <= 'Z' {
        (c as u32 + 32) as char
    } else {
        c
    }
}

/// The upper-case form of an ASCII letter; any other character unchanged.
pub open spec fn upper(c: char) -> char {
    if 'a' <= c && c <= 'z' {
        (c as u32 - 32) as char
    } else {
        c
    }
}

/// A set of characters that trimming removes.
#[derive(Clone, Copy, PartialEq, Eq, Structural, Debug)]
pub enum CharSet {
    /// Whitespace.
    White,
    /// The double quote.
    Quote,
    /// The backslash.
    Backslash,
    /// Parentheses and commas.
    Brackets,
}

impl CharSet {
    pub open spec fn has(self, c: char) -> bool {
        match self {
            CharSet::White => is_white(c),
            CharSet::Quote => c == '"',
            CharSet::Backslash => c == '\\',
            CharSet::Brackets => c == '(' || c == ')' || c == ',',
        }
    }

    fn holds(self, c: char) -> (r: bool)
        ensures
            r == self.has(c),
    {
        match self {
            CharSet::White => white(c),
            CharSet::Quote => c == '"',
            CharSet::Backslash => c == '\\',
            CharSet::Brackets => c == '(' || c == ')' || c == ',',
        }
    }
}

/// Whether a character is whitespace.
pub fn white(c: char) -> (r: bool)
    ensures
        r == is_white(c),
{
    ('\u{9}' <= c && c <= '\u{d}') || c == ' ' || c == '\u{85}' || c == '\u{a0}' || c == '\u{1680}'
        || ('\u{2000}' <= c && c <= '\u{200a}') || c == '\u{2028}' || c == '\u{2029}' || c
        == '\u{202f}' || c == '\u{205f}' || c == '\u{3000}'
}

/// Whether a character is a decimal digit.
pub fn digit(c: char) -> (r: bool)
    ensures
        r == is_digit(c),
{
    '0' <= c && c <= '9'
}

/// Lower-cases one character if it is an ASCII letter.
pub fn to_lower(c: char) -> (r: char)
    ensures
        r == lower(c),
{
    if 'A' <= c && c <= 'Z' {
        (c as u8 + 32) as char
    } else {
        c
    }
}

/// Upper-cases one character if it is an ASCII letter.
pub fn to_upper(c: char) -> (r: char)
    ensures
        r == upper(c),
{
    if 'a' <= c && c <= 'z' {
        (c as u8 - 32) as char
    } else {
        c
    }
}

pub open spec fn lower_all(s: Seq<char>) -> Seq<char> {
    Seq::new(s.len(), |i: int| lower(s[i]))
}

pub open spec fn upper_all(s: Seq<char>) -> Seq<char> {
    Seq::new(s.len(), |i: int| upper(s[i]))
}

/// Lower-cases the ASCII letters of a text.
pub fn to_ascii_lowercase(s: &[char]) -> (r: Vec<char>)
    ensures
        r@ == lower_all(s@),
{
    let mut r: Vec<char> = Vec::new();
    let mut i: usize = 0;
    while i < s.len()
        invariant
            i <= s@.len(),
            r@ == lower_all(s@).take(i as int),
        decreases s@.len() - i,
    {
        r.push(to_lower(s[i]));
        i += 1;
        assert(lower_all(s@).take(i as int) == lower_all(s@).take(i as int - 1).push(
            lower_all(s@)[i as int - 1],
        ));
    }
    assert(lower_all(s@).take(i as int) == lower_all(s@));
    r
}

/// Upper-cases the ASCII letters of a text.
pub fn to_ascii_uppercase(s: &[char]) -> (r: Vec<char>)
    ensures
        r@ == upper_all(s@),
{
    let mut r: Vec<char> = Vec::new();
    let mut i: usize = 0;
    while i < s.len()
        invariant
            i <= s@.len(),
            r@ == upper_all(s@).take(i as int),
        decreases s@.len() - i,
    {
        r.push(to_upper(s[i]));
        i += 1;
        assert(upper_all(s@).take(i as int) == upper_all(s@).take(i as int - 1).push(
            upper_all(s@)[i as int - 1],
        ));
    }
    assert(upper_all(s@).take(i as int) == upper_all(s@));
    r
}

// ---- copying and comparing ----

/// A copy of some characters.
pub fn copy(s: &[char]) -> (r: Vec<char>)
    ensures
        r@ == s@,
{
    let mut r: Vec<char> = Vec::new();
    let mut i: usize = 0;
    while i < s.len()
        invariant
            i <= s@.len(),
            r@ == s@.take(i as int),
        decreases s@.len() - i,
    {
        r.push(s[i]);
        i += 1;
        assert(s@.take(i as int) == s@.take(i as int - 1).push(s@[i as int - 1]));
    }
    assert(s@.take(i as int) == s@);
    r
}

/// Appends some characters.
pub fn append(to: &mut Vec<char>, s: &[char])
    ensures
        final(to)@ == old(to)@ + s@,
{
    let mut i: usize = 0;
    while i < s.len()
        invariant
            i <= s@.len(),
            to@ == old(to)@ + s@.take(i as int),
        decreases s@.len() - i,
    {
        to.push(s[i]);
        i += 1;
        assert(s@.take(i as int) == s@.take(i as int - 1).push(s@[i as int - 1]));
        assert(to@ == old(to)@ + s@.take(i as int));
    }
    assert(s@.take(i as int) == s@);
}

/// Whether `pat` stands in `s` at position `i`.
pub open spec fn stands_at(s: Seq<char>, pat: Seq<char>, i: int) -> bool {
    0 <= i && i + pat.len() <= s.len() && s.subrange(i, i + pat.len()) == pat
}

/// Tests whether `pat` stands in `s` at position `at`.
pub fn matches_at(s: &[char], pat: &[char], at: usize) -> (r: bool)
    ensures
        r == stands_at(s@, pat@, at as int),
{
    if at > s.len() || pat.len() > s.len() - at {
        return false;
    }
    let n: usize = s.len();
    let mut i: usize = 0;
    while i < pat.len()
        invariant
            i <= pat@.len(),
            n == s@.len(),
            at + pat@.len() <= n,
            forall|k: int| 0 <= k < i ==> s@[at + k] == pat@[k],
        decreases pat@.len() - i,
    {
        if s[at + i] != pat[i] {
            assert(s@.subrange(at as int, at + pat@.len())[i as int] != pat@[i as int]);
            return false;
        }
        i += 1;
    }
    assert(s@.subrange(at as int, at + pat@.len()) =~= pat@);
    true
}

/// Whether two texts are the same.
pub fn same(a: &[char], b: &[char]) -> (r: bool)
    ensures
        r == (a@ == b@),
{
    assert(a@.len() == b@.len() ==> a@.subrange(0, b@.len() as int) == a@);
    a.len() == b.len() && matches_at(a, b, 0)
}

/// Whether two texts are the same but for the case of ASCII letters.
pub open spec fn same_ignoring_case(a: Seq<char>, b: Seq<char>) -> bool {
    lower_all(a) == lower_all(b)
}

/// Compares two texts ignoring the case of ASCII letters.
pub fn equal_ignoring_case(a: &[char], b: &[char]) -> (r: bool)
    ensures
        r == same_ignoring_case(a@, b@),
{
    let la: Vec<char> = to_ascii_lowercase(a);
    let lb: Vec<char> = to_ascii_lowercase(b);
    same(la.as_slice(), lb.as_slice())
}

/// Lexicographic order by code point.
pub open spec fn precedes(a: Seq<char>, b: Seq<char>) -> bool
    decreases a.len(),
{
    if b.len() == 0 {
        false
    } else if a.len() == 0 {
        true
    } else if a[0] != b[0] {
        a[0] < b[0]
    } else {
        precedes(a.drop_first(), b.drop_first())
    }
}

/// Compares two texts by code point.
pub fn text_precedes(a: &[char], b: &[char]) -> (r: bool)
    ensures
        r == precedes(a@, b@),
{
    let mut i: usize = 0;
    assert(a@.skip(0) == a@);
    assert(b@.skip(0) == b@);
    while i < a.len() && i < b.len()
        invariant
            i <= a@.len(),
            i <= b@.len(),
            precedes(a@, b@) == precedes(a@.skip(i as int), b@.skip(i as int)),
        decreases a@.len() - i,
    {
        if a[i] != b[i] {
            return a[i] < b[i];
        }
        assert(a@.skip(i as int).drop_first() == a@.skip(i as int + 1));
        assert(b@.skip(i as int).drop_first() == b@.skip(i as int + 1));
        i += 1;
    }
    i < b.len()
}

/// No text precedes itself.
pub proof fn lemma_precedes_irreflexive(a: Seq<char>)
    ensures
        !precedes(a, a),
    decreases a.len(),
{
    if a.len() > 0 {
        lemma_precedes_irreflexive(a.drop_first());
    }
}

/// Of two different texts one precedes the other.
pub proof fn lemma_precedes_total(a: Seq<char>, b: Seq<char>)
    ensures
        a == b || precedes(a, b) || precedes(b, a),
    decreases a.len(),
{
    if a.len() == 0 || b.len() == 0 {
        if a.len() == b.len() {
            assert(a =~= b);
        }
    } else if a[0] == b[0] {
        lemma_precedes_total(a.drop_first(), b.drop_first());
        if a.drop_first() == b.drop_first() {
            assert(a =~= seq![a[0]] + a.drop_first());
            assert(b =~= seq![b[0]] + b.drop_first());
        }
    }
}

/// The order is transitive.
pub proof fn lemma_precedes_transitive(a: Seq<char>, b: Seq<char>, c: Seq<char>)
    requires
        precedes(a, b),
        precedes(b, c),
    ensures
        precedes(a, c),
    decreases a.len(),
{
    if a.len() > 0 && b.len() > 0 && c.len() > 0 && a[0] == b[0] && b[0] == c[0] {
        lemma_precedes_transitive(a.drop_first(), b.drop_first(), c.drop_first());
    }
}

// ---- trimming ----

/// `s` without the characters of `set` at its start.
pub open spec fn strip_front(s: Seq<char>, set: CharSet) -> Seq<char>
    decreases s.len(),
{
    if s.len() > 0 && set.has(s[0]) {
        strip_front(s.drop_first(), set)
    } else {
        s
    }
}

/// `s` without the characters of `set` at its end.
pub open spec fn strip_back(s: Seq<char>, set: CharSet) -> Seq<char>
    decreases s.len(),
{
    if s.len() > 0 && set.has(s.last()) {
        strip_back(s.drop_last(), set)
    } else {
        s
    }
}

/// `s` without the characters of `set` at either end.
pub open spec fn strip(s: Seq<char>, set: CharSet) -> Seq<char> {
    strip_back(strip_front(s, set), set)
}

/// `s` without surrounding whitespace.
pub open spec fn trimmed(s: Seq<char>) -> Seq<char> {
    strip(s, CharSet::White)
}

pub fn trim_front<'a>(s: &'a [char], set: CharSet) -> (r: &'a [char])
    ensures
        r@ == strip_front(s@, set),
{
    let mut i: usize = 0;
    assert(s@.skip(0) == s@);
    while i < s.len() && set.holds(s[i])
        invariant
            i <= s@.len(),
            strip_front(s@, set) == strip_front(s@.skip(i as int), set),
        decreases s@.len() - i,
    {
        assert(s@.skip(i as int).drop_first() == s@.skip(i as int + 1));
        i += 1;
    }
    assert(s@.subrange(i as int, s@.len() as int) == s@.skip(i as int));
    &s[i..s.len()]
}

pub fn trim_back<'a>(s: &'a [char], set: CharSet) -> (r: &'a [char])
    ensures
        r@ == strip_back(s@, set),
{
    let mut n: usize = s.len();
    assert(s@.take(n as int) == s@);
    while n > 0 && set.holds(s[n - 1])
        invariant
            n <= s@.len(),
            strip_back(s@, set) == strip_back(s@.take(n as int), set),
        decreases n,
    {
        assert(s@.take(n as int).drop_last() == s@.take(n as int - 1));
        n -= 1;
    }
    assert(s@.subrange(0, n as int) == s@.take(n as int));
    &s[0..n]
}

/// Removes the characters of `set` from both ends.
pub fn trim_set<'a>(s: &'a [char], set: CharSet) -> (r: &'a [char])
    ensures
        r@ == strip(s@, set),
{
    trim_back(trim_front(s, set), set)
}

/// Removes surrounding whitespace.
pub fn trim<'a>(s: &'a [char]) -> (r: &'a [char])
    ensures
        r@ == trimmed(s@),
{
    trim_set(s, CharSet::White)
}

// ---- searching and splitting ----

/// The first position at or after `from` where `pat` stands in `s`.
pub open spec fn find_from(s: Seq<char>, pat: Seq<char>, from: int) -> Option<int>
    decreases s.len() + 1 - from,
{
    if from < 0 || from + pat.len() > s.len() {
        None
    } else if stands_at(s, pat, from) {
        Some(from)
    } else {
        find_from(s, pat, from + 1)
    }
}

/// The first position where `pat` stands in `s`.
pub open spec fn position_of(s: Seq<char>, pat: Seq<char>) -> Option<int> {
    find_from(s, pat, 0)
}

/// What [`find_from`] finds is in range, and nothing stands before it.
pub proof fn lemma_find(s: Seq<char>, pat: Seq<char>, from: int)
    requires
        from >= 0,
    ensures
        match find_from(s, pat, from) {
            Some(i) => from <= i && stands_at(s, pat, i) && forall|k: int|
                from <= k < i ==> !stands_at(s, pat, k),
            None => forall|k: int| from <= k ==> !stands_at(s, pat, k),
        },
    decreases s.len() + 1 - from,
{
    if from + pat.len() <= s.len() && !stands_at(s, pat, from) {
        lemma_find(s, pat, from + 1);
    }
}

/// Finds the first position of `pat` in `s`.
pub fn find(s: &[char], pat: &[char]) -> (r: Option<usize>)
    ensures
        match r {
            Some(i) => position_of(s@, pat@) == Some(i as int) && i + pat@.len() <= s@.len(),
            None => position_of(s@, pat@) is None,
        },
{
    let n: usize = s.len();
    if pat.len() > n {
        return None;
    }
    let last: usize = n - pat.len();
    let mut i: usize = 0;
    loop
        invariant
            n == s@.len(),
            last + pat@.len() == n,
            i <= last,
            position_of(s@, pat@) == find_from(s@, pat@, i as int),
        decreases last - i,
    {
        if matches_at(s, pat, i) {
            return Some(i);
        }
        if i == last {
            assert(find_from(s@, pat@, i + 1) is None);
            return None;
        }
        i += 1;
    }
}

/// Whether `pat` stands somewhere in `s`.
pub open spec fn has_text(s: Seq<char>, pat: Seq<char>) -> bool {
    position_of(s, pat) is Some
}

/// Tests whether `pat` stands somewhere in `s`.
pub fn contains(s: &[char], pat: &[char]) -> (r: bool)
    ensures
        r == has_text(s@, pat@),
{
    find(s, pat).is_some()
}

/// Whether `s` ends with `pat`.
pub open spec fn has_end(s: Seq<char>, pat: Seq<char>) -> bool {
    stands_at(s, pat, s.len() - pat.len())
}

/// Tests whether `s` ends with `pat`.
pub fn ends_with(s: &[char], pat: &[char]) -> (r: bool)
    ensures
        r == has_end(s@, pat@),
{
    pat.len() <= s.len() && matches_at(s, pat, s.len() - pat.len())
}

/// The text before and after the first `pat` in `s`.
pub open spec fn cut(s: Seq<char>, pat: Seq<char>) -> Option<(Seq<char>, Seq<char>)> {
    match position_of(s, pat) {
        Some(i) => Some((s.take(i), s.skip(i + pat.len()))),
        None => None,
    }
}

/// Splits a text at the first `pat`.
pub fn split_once<'a>(s: &'a [char], pat: &[char]) -> (r: Option<(&'a [char], &'a [char])>)
    ensures
        match r {
            Some(p) => cut(s@, pat@) == Some((p.0@, p.1@)),
            None => cut(s@, pat@) is None,
        },
{
    let n: usize = s.len();
    match find(s, pat) {
        Some(i) => {
            let j: usize = i + pat.len();
            assert(s@.subrange(0, i as int) == s@.take(i as int));
            assert(s@.subrange(j as int, s@.len() as int) == s@.skip(j as int));
            Some((&s[0..i], &s[j..n]))
        },
        None => None,
    }
}

/// The first position of the character `c` in `s`, or the length of `s`.
pub open spec fn run_before(s: Seq<char>, c: char) -> nat
    decreases s.len(),
{
    if s.len() == 0 || s[0] == c {
        0
    } else {
        1 + run_before(s.drop_first(), c)
    }
}

/// Finds the first `c` at or after `from`.
fn scan(s: &[char], c: char, from: usize) -> (r: usize)
    requires
        from <= s@.len(),
    ensures
        from <= r <= s@.len(),
        r - from == run_before(s@.skip(from as int), c),
        r < s@.len() ==> s@[r as int] == c,
{
    let mut i: usize = from;
    while i < s.len() && s[i] != c
        invariant
            from <= i <= s@.len(),
            run_before(s@.skip(from as int), c) == i - from + run_before(s@.skip(i as int), c),
        decreases s@.len() - i,
    {
        assert(s@.skip(i as int).drop_first() == s@.skip(i as int + 1));
        i += 1;
    }
    i
}

/// Finds the first `c`.
pub fn position(s: &[char], c: char) -> (r: Option<usize>)
    ensures
        match r {
            Some(i) => i < s@.len() && i == run_before(s@, c) && s@[i as int] == c,
            None => run_before(s@, c) == s@.len(),
        },
{
    assert(s@.skip(0) == s@);
    let i: usize = scan(s, c, 0);
    if i < s.len() {
        Some(i)
    } else {
        None
    }
}

pub proof fn lemma_run_before(s: Seq<char>, c: char)
    ensures
        run_before(s, c) <= s.len(),
        run_before(s, c) < s.len() ==> s[run_before(s, c) as int] == c,
        forall|i: int| 0 <= i < run_before(s, c) ==> s[i] != c,
    decreases s.len(),
{
    if s.len() > 0 && s[0] != c {
        lemma_run_before(s.drop_first(), c);
        let t = s.drop_first();
        assert forall|i: int| 0 <= i < run_before(s, c) implies s[i] != c by {
            if i > 0 {
                assert(s[i] == t[i - 1]);
            }
        }
    }
}

/// The views of some texts.
pub open spec fn views(v: Seq<Vec<char>>) -> Seq<Seq<char>> {
    Seq::new(v.len(), |i: int| v[i]@)
}

/// The parts of `s` between the characters `c`.
pub open spec fn parts(s: Seq<char>, c: char) -> Seq<Seq<char>>
    decreases s.len(),
{
    let i = run_before(s, c);
    if i >= s.len() {
        seq![s]
    } else {
        seq![s.take(i as int)] + parts(s.skip(i as int + 1), c)
    }
}

/// Splits a text at every `c`.
pub fn split(s: &[char], c: char) -> (r: Vec<Vec<char>>)
    ensures
        views(r@) == parts(s@, c),
{
    let mut r: Vec<Vec<char>> = Vec::new();
    let mut from: usize = 0;
    assert(s@.skip(0) == s@);
    assert(views(r@) + parts(s@, c) == parts(s@, c));
    loop
        invariant
            from <= s@.len(),
            views(r@) + parts(s@.skip(from as int), c) == parts(s@, c),
        decreases s@.len() - from,
    {
        let i: usize = scan(s, c, from);
        let ghost rest = s@.skip(from as int);
        let ghost before = views(r@);
        assert(s@.subrange(from as int, i as int) == rest.take(i - from));
        r.push(copy(&s[from..i]));
        assert(views(r@) =~= before.push(rest.take(i - from)));
        if i == s.len() {
            assert(rest.take(i - from) == rest);
            assert(views(r@) =~= before + seq![rest]);
            return r;
        }
        assert(rest.skip(i - from + 1) == s@.skip(i + 1));
        assert(views(r@) + parts(s@.skip(i + 1), c) =~= before + (seq![rest.take(i - from)]
            + parts(s@.skip(i + 1), c)));
        from = i + 1;
    }
}

/// `s` without one carriage return at its end.
pub open spec fn without_return(s: Seq<char>) -> Seq<char> {
    if s.len() > 0 && s.last() == '\r' {
        s.drop_last()
    } else {
        s
    }
}

/// The lines of a text: each ends at a line feed, which is not part of it, nor
/// is a carriage return before it; no line follows the last line feed.
pub open spec fn lines_of(s: Seq<char>) -> Seq<Seq<char>>
    decreases s.len(),
{
    let i = run_before(s, '\n');
    if s.len() == 0 {
        seq![]
    } else if i >= s.len() {
        seq![s]
    } else {
        seq![without_return(s.take(i as int))] + lines_of(s.skip(i as int + 1))
    }
}

/// Splits a text into lines.
pub fn lines(s: &[char]) -> (r: Vec<Vec<char>>)
    ensures
        views(r@) == lines_of(s@),
{
    let mut r: Vec<Vec<char>> = Vec::new();
    let mut from: usize = 0;
    assert(s@.skip(0) == s@);
    assert(views(r@) + lines_of(s@) == lines_of(s@));
    while from < s.len()
        invariant
            from <= s@.len(),
            views(r@) + lines_of(s@.skip(from as int)) == lines_of(s@),
        decreases s@.len() - from,
    {
        let i: usize = scan(s, '\n', from);
        let ghost rest = s@.skip(from as int);
        let ghost before = views(r@);
        assert(s@.subrange(from as int, i as int) == rest.take(i - from));
        if i == s.len() {
            r.push(copy(&s[from..i]));
            assert(rest.take(i - from) == rest);
            assert(views(r@) =~= before + seq![rest]);
            return r;
        }
        let ghost line = rest.take(i - from);
        if i > from && s[i - 1] == '\r' {
            assert(s@.subrange(from as int, i - 1) == line.drop_last());
            r.push(copy(&s[from..i - 1]));
        } else {
            r.push(copy(&s[from..i]));
        }
        assert(views(r@) =~= before.push(without_return(line)));
        assert(rest.skip(i - from + 1) == s@.skip(i + 1));
        assert(views(r@) + lines_of(s@.skip(i + 1)) =~= before + (seq![without_return(line)]
            + lines_of(s@.skip(i + 1))));
        from = i + 1;
    }
    assert(s@.skip(from as int) =~= seq![]);
    assert(views(r@) + seq![] =~= views(r@));
    r
}

/// The number of characters before the first whitespace.
pub open spec fn word_len(s: Seq<char>) -> nat
    decreases s.len(),
{
    if s.len() == 0 || is_white(s[0]) {
        0
    } else {
        1 + word_len(s.drop_first())
    }
}

pub proof fn lemma_word_len(s: Seq<char>)
    ensures
        word_len(s) <= s.len(),
        s.len() > 0 && !is_white(s[0]) ==> word_len(s) > 0,
    decreases s.len(),
{
    if s.len() > 0 && !is_white(s[0]) {
        lemma_word_len(s.drop_first());
    }
}

pub proof fn lemma_strip_front(s: Seq<char>, set: CharSet)
    ensures
        strip_front(s, set).len() <= s.len(),
        strip_front(s, set).len() > 0 ==> !set.has(strip_front(s, set)[0]),
    decreases s.len(),
{
    if s.len() > 0 && set.has(s[0]) {
        lemma_strip_front(s.drop_first(), set);
    }
}

/// The words of a text: its runs of characters other than whitespace.
pub open spec fn words_of(s: Seq<char>) -> Seq<Seq<char>>
    decreases s.len(),
    via words_of_decreases
{
    let t = strip_front(s, CharSet::White);
    if t.len() == 0 {
        seq![]
    } else {
        seq![t.take(word_len(t) as int)] + words_of(t.skip(word_len(t) as int))
    }
}

#[via_fn]
proof fn words_of_decreases(s: Seq<char>) {
    let t = strip_front(s, CharSet::White);
    lemma_strip_front(s, CharSet::White);
    lemma_word_len(t);
}

/// Splits a text into words.
pub fn words(s: &[char]) -> (r: Vec<Vec<char>>)
    ensures
        views(r@) == words_of(s@),
{
    let mut r: Vec<Vec<char>> = Vec::new();
    let mut rest: &[char] = trim_front(s, CharSet::White);
    proof {
        lemma_strip_front(s@, CharSet::White);
        lemma_words_front(s@);
    }
    assert(views(r@) + words_of(rest@) =~= words_of(s@));
    while rest.len() > 0
        invariant
            rest@.len() > 0 ==> !is_white(rest@[0]),
            views(r@) + words_of(rest@) == words_of(s@),
        decreases rest@.len(),
    {
        let ghost t = rest@;
        let ghost before = views(r@);
        let mut n: usize = 0;
        assert(t.skip(0) == t);
        while n < rest.len() && !white(rest[n])
            invariant
                rest@ == t,
                n <= t.len(),
                word_len(t) == n + word_len(t.skip(n as int)),
            decreases t.len() - n,
        {
            assert(t.skip(n as int).drop_first() == t.skip(n as int + 1));
            n += 1;
        }
        proof {
            lemma_word_len(t);
            assert(strip_front(t, CharSet::White) == t);
            assert(t.subrange(0, n as int) == t.take(n as int));
            assert(t.subrange(n as int, t.len() as int) == t.skip(n as int));
            lemma_strip_front(t.skip(n as int), CharSet::White);
            lemma_words_front(t.skip(n as int));
        }
        r.push(copy(&rest[0..n]));
        rest = trim_front(&rest[n..rest.len()], CharSet::White);
        assert(views(r@) + words_of(rest@) =~= before + (seq![t.take(n as int)] + words_of(
            t.skip(n as int),
        )));
    }
    assert(words_of(rest@) =~= seq![]);
    assert(views(r@) + seq![] =~= views(r@));
    r
}

/// Leading whitespace does not matter to the words.
proof fn lemma_words_front(s: Seq<char>)
    ensures
        words_of(strip_front(s, CharSet::White)) == words_of(s),
{
    lemma_strip_front(s, CharSet::White);
    let t = strip_front(s, CharSet::White);
    assert(strip_front(t, CharSet::White) == t);
}

// ---- decimal integers ----

pub open spec fn all_digits(s: Seq<char>) -> bool {
    forall|i: int| 0 <= i < s.len() ==> is_digit(#[trigger] s[i])
}

/// The number that decimal digits spell.
pub open spec fn digits_value(s: Seq<char>) -> nat
    decreases s.len(),
{
    if s.len() == 0 {
        0
    } else {
        10 * digits_value(s.drop_last()) + digit_value(s.last())
    }
}

/// The number of leading decimal digits.
pub open spec fn digit_run(s: Seq<char>) -> nat
    decreases s.len(),
{
    if s.len() == 0 || !is_digit(s[0]) {
        0
    } else {
        1 + digit_run(s.drop_first())
    }
}

/// Digits that no digit follows are the leading digits.
pub proof fn lemma_digits_then(digits: Seq<char>, rest: Seq<char>)
    requires
        all_digits(digits),
        rest.len() == 0 || !is_digit(rest[0]),
    ensures
        digit_run(digits + rest) == digits.len(),
    decreases digits.len(),
{
    let s = digits + rest;
    if digits.len() == 0 {
        assert(s =~= rest);
    } else {
        assert(s[0] == digits[0]);
        assert(is_digit(digits[0]));
        assert(s.drop_first() =~= digits.drop_first() + rest);
        assert(all_digits(digits.drop_first()));
        lemma_digits_then(digits.drop_first(), rest);
    }
}

pub proof fn lemma_digit_run(s: Seq<char>)
    ensures
        digit_run(s) <= s.len(),
        all_digits(s.take(digit_run(s) as int)),
        digit_run(s) < s.len() ==> !is_digit(s[digit_run(s) as int]),
    decreases s.len(),
{
    if s.len() > 0 && is_digit(s[0]) {
        let t = s.drop_first();
        lemma_digit_run(t);
        let n = digit_run(s) as int;
        assert forall|i: int| 0 <= i < n implies is_digit(#[trigger] s.take(n)[i]) by {
            if i > 0 {
                assert(s.take(n)[i] == t.take(n - 1)[i - 1]);
            }
        }
    }
}

/// Counts the leading decimal digits.
pub fn leading_digits(s: &[char]) -> (r: usize)
    ensures
        r == digit_run(s@),
        r <= s@.len(),
{
    let mut i: usize = 0;
    assert(s@.skip(0) == s@);
    while i < s.len() && digit(s[i])
        invariant
            i <= s@.len(),
            digit_run(s@) == i + digit_run(s@.skip(i as int)),
        decreases s@.len() - i,
    {
        assert(s@.skip(i as int).drop_first() == s@.skip(i as int + 1));
        i += 1;
    }
    i
}

/// More digits never make a smaller number.
proof fn lemma_digits_value_grows(s: Seq<char>, n: int)
    requires
        0 <= n <= s.len(),
    ensures
        digits_value(s.take(n)) <= digits_value(s),
    decreases s.len(),
{
    if n < s.len() {
        assert(s.take(n) == s.drop_last().take(n));
        lemma_digits_value_grows(s.drop_last(), n);
    } else {
        assert(s.take(n) == s);
    }
}

/// Reads decimal digits; `None` when the number does not fit.
pub fn read_digits(s: &[char]) -> (r: Option<usize>)
    requires
        all_digits(s@),
    ensures
        match r {
            Some(v) => v == digits_value(s@),
            None => digits_value(s@) > usize::MAX,
        },
{
    let mut v: usize = 0;
    let mut i: usize = 0;
    while i < s.len()
        invariant
            all_digits(s@),
            i <= s@.len(),
            v == digits_value(s@.take(i as int)),
        decreases s@.len() - i,
    {
        let d: usize = (s[i] as u32 - '0' as u32) as usize;
        proof {
            let t = s@.take(i as int + 1);
            assert(t.drop_last() == s@.take(i as int));
            assert(digits_value(t) == 10 * v + d);
            lemma_digits_value_grows(s@, i as int + 1);
        }
        if v > (usize::MAX - d) / 10 {
            return None;
        }
        v = v * 10 + d;
        i += 1;
    }
    assert(s@.take(i as int) == s@);
    Some(v)
}

/// The text after an optional plus sign.
pub open spec fn after_plus(s: Seq<char>) -> Seq<char> {
    if s.len() > 0 && s[0] == '+' {
        s.drop_first()
    } else {
        s
    }
}

/// The unsigned number that a whole text spells: decimal digits, with an
/// optional plus sign before them.
pub open spec fn usize_of(s: Seq<char>) -> Option<nat> {
    let t = after_plus(s);
    if t.len() > 0 && all_digits(t) && digits_value(t) <= usize::MAX {
        Some(digits_value(t))
    } else {
        None
    }
}

/// Reads a whole text as an unsigned number.
pub fn parse_usize(s: &[char]) -> (r: Option<usize>)
    ensures
        match r {
            Some(v) => usize_of(s@) == Some(v as nat),
            None => usize_of(s@) is None,
        },
{
    let t: &[char] = if s.len() > 0 && s[0] == '+' {
        assert(s@.subrange(1, s@.len() as int) == s@.drop_first());
        &s[1..s.len()]
    } else {
        s
    };
    assert(t@ == after_plus(s@));
    proof {
        lemma_digit_run(t@);
    }
    let n: usize = leading_digits(t);
    if t.len() == 0 || n < t.len() {
        assert(t@.len() > 0 ==> !all_digits(t@));
        return None;
    }
    assert(t@.take(n as int) == t@);
    read_digits(t)
}

pub open spec fn digit_char(d: nat) -> char {
    ('0' as u32 + d) as char
}

/// A number in decimal.
pub open spec fn decimal(n: nat) -> Seq<char>
    decreases n,
{
    if n < 10 {
        seq![digit_char(n)]
    } else {
        decimal(n / 10).push(digit_char(n % 10))
    }
}

/// Writes a number in decimal.
pub fn to_decimal(n: usize) -> (r: Vec<char>)
    ensures
        r@ == decimal(n as nat),
    decreases n,
{
    let d: u8 = (n % 10) as u8;
    let c: char = (48 + d) as char;
    assert(c == digit_char(d as nat));
    if n < 10 {
        let mut r: Vec<char> = Vec::new();
        r.push(c);
        assert(r@ == seq![c]);
        r
    } else {
        let mut r: Vec<char> = to_decimal(n / 10);
        r.push(c);
        r
    }
}

} // verus!
