//! What reading a text apart gives.

use crate::text::{
    is_white, lemma_run_before, lines_of, parts, precedes, run_before, strip, strip_back,
    strip_front, word_len, words_of, CharSet,
};
use vstd::prelude::*;

verus! {

// ---- trimming ----

pub(crate) proof fn lemma_front(s: Seq<char>, set: CharSet) -> (i: int)
    ensures
        0 <= i <= s.len(),
        strip_front(s, set) == s.skip(i),
        forall|k: int| 0 <= k < i ==> set.has(#[trigger] s[k]),
        i < s.len() ==> !set.has(s[i]),
    decreases s.len(),
{
    if s.len() > 0 && set.has(s[0]) {
        let t = s.drop_first();
        let j = lemma_front(t, set);
        assert(t.skip(j) =~= s.skip(j + 1));
        assert forall|k: int| 0 <= k < j + 1 implies set.has(#[trigger] s[k]) by {
            if k > 0 {
                assert(t[k - 1] == s[k]);
            }
        }
        if j < t.len() {
            assert(t[j] == s[j + 1]);
        }
        j + 1
    } else {
        assert(s.skip(0) =~= s);
        0
    }
}

proof fn lemma_back(s: Seq<char>, set: CharSet) -> (j: int)
    ensures
        0 <= j <= s.len(),
        strip_back(s, set) == s.take(j),
        forall|k: int| j <= k < s.len() ==> set.has(#[trigger] s[k]),
        j > 0 ==> !set.has(s[j - 1]),
    decreases s.len(),
{
    if s.len() > 0 && set.has(s.last()) {
        let t = s.drop_last();
        let j = lemma_back(t, set);
        assert(t.take(j) =~= s.take(j));
        assert forall|k: int| j <= k < s.len() implies set.has(#[trigger] s[k]) by {
            if k < t.len() {
                assert(t[k] == s[k]);
            }
        }
        j
    } else {
        assert(s.take(s.len() as int) =~= s);
        s.len() as int
    }
}

/// Whether a text is what lies between two places of another.
pub open spec fn is_between(t: Seq<char>, s: Seq<char>, i: int, j: int) -> bool {
    0 <= i <= j <= s.len() && t == s.subrange(i, j)
}

/// Trimming takes the characters of a set away at both ends, all of them, and nothing
/// else.
pub proof fn law_trimming_takes_the_ends(s: Seq<char>, set: CharSet)
    ensures
        exists|i: int, j: int| #[trigger]
            is_between(strip(s, set), s, i, j) && (forall|k: int|
                0 <= k < i || j <= k < s.len() ==> set.has(#[trigger] s[k])) && (i < j ==> !set.has(
                s[i],
            ) && !set.has(s[j - 1])),
{
    let i = lemma_front(s, set);
    let t = s.skip(i);
    let m = lemma_back(t, set);
    let j = i + m;
    assert(t.take(m) =~= s.subrange(i, j));
    assert forall|k: int| 0 <= k < i || j <= k < s.len() implies set.has(#[trigger] s[k]) by {
        if j <= k {
            assert(t[k - i] == s[k]);
        }
    }
    if i < j {
        assert(t[m - 1] == s[j - 1]);
    }
    assert(is_between(strip(s, set), s, i, j));
}

// ---- splitting ----

/// Parts put together with a character between them.
pub open spec fn glued(ps: Seq<Seq<char>>, c: char) -> Seq<char>
    decreases ps.len(),
{
    if ps.len() == 0 {
        Seq::empty()
    } else if ps.len() == 1 {
        ps[0]
    } else {
        ps[0] + seq![c] + glued(ps.drop_first(), c)
    }
}

/// Splitting at a character gives the parts between its occurrences: none of them holds
/// it, and with it between them they are the text again.
pub proof fn law_parts_make_the_whole(s: Seq<char>, c: char)
    ensures
        parts(s, c).len() >= 1,
        glued(parts(s, c), c) == s,
        forall|i: int, k: int|
            0 <= i < parts(s, c).len() && 0 <= k < parts(s, c)[i].len() ==> #[trigger] parts(
                s,
                c,
            )[i][k] != c,
    decreases s.len(),
{
    let i = run_before(s, c) as int;
    lemma_run_before(s, c);
    let ps = parts(s, c);
    if i >= s.len() {
        assert(ps =~= seq![s]);
    } else {
        let rest = s.skip(i + 1);
        let qs = parts(rest, c);
        law_parts_make_the_whole(rest, c);
        assert(ps =~= seq![s.take(i)] + qs);
        assert(ps.drop_first() =~= qs);
        assert(s[i] == c);
        assert(s =~= s.take(i) + seq![c] + rest);
        assert forall|j: int, k: int| 0 <= j < ps.len() && 0 <= k < ps[j].len() implies (
        #[trigger] ps[j][k]) != c by {
            if j > 0 {
                assert(ps[j] == qs[j - 1]);
            } else {
                assert(ps[0] == s.take(i));
            }
        }
    }
}

// ---- lines ----

/// A line ends at a line feed; a carriage return before it goes with it.
pub proof fn law_line_ends_at_a_line_feed(line: Seq<char>, rest: Seq<char>)
    requires
        forall|k: int| 0 <= k < line.len() ==> #[trigger] line[k] != '\n',
    ensures
        line.len() > 0 && line.last() != '\r' ==> lines_of(line + seq!['\n'] + rest) == seq![line]
            + lines_of(rest),
        lines_of(line + seq!['\r', '\n'] + rest) == seq![line] + lines_of(rest),
        lines_of(seq!['\n'] + rest) == seq![Seq::<char>::empty()] + lines_of(rest),
        line.len() > 0 ==> lines_of(line) == seq![line],
        lines_of(Seq::empty()).len() == 0,
{
    let c = '\n';
    let a = line + seq![c] + rest;
    lemma_run(line, rest, c);
    assert(a.take(line.len() as int) =~= line);
    assert(a.skip(line.len() as int + 1) =~= rest);
    let b = line.push('\r');
    lemma_run(b, rest, c);
    let t = line + seq!['\r', c] + rest;
    assert(b + seq![c] + rest =~= t);
    assert(t.take(b.len() as int) =~= b);
    assert(b.drop_last() =~= line);
    assert(t.skip(b.len() as int + 1) =~= rest);
    let e = Seq::<char>::empty();
    lemma_run(e, rest, c);
    let d = seq![c] + rest;
    assert(e + seq![c] + rest =~= d);
    assert(d.take(0) =~= e);
    assert(d.skip(1) =~= rest);
    lemma_run_all(line, c);
}

proof fn lemma_run(a: Seq<char>, b: Seq<char>, c: char)
    requires
        forall|k: int| 0 <= k < a.len() ==> #[trigger] a[k] != c,
    ensures
        run_before(a + seq![c] + b, c) == a.len(),
    decreases a.len(),
{
    let s = a + seq![c] + b;
    if a.len() > 0 {
        let t = a.drop_first();
        assert forall|k: int| 0 <= k < t.len() implies #[trigger] t[k] != c by {
            assert(t[k] == a[k + 1]);
        }
        lemma_run(t, b, c);
        assert(s.drop_first() =~= t + seq![c] + b);
        assert(s[0] == a[0]);
    } else {
        assert(s[0] == c);
    }
}

proof fn lemma_run_all(a: Seq<char>, c: char)
    requires
        forall|k: int| 0 <= k < a.len() ==> #[trigger] a[k] != c,
    ensures
        run_before(a, c) == a.len(),
    decreases a.len(),
{
    if a.len() > 0 {
        let t = a.drop_first();
        assert forall|k: int| 0 <= k < t.len() implies #[trigger] t[k] != c by {
            assert(t[k] == a[k + 1]);
        }
        lemma_run_all(t, c);
    }
}

// ---- words ----

/// A word is a run of characters that are not white: what is white in front of it is
/// passed over, and it ends where the text turns white again, or ends.
pub proof fn law_word_is_a_run(gap: Seq<char>, word: Seq<char>, rest: Seq<char>)
    requires
        forall|k: int| 0 <= k < gap.len() ==> is_white(#[trigger] gap[k]),
        forall|k: int| 0 <= k < word.len() ==> !is_white(#[trigger] word[k]),
        rest.len() == 0 || is_white(rest[0]),
    ensures
        word.len() > 0 ==> words_of(gap + word + rest) == seq![word] + words_of(rest),
        words_of(gap).len() == 0,
{
    let s = gap + word + rest;
    if word.len() > 0 {
        lemma_gap(gap, word + rest);
        assert(gap + (word + rest) =~= s);
        lemma_word_run(word, rest);
        let t = word + rest;
        assert(t.take(word.len() as int) =~= word);
        assert(t.skip(word.len() as int) =~= rest);
    }
    lemma_gap(gap, Seq::empty());
    assert(gap + Seq::<char>::empty() =~= gap);
}

proof fn lemma_gap(gap: Seq<char>, t: Seq<char>)
    requires
        forall|k: int| 0 <= k < gap.len() ==> is_white(#[trigger] gap[k]),
        t.len() == 0 || !is_white(t[0]),
    ensures
        strip_front(gap + t, CharSet::White) == t,
    decreases gap.len(),
{
    let s = gap + t;
    if gap.len() > 0 {
        let g = gap.drop_first();
        assert forall|k: int| 0 <= k < g.len() implies is_white(#[trigger] g[k]) by {
            assert(g[k] == gap[k + 1]);
        }
        lemma_gap(g, t);
        assert(s.drop_first() =~= g + t);
        assert(s[0] == gap[0]);
    } else {
        assert(s =~= t);
    }
}

proof fn lemma_word_run(word: Seq<char>, rest: Seq<char>)
    requires
        forall|k: int| 0 <= k < word.len() ==> !is_white(#[trigger] word[k]),
        rest.len() == 0 || is_white(rest[0]),
    ensures
        word_len(word + rest) == word.len(),
    decreases word.len(),
{
    let s = word + rest;
    if word.len() > 0 {
        let t = word.drop_first();
        assert forall|k: int| 0 <= k < t.len() implies !is_white(#[trigger] t[k]) by {
            assert(t[k] == word[k + 1]);
        }
        lemma_word_run(t, rest);
        assert(s.drop_first() =~= t + rest);
        assert(s[0] == word[0]);
    } else {
        assert(s =~= rest);
    }
}

// ---- order ----

/// Texts are ordered by the first character in which they differ, and a text comes before
/// those that it begins.
pub proof fn law_order_is_by_the_first_difference(
    common: Seq<char>,
    a: char,
    b: char,
    s: Seq<char>,
    t: Seq<char>,
)
    requires
        a < b,
    ensures
        precedes(common + seq![a] + s, common + seq![b] + t),
        !precedes(common + seq![b] + t, common + seq![a] + s),
        precedes(common, common + seq![b] + t),
        !precedes(common + seq![b] + t, common),
        !precedes(common, common),
    decreases common.len(),
{
    let (x, y) = (common + seq![a] + s, common + seq![b] + t);
    if common.len() > 0 {
        let rest = common.drop_first();
        law_order_is_by_the_first_difference(rest, a, b, s, t);
        assert(x.drop_first() =~= rest + seq![a] + s);
        assert(y.drop_first() =~= rest + seq![b] + t);
        assert(x[0] == common[0] && y[0] == common[0]);
    } else {
        assert(x[0] == a && y[0] == b);
    }
}

} // verus!
