//! File-name filter used by the file list.
//!
//! Pattern language (matched against the full file name, extension included,
//! ignoring case):
//!
//! - `*` is any run of characters that does not cross a `_`
//! - `**` is any run of characters, `_` included
//! - `{…}` is a condition on the token at that position:
//!   - numeric comparisons `<` `<=` `>` `>=` `=` `!=` against the run of digits
//!     there, with commas between them when all must hold
//!   - literal alternatives with bars between them
//! - everything else is matched literally
//!
//! A pattern with no `*` and no `{` is a plain substring search.

use crate::binary::Binary64;
use crate::text::{
    all_digits, append, contains, digit_run, has_text, is_digit, leading_digits, lemma_digits_then,
    lemma_run_before, lower, lower_all, matches_at, parts, position, run_before,
    same_ignoring_case, split, stands_at, strip_back, strip_front, to_chars, to_text, trim,
    trimmed, views, CharSet,
};
use vstd::prelude::*;
use vstd::std_specs::cmp::PartialEqSpecImpl;

verus! {

// ---- lower case ----

/// What `str::to_lowercase` makes of a text.
pub uninterp spec fn lowercase(s: Seq<char>) -> Seq<char>;

/// What `char::to_lowercase` makes of a character.
pub uninterp spec fn lowercase_char(c: char) -> Seq<char>;

pub open spec fn is_ascii_text(s: Seq<char>) -> bool {
    forall|i: int| 0 <= i < s.len() ==> (#[trigger] s[i]) < '\u{80}'
}

/// `str::to_lowercase`: the lower-case form of a text by the rules of Unicode,
/// which depends on the text alone. Of a text in ASCII it is the text with the
/// letters `A` to `Z` replaced by `a` to `z`; what it is of any other text is
/// left unsaid.
#[verifier::external_body]
pub(crate) fn lower_text(s: &str) -> (r: String)
    ensures
        r@ == lowercase(s@),
        is_ascii_text(s@) ==> r@ == lower_all(s@),
{
    s.to_lowercase()
}

/// `char::to_lowercase`: the lower-case form of a character by the rules of
/// Unicode, which may be several characters and depends on the character alone.
/// Of an ASCII character it is that character, a letter `A` to `Z` replaced by
/// `a` to `z`; what it is of any other character is left unsaid.
#[verifier::external_body]
fn lower_char(c: char) -> (r: Vec<char>)
    ensures
        r@ == lowercase_char(c),
        c < '\u{80}' ==> r@ == seq![lower(c)],
{
    c.to_lowercase().collect()
}

/// The characters of a text in lower case.
pub fn lower_chars(s: &str) -> (r: Vec<char>)
    ensures
        r@ == lowercase(s@),
        is_ascii_text(s@) ==> r@ == lower_all(s@),
{
    let t: String = lower_text(s);
    to_chars(t.as_str())
}

/// How letters are put in lower case.
pub enum Folding {
    /// By the rules of Unicode.
    Unicode,
    /// The letters of ASCII alone; of a text in ASCII that is the same.
    Ascii,
}

impl Folding {
    pub open spec fn char(self, c: char) -> Seq<char> {
        match self {
            Folding::Unicode => lowercase_char(c),
            Folding::Ascii => seq![lower(c)],
        }
    }

    pub open spec fn text(self, s: Seq<char>) -> Seq<char> {
        match self {
            Folding::Unicode => lowercase(s),
            Folding::Ascii => lower_all(s),
        }
    }
}

proof fn lemma_ascii_front(s: Seq<char>)
    requires
        is_ascii_text(s),
    ensures
        is_ascii_text(strip_front(s, CharSet::White)),
    decreases s.len(),
{
    if s.len() > 0 && CharSet::White.has(s[0]) {
        assert(is_ascii_text(s.drop_first())) by {
            assert forall|i: int| 0 <= i < s.len() - 1 implies (#[trigger] s.drop_first()[i])
                < '\u{80}' by {
                assert(s.drop_first()[i] == s[i + 1]);
            }
        }
        lemma_ascii_front(s.drop_first());
    }
}

proof fn lemma_ascii_back(s: Seq<char>)
    requires
        is_ascii_text(s),
    ensures
        is_ascii_text(strip_back(s, CharSet::White)),
    decreases s.len(),
{
    if s.len() > 0 && CharSet::White.has(s.last()) {
        assert(is_ascii_text(s.drop_last())) by {
            assert forall|i: int| 0 <= i < s.len() - 1 implies (#[trigger] s.drop_last()[i])
                < '\u{80}' by {
                assert(s.drop_last()[i] == s[i]);
            }
        }
        lemma_ascii_back(s.drop_last());
    }
}

/// A text in ASCII is still one without the whitespace around it.
proof fn lemma_ascii_trimmed(s: Seq<char>)
    requires
        is_ascii_text(s),
    ensures
        is_ascii_text(trimmed(s)),
{
    lemma_ascii_front(s);
    lemma_ascii_back(strip_front(s, CharSet::White));
}

proof fn lemma_ascii_subrange(s: Seq<char>, i: int, j: int)
    requires
        is_ascii_text(s),
        0 <= i <= j <= s.len(),
    ensures
        is_ascii_text(s.subrange(i, j)),
{
    assert forall|k: int| 0 <= k < j - i implies (#[trigger] s.subrange(i, j)[k]) < '\u{80}' by {
        assert(s.subrange(i, j)[k] == s[i + k]);
    }
}

/// The parts of a text in ASCII are in ASCII.
proof fn lemma_ascii_parts(s: Seq<char>, c: char, k: int)
    requires
        is_ascii_text(s),
        0 <= k < parts(s, c).len(),
    ensures
        is_ascii_text(parts(s, c)[k]),
    decreases s.len(),
{
    let i = run_before(s, c) as int;
    lemma_run_before(s, c);
    if i < s.len() {
        let rest = s.skip(i + 1);
        assert(s.take(i) =~= s.subrange(0, i));
        assert(rest =~= s.subrange(i + 1, s.len() as int));
        lemma_ascii_subrange(s, 0, i);
        lemma_ascii_subrange(s, i + 1, s.len() as int);
        if k > 0 {
            lemma_ascii_parts(rest, c, k - 1);
        }
    }
}

// ---- patterns ----

/// A comparison.
#[derive(Clone, Copy, PartialEq, Eq, Structural, Debug)]
pub enum Op {
    Lt,
    Le,
    Gt,
    Ge,
    Eq,
    Ne,
}

/// A condition on a number.
#[derive(Clone, Copy, Debug)]
pub struct Cond {
    pub op: Op,
    pub value: Binary64,
}

/// Conditions are equal when they compare alike with equal numbers.
impl PartialEq for Cond {
    fn eq(&self, other: &Cond) -> (r: bool) {
        self.op == other.op && self.value.equals(other.value)
    }
}

impl PartialEqSpecImpl for Cond {
    open spec fn obeys_eq_spec() -> bool {
        true
    }

    open spec fn eq_spec(&self, other: &Cond) -> bool {
        self.op == other.op && self.value.equals(other.value)
    }
}

impl Cond {
    pub open spec fn spec_holds(&self, v: Binary64) -> bool {
        match self.op {
            Op::Lt => v.below(self.value),
            Op::Le => v.at_most(self.value),
            Op::Gt => self.value.below(v),
            Op::Ge => self.value.at_most(v),
            Op::Eq => v.equals(self.value),
            Op::Ne => !v.equals(self.value),
        }
    }

    /// Whether the condition holds of a number.
    #[verifier::when_used_as_spec(spec_holds)]
    pub fn holds(&self, v: Binary64) -> (r: bool)
        ensures
            r == self.holds(v),
    {
        match self.op {
            Op::Lt => v.below(self.value),
            Op::Le => v.at_most(self.value),
            Op::Gt => self.value.below(v),
            Op::Ge => self.value.at_most(v),
            Op::Eq => v.equals(self.value),
            Op::Ne => !v.equals(self.value),
        }
    }
}

/// What stands between braces.
#[derive(PartialEq, Debug)]
pub enum Brace {
    /// All conditions must hold of the run of digits.
    Num(Vec<Cond>),
    /// One of the alternatives, in lower case.
    Alt(Vec<Vec<char>>),
}

/// A part of a pattern.
#[derive(PartialEq, Debug)]
pub enum Token {
    /// Literal text, in lower case.
    Literal(Vec<char>),
    /// `*`
    Star,
    /// `**`
    DoubleStar,
    /// `{…}`
    Brace(Brace),
}

#[derive(PartialEq, Debug)]
enum Kind {
    Substring(Vec<char>),
    Pattern(Vec<Token>),
}

/// A filter on file names.
#[derive(PartialEq, Debug)]
pub struct NameFilter {
    kind: Kind,
}

/// What a part of a pattern says.
pub enum Part {
    Literal(Seq<char>),
    Star,
    DoubleStar,
    Num(Seq<Cond>),
    Alt(Seq<Seq<char>>),
}

/// What a filter says.
pub enum Rule {
    Substring(Seq<char>),
    Pattern(Seq<Part>),
}

impl Token {
    pub open spec fn view(&self) -> Part {
        match self {
            Token::Literal(l) => Part::Literal(l@),
            Token::Star => Part::Star,
            Token::DoubleStar => Part::DoubleStar,
            Token::Brace(Brace::Num(c)) => Part::Num(c@),
            Token::Brace(Brace::Alt(a)) => Part::Alt(views(a@)),
        }
    }
}

pub open spec fn parts_of(v: Seq<Token>) -> Seq<Part> {
    Seq::new(v.len(), |i: int| v[i]@)
}

impl NameFilter {
    pub closed spec fn view(&self) -> Rule {
        match self.kind {
            Kind::Substring(s) => Rule::Substring(s@),
            Kind::Pattern(t) => Rule::Pattern(parts_of(t@)),
        }
    }
}

// ---- reading patterns ----

/// The comparison at the start of a condition, and how long it is.
pub open spec fn op_of(p: Seq<char>) -> Option<(Op, int)> {
    if stands_at(p, "<="@, 0) {
        Some((Op::Le, 2))
    } else if stands_at(p, ">="@, 0) {
        Some((Op::Ge, 2))
    } else if stands_at(p, "!="@, 0) {
        Some((Op::Ne, 2))
    } else if stands_at(p, "=="@, 0) {
        Some((Op::Eq, 2))
    } else if stands_at(p, "<"@, 0) {
        Some((Op::Lt, 1))
    } else if stands_at(p, ">"@, 0) {
        Some((Op::Gt, 1))
    } else if stands_at(p, "="@, 0) {
        Some((Op::Eq, 1))
    } else {
        None
    }
}

/// The condition that a text spells, or why it spells none.
pub open spec fn cond_of(part: Seq<char>) -> Result<Cond, Seq<char>> {
    let p = trimmed(part);
    match op_of(p) {
        None => Err("missing comparison operator in '"@ + p + "'"@),
        Some((op, n)) => {
            let rest = trimmed(p.skip(n));
            match Binary64::literal(rest) {
                Some(value) => Ok(Cond { op, value }),
                None => Err("'"@ + rest + "' is not a number"@),
            }
        },
    }
}

/// The conditions that some texts spell, or why the first that spells none
/// does not.
pub open spec fn conds_of(ps: Seq<Seq<char>>) -> Result<Seq<Cond>, Seq<char>>
    decreases ps.len(),
{
    if ps.len() == 0 {
        Ok(Seq::empty())
    } else {
        match conds_of(ps.drop_last()) {
            Err(e) => Err(e),
            Ok(before) => match cond_of(ps.last()) {
                Err(e) => Err(e),
                Ok(c) => Ok(before.push(c)),
            },
        }
    }
}

/// The alternatives that some texts spell.
pub open spec fn alts_of(f: Folding, ps: Seq<Seq<char>>) -> Seq<Seq<char>> {
    Seq::new(ps.len(), |i: int| f.text(trimmed(ps[i])))
}

pub open spec fn has_empty(v: Seq<Seq<char>>) -> bool {
    exists|i: int| 0 <= i < v.len() && (#[trigger] v[i]).len() == 0
}

pub open spec fn has_char(s: Seq<char>, c: char) -> bool {
    run_before(s, c) < s.len()
}

pub open spec fn starts_with_op(s: Seq<char>) -> bool {
    s.len() > 0 && (s[0] == '<' || s[0] == '>' || s[0] == '=' || s[0] == '!')
}

/// What stands between braces, or why it is not understood.
pub open spec fn brace_of(f: Folding, body: Seq<char>) -> Result<Part, Seq<char>> {
    let t = trimmed(body);
    if t.len() == 0 {
        Err("empty {} in filter"@)
    } else if has_char(t, '|') || !starts_with_op(t) {
        let alts = alts_of(f, parts(t, '|'));
        if has_empty(alts) {
            Err("empty alternative in {"@ + t + "}"@)
        } else {
            Ok(Part::Alt(alts))
        }
    } else {
        match conds_of(parts(t, ',')) {
            Ok(c) => Ok(Part::Num(c)),
            Err(e) => Err(e),
        }
    }
}

/// Some parts with a literal behind them, unless it is empty.
pub open spec fn flushed(acc: Seq<Part>, lit: Seq<char>) -> Seq<Part> {
    if lit.len() == 0 {
        acc
    } else {
        acc.push(Part::Literal(lit))
    }
}

/// The parts of a pattern, after those in `acc` and the literal text in `lit`,
/// or why the pattern is not understood.
pub open spec fn parsed(f: Folding, s: Seq<char>, lit: Seq<char>, acc: Seq<Part>) -> Result<
    Seq<Part>,
    Seq<char>,
>
    decreases s.len(),
{
    let none = Seq::<char>::empty();
    if s.len() == 0 {
        Ok(flushed(acc, lit))
    } else if s[0] == '*' {
        if s.len() > 1 && s[1] == '*' {
            parsed(f, s.skip(2), none, flushed(acc, lit).push(Part::DoubleStar))
        } else {
            parsed(f, s.skip(1), none, flushed(acc, lit).push(Part::Star))
        }
    } else if s[0] == '{' {
        let end = run_before(s, '}') as int;
        if end >= s.len() {
            Err("unclosed '{' in filter"@)
        } else {
            match brace_of(f, s.subrange(1, end)) {
                Err(e) => Err(e),
                Ok(b) => parsed(f, s.skip(end + 1), none, flushed(acc, lit).push(b)),
            }
        }
    } else if s[0] == '}' {
        Err("stray '}' in filter"@)
    } else {
        parsed(f, s.skip(1), lit + f.char(s[0]), acc)
    }
}

/// The filter that a text spells: none when it is blank.
pub open spec fn filter_of(f: Folding, pattern: Seq<char>) -> Result<Option<Rule>, Seq<char>> {
    let p = trimmed(pattern);
    if p.len() == 0 {
        Ok(None)
    } else if has_char(p, '*') || has_char(p, '{') {
        match parsed(f, p, Seq::empty(), Seq::empty()) {
            Ok(t) => Ok(Some(Rule::Pattern(t))),
            Err(e) => Err(e),
        }
    } else {
        Ok(Some(Rule::Substring(f.text(p))))
    }
}

fn starts(s: &[char], pat: &str) -> (r: bool)
    ensures
        r == stands_at(s@, pat@, 0),
{
    let p: Vec<char> = to_chars(pat);
    matches_at(s, p.as_slice(), 0)
}

fn read_op(p: &[char]) -> (r: Option<(Op, usize)>)
    ensures
        match r {
            Some(x) => op_of(p@) == Some((x.0, x.1 as int)) && x.1 <= p@.len(),
            None => op_of(p@) is None,
        },
{
    proof {
        reveal_strlit("<=");
        reveal_strlit(">=");
        reveal_strlit("!=");
        reveal_strlit("==");
        reveal_strlit("<");
        reveal_strlit(">");
        reveal_strlit("=");
    }
    if starts(p, "<=") {
        Some((Op::Le, 2))
    } else if starts(p, ">=") {
        Some((Op::Ge, 2))
    } else if starts(p, "!=") {
        Some((Op::Ne, 2))
    } else if starts(p, "==") {
        Some((Op::Eq, 2))
    } else if starts(p, "<") {
        Some((Op::Lt, 1))
    } else if starts(p, ">") {
        Some((Op::Gt, 1))
    } else if starts(p, "=") {
        Some((Op::Eq, 1))
    } else {
        None
    }
}

/// Reads a condition.
pub fn parse_cond(part: &[char]) -> (r: Result<Cond, String>)
    ensures
        match r {
            Ok(c) => cond_of(part@) == Ok::<Cond, Seq<char>>(c),
            Err(e) => cond_of(part@) == Err::<Cond, Seq<char>>(e@),
        },
{
    let p: &[char] = trim(part);
    match read_op(p) {
        None => {
            let t: String = to_text(p);
            Err("missing comparison operator in '".to_owned().concat(t.as_str()).concat("'"))
        },
        Some((op, n)) => {
            assert(p@.subrange(n as int, p@.len() as int) == p@.skip(n as int));
            let rest: &[char] = trim(&p[n..p.len()]);
            match Binary64::parse(rest) {
                Some(value) => Ok(Cond { op, value }),
                None => {
                    let t: String = to_text(rest);
                    Err("'".to_owned().concat(t.as_str()).concat("' is not a number"))
                },
            }
        },
    }
}

proof fn lemma_conds_err(ps: Seq<Seq<char>>, n: int)
    requires
        0 <= n <= ps.len(),
        conds_of(ps.take(n)) is Err,
    ensures
        conds_of(ps) == conds_of(ps.take(n)),
    decreases ps.len(),
{
    if n < ps.len() {
        assert(ps.take(n) == ps.drop_last().take(n));
        lemma_conds_err(ps.drop_last(), n);
    } else {
        assert(ps.take(n) == ps);
    }
}

/// What was read between braces.
pub open spec fn brace_result(r: Result<Brace, String>) -> Result<Part, Seq<char>> {
    match r {
        Ok(b) => Ok(Token::Brace(b)@),
        Err(e) => Err(e@),
    }
}

/// Reads what stands between braces.
pub fn parse_brace(body: &[char]) -> (r: Result<Brace, String>)
    ensures
        brace_result(r) == brace_of(Folding::Unicode, body@),
        is_ascii_text(body@) ==> brace_result(r) == brace_of(Folding::Ascii, body@),
{
    let ghost ascii = is_ascii_text(body@);
    let t: &[char] = trim(body);
    if t.len() == 0 {
        return Err("empty {} in filter".to_owned());
    }
    let op: bool = t[0] == '<' || t[0] == '>' || t[0] == '=' || t[0] == '!';
    proof {
        lemma_run_before(t@, '|');
    }
    if position(t, '|').is_some() || !op {
        let ps: Vec<Vec<char>> = split(t, '|');
        let ghost all = views(ps@);
        let ghost goal = alts_of(Folding::Unicode, all);
        let ghost plain = alts_of(Folding::Ascii, all);
        let mut alts: Vec<Vec<char>> = Vec::new();
        let mut i: usize = 0;
        proof {
            if ascii {
                lemma_ascii_trimmed(body@);
            }
        }
        while i < ps.len()
            invariant
                i <= ps@.len(),
                all == views(ps@),
                goal == alts_of(Folding::Unicode, all),
                plain == alts_of(Folding::Ascii, all),
                alts@.len() == i,
                forall|k: int| 0 <= k < i ==> (#[trigger] alts@[k])@ == goal[k],
                forall|k: int| 0 <= k < i ==> (#[trigger] alts@[k])@.len() > 0,
                ascii ==> forall|k: int| 0 <= k < i ==> (#[trigger] alts@[k])@ == plain[k],
                ascii == is_ascii_text(body@),
                ascii ==> is_ascii_text(t@),
                t@.len() > 0,
                has_char(t@, '|') || !starts_with_op(t@),
                t@ == trimmed(body@),
                all == parts(t@, '|'),
            decreases ps@.len() - i,
        {
            let a: String = to_text(trim(ps[i].as_slice()));
            let low: Vec<char> = lower_chars(a.as_str());
            proof {
                assert(all[i as int] == ps@[i as int]@);
                assert(low@ == goal[i as int]);
                if ascii {
                    lemma_ascii_parts(t@, '|', i as int);
                    lemma_ascii_trimmed(all[i as int]);
                    assert(low@ == plain[i as int]);
                }
            }
            if low.len() == 0 {
                assert(has_empty(goal)) by {
                    assert(goal[i as int].len() == 0);
                }
                assert(ascii ==> has_empty(plain)) by {
                    if ascii {
                        assert(plain[i as int].len() == 0);
                    }
                }
                let shown: String = to_text(t);
                return Err(
                    "empty alternative in {".to_owned().concat(shown.as_str()).concat("}"),
                );
            }
            alts.push(low);
            i += 1;
        }
        proof {
            assert(views(alts@) =~= goal);
            assert forall|k: int| 0 <= k < goal.len() implies (#[trigger] goal[k]).len() > 0 by {
                assert(alts@[k]@.len() > 0);
            }
            assert(!has_empty(goal));
            if ascii {
                assert(views(alts@) =~= plain);
                assert(goal == plain);
            }
        }
        return Ok(Brace::Alt(alts));
    }
    let ps: Vec<Vec<char>> = split(t, ',');
    let ghost all = views(ps@);
    let mut conds: Vec<Cond> = Vec::new();
    let mut i: usize = 0;
    assert(all.take(0).len() == 0);
    while i < ps.len()
        invariant
            i <= ps@.len(),
            all == views(ps@),
            conds_of(all.take(i as int)) == Ok::<Seq<Cond>, Seq<char>>(conds@),
            t@.len() > 0,
            !(has_char(t@, '|') || !starts_with_op(t@)),
            t@ == trimmed(body@),
            all == parts(t@, ','),
        decreases ps@.len() - i,
    {
        proof {
            assert(all.take(i as int + 1).drop_last() == all.take(i as int));
            assert(all.take(i as int + 1).last() == ps@[i as int]@);
        }
        match parse_cond(ps[i].as_slice()) {
            Ok(c) => {
                conds.push(c);
            },
            Err(e) => {
                proof {
                    lemma_conds_err(all, i as int + 1);
                }
                return Err(e);
            },
        }
        i += 1;
    }
    assert(all.take(i as int) == all);
    Ok(Brace::Num(conds))
}

/// Appends a literal unless it is empty.
fn flush_literal(literal: Vec<char>, tokens: &mut Vec<Token>)
    ensures
        parts_of(final(tokens)@) == flushed(parts_of(old(tokens)@), literal@),
{
    let ghost before = parts_of(tokens@);
    let ghost lit = literal@;
    if literal.len() > 0 {
        tokens.push(Token::Literal(literal));
        assert(parts_of(tokens@) =~= before.push(Part::Literal(lit)));
    }
}

fn push_token(tokens: &mut Vec<Token>, t: Token)
    ensures
        parts_of(final(tokens)@) == parts_of(old(tokens)@).push(t@),
{
    let ghost before = parts_of(tokens@);
    let ghost p = t@;
    tokens.push(t);
    assert(parts_of(tokens@) =~= before.push(p));
}

/// What was read of a pattern.
pub open spec fn tokens_result(r: Result<Vec<Token>, String>) -> Result<Seq<Part>, Seq<char>> {
    match r {
        Ok(t) => Ok(parts_of(t@)),
        Err(e) => Err(e@),
    }
}

/// Reads the parts of a pattern.
pub fn parse_tokens(pattern: &[char]) -> (r: Result<Vec<Token>, String>)
    ensures
        tokens_result(r) == parsed(Folding::Unicode, pattern@, Seq::empty(), Seq::empty()),
        is_ascii_text(pattern@) ==> tokens_result(r) == parsed(
            Folding::Ascii,
            pattern@,
            Seq::empty(),
            Seq::empty(),
        ),
{
    let n: usize = pattern.len();
    let ghost ascii = is_ascii_text(pattern@);
    let ghost goal = parsed(Folding::Unicode, pattern@, Seq::empty(), Seq::empty());
    let ghost plain = parsed(Folding::Ascii, pattern@, Seq::empty(), Seq::empty());
    let mut tokens: Vec<Token> = Vec::new();
    let mut literal: Vec<char> = Vec::new();
    let mut i: usize = 0;
    assert(pattern@.skip(0) == pattern@);
    assert(parts_of(tokens@) =~= Seq::empty());
    assert(literal@ =~= Seq::empty());
    while i < n
        invariant
            n == pattern@.len(),
            i <= n,
            ascii == is_ascii_text(pattern@),
            goal == parsed(
                Folding::Unicode,
                pattern@.skip(i as int),
                literal@,
                parts_of(tokens@),
            ),
            ascii ==> plain == parsed(
                Folding::Ascii,
                pattern@.skip(i as int),
                literal@,
                parts_of(tokens@),
            ),
            goal == parsed(Folding::Unicode, pattern@, Seq::empty(), Seq::empty()),
            plain == parsed(Folding::Ascii, pattern@, Seq::empty(), Seq::empty()),
        decreases n - i,
    {
        let ghost rest = pattern@.skip(i as int);
        let c: char = pattern[i];
        assert(rest[0] == c);
        if c == '*' {
            flush_literal(literal, &mut tokens);
            literal = Vec::new();
            assert(literal@ =~= Seq::empty());
            if i + 1 < n && pattern[i + 1] == '*' {
                assert(rest[1] == '*');
                push_token(&mut tokens, Token::DoubleStar);
                assert(rest.skip(2) == pattern@.skip(i + 2));
                i += 2;
            } else {
                assert(rest.len() > 1 ==> rest[1] != '*');
                push_token(&mut tokens, Token::Star);
                assert(rest.skip(1) == pattern@.skip(i + 1));
                i += 1;
            }
        } else if c == '{' {
            flush_literal(literal, &mut tokens);
            literal = Vec::new();
            assert(literal@ =~= Seq::empty());
            assert(pattern@.subrange(i as int, n as int) == rest);
            match position(&pattern[i..n], '}') {
                None => {
                    return Err("unclosed '{' in filter".to_owned());
                },
                Some(k) => {
                    assert(k > 0);
                    let end: usize = i + k;
                    assert(pattern@.subrange(i + 1, end as int) == rest.subrange(1, k as int));
                    proof {
                        if ascii {
                            lemma_ascii_subrange(pattern@, i + 1, end as int);
                        }
                    }
                    match parse_brace(&pattern[i + 1..end]) {
                        Err(e) => {
                            return Err(e);
                        },
                        Ok(b) => {
                            push_token(&mut tokens, Token::Brace(b));
                        },
                    }
                    assert(rest.skip(k + 1) == pattern@.skip(end + 1));
                    i = end + 1;
                },
            }
        } else if c == '}' {
            return Err("stray '}' in filter".to_owned());
        } else {
            let low: Vec<char> = lower_char(c);
            append(&mut literal, low.as_slice());
            assert(rest.skip(1) == pattern@.skip(i + 1));
            i += 1;
        }
    }
    assert(pattern@.skip(i as int).len() == 0);
    flush_literal(literal, &mut tokens);
    Ok(tokens)
}

// ---- matching ----

/// Whether the parts of a pattern match a whole text.
pub open spec fn parts_match(ts: Seq<Part>, s: Seq<char>) -> bool
    decreases ts.len(),
{
    if ts.len() == 0 {
        s.len() == 0
    } else {
        let rest = ts.drop_first();
        match ts[0] {
            Part::Literal(l) => stands_at(s, l, 0) && parts_match(rest, s.skip(l.len() as int)),
            Part::Star => exists|n: int|
                0 <= n <= run_before(s, '_') && parts_match(rest, #[trigger] s.skip(n)),
            Part::DoubleStar => exists|n: int|
                0 <= n <= s.len() && parts_match(rest, #[trigger] s.skip(n)),
            Part::Alt(alts) => exists|k: int|
                0 <= k < alts.len() && stands_at(s, #[trigger] alts[k], 0) && parts_match(
                    rest,
                    s.skip(alts[k].len() as int),
                ),
            Part::Num(conds) => {
                let d = digit_run(s) as int;
                d > 0 && conds_hold(conds, s.take(d)) && parts_match(rest, s.skip(d))
            },
        }
    }
}

/// Whether all conditions hold of the number that some digits spell.
pub open spec fn conds_hold(conds: Seq<Cond>, digits: Seq<char>) -> bool {
    match Binary64::literal(digits) {
        None => false,
        Some(v) => forall|i: int| 0 <= i < conds.len() ==> (#[trigger] conds[i]).holds(v),
    }
}

fn all_hold(conds: &Vec<Cond>, digits: &[char]) -> (r: bool)
    ensures
        r == conds_hold(conds@, digits@),
{
    match Binary64::parse(digits) {
        None => false,
        Some(v) => {
            let mut i: usize = 0;
            while i < conds.len()
                invariant
                    i <= conds@.len(),
                    forall|k: int| 0 <= k < i ==> (#[trigger] conds@[k]).holds(v),
                    Binary64::literal(digits@) == Some(v),
                decreases conds@.len() - i,
            {
                if !conds[i].holds(v) {
                    return false;
                }
                i += 1;
            }
            true
        },
    }
}

/// Whether the rest of a pattern matches after up to `limit` characters.
fn match_any(rest: &[Token], s: &[char], limit: usize) -> (r: bool)
    requires
        limit <= s@.len(),
    ensures
        r == exists|n: int|
            0 <= n <= limit && parts_match(parts_of(rest@), #[trigger] s@.skip(n)),
    decreases rest@.len(), 1nat,
{
    let mut n: usize = 0;
    loop
        invariant
            limit <= s@.len(),
            n <= limit,
            forall|k: int|
                0 <= k < n ==> !parts_match(parts_of(rest@), #[trigger] s@.skip(k)),
        decreases limit - n,
    {
        assert(s@.subrange(n as int, s@.len() as int) == s@.skip(n as int));
        if match_tokens(rest, &s[n..s.len()]) {
            return true;
        }
        if n == limit {
            return false;
        }
        n += 1;
    }
}

/// Matches the parts of a pattern against a whole text, by backtracking.
pub fn match_tokens(tokens: &[Token], s: &[char]) -> (r: bool)
    ensures
        r == parts_match(parts_of(tokens@), s@),
    decreases tokens@.len(), 0nat,
{
    let ghost ts = parts_of(tokens@);
    proof {
        reveal_with_fuel(parts_match, 2);
    }
    let count: usize = tokens.len();
    let len: usize = s.len();
    if count == 0 {
        return len == 0;
    }
    let rest: &[Token] = &tokens[1..count];
    assert(parts_of(rest@) =~= ts.drop_first());
    assert(ts[0] == tokens@[0]@);
    match &tokens[0] {
        Token::Literal(lit) => {
            if !matches_at(s, lit.as_slice(), 0) {
                return false;
            }
            assert(s@.subrange(lit@.len() as int, len as int) == s@.skip(lit@.len() as int));
            match_tokens(rest, &s[lit.len()..len])
        },
        Token::Star => {
            proof {
                lemma_run_before(s@, '_');
            }
            let limit: usize = match position(s, '_') {
                Some(i) => i,
                None => len,
            };
            match_any(rest, s, limit)
        },
        Token::DoubleStar => match_any(rest, s, len),
        Token::Brace(Brace::Alt(alts)) => {
            let ghost av = views(alts@);
            let mut k: usize = 0;
            while k < alts.len()
                invariant
                    k <= alts@.len(),
                    len == s@.len(),
                    count == tokens@.len(),
                    count > 0,
                    rest@.len() == count - 1,
                    parts_of(rest@) == ts.drop_first(),
                    ts == parts_of(tokens@),
                    ts.len() > 0,
                    ts[0] == Part::Alt(av),
                    av == views(alts@),
                    forall|j: int|
                        0 <= j < k ==> !(stands_at(s@, #[trigger] av[j], 0) && parts_match(
                            ts.drop_first(),
                            s@.skip(av[j].len() as int),
                        )),
                decreases alts@.len() - k,
            {
                let alt: &Vec<char> = &alts[k];
                assert(av[k as int] == alt@);
                if matches_at(s, alt.as_slice(), 0) {
                    assert(s@.subrange(alt@.len() as int, len as int) == s@.skip(
                        alt@.len() as int,
                    ));
                    if match_tokens(rest, &s[alt.len()..len]) {
                        assert(ts[0]->Alt_0 == av);
                        assert(stands_at(s@, ts[0]->Alt_0[k as int], 0) && parts_match(
                            ts.drop_first(),
                            s@.skip(ts[0]->Alt_0[k as int].len() as int),
                        ));
                        return true;
                    }
                }
                k += 1;
            }
            false
        },
        Token::Brace(Brace::Num(conds)) => {
            let d: usize = leading_digits(s);
            if d == 0 {
                return false;
            }
            assert(s@.subrange(0, d as int) == s@.take(d as int));
            if !all_hold(conds, &s[0..d]) {
                return false;
            }
            assert(s@.subrange(d as int, len as int) == s@.skip(d as int));
            match_tokens(rest, &s[d..len])
        },
    }
}

/// Whether a rule lets a name through that is in lower case.
pub open spec fn lets_through(r: Rule, name: Seq<char>) -> bool {
    match r {
        Rule::Substring(needle) => has_text(name, needle),
        Rule::Pattern(ts) => parts_match(ts, name),
    }
}

/// What was read of a filter.
pub open spec fn filter_result(r: Result<Option<NameFilter>, String>) -> Result<
    Option<Rule>,
    Seq<char>,
> {
    match r {
        Ok(None) => Ok(None),
        Ok(Some(f)) => Ok(Some(f@)),
        Err(e) => Err(e@),
    }
}

impl NameFilter {
    /// Reads a filter: none for a blank pattern, and a message for one that is
    /// not understood.
    pub fn parse(pattern: &str) -> (r: Result<Option<NameFilter>, String>)
        ensures
            filter_result(r) == filter_of(Folding::Unicode, pattern@),
            is_ascii_text(pattern@) ==> filter_result(r) == filter_of(Folding::Ascii, pattern@),
    {
        let chars: Vec<char> = to_chars(pattern);
        let p: &[char] = trim(chars.as_slice());
        proof {
            if is_ascii_text(pattern@) {
                lemma_ascii_trimmed(pattern@);
            }
        }
        if p.len() == 0 {
            return Ok(None);
        }
        proof {
            lemma_run_before(p@, '*');
            lemma_run_before(p@, '{');
        }
        if position(p, '*').is_some() || position(p, '{').is_some() {
            match parse_tokens(p) {
                Ok(t) => Ok(Some(NameFilter { kind: Kind::Pattern(t) })),
                Err(e) => Err(e),
            }
        } else {
            let t: String = to_text(p);
            Ok(Some(NameFilter { kind: Kind::Substring(lower_chars(t.as_str())) }))
        }
    }

    /// Whether a file name, extension included, passes the filter.
    pub fn matches(&self, name: &str) -> (r: bool)
        ensures
            r == lets_through(self@, lowercase(name@)),
            is_ascii_text(name@) ==> r == lets_through(self@, lower_all(name@)),
    {
        let s: Vec<char> = lower_chars(name);
        match &self.kind {
            Kind::Substring(needle) => contains(s.as_slice(), needle.as_slice()),
            Kind::Pattern(tokens) => match_tokens(tokens.as_slice(), s.as_slice()),
        }
    }
}

// ---- laws ----

/// A blank pattern is no filter.
pub proof fn law_blank_is_no_filter(f: Folding, pattern: Seq<char>)
    requires
        trimmed(pattern).len() == 0,
    ensures
        filter_of(f, pattern) == Ok::<Option<Rule>, Seq<char>>(None),
{
}

/// A pattern with no `*` and no `{` is a search for its text, ignoring case.
pub proof fn law_plain_text_is_a_search(f: Folding, pattern: Seq<char>)
    requires
        trimmed(pattern).len() > 0,
        !has_char(trimmed(pattern), '*'),
        !has_char(trimmed(pattern), '{'),
    ensures
        filter_of(f, pattern) == Ok::<Option<Rule>, Seq<char>>(
            Some(Rule::Substring(f.text(trimmed(pattern)))),
        ),
{
}

/// A star matches a text exactly when no `_` is in it.
pub proof fn law_star_does_not_cross_underscore(s: Seq<char>)
    ensures
        parts_match(seq![Part::Star], s) == (forall|i: int| 0 <= i < s.len() ==> s[i] != '_'),
{
    reveal_with_fuel(parts_match, 2);
    let ts = seq![Part::Star];
    lemma_run_before(s, '_');
    assert(ts.drop_first() =~= Seq::empty());
    if forall|i: int| 0 <= i < s.len() ==> s[i] != '_' {
        assert(run_before(s, '_') == s.len());
        assert(s.skip(s.len() as int).len() == 0);
        assert(parts_match(ts.drop_first(), s.skip(s.len() as int)));
    }
    if parts_match(ts, s) {
        let n = choose|n: int|
            0 <= n <= run_before(s, '_') && parts_match(ts.drop_first(), #[trigger] s.skip(n));
        assert(s.skip(n).len() == 0);
        assert(run_before(s, '_') == s.len());
    }
}

/// A star before the rest of a pattern takes any run of characters without a
/// `_`, and no other.
pub proof fn law_star_takes_a_run(ts: Seq<Part>, s: Seq<char>)
    ensures
        parts_match(seq![Part::Star] + ts, s) == exists|n: int|
            0 <= n <= s.len() && (forall|i: int| 0 <= i < n ==> s[i] != '_') && parts_match(
                ts,
                #[trigger] s.skip(n),
            ),
{
    let all = seq![Part::Star] + ts;
    assert(all.drop_first() =~= ts);
    lemma_run_before(s, '_');
    if parts_match(all, s) {
        let n = choose|n: int|
            0 <= n <= run_before(s, '_') && parts_match(all.drop_first(), #[trigger] s.skip(n));
        assert(parts_match(ts, s.skip(n)));
    }
    if exists|n: int|
        0 <= n <= s.len() && (forall|i: int| 0 <= i < n ==> s[i] != '_') && parts_match(
            ts,
            #[trigger] s.skip(n),
        ) {
        let n = choose|n: int|
            0 <= n <= s.len() && (forall|i: int| 0 <= i < n ==> s[i] != '_') && parts_match(
                ts,
                #[trigger] s.skip(n),
            );
        if run_before(s, '_') < n {
            assert(s[run_before(s, '_') as int] == '_');
        }
        assert(parts_match(all.drop_first(), s.skip(n)));
    }
}

/// Two stars match any text.
pub proof fn law_double_star_matches_anything(s: Seq<char>)
    ensures
        parts_match(seq![Part::DoubleStar], s),
{
    reveal_with_fuel(parts_match, 2);
    let ts = seq![Part::DoubleStar];
    assert(ts.drop_first() =~= Seq::empty());
    assert(s.skip(s.len() as int).len() == 0);
    assert(parts_match(ts.drop_first(), s.skip(s.len() as int)));
}

/// Two stars before the rest of a pattern let it match anywhere at the end.
pub proof fn law_double_star_skips(ts: Seq<Part>, a: Seq<char>, b: Seq<char>)
    requires
        parts_match(ts, b),
    ensures
        parts_match(seq![Part::DoubleStar] + ts, a + b),
{
    reveal_with_fuel(parts_match, 2);
    let all = seq![Part::DoubleStar] + ts;
    assert(all.drop_first() =~= ts);
    assert((a + b).skip(a.len() as int) =~= b);
    assert(parts_match(all.drop_first(), (a + b).skip(a.len() as int)));
}

/// A numeric condition takes the whole run of digits: it matches digits that
/// are followed by no digit exactly when it holds of their number and the rest
/// of the pattern matches what follows.
pub proof fn law_digit_run_is_taken_whole(
    conds: Seq<Cond>,
    ts: Seq<Part>,
    digits: Seq<char>,
    rest: Seq<char>,
)
    requires
        digits.len() > 0,
        all_digits(digits),
        rest.len() == 0 || !is_digit(rest[0]),
    ensures
        parts_match(seq![Part::Num(conds)] + ts, digits + rest) == (conds_hold(conds, digits)
            && parts_match(ts, rest)),
{
    let s = digits + rest;
    lemma_digits_then(digits, rest);
    assert(s.take(digits.len() as int) =~= digits);
    assert(s.skip(digits.len() as int) =~= rest);
    assert((seq![Part::Num(conds)] + ts).drop_first() =~= ts);
}

/// A numeric condition needs digits.
pub proof fn law_numeric_condition_needs_digits(
    conds: Seq<Cond>,
    ts: Seq<Part>,
    s: Seq<char>,
)
    requires
        s.len() == 0 || !is_digit(s[0]),
    ensures
        !parts_match(seq![Part::Num(conds)] + ts, s),
{
}

/// Conditions that are separated by commas must all hold.
pub proof fn law_conditions_are_anded(a: Seq<Cond>, b: Seq<Cond>, digits: Seq<char>)
    ensures
        conds_hold(a + b, digits) == (conds_hold(a, digits) && conds_hold(b, digits)),
{
    match Binary64::literal(digits) {
        None => {},
        Some(v) => {
            let all = a + b;
            if conds_hold(all, digits) {
                assert forall|i: int| 0 <= i < a.len() implies (#[trigger] a[i]).holds(v) by {
                    assert(all[i].holds(v));
                }
                assert forall|i: int| 0 <= i < b.len() implies (#[trigger] b[i]).holds(v) by {
                    assert(all[a.len() + i].holds(v));
                }
            }
            if conds_hold(a, digits) && conds_hold(b, digits) {
                assert forall|i: int| 0 <= i < all.len() implies (#[trigger] all[i]).holds(v) by {
                    if i < a.len() {
                        assert(a[i].holds(v));
                    } else {
                        assert(b[i - a.len()].holds(v));
                    }
                }
            }
        },
    }
}

/// Alternatives match a text that begins with any one of them and goes on with
/// what the rest of the pattern matches.
pub proof fn law_one_alternative_is_enough(
    alts: Seq<Seq<char>>,
    ts: Seq<Part>,
    k: int,
    rest: Seq<char>,
)
    requires
        0 <= k < alts.len(),
        parts_match(ts, rest),
    ensures
        parts_match(seq![Part::Alt(alts)] + ts, alts[k] + rest),
{
    let all = seq![Part::Alt(alts)] + ts;
    let s = alts[k] + rest;
    assert(all.drop_first() =~= ts);
    assert(s.skip(alts[k].len() as int) =~= rest);
    assert(s.subrange(0, alts[k].len() as int) =~= alts[k]);
    assert(all[0]->Alt_0 == alts);
    assert(stands_at(s, alts[k], 0));
}

/// Names in ASCII that differ in the case of their letters alone pass the same
/// filters; so do any two names that are the same in lower case.
pub proof fn law_matching_ignores_case(r: Rule, a: Seq<char>, b: Seq<char>)
    ensures
        same_ignoring_case(a, b) ==> lets_through(r, lower_all(a)) == lets_through(
            r,
            lower_all(b),
        ),
        lowercase(a) == lowercase(b) ==> lets_through(r, lowercase(a)) == lets_through(
            r,
            lowercase(b),
        ),
{
}

} // verus!
