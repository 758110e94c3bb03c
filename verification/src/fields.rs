//! Header fields: an ordered list of keys and values, each key at most once.

use crate::text::{
    cut, equal_ignoring_case, lemma_precedes_irreflexive, lemma_precedes_total,
    lemma_precedes_transitive, precedes, same, same_ignoring_case, split_once, text_precedes,
    to_chars,
};
use vstd::prelude::*;

verus! {

/// Keys with their values, in the order in which the keys first appeared.
pub type Entries = Seq<(Seq<char>, Seq<char>)>;

/// The position of a key; the number of entries when it is not there.
pub open spec fn index_of(m: Entries, key: Seq<char>) -> nat
    decreases m.len(),
{
    if m.len() == 0 || m[0].0 == key {
        0
    } else {
        1 + index_of(m.drop_first(), key)
    }
}

pub open spec fn has_key(m: Entries, key: Seq<char>) -> bool {
    index_of(m, key) < m.len()
}

/// The value of a key.
pub open spec fn value_of(m: Entries, key: Seq<char>) -> Option<Seq<char>> {
    if has_key(m, key) {
        Some(m[index_of(m, key) as int].1)
    } else {
        None
    }
}

/// The fields with the value of a key set; a new key comes last.
pub open spec fn put(m: Entries, key: Seq<char>, value: Seq<char>) -> Entries {
    if has_key(m, key) {
        m.update(index_of(m, key) as int, (key, value))
    } else {
        m.push((key, value))
    }
}

/// The fields with a key added unless it is there already.
pub open spec fn put_new(m: Entries, key: Seq<char>, value: Seq<char>) -> Entries {
    if has_key(m, key) {
        m
    } else {
        m.push((key, value))
    }
}

/// No key appears twice.
pub open spec fn distinct(m: Entries) -> bool {
    forall|i: int, j: int| 0 <= i < j < m.len() ==> m[i].0 != m[j].0
}

pub proof fn lemma_index_of(m: Entries, key: Seq<char>)
    ensures
        index_of(m, key) <= m.len(),
        has_key(m, key) ==> m[index_of(m, key) as int].0 == key,
        forall|i: int| 0 <= i < index_of(m, key) ==> m[i].0 != key,
    decreases m.len(),
{
    if m.len() > 0 && m[0].0 != key {
        let t = m.drop_first();
        lemma_index_of(t, key);
        assert forall|i: int| 0 <= i < index_of(m, key) implies m[i].0 != key by {
            if i > 0 {
                assert(m[i] == t[i - 1]);
            }
        }
    }
}

/// A position that holds a key, with no such position before it, is the key's.
pub proof fn lemma_index_is(m: Entries, key: Seq<char>, n: int)
    requires
        0 <= n <= m.len(),
        n < m.len() ==> m[n].0 == key,
        forall|i: int| 0 <= i < n ==> m[i].0 != key,
    ensures
        index_of(m, key) == n,
{
    lemma_index_of(m, key);
}

/// Setting a key keeps the keys distinct, reads back what was set, and leaves
/// every other key alone.
pub proof fn law_put(m: Entries, key: Seq<char>, value: Seq<char>, other: Seq<char>)
    ensures
        distinct(m) ==> distinct(put(m, key, value)),
        value_of(put(m, key, value), key) == Some(value),
        other != key ==> value_of(put(m, key, value), other) == value_of(m, other),
{
    let n = put(m, key, value);
    lemma_index_of(m, key);
    lemma_index_of(m, other);
    lemma_index_is(n, key, index_of(m, key) as int);
    if other != key {
        if has_key(m, other) {
            lemma_index_is(n, other, index_of(m, other) as int);
        } else {
            lemma_index_is(n, other, n.len() as int);
        }
    }
}

/// Adding a key keeps the keys distinct, keeps the value that the key had, and
/// leaves every other key alone.
pub proof fn law_put_new(m: Entries, key: Seq<char>, value: Seq<char>, other: Seq<char>)
    ensures
        distinct(m) ==> distinct(put_new(m, key, value)),
        value_of(put_new(m, key, value), key) == (if has_key(m, key) {
            value_of(m, key)
        } else {
            Some(value)
        }),
        other != key ==> value_of(put_new(m, key, value), other) == value_of(m, other),
{
    if !has_key(m, key) {
        law_put(m, key, value, other);
    }
}

/// A list of header fields.
#[derive(Debug)]
pub struct FieldMap {
    entries: Vec<(String, String)>,
}

impl Clone for FieldMap {
    fn clone(&self) -> (r: FieldMap)
        ensures
            r@ == self@,
    {
        let mut entries: Vec<(String, String)> = Vec::new();
        let mut i: usize = 0;
        while i < self.entries.len()
            invariant
                i <= self.entries@.len(),
                entries@.len() == i,
                forall|k: int|
                    0 <= k < i ==> (#[trigger] entries@[k]).0@ == self.entries@[k].0@
                        && entries@[k].1@ == self.entries@[k].1@,
            decreases self.entries@.len() - i,
        {
            entries.push((self.entries[i].0.clone(), self.entries[i].1.clone()));
            i += 1;
        }
        let r = FieldMap { entries };
        assert(r@ =~= self@);
        r
    }
}

impl FieldMap {
    pub closed spec fn view(&self) -> Entries {
        Seq::new(self.entries@.len(), |i: int| (self.entries@[i].0@, self.entries@[i].1@))
    }

    /// No fields.
    pub fn new() -> (r: FieldMap)
        ensures
            r@ == Entries::empty(),
    {
        let r = FieldMap { entries: Vec::new() };
        assert(r@ =~= Entries::empty());
        r
    }

    /// The number of fields.
    pub fn len(&self) -> (r: usize)
        ensures
            r == self@.len(),
    {
        self.entries.len()
    }

    /// The key at a position.
    pub fn key(&self, i: usize) -> (r: &String)
        requires
            i < self@.len(),
        ensures
            r@ == self@[i as int].0,
    {
        &self.entries[i].0
    }

    /// The value at a position.
    pub fn value(&self, i: usize) -> (r: &String)
        requires
            i < self@.len(),
        ensures
            r@ == self@[i as int].1,
    {
        &self.entries[i].1
    }

    /// The position of a key; the number of entries when it is not there.
    fn find(&self, key: &[char]) -> (r: usize)
        ensures
            r == index_of(self@, key@),
            r <= self@.len(),
    {
        let mut i: usize = 0;
        while i < self.entries.len()
            invariant
                i <= self@.len(),
                self@.len() == self.entries@.len(),
                forall|k: int| 0 <= k < i ==> (#[trigger] self@[k]).0 != key@,
            decreases self@.len() - i,
        {
            let k: Vec<char> = to_chars(self.entries[i].0.as_str());
            if same(k.as_slice(), key) {
                proof {
                    lemma_index_is(self@, key@, i as int);
                }
                return i;
            }
            i += 1;
        }
        proof {
            lemma_index_is(self@, key@, i as int);
        }
        i
    }

    /// The value of a key.
    pub fn get(&self, key: &str) -> (r: Option<&String>)
        ensures
            match r {
                Some(v) => value_of(self@, key@) == Some(v@),
                None => value_of(self@, key@) is None,
            },
    {
        let k: Vec<char> = to_chars(key);
        let i: usize = self.find(k.as_slice());
        if i < self.entries.len() {
            Some(&self.entries[i].1)
        } else {
            None
        }
    }

    /// Whether a key is there.
    pub fn contains_key(&self, key: &str) -> (r: bool)
        ensures
            r == has_key(self@, key@),
    {
        self.get(key).is_some()
    }

    /// Sets the value of a key.
    pub fn insert(&mut self, key: String, value: String)
        ensures
            final(self)@ == put(old(self)@, key@, value@),
            distinct(old(self)@) ==> distinct(final(self)@),
    {
        let ghost before = self@;
        let (kv, vv) = (Ghost(key@), Ghost(value@));
        let k: Vec<char> = to_chars(key.as_str());
        let i: usize = self.find(k.as_slice());
        if i < self.entries.len() {
            self.entries.set(i, (key, value));
            assert(self@ =~= before.update(i as int, (kv@, vv@)));
        } else {
            self.entries.push((key, value));
            assert(self@ =~= before.push((kv@, vv@)));
        }
        proof {
            law_put(before, kv@, vv@, kv@);
        }
    }

    /// Adds a key unless it is there already.
    pub fn insert_new(&mut self, key: String, value: String)
        ensures
            final(self)@ == put_new(old(self)@, key@, value@),
            distinct(old(self)@) ==> distinct(final(self)@),
    {
        let ghost before = self@;
        let (kv, vv) = (Ghost(key@), Ghost(value@));
        let k: Vec<char> = to_chars(key.as_str());
        let i: usize = self.find(k.as_slice());
        if i >= self.entries.len() {
            self.entries.push((key, value));
            assert(self@ =~= before.push((kv@, vv@)));
        }
        proof {
            law_put_new(before, kv@, vv@, kv@);
        }
    }
}

// ---- looking fields up by section and name ----

/// The section and the bare name of a key.
pub open spec fn key_parts(k: Seq<char>) -> (Option<Seq<char>>, Seq<char>) {
    match cut(k, "::"@) {
        Some((s, b)) => (Some(s), b),
        None => (None, k),
    }
}

/// Whether a key names the field `key` of `section`, ignoring case.
pub open spec fn key_matches(k: Seq<char>, section: Option<Seq<char>>, key: Seq<char>) -> bool {
    let (have, bare) = key_parts(k);
    same_ignoring_case(bare, key) && match (section, have) {
        (None, None) => true,
        (Some(want), Some(s)) => same_ignoring_case(s, want),
        _ => false,
    }
}

/// Entry `i` matches, and its key is the least of those that do.
pub open spec fn is_least_match(
    m: Entries,
    section: Option<Seq<char>>,
    key: Seq<char>,
    i: int,
) -> bool {
    &&& 0 <= i < m.len()
    &&& key_matches(m[i].0, section, key)
    &&& forall|j: int|
        0 <= j < m.len() && j != i && key_matches((#[trigger] m[j]).0, section, key) ==> precedes(
            m[i].0,
            m[j].0,
        ) || (m[i].0 == m[j].0 && i < j)
}

/// The value of a field: of the keys that match, the least in lexicographic
/// order decides.
pub open spec fn header_value(
    m: Entries,
    section: Option<Seq<char>>,
    key: Seq<char>,
) -> Option<Seq<char>> {
    if exists|i: int| is_least_match(m, section, key, i) {
        Some(m[choose|i: int| is_least_match(m, section, key, i)].1)
    } else {
        None
    }
}

pub open spec fn opt_view(s: Option<&str>) -> Option<Seq<char>> {
    match s {
        Some(t) => Some(t@),
        None => None,
    }
}

proof fn lemma_least_unique(
    m: Entries,
    section: Option<Seq<char>>,
    key: Seq<char>,
    i: int,
    j: int,
)
    requires
        is_least_match(m, section, key, i),
        is_least_match(m, section, key, j),
    ensures
        i == j,
{
    if i != j {
        assert(key_matches(m[i].0, section, key) && key_matches(m[j].0, section, key));
        if precedes(m[i].0, m[j].0) && precedes(m[j].0, m[i].0) {
            lemma_precedes_transitive(m[i].0, m[j].0, m[i].0);
        }
        lemma_precedes_irreflexive(m[i].0);
    }
}

/// A lookup finds a value whenever some key matches.
pub proof fn law_matching_field_is_found(m: Entries, section: Option<Seq<char>>, key: Seq<char>, i: int)
    requires
        0 <= i < m.len(),
        key_matches(m[i].0, section, key),
    ensures
        header_value(m, section, key) is Some,
{
    lemma_least_exists(m, section, key, m.len() as int, i);
}

/// Of the first `n` entries, if one matches then one is the least that does.
proof fn lemma_least_exists(
    m: Entries,
    section: Option<Seq<char>>,
    key: Seq<char>,
    n: int,
    i: int,
)
    requires
        0 <= i < n <= m.len(),
        key_matches(m[i].0, section, key),
    ensures
        exists|k: int| is_least_match(m.take(n), section, key, k),
        n == m.len() ==> exists|k: int| is_least_match(m, section, key, k),
    decreases n,
{
    let t = m.take(n);
    if exists|j: int| 0 <= j < n - 1 && key_matches((#[trigger] m[j]).0, section, key) {
        let j = choose|j: int| 0 <= j < n - 1 && key_matches((#[trigger] m[j]).0, section, key);
        lemma_least_exists(m, section, key, n - 1, j);
        let s = m.take(n - 1);
        let k = choose|k: int| is_least_match(s, section, key, k);
        let last = n - 1;
        assert(s[k] == m[k]);
        lemma_precedes_total(m[k].0, m[last].0);
        if key_matches(m[last].0, section, key) && precedes(m[last].0, m[k].0) {
            assert forall|x: int|
                0 <= x < n && x != last && key_matches((#[trigger] t[x]).0, section, key) implies
                precedes(t[last].0, t[x].0) || (t[last].0 == t[x].0 && last < x) by {
                assert(t[x] == s[x]);
                if x != k && precedes(m[k].0, m[x].0) {
                    lemma_precedes_transitive(m[last].0, m[k].0, m[x].0);
                }
            }
            assert(is_least_match(t, section, key, last));
        } else {
            assert forall|x: int|
                0 <= x < n && x != k && key_matches((#[trigger] t[x]).0, section, key) implies
                precedes(t[k].0, t[x].0) || (t[k].0 == t[x].0 && k < x) by {
                if x < last {
                    assert(t[x] == s[x]);
                }
            }
            assert(is_least_match(t, section, key, k));
        }
    } else {
        assert forall|x: int|
            0 <= x < n && x != i && key_matches((#[trigger] t[x]).0, section, key) implies
            precedes(t[i].0, t[x].0) || (t[i].0 == t[x].0 && i < x) by {
            assert(t[x] == m[x]);
        }
        assert(is_least_match(t, section, key, i));
    }
    if n == m.len() {
        assert(t =~= m);
    }
}

/// Looks a header field up, ignoring case in the section and in the key;
/// without a section only keys without one count.
pub fn header_get<'a>(metadata: &'a FieldMap, section: Option<&str>, key: &str) -> (r: Option<
    &'a String,
>)
    ensures
        match r {
            Some(v) => header_value(metadata@, opt_view(section), key@) == Some(v@),
            None => header_value(metadata@, opt_view(section), key@) is None,
        },
{
    let ghost m = metadata@;
    let ghost sec = opt_view(section);
    let want: Vec<char> = to_chars(key);
    let want_section: Vec<char> = match section {
        Some(s) => to_chars(s),
        None => Vec::new(),
    };
    let sep: Vec<char> = to_chars("::");
    let n: usize = metadata.len();
    let mut found: bool = false;
    let mut best: usize = 0;
    let mut best_key: Vec<char> = Vec::new();
    let mut i: usize = 0;
    while i < n
        invariant
            m == metadata@,
            n == m.len(),
            i <= n,
            sec == opt_view(section),
            want@ == key@,
            section is Some ==> want_section@ == section->0@,
            sep@ == "::"@,
            found ==> best < i && best_key@ == m[best as int].0 && key_matches(
                m[best as int].0,
                sec,
                key@,
            ),
            found ==> forall|j: int|
                0 <= j < i && j != best && key_matches((#[trigger] m[j]).0, sec, key@) ==> precedes(
                    m[best as int].0,
                    m[j].0,
                ) || (m[best as int].0 == m[j].0 && best < j),
            !found ==> forall|j: int| 0 <= j < i ==> !key_matches((#[trigger] m[j]).0, sec, key@),
        decreases n - i,
    {
        let k: Vec<char> = to_chars(metadata.key(i).as_str());
        let hit: bool = match split_once(k.as_slice(), sep.as_slice()) {
            Some(p) => equal_ignoring_case(p.1, want.as_slice()) && section.is_some()
                && equal_ignoring_case(p.0, want_section.as_slice()),
            None => equal_ignoring_case(k.as_slice(), want.as_slice()) && section.is_none(),
        };
        assert(hit == key_matches(m[i as int].0, sec, key@));
        if hit {
            let better: bool = !found || text_precedes(k.as_slice(), best_key.as_slice());
            proof {
                if found {
                    lemma_precedes_total(m[best as int].0, m[i as int].0);
                    if better {
                        assert forall|j: int|
                            0 <= j < i && key_matches((#[trigger] m[j]).0, sec, key@) implies
                            precedes(m[i as int].0, m[j].0) by {
                            if j != best && m[best as int].0 != m[j].0 {
                                lemma_precedes_transitive(m[i as int].0, m[best as int].0, m[j].0);
                            }
                        }
                    }
                }
            }
            if better {
                found = true;
                best = i;
                best_key = k;
            }
        }
        i += 1;
    }
    if found {
        proof {
            assert(is_least_match(m, sec, key@, best as int));
            let c = choose|x: int| is_least_match(m, sec, key@, x);
            lemma_least_unique(m, sec, key@, best as int, c);
        }
        Some(metadata.value(best))
    } else {
        None
    }
}

/// A lookup does not depend on the case in which the section and the key are
/// asked for.
pub proof fn law_lookup_ignores_case(
    m: Entries,
    a: Option<Seq<char>>,
    b: Option<Seq<char>>,
    key: Seq<char>,
    other: Seq<char>,
)
    requires
        same_ignoring_case(key, other),
        match (a, b) {
            (None, None) => true,
            (Some(x), Some(y)) => same_ignoring_case(x, y),
            _ => false,
        },
    ensures
        header_value(m, a, key) == header_value(m, b, other),
{
    assert forall|i: int| is_least_match(m, a, key, i) == is_least_match(m, b, other, i) by {
        assert(forall|k: Seq<char>| key_matches(k, a, key) == key_matches(k, b, other));
    }
    if exists|i: int| is_least_match(m, a, key, i) {
        let i = choose|i: int| is_least_match(m, a, key, i);
        assert(is_least_match(m, b, other, i));
        let j = choose|j: int| is_least_match(m, b, other, j);
        lemma_least_unique(m, b, other, i, j);
    }
    if exists|i: int| is_least_match(m, b, other, i) {
        let i = choose|i: int| is_least_match(m, b, other, i);
        assert(is_least_match(m, a, key, i));
    }
}

/// What a lookup finds does not depend on the order of the fields.
pub proof fn law_lookup_ignores_order(
    m: Entries,
    n: Entries,
    section: Option<Seq<char>>,
    key: Seq<char>,
)
    requires
        distinct(m),
        distinct(n),
        forall|i: int| 0 <= i < m.len() ==> n.contains(#[trigger] m[i]),
        forall|i: int| 0 <= i < n.len() ==> m.contains(#[trigger] n[i]),
    ensures
        header_value(m, section, key) == header_value(n, section, key),
{
    if header_value(m, section, key) is Some {
        lemma_same_least(m, n, section, key);
    }
    if header_value(n, section, key) is Some {
        lemma_same_least(n, m, section, key);
    }
}

proof fn lemma_same_least(m: Entries, n: Entries, section: Option<Seq<char>>, key: Seq<char>)
    requires
        distinct(m),
        distinct(n),
        forall|i: int| 0 <= i < m.len() ==> n.contains(#[trigger] m[i]),
        forall|i: int| 0 <= i < n.len() ==> m.contains(#[trigger] n[i]),
        header_value(m, section, key) is Some,
    ensures
        header_value(n, section, key) == header_value(m, section, key),
{
    let i = choose|i: int| is_least_match(m, section, key, i);
    assert(n.contains(m[i]));
    let k = choose|k: int| 0 <= k < n.len() && n[k] == m[i];
    assert forall|j: int|
        0 <= j < n.len() && j != k && key_matches((#[trigger] n[j]).0, section, key) implies
        precedes(n[k].0, n[j].0) by {
        assert(m.contains(n[j]));
        let x = choose|x: int| 0 <= x < m.len() && m[x] == n[j];
        assert(key_matches(m[x].0, section, key));
        assert(n[j].0 != n[k].0);
        assert(x != i);
    }
    assert(is_least_match(n, section, key, k));
    let c = choose|c: int| is_least_match(n, section, key, c);
    lemma_least_unique(n, section, key, k, c);
}

} // verus!
