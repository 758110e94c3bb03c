//! The files of a folder: which of them are scans, and which a filter shows.

use crate::name_filter::{is_ascii_text, lets_through, lower_text, lowercase, NameFilter, Rule};
use crate::text::{
    digit, is_digit, lemma_precedes_irreflexive, lemma_precedes_total, lemma_precedes_transitive,
    lower_all, precedes, same, text_precedes, to_chars, to_text,
};
use vstd::prelude::*;

verus! {

// ---- extensions ----

/// Whether a full stop is the last one of a name.
pub open spec fn is_last_stop(name: Seq<char>, i: int) -> bool {
    0 <= i < name.len() && name[i] == '.' && forall|k: int|
        i < k < name.len() ==> (#[trigger] name[k]) != '.'
}

/// Whether a name has an extension that follows position `i`: what stands
/// behind its last full stop, unless that is its first character. The name of
/// the parent folder has none.
pub open spec fn extension_at(name: Seq<char>, i: int) -> bool {
    i > 0 && is_last_stop(name, i) && name != ".."@
}

/// Finds where the extension of a file name begins.
pub fn extension_start(name: &[char]) -> (r: Option<usize>)
    ensures
        match r {
            Some(i) => 0 < i <= name@.len() && extension_at(name@, i - 1),
            None => forall|i: int| !extension_at(name@, i),
        },
{
    proof {
        reveal_strlit("..");
    }
    let n: usize = name.len();
    let mut i: usize = n;
    while i > 0 && name[i - 1] != '.'
        invariant
            n == name@.len(),
            i <= n,
            forall|k: int| i <= k < n ==> (#[trigger] name@[k]) != '.',
        decreases i,
    {
        i -= 1;
    }
    if i <= 1 {
        return None;
    }
    if n == 2 && i == 2 && name[0] == '.' {
        assert(name@ =~= ".."@);
        return None;
    }
    proof {
        if name@ == ".."@ {
            assert(name@[0] == '.');
        }
        assert(extension_at(name@, i - 1));
    }
    Some(i)
}

/// Whether a lower-case extension is that of a scan: `spm`, or digits alone.
pub open spec fn is_scan_extension(ext: Seq<char>) -> bool {
    ext == "spm"@ || forall|i: int| 0 <= i < ext.len() ==> is_digit(#[trigger] ext[i])
}

/// Tests whether a lower-case extension is that of a scan.
pub fn scan_extension(ext: &[char]) -> (r: bool)
    ensures
        r == is_scan_extension(ext@),
{
    let spm: Vec<char> = to_chars("spm");
    if same(ext, spm.as_slice()) {
        return true;
    }
    let mut i: usize = 0;
    while i < ext.len()
        invariant
            i <= ext@.len(),
            ext@ != "spm"@,
            forall|k: int| 0 <= k < i ==> is_digit(#[trigger] ext@[k]),
        decreases ext@.len() - i,
    {
        if !digit(ext[i]) {
            return false;
        }
        i += 1;
    }
    true
}

/// Whether a file name is that of a scan.
pub open spec fn is_scan(name: Seq<char>) -> bool {
    exists|i: int| #[trigger]
        extension_at(name, i) && is_scan_extension(lowercase(name.skip(i + 1)))
}

/// Tests whether a file name is that of a scan.
pub fn is_spm_file(name: &str) -> (r: bool)
    ensures
        r == is_scan(name@),
        forall|i: int| #[trigger]
            extension_at(name@, i) && is_ascii_text(name@.skip(i + 1)) ==> r == is_scan_extension(
                lower_all(name@.skip(i + 1)),
            ),
{
    let chars: Vec<char> = to_chars(name);
    let n: usize = chars.len();
    match extension_start(chars.as_slice()) {
        None => false,
        Some(i) => {
            assert(chars@.subrange(i as int, n as int) == chars@.skip(i as int));
            let ext: String = to_text(&chars.as_slice()[i..n]);
            let lowered: Vec<char> = to_chars(lower_text(ext.as_str()).as_str());
            proof {
                assert forall|k: int| extension_at(name@, k) implies k == i - 1 by {
                    if k < i - 1 {
                        assert(name@[i - 1] == '.');
                    } else if k > i - 1 {
                        assert(name@[k] == '.');
                    }
                }
            }
            scan_extension(lowered.as_slice())
        },
    }
}

// ---- a folder ----

/// The texts of some names.
pub open spec fn texts(names: Seq<String>) -> Seq<Seq<char>> {
    Seq::new(names.len(), |i: int| names[i]@)
}

/// Whether entry `a` of a folder is listed before entry `b`: by name, and as
/// they come where the names are the same.
pub open spec fn listed_before(names: Seq<Seq<char>>, a: int, b: int) -> bool {
    precedes(names[a], names[b]) || (names[a] == names[b] && a < b)
}

/// Whether `list` holds the scans among the first `n` entries of a folder, in
/// order.
pub open spec fn lists_scans(names: Seq<Seq<char>>, n: int, list: Seq<usize>) -> bool {
    &&& forall|k: int|
        0 <= k < list.len() ==> (#[trigger] list[k]) < n && is_scan(names[list[k] as int])
    &&& forall|a: usize| a < n && is_scan(names[a as int]) ==> #[trigger] list.contains(a)
    &&& forall|i: int, j: int|
        0 <= i < j < list.len() ==> listed_before(
            names,
            #[trigger] list[i] as int,
            #[trigger] list[j] as int,
        )
}

fn name_precedes(names: &Vec<String>, a: usize, b: usize) -> (r: bool)
    requires
        a < names@.len(),
        b < names@.len(),
    ensures
        r == precedes(texts(names@)[a as int], texts(names@)[b as int]),
{
    let x: Vec<char> = to_chars(names[a].as_str());
    let y: Vec<char> = to_chars(names[b].as_str());
    text_precedes(x.as_slice(), y.as_slice())
}

/// Lists the scans of a folder, by name; `names` are the names of its files.
pub fn scan_files(names: &Vec<String>) -> (r: Vec<usize>)
    ensures
        lists_scans(texts(names@), names@.len() as int, r@),
        forall|k: int, i: int|
            0 <= k < names@.len() && #[trigger] extension_at(names@[k]@, i) && is_ascii_text(
                names@[k]@.skip(i + 1),
            ) ==> is_scan(names@[k]@) == is_scan_extension(lower_all(names@[k]@.skip(i + 1))),
{
    let ghost all = texts(names@);
    let mut list: Vec<usize> = Vec::new();
    let mut n: usize = 0;
    while n < names.len()
        invariant
            n <= names@.len(),
            all == texts(names@),
            lists_scans(all, n as int, list@),
            forall|k: int, i: int|
                0 <= k < n && #[trigger] extension_at(names@[k]@, i) && is_ascii_text(
                    names@[k]@.skip(i + 1),
                ) ==> is_scan(names@[k]@) == is_scan_extension(lower_all(names@[k]@.skip(i + 1))),
        decreases names@.len() - n,
    {
        if is_spm_file(names[n].as_str()) {
            let mut at: usize = list.len();
            while at > 0 && name_precedes(names, n, list[at - 1])
                invariant
                    n < names@.len(),
                    all == texts(names@),
                    at <= list@.len(),
                    lists_scans(all, n as int, list@),
                    forall|k: int|
                        at <= k < list@.len() ==> precedes(
                            all[n as int],
                            all[#[trigger] list@[k] as int],
                        ),
                decreases at,
            {
                at -= 1;
            }
            let ghost before = list@;
            list.insert(at, n);
            proof {
                lemma_listed(all, n as int, before, at as int, n);
            }
        } else {
            proof {
                assert forall|a: usize| a < n + 1 && is_scan(all[a as int]) implies #[trigger]
                list@.contains(a) by {
                    assert(a < n);
                }
            }
        }
        n += 1;
    }
    list
}

proof fn lemma_listed(all: Seq<Seq<char>>, n: int, before: Seq<usize>, at: int, new: usize)
    requires
        0 <= n < all.len(),
        new == n,
        lists_scans(all, n, before),
        is_scan(all[n]),
        0 <= at <= before.len(),
        forall|k: int|
            at <= k < before.len() ==> precedes(all[n], all[#[trigger] before[k] as int]),
        at > 0 ==> !precedes(all[n], all[before[at - 1] as int]),
    ensures
        lists_scans(all, n + 1, before.insert(at, new)),
{
    let list = before.insert(at, new);
    assert forall|k: int| 0 <= k < list.len() implies (#[trigger] list[k]) < n + 1 && is_scan(
        all[list[k] as int],
    ) by {
        if k < at {
            assert(list[k] == before[k]);
        } else if k > at {
            assert(list[k] == before[k - 1]);
        }
    }
    assert forall|a: usize| a < n + 1 && is_scan(all[a as int]) implies #[trigger] list.contains(
        a,
    ) by {
        if a == new {
            assert(list[at] == new);
        } else {
            assert(before.contains(a));
            let k = before.index_of(a);
            if k < at {
                assert(list[k] == a);
            } else {
                assert(list[k + 1] == a);
            }
        }
    }
    assert forall|i: int, j: int| 0 <= i < j < list.len() implies listed_before(
        all,
        #[trigger] list[i] as int,
        #[trigger] list[j] as int,
    ) by {
        let a = if i < at {
            before[i]
        } else if i == at {
            new
        } else {
            before[i - 1]
        };
        let b = if j < at {
            before[j]
        } else if j == at {
            new
        } else {
            before[j - 1]
        };
        assert(list[i] == a && list[j] == b);
        if j == at {
            let last = before[at - 1];
            if i < at - 1 {
                assert(listed_before(all, a as int, last as int));
            }
            lemma_precedes_total(all[n], all[last as int]);
            if precedes(all[last as int], all[n]) && precedes(all[a as int], all[last as int]) {
                lemma_precedes_transitive(all[a as int], all[last as int], all[n]);
            }
        } else if i == at {
            assert(precedes(all[n], all[before[j - 1] as int]));
        } else {
            let i0 = if i < at {
                i
            } else {
                i - 1
            };
            let j0 = if j < at {
                j
            } else {
                j - 1
            };
            assert(listed_before(all, before[i0] as int, before[j0] as int));
        }
    }
}

/// A folder has one listing only.
pub proof fn law_listing_is_unique(names: Seq<Seq<char>>, a: Seq<usize>, b: Seq<usize>)
    requires
        lists_scans(names, names.len() as int, a),
        lists_scans(names, names.len() as int, b),
    ensures
        a == b,
{
    lemma_same_listing(names, a, b, 0);
    lemma_same_listing(names, b, a, 0);
    assert(a =~= b);
}

/// Two listings agree from any position on which they agree up to there.
proof fn lemma_same_listing(names: Seq<Seq<char>>, a: Seq<usize>, b: Seq<usize>, from: int)
    requires
        lists_scans(names, names.len() as int, a),
        lists_scans(names, names.len() as int, b),
        0 <= from <= a.len(),
        from <= b.len(),
        forall|k: int| 0 <= k < from ==> a[k] == b[k],
    ensures
        a.len() <= b.len(),
        forall|k: int| 0 <= k < a.len() ==> a[k] == b[k],
    decreases a.len() - from,
{
    if from < a.len() {
        assert(b.contains(a[from]));
        let j = b.index_of(a[from]);
        if j < from {
            assert(a[j] == a[from]);
            lemma_not_before_itself(names, a[j] as int);
            assert(listed_before(names, a[j] as int, a[from] as int));
        }
        assert(from < b.len());
        assert(a.contains(b[from]));
        let i = a.index_of(b[from]);
        if i < from {
            assert(b[i] == b[from]);
            lemma_not_before_itself(names, b[i] as int);
            assert(listed_before(names, b[i] as int, b[from] as int));
        }
        if j > from && i > from {
            assert(listed_before(names, a[from] as int, a[i] as int));
            assert(listed_before(names, b[from] as int, b[j] as int));
            lemma_not_both(names, a[from] as int, b[from] as int);
        }
        lemma_same_listing(names, a, b, from + 1);
    }
}

proof fn lemma_not_before_itself(names: Seq<Seq<char>>, a: int)
    ensures
        !listed_before(names, a, a),
{
    lemma_precedes_irreflexive(names[a]);
}

proof fn lemma_not_both(names: Seq<Seq<char>>, a: int, b: int)
    ensures
        !(listed_before(names, a, b) && listed_before(names, b, a)),
{
    lemma_precedes_irreflexive(names[a]);
    if precedes(names[a], names[b]) && precedes(names[b], names[a]) {
        lemma_precedes_transitive(names[a], names[b], names[a]);
    }
}

// ---- filtering ----

/// Whether a filter shows a name; without one every name is shown.
pub open spec fn is_shown(filter: Option<Rule>, name: Seq<char>) -> bool {
    match filter {
        Some(f) => lets_through(f, lowercase(name)),
        None => true,
    }
}

/// The first `n` names that a filter shows.
pub open spec fn shown(filter: Option<Rule>, names: Seq<Seq<char>>, n: int) -> Seq<usize>
    decreases n,
{
    if n <= 0 {
        Seq::empty()
    } else if is_shown(filter, names[n - 1]) {
        shown(filter, names, n - 1).push((n - 1) as usize)
    } else {
        shown(filter, names, n - 1)
    }
}

/// The rule of a filter that may be there.
pub open spec fn rule_of(filter: Option<NameFilter>) -> Option<Rule> {
    match filter {
        Some(f) => Some(f@),
        None => None,
    }
}

/// Lists the names that a filter shows, in order.
pub fn visible_files(names: &Vec<String>, filter: &Option<NameFilter>) -> (r: Vec<usize>)
    ensures
        r@ == shown(rule_of(*filter), texts(names@), names@.len() as int),
        filter matches Some(f) ==> forall|k: int|
            0 <= k < names@.len() && is_ascii_text(#[trigger] names@[k]@) ==> is_shown(
                Some(f@),
                names@[k]@,
            ) == lets_through(f@, lower_all(names@[k]@)),
{
    let ghost all = texts(names@);
    let mut list: Vec<usize> = Vec::new();
    let mut n: usize = 0;
    while n < names.len()
        invariant
            n <= names@.len(),
            all == texts(names@),
            list@ == shown(rule_of(*filter), all, n as int),
            filter matches Some(f) ==> forall|k: int|
                0 <= k < n && is_ascii_text(#[trigger] names@[k]@) ==> is_shown(
                    Some(f@),
                    names@[k]@,
                ) == lets_through(f@, lower_all(names@[k]@)),
        decreases names@.len() - n,
    {
        let show: bool = match filter {
            Some(f) => f.matches(names[n].as_str()),
            None => true,
        };
        if show {
            list.push(n);
        }
        n += 1;
    }
    list
}

/// Without a filter every name is shown.
pub proof fn law_no_filter_shows_all(names: Seq<Seq<char>>, n: nat)
    requires
        n <= names.len(),
    ensures
        shown(None, names, n as int) == Seq::new(n, |i: int| i as usize),
    decreases n,
{
    if n > 0 {
        law_no_filter_shows_all(names, (n - 1) as nat);
    }
    assert(shown(None, names, n as int) =~= Seq::new(n, |i: int| i as usize));
}

/// A filter shows a name if and only if it lets that name through.
pub proof fn law_filter_shows_matches(filter: Option<Rule>, names: Seq<Seq<char>>, n: nat, k: usize)
    requires
        k < n <= names.len(),
        n <= usize::MAX,
    ensures
        shown(filter, names, n as int).contains(k) == is_shown(filter, names[k as int]),
    decreases n,
{
    let before = shown(filter, names, n - 1);
    let all = shown(filter, names, n as int);
    if k == n - 1 {
        lemma_shown_below(filter, names, n - 1);
        if is_shown(filter, names[k as int]) {
            assert(all.last() == k);
        }
    } else {
        law_filter_shows_matches(filter, names, (n - 1) as nat, k);
        if before.contains(k) {
            assert(all[before.index_of(k)] == k);
        }
        if all.contains(k) {
            let at = all.index_of(k);
            if at == before.len() {
                assert(all[at] == (n - 1) as usize);
            } else {
                assert(before[at] == k);
            }
        }
    }
}

proof fn lemma_shown_below(filter: Option<Rule>, names: Seq<Seq<char>>, n: int)
    requires
        0 <= n <= usize::MAX,
    ensures
        forall|i: int|
            0 <= i < shown(filter, names, n).len() ==> (#[trigger] shown(filter, names, n)[i]) < n,
    decreases n,
{
    if n > 0 {
        lemma_shown_below(filter, names, n - 1);
        let (before, all) = (shown(filter, names, n - 1), shown(filter, names, n));
        assert forall|i: int| 0 <= i < all.len() implies (#[trigger] all[i]) < n by {
            if i < before.len() {
                assert(all[i] == before[i]);
            }
        }
    }
}

} // verus!
