//! Per-instrument XYZ calibration table.
//!
//! The microscope's own calibration is imperfect and the error is specific to
//! the scanner in use. This module holds multipliers for each instrument, keyed
//! by the serial number recorded in the file header, and reads and writes them
//! as text:
//!
//! ```text
//! # Kintuba AFM Viewer — instrument XYZ calibration
//! # <serial number>  <x scale>  <y scale>  <z scale>
//! 10396jvlr  1.000000  1.023000  0.987000
//! ```
//!
//! Blank lines and `#` comments are ignored, and the `z` column may be left out
//! (it is 1 then). A line that does not parse is skipped, and reported.

use crate::binary::Binary32;
use crate::table::{parse_table, render_table, rendered, skip_report, table_of};
use crate::text::{
    lemma_precedes_irreflexive, lemma_precedes_total, lemma_precedes_transitive, lower, lower_all,
    precedes, same, same_ignoring_case, strip, strip_back, strip_front, text_precedes,
    to_ascii_lowercase, to_chars, to_text, trim, trim_set, trimmed, CharSet,
};
use vstd::prelude::*;
use vstd::std_specs::cmp::PartialEqSpecImpl;

verus! {

/// Scale factors of an instrument: `x` and `y` multiply the lateral scan
/// extents, `z` multiplies the height samples.
#[derive(Clone, Copy, Debug)]
pub struct Calibration {
    pub x: Binary32,
    pub y: Binary32,
    pub z: Binary32,
}

/// Factors are compared as numbers: the two zeros are equal, and what is not a
/// number equals nothing.
impl PartialEq for Calibration {
    fn eq(&self, other: &Calibration) -> (r: bool) {
        self.x.equals(other.x) && self.y.equals(other.y) && self.z.equals(other.z)
    }
}

impl PartialEqSpecImpl for Calibration {
    open spec fn obeys_eq_spec() -> bool {
        true
    }

    open spec fn eq_spec(&self, other: &Calibration) -> bool {
        self.x.equals(other.x) && self.y.equals(other.y) && self.z.equals(other.z)
    }
}

/// `1e-6`: a factor this near to one counts as one.
pub const NEAR: u32 = 0x3586_37bd;

pub open spec fn is_near_one(v: Binary32) -> bool {
    v.minus(Binary32::of_integer(1)).abs().below(Binary32 { bits: NEAR })
}

/// Tests whether a factor is one, but for rounding.
pub fn near_one(v: Binary32) -> (r: bool)
    ensures
        r == is_near_one(v),
{
    v.minus(Binary32::from_usize(1)).abs().below(Binary32 { bits: NEAR })
}

impl Calibration {
    pub open spec fn spec_unity() -> Calibration {
        Calibration {
            x: Binary32::of_integer(1),
            y: Binary32::of_integer(1),
            z: Binary32::of_integer(1),
        }
    }

    /// No correction at all: what an unregistered instrument gets.
    #[verifier::when_used_as_spec(spec_unity)]
    pub fn unity() -> (r: Calibration)
        ensures
            r == Calibration::unity(),
    {
        Calibration {
            x: Binary32::from_usize(1),
            y: Binary32::from_usize(1),
            z: Binary32::from_usize(1),
        }
    }

    pub open spec fn spec_is_unity(&self) -> bool {
        is_near_one(self.x) && is_near_one(self.y) && is_near_one(self.z)
    }

    /// Whether nothing would actually be rescaled.
    #[verifier::when_used_as_spec(spec_is_unity)]
    pub fn is_unity(&self) -> (r: bool)
        ensures
            r == self.is_unity(),
    {
        near_one(self.x) && near_one(self.y) && near_one(self.z)
    }
}

impl Default for Calibration {
    fn default() -> (r: Calibration)
        ensures
            r == Calibration::unity(),
    {
        Calibration::unity()
    }
}

/// A serial number as a key: without surrounding whitespace and quotes, in
/// lower case.
pub open spec fn id_key(id: Seq<char>) -> Seq<char> {
    lower_all(trimmed(strip(trimmed(id), CharSet::Quote)))
}

/// Makes a key of a serial number.
pub fn normalize_id(id: &str) -> (r: String)
    ensures
        r@ == id_key(id@),
{
    let chars: Vec<char> = to_chars(id);
    let low: Vec<char> = to_ascii_lowercase(trim(trim_set(trim(chars.as_slice()), CharSet::Quote)));
    to_text(low.as_slice())
}

// ---- the registry ----

/// Keys with their factors, in order.
pub type Listing = Seq<(Seq<char>, Calibration)>;

/// The keys are in strict order.
pub open spec fn is_sorted(e: Listing) -> bool {
    forall|i: int, j: int| 0 <= i < j < e.len() ==> precedes(e[i].0, e[j].0)
}

/// The factors by key.
pub open spec fn as_map(e: Listing) -> Map<Seq<char>, Calibration>
    decreases e.len(),
{
    if e.len() == 0 {
        Map::empty()
    } else {
        as_map(e.drop_last()).insert(e.last().0, e.last().1)
    }
}

proof fn lemma_sorted_distinct(e: Listing, i: int, j: int)
    requires
        is_sorted(e),
        0 <= i < e.len(),
        0 <= j < e.len(),
        e[i].0 == e[j].0,
    ensures
        i == j,
{
    lemma_precedes_irreflexive(e[i].0);
}

/// What the map of a sorted listing holds.
pub(crate) proof fn lemma_as_map(e: Listing)
    requires
        is_sorted(e),
    ensures
        forall|k: Seq<char>|
            #[trigger] as_map(e).dom().contains(k) <==> exists|i: int|
                0 <= i < e.len() && #[trigger] e[i].0 == k,
        forall|i: int| 0 <= i < e.len() ==> as_map(e)[(#[trigger] e[i]).0] == e[i].1,
    decreases e.len(),
{
    if e.len() > 0 {
        let t = e.drop_last();
        let n = e.len() - 1;
        assert forall|i: int, j: int| 0 <= i < j < t.len() implies precedes(t[i].0, t[j].0) by {
            assert(t[i] == e[i] && t[j] == e[j]);
        }
        lemma_as_map(t);
        assert forall|k: Seq<char>| #[trigger] as_map(e).dom().contains(k) <==> exists|i: int|
            0 <= i < e.len() && #[trigger] e[i].0 == k by {
            if exists|i: int| 0 <= i < e.len() && #[trigger] e[i].0 == k {
                let i = choose|i: int| 0 <= i < e.len() && #[trigger] e[i].0 == k;
                if i < n {
                    assert(t[i].0 == k);
                }
            }
            if as_map(e).dom().contains(k) {
                if k == e.last().0 {
                    assert(e[n].0 == k);
                } else {
                    assert(as_map(t).dom().contains(k));
                    let i = choose|i: int| 0 <= i < t.len() && #[trigger] t[i].0 == k;
                    assert(e[i].0 == k);
                }
            }
        }
        assert forall|i: int| 0 <= i < e.len() implies as_map(e)[(#[trigger] e[i]).0]
            == e[i].1 by {
            if i < n {
                assert(t[i] == e[i]);
                if e[i].0 == e.last().0 {
                    lemma_sorted_distinct(e, i, n);
                }
            }
        }
    }
}

/// Factors by key, kept in the order of the keys.
#[derive(Debug)]
pub struct Registry {
    entries: Vec<(String, Calibration)>,
}

impl Clone for Registry {
    fn clone(&self) -> (r: Registry)
        ensures
            r.listing() == self.listing(),
    {
        let mut entries: Vec<(String, Calibration)> = Vec::new();
        let mut i: usize = 0;
        while i < self.entries.len()
            invariant
                i <= self.entries@.len(),
                entries@.len() == i,
                forall|k: int|
                    0 <= k < i ==> (#[trigger] entries@[k]).0@ == self.entries@[k].0@
                        && entries@[k].1 == self.entries@[k].1,
            decreases self.entries@.len() - i,
        {
            entries.push((self.entries[i].0.clone(), self.entries[i].1));
            i += 1;
        }
        let r = Registry { entries };
        assert(r.listing() =~= self.listing());
        r
    }
}

impl Registry {
    /// The entries in order.
    pub closed spec fn listing(&self) -> Listing {
        Seq::new(self.entries@.len(), |i: int| (self.entries@[i].0@, self.entries@[i].1))
    }

    /// The entries are in strict order of their keys.
    pub open spec fn wf(&self) -> bool {
        is_sorted(self.listing())
    }

    pub open spec fn view(&self) -> Map<Seq<char>, Calibration> {
        as_map(self.listing())
    }

    /// An empty registry.
    pub fn new() -> (r: Registry)
        ensures
            r.wf(),
            r.listing() == Listing::empty(),
            r@ == Map::<Seq<char>, Calibration>::empty(),
    {
        let r = Registry { entries: Vec::new() };
        assert(r.listing() =~= Listing::empty());
        r
    }

    /// The number of entries.
    pub fn len(&self) -> (r: usize)
        ensures
            r == self.listing().len(),
    {
        self.entries.len()
    }

    /// The key and the factors at a position.
    pub fn entry(&self, i: usize) -> (r: (&String, &Calibration))
        requires
            i < self.listing().len(),
        ensures
            r.0@ == self.listing()[i as int].0,
            *r.1 == self.listing()[i as int].1,
    {
        (&self.entries[i].0, &self.entries[i].1)
    }

    /// The position of a key, or where it would stand.
    fn seek(&self, key: &[char]) -> (r: (usize, bool))
        requires
            self.wf(),
        ensures
            r.0 <= self.listing().len(),
            r.1 ==> r.0 < self.listing().len() && self.listing()[r.0 as int].0 == key@,
            !r.1 ==> forall|i: int|
                0 <= i < self.listing().len() ==> (#[trigger] self.listing()[i]).0 != key@,
            forall|i: int| 0 <= i < r.0 ==> precedes((#[trigger] self.listing()[i]).0, key@),
            !r.1 ==> forall|i: int|
                r.0 <= i < self.listing().len() ==> precedes(key@, (#[trigger] self.listing()[i]).0),
    {
        let ghost e = self.listing();
        let mut i: usize = 0;
        while i < self.entries.len()
            invariant
                e == self.listing(),
                self.wf(),
                i <= e.len(),
                e.len() == self.entries@.len(),
                forall|k: int| 0 <= k < i ==> precedes((#[trigger] e[k]).0, key@),
            decreases e.len() - i,
        {
            let k: Vec<char> = to_chars(self.entries[i].0.as_str());
            assert(e[i as int].0 == k@);
            if same(k.as_slice(), key) {
                return (i, true);
            }
            if !text_precedes(k.as_slice(), key) {
                proof {
                    lemma_precedes_total(k@, key@);
                    assert forall|j: int| i <= j < e.len() implies precedes(
                        key@,
                        (#[trigger] e[j]).0,
                    ) by {
                        if j > i {
                            lemma_precedes_transitive(key@, e[i as int].0, e[j].0);
                        }
                    }
                    assert forall|j: int| 0 <= j < e.len() implies (#[trigger] e[j]).0 != key@ by {
                        lemma_precedes_irreflexive(key@);
                    }
                }
                return (i, false);
            }
            i += 1;
        }
        proof {
            assert forall|j: int| 0 <= j < e.len() implies (#[trigger] e[j]).0 != key@ by {
                lemma_precedes_irreflexive(key@);
            }
        }
        (i, false)
    }

    /// The factors of a key.
    pub fn get(&self, key: &str) -> (r: Option<Calibration>)
        requires
            self.wf(),
        ensures
            r is Some <==> self@.dom().contains(key@),
            r matches Some(c) ==> c == self@[key@],
    {
        proof {
            lemma_as_map(self.listing());
        }
        let k: Vec<char> = to_chars(key);
        let (i, found) = self.seek(k.as_slice());
        if found {
            assert(self.listing()[i as int].0 == key@);
            Some(self.entries[i].1)
        } else {
            None
        }
    }

    /// Sets the factors of a key.
    pub fn insert(&mut self, key: String, cal: Calibration)
        requires
            old(self).wf(),
        ensures
            final(self).wf(),
            final(self)@ == old(self)@.insert(key@, cal),
    {
        let ghost e = self.listing();
        let ghost kv = key@;
        let k: Vec<char> = to_chars(key.as_str());
        let (i, found) = self.seek(k.as_slice());
        if found {
            self.entries.set(i, (key, cal));
            proof {
                let n = self.listing();
                assert(n =~= e.update(i as int, (kv, cal)));
                assert(is_sorted(n));
                lemma_replaced(e, n, i as int, kv, cal);
            }
        } else {
            self.entries.insert(i, (key, cal));
            proof {
                let n = self.listing();
                assert(n =~= e.insert(i as int, (kv, cal)));
                assert forall|a: int, b: int| 0 <= a < b < n.len() implies precedes(
                    n[a].0,
                    n[b].0,
                ) by {
                    let (x, y) = (
                        if a < i {
                            a
                        } else {
                            a - 1
                        },
                        if b < i {
                            b
                        } else {
                            b - 1
                        },
                    );
                    if a == i {
                        assert(n[b] == e[y]);
                    } else if b == i {
                        assert(n[a] == e[x]);
                    } else {
                        assert(n[a] == e[x] && n[b] == e[y]);
                    }
                }
                lemma_inserted(e, n, i as int, kv, cal);
            }
        }
    }

    /// Removes a key.
    pub fn remove(&mut self, key: &str)
        requires
            old(self).wf(),
        ensures
            final(self).wf(),
            final(self)@ == old(self)@.remove(key@),
    {
        let ghost e = self.listing();
        let k: Vec<char> = to_chars(key);
        let (i, found) = self.seek(k.as_slice());
        if found {
            let _ = self.entries.remove(i);
            proof {
                let n = self.listing();
                assert(n =~= e.remove(i as int));
                assert forall|a: int, b: int| 0 <= a < b < n.len() implies precedes(
                    n[a].0,
                    n[b].0,
                ) by {
                    let (x, y) = (
                        if a < i {
                            a
                        } else {
                            a + 1
                        },
                        if b < i {
                            b
                        } else {
                            b + 1
                        },
                    );
                    assert(n[a] == e[x] && n[b] == e[y]);
                }
                lemma_removed(e, n, i as int, key@);
            }
        } else {
            proof {
                lemma_as_map(e);
                assert(!as_map(e).dom().contains(key@));
                assert(as_map(e).remove(key@) =~= as_map(e));
            }
        }
    }

    /// Access to the factors of a key.
    pub fn get_mut(&mut self, key: &str) -> (r: Option<&mut Calibration>)
        requires
            old(self).wf(),
        ensures
            match r {
                Some(c) => {
                    &&& old(self)@.dom().contains(key@)
                    &&& *c == old(self)@[key@]
                    &&& final(self).wf()
                    &&& final(self)@ == old(self)@.insert(key@, *final(c))
                },
                None => !old(self)@.dom().contains(key@) && *final(self) == *old(self),
            },
    {
        let ghost e = self.listing();
        let k: Vec<char> = to_chars(key);
        let (i, found) = self.seek(k.as_slice());
        proof {
            lemma_as_map(e);
        }
        if found {
            assert(e[i as int].0 == key@);
            let ghost fin = *final(self);
            let c: &mut Calibration = &mut self.entries[i].1;
            proof {
                let n = fin.listing();
                assert(n =~= e.update(i as int, (key@, *final(c))));
                lemma_replaced(e, n, i as int, key@, *final(c));
            }
            Some(c)
        } else {
            None
        }
    }
}

proof fn lemma_replaced(e: Listing, n: Listing, i: int, key: Seq<char>, cal: Calibration)
    requires
        is_sorted(e),
        is_sorted(n),
        0 <= i < e.len(),
        e[i].0 == key,
        n == e.update(i, (key, cal)),
    ensures
        as_map(n) == as_map(e).insert(key, cal),
{
    lemma_as_map(e);
    lemma_as_map(n);
    let m = as_map(e).insert(key, cal);
    assert forall|k: Seq<char>| as_map(n).dom().contains(k) == m.dom().contains(k) by {
        if as_map(n).dom().contains(k) {
            let j = choose|j: int| 0 <= j < n.len() && #[trigger] n[j].0 == k;
            assert(e[j].0 == k);
        }
        if as_map(e).dom().contains(k) {
            let j = choose|j: int| 0 <= j < e.len() && #[trigger] e[j].0 == k;
            assert(n[j].0 == k);
        }
        if k == key {
            assert(n[i].0 == k);
        }
    }
    assert forall|k: Seq<char>| as_map(n).dom().contains(k) implies as_map(n)[k] == m[k] by {
        let j = choose|j: int| 0 <= j < n.len() && #[trigger] n[j].0 == k;
        assert(e[j].0 == k);
        if k == key {
            lemma_sorted_distinct(n, i, j);
        }
    }
    assert(as_map(n) =~= m);
}

proof fn lemma_inserted(e: Listing, n: Listing, i: int, key: Seq<char>, cal: Calibration)
    requires
        is_sorted(e),
        is_sorted(n),
        0 <= i <= e.len(),
        forall|j: int| 0 <= j < e.len() ==> (#[trigger] e[j]).0 != key,
        n == e.insert(i, (key, cal)),
    ensures
        as_map(n) == as_map(e).insert(key, cal),
{
    lemma_as_map(e);
    lemma_as_map(n);
    let m = as_map(e).insert(key, cal);
    assert forall|k: Seq<char>| as_map(n).dom().contains(k) == m.dom().contains(k) by {
        if as_map(n).dom().contains(k) {
            let j = choose|j: int| 0 <= j < n.len() && #[trigger] n[j].0 == k;
            if j < i {
                assert(e[j].0 == k);
            } else if j > i {
                assert(e[j - 1].0 == k);
            }
        }
        if as_map(e).dom().contains(k) {
            let j = choose|j: int| 0 <= j < e.len() && #[trigger] e[j].0 == k;
            if j < i {
                assert(n[j].0 == k);
            } else {
                assert(n[j + 1].0 == k);
            }
        }
        if k == key {
            assert(n[i].0 == k);
        }
    }
    assert forall|k: Seq<char>| as_map(n).dom().contains(k) implies as_map(n)[k] == m[k] by {
        let j = choose|j: int| 0 <= j < n.len() && #[trigger] n[j].0 == k;
        if j < i {
            assert(e[j].0 == k);
        } else if j > i {
            assert(e[j - 1].0 == k);
        }
    }
    assert(as_map(n) =~= m);
}

proof fn lemma_removed(e: Listing, n: Listing, i: int, key: Seq<char>)
    requires
        is_sorted(e),
        is_sorted(n),
        0 <= i < e.len(),
        e[i].0 == key,
        n == e.remove(i),
    ensures
        as_map(n) == as_map(e).remove(key),
{
    lemma_as_map(e);
    lemma_as_map(n);
    let m = as_map(e).remove(key);
    assert forall|k: Seq<char>| as_map(n).dom().contains(k) == m.dom().contains(k) by {
        if as_map(n).dom().contains(k) {
            let j = choose|j: int| 0 <= j < n.len() && #[trigger] n[j].0 == k;
            let x = if j < i {
                j
            } else {
                j + 1
            };
            assert(e[x].0 == k);
            if k == key {
                lemma_sorted_distinct(e, i, x);
            }
        }
        if m.dom().contains(k) {
            let j = choose|j: int| 0 <= j < e.len() && #[trigger] e[j].0 == k;
            if j < i {
                assert(n[j].0 == k);
            } else {
                assert(j != i);
                assert(n[j - 1].0 == k);
            }
        }
    }
    assert forall|k: Seq<char>| as_map(n).dom().contains(k) implies as_map(n)[k] == m[k] by {
        let j = choose|j: int| 0 <= j < n.len() && #[trigger] n[j].0 == k;
        let x = if j < i {
            j
        } else {
            j + 1
        };
        assert(e[x] == n[j]);
        assert(e[x].0 == k);
        assert(m.dom().contains(k));
    }
    assert(as_map(n) =~= m);
}

// ---- the table ----

/// The factors of an instrument: unity when it is not registered.
pub open spec fn factors_of(m: Map<Seq<char>, Calibration>, id: Seq<char>) -> Calibration {
    if m.dom().contains(id_key(id)) {
        m[id_key(id)]
    } else {
        Calibration::unity()
    }
}

/// The table with the factors of an instrument set; nothing is registered
/// under an empty name.
pub open spec fn with_factors(
    m: Map<Seq<char>, Calibration>,
    id: Seq<char>,
    cal: Calibration,
) -> Map<Seq<char>, Calibration> {
    if id_key(id).len() == 0 {
        m
    } else {
        m.insert(id_key(id), cal)
    }
}

/// What came of reading the file.
pub enum ReadOutcome {
    /// Its text.
    Text(String),
    /// There is no such file.
    Missing,
    /// It could not be read.
    Failed { path: String, error: String },
}

/// Why the table was not saved.
pub enum SaveFailure {
    /// Its directory could not be created.
    Directory { path: String, error: String },
    /// The file could not be written.
    File { path: String, error: String },
}

/// A calibration table keyed by serial number.
#[derive(Debug)]
pub struct CalibrationTable {
    entries: Registry,
    load_error: Option<String>,
}

impl Clone for CalibrationTable {
    fn clone(&self) -> (r: CalibrationTable)
        ensures
            r@ == self@,
            r.listing() == self.listing(),
            r.report() == self.report(),
            r.wf() == self.wf(),
    {
        let load_error: Option<String> = match &self.load_error {
            Some(e) => Some(e.clone()),
            None => None,
        };
        CalibrationTable { entries: self.entries.clone(), load_error }
    }
}

impl CalibrationTable {
    pub closed spec fn wf(&self) -> bool {
        self.entries.wf()
    }

    pub closed spec fn view(&self) -> Map<Seq<char>, Calibration> {
        self.entries@
    }

    /// The entries in the order of their keys.
    pub closed spec fn listing(&self) -> Listing {
        self.entries.listing()
    }

    /// What is reported of the last load.
    pub closed spec fn report(&self) -> Option<Seq<char>> {
        match self.load_error {
            Some(e) => Some(e@),
            None => None,
        }
    }

    /// The table that reading the file gives: the one that its text spells; an
    /// empty one when there is no file, or when it could not be read, which is
    /// reported.
    pub fn load(outcome: ReadOutcome) -> (r: CalibrationTable)
        ensures
            r.wf(),
            match outcome {
                ReadOutcome::Text(t) => r@ == table_of(t@).map && r.report() == (if table_of(
                    t@,
                ).bad.len() == 0 {
                    None
                } else {
                    Some(skip_report(table_of(t@).bad))
                }),
                ReadOutcome::Missing => r@ == Map::<Seq<char>, Calibration>::empty()
                    && r.report() is None,
                ReadOutcome::Failed { path, error } => r@ == Map::<
                    Seq<char>,
                    Calibration,
                >::empty() && r.report() == Some(path@ + ": "@ + error@),
            },
    {
        match outcome {
            ReadOutcome::Text(t) => {
                let (entries, load_error) = parse_table(t.as_str());
                CalibrationTable { entries, load_error }
            },
            ReadOutcome::Missing => CalibrationTable {
                entries: Registry::new(),
                load_error: None,
            },
            ReadOutcome::Failed { path, error } => CalibrationTable {
                entries: Registry::new(),
                load_error: Some(path.concat(": ").concat(error.as_str())),
            },
        }
    }

    /// The parts of the path of the file, from the values of `APPDATA`,
    /// `XDG_CONFIG_HOME` and `HOME`.
    pub fn path(
        platform: Platform,
        appdata: Option<&String>,
        xdg: Option<&String>,
        home: Option<&String>,
    ) -> (r: Vec<String>)
        ensures
            texts(r@) == config_parts(
                platform,
                opt_text(appdata),
                opt_text(xdg),
                opt_text(home),
            ).push("calibration.txt"@),
    {
        let mut r: Vec<String> = config_dir(platform, appdata, xdg, home);
        let ghost before = texts(r@);
        r.push("calibration.txt".to_owned());
        assert(texts(r@) =~= before.push("calibration.txt"@));
        r
    }

    /// The message when saving failed.
    pub fn save_message(failure: SaveFailure) -> (r: String)
        ensures
            r@ == (match failure {
                SaveFailure::Directory { path, error } =>
                    "Could not create the config directory ("@ + path@ + "): "@ + error@,
                SaveFailure::File { path, error } => "Could not save ("@ + path@ + "): "@ + error@,
            }),
    {
        match failure {
            SaveFailure::Directory { path, error } =>
                "Could not create the config directory (".to_owned().concat(path.as_str()).concat(
                "): ",
            ).concat(error.as_str()),
            SaveFailure::File { path, error } => "Could not save (".to_owned().concat(
                path.as_str(),
            ).concat("): ").concat(error.as_str()),
        }
    }

    /// The text of the file.
    pub fn to_file_text(&self) -> (r: String)
        ensures
            r@ == rendered(self.listing()),
    {
        render_table(&self.entries)
    }

    /// The factors of an instrument; unity when it is not registered.
    pub fn get(&self, id: &str) -> (r: Calibration)
        requires
            self.wf(),
        ensures
            r == factors_of(self@, id@),
    {
        match self.entries.get(normalize_id(id).as_str()) {
            Some(c) => c,
            None => Calibration::unity(),
        }
    }

    /// Whether an instrument is registered.
    pub fn contains(&self, id: &str) -> (r: bool)
        requires
            self.wf(),
        ensures
            r == self@.dom().contains(id_key(id@)),
    {
        self.entries.get(normalize_id(id).as_str()).is_some()
    }

    /// Sets the factors of an instrument.
    pub fn set(&mut self, id: &str, cal: Calibration)
        requires
            old(self).wf(),
        ensures
            final(self).wf(),
            final(self)@ == with_factors(old(self)@, id@, cal),
            final(self).report() == old(self).report(),
    {
        let key: String = normalize_id(id);
        let chars: Vec<char> = to_chars(key.as_str());
        if chars.len() > 0 {
            self.entries.insert(key, cal);
        }
    }

    /// Removes an instrument.
    pub fn remove(&mut self, id: &str)
        requires
            old(self).wf(),
        ensures
            final(self).wf(),
            final(self)@ == old(self)@.remove(id_key(id@)),
            final(self).report() == old(self).report(),
    {
        self.entries.remove(normalize_id(id).as_str());
    }

    /// The entries in the order of their keys.
    pub fn iter(&self) -> (r: Vec<(&String, &Calibration)>)
        ensures
            r@.len() == self.listing().len(),
            forall|i: int|
                0 <= i < r@.len() ==> (#[trigger] r@[i]).0@ == self.listing()[i].0 && *r@[i].1
                    == self.listing()[i].1,
    {
        let mut out: Vec<(&String, &Calibration)> = Vec::new();
        let n: usize = self.entries.len();
        let mut i: usize = 0;
        while i < n
            invariant
                n == self.entries.listing().len(),
                i <= n,
                out@.len() == i,
                forall|k: int|
                    0 <= k < i ==> (#[trigger] out@[k]).0@ == self.entries.listing()[k].0
                        && *out@[k].1 == self.entries.listing()[k].1,
            decreases n - i,
        {
            out.push(self.entries.entry(i));
            i += 1;
        }
        out
    }

    /// Whether no instrument is registered.
    pub fn is_empty(&self) -> (r: bool)
        requires
            self.wf(),
        ensures
            r == (self@ == Map::<Seq<char>, Calibration>::empty()),
            r == (self.listing().len() == 0),
    {
        proof {
            let e = self.entries.listing();
            lemma_as_map(e);
            if e.len() > 0 {
                assert(as_map(e).dom().contains(e[0].0));
            }
        }
        self.entries.len() == 0
    }

    /// What is reported of the last load, if anything.
    pub fn load_error(&self) -> (r: Option<&str>)
        ensures
            match r {
                Some(e) => self.report() == Some(e@),
                None => self.report() is None,
            },
    {
        match &self.load_error {
            Some(e) => Some(e.as_str()),
            None => None,
        }
    }

    /// Access to the factors of an instrument.
    pub fn get_mut(&mut self, id: &str) -> (r: Option<&mut Calibration>)
        requires
            old(self).wf(),
        ensures
            match r {
                Some(c) => {
                    &&& old(self)@.dom().contains(id_key(id@))
                    &&& *c == old(self)@[id_key(id@)]
                    &&& final(self).wf()
                    &&& final(self)@ == old(self)@.insert(id_key(id@), *final(c))
                    &&& final(self).report() == old(self).report()
                },
                None => !old(self)@.dom().contains(id_key(id@)) && *final(self) == *old(self),
            },
    {
        self.entries.get_mut(normalize_id(id).as_str())
    }
}

impl Default for CalibrationTable {
    fn default() -> (r: CalibrationTable)
        ensures
            r.wf(),
            r@ == Map::<Seq<char>, Calibration>::empty(),
            r.report() is None,
    {
        CalibrationTable { entries: Registry::new(), load_error: None }
    }
}

/// The entries of a table are in the strict order of their keys.
pub proof fn law_listing_is_sorted(t: CalibrationTable)
    requires
        t.wf(),
    ensures
        is_sorted(t.listing()),
        t@ == as_map(t.listing()),
{
}

/// An instrument that is not registered gets no correction.
pub proof fn law_unregistered_is_unity(m: Map<Seq<char>, Calibration>, id: Seq<char>)
    requires
        !m.dom().contains(id_key(id)),
    ensures
        factors_of(m, id) == Calibration::unity(),
{
}

/// Factors that were set are found again under any spelling of the serial
/// number, and no other instrument is affected.
pub proof fn law_set_then_get(
    m: Map<Seq<char>, Calibration>,
    id: Seq<char>,
    cal: Calibration,
    other: Seq<char>,
)
    requires
        id_key(id).len() > 0,
    ensures
        id_key(other) == id_key(id) ==> factors_of(with_factors(m, id, cal), other) == cal,
        id_key(other) != id_key(id) ==> factors_of(with_factors(m, id, cal), other) == factors_of(
            m,
            other,
        ),
{
}

/// An instrument that was removed gets no correction, and no other instrument
/// is affected.
pub proof fn law_remove_then_get(m: Map<Seq<char>, Calibration>, id: Seq<char>, other: Seq<char>)
    ensures
        factors_of(m.remove(id_key(id)), id) == Calibration::unity(),
        id_key(other) != id_key(id) ==> factors_of(m.remove(id_key(id)), other) == factors_of(
            m,
            other,
        ),
{
}

/// Serial numbers that differ in case alone are the same.
pub proof fn law_lookup_ignores_case(a: Seq<char>, b: Seq<char>)
    requires
        same_ignoring_case(a, b),
    ensures
        id_key(a) == id_key(b),
{
    lemma_lower_strip(a, CharSet::White);
    lemma_lower_strip(b, CharSet::White);
    let (x, y) = (trimmed(a), trimmed(b));
    lemma_lower_strip(x, CharSet::Quote);
    lemma_lower_strip(y, CharSet::Quote);
    let (u, v) = (strip(x, CharSet::Quote), strip(y, CharSet::Quote));
    lemma_lower_strip(u, CharSet::White);
    lemma_lower_strip(v, CharSet::White);
}

proof fn lemma_lower_has(c: char, set: CharSet)
    requires
        set == CharSet::White || set == CharSet::Quote,
    ensures
        set.has(lower(c)) == set.has(c),
{
}

proof fn lemma_lower_front(s: Seq<char>, set: CharSet)
    requires
        set == CharSet::White || set == CharSet::Quote,
    ensures
        lower_all(strip_front(s, set)) == strip_front(lower_all(s), set),
    decreases s.len(),
{
    if s.len() > 0 {
        lemma_lower_has(s[0], set);
        if set.has(s[0]) {
            lemma_lower_front(s.drop_first(), set);
            assert(lower_all(s).drop_first() =~= lower_all(s.drop_first()));
        }
    }
}

proof fn lemma_lower_back(s: Seq<char>, set: CharSet)
    requires
        set == CharSet::White || set == CharSet::Quote,
    ensures
        lower_all(strip_back(s, set)) == strip_back(lower_all(s), set),
    decreases s.len(),
{
    if s.len() > 0 {
        lemma_lower_has(s.last(), set);
        assert(lower_all(s).last() == lower(s.last()));
        if set.has(s.last()) {
            lemma_lower_back(s.drop_last(), set);
            assert(lower_all(s).drop_last() =~= lower_all(s.drop_last()));
        }
    }
}

/// Trimming and lower-casing can change places.
pub(crate) proof fn lemma_lower_strip(s: Seq<char>, set: CharSet)
    requires
        set == CharSet::White || set == CharSet::Quote,
    ensures
        lower_all(strip(s, set)) == strip(lower_all(s), set),
{
    lemma_lower_front(s, set);
    lemma_lower_back(strip_front(s, set), set);
}

// ---- where the file is ----

/// The conventions that a configuration directory follows.
#[derive(Clone, Copy, PartialEq, Eq, Structural, Debug)]
pub enum Platform {
    Windows,
    MacOs,
    Other,
}

pub open spec fn opt_text(s: Option<&String>) -> Option<Seq<char>> {
    match s {
        Some(t) => Some(t@),
        None => None,
    }
}

/// The parts of the path of the configuration directory, from what the
/// environment says; the current directory when it says nothing.
pub open spec fn config_parts(
    platform: Platform,
    appdata: Option<Seq<char>>,
    xdg: Option<Seq<char>>,
    home: Option<Seq<char>>,
) -> Seq<Seq<char>> {
    match platform {
        Platform::Windows => match appdata {
            Some(a) => seq![a, "KintubaAfmViewer"@],
            None => seq!["."@],
        },
        Platform::MacOs => match home {
            Some(h) => seq![h, "Library"@, "Application Support"@, "KintubaAfmViewer"@],
            None => seq!["."@],
        },
        Platform::Other => match (xdg, home) {
            (Some(x), _) if x.len() > 0 => seq![x, "kintuba-afm-viewer"@],
            (_, Some(h)) => seq![h, ".config"@, "kintuba-afm-viewer"@],
            _ => seq!["."@],
        },
    }
}

pub open spec fn texts(v: Seq<String>) -> Seq<Seq<char>> {
    Seq::new(v.len(), |i: int| v[i]@)
}

fn path_of(base: &str, a: Option<&str>, b: Option<&str>, c: Option<&str>) -> (r: Vec<String>)
    requires
        b is Some ==> a is Some,
        c is Some ==> b is Some,
    ensures
        texts(r@) == (match (a, b, c) {
            (Some(x), Some(y), Some(z)) => seq![base@, x@, y@, z@],
            (Some(x), Some(y), None) => seq![base@, x@, y@],
            (Some(x), _, _) => seq![base@, x@],
            _ => seq![base@],
        }),
{
    let mut r: Vec<String> = Vec::new();
    r.push(base.to_owned());
    if let Some(x) = a {
        r.push(x.to_owned());
    }
    if let Some(y) = b {
        r.push(y.to_owned());
    }
    if let Some(z) = c {
        r.push(z.to_owned());
    }
    assert(texts(r@) =~= (match (a, b, c) {
        (Some(x), Some(y), Some(z)) => seq![base@, x@, y@, z@],
        (Some(x), Some(y), None) => seq![base@, x@, y@],
        (Some(x), _, _) => seq![base@, x@],
        _ => seq![base@],
    }));
    r
}

/// The parts of the path of the configuration directory, from the values of
/// `APPDATA`, `XDG_CONFIG_HOME` and `HOME`.
pub fn config_dir(
    platform: Platform,
    appdata: Option<&String>,
    xdg: Option<&String>,
    home: Option<&String>,
) -> (r: Vec<String>)
    ensures
        texts(r@) == config_parts(platform, opt_text(appdata), opt_text(xdg), opt_text(home)),
{
    match platform {
        Platform::Windows => match appdata {
            Some(a) => path_of(a.as_str(), Some("KintubaAfmViewer"), None, None),
            None => path_of(".", None, None, None),
        },
        Platform::MacOs => match home {
            Some(h) => path_of(
                h.as_str(),
                Some("Library"),
                Some("Application Support"),
                Some("KintubaAfmViewer"),
            ),
            None => path_of(".", None, None, None),
        },
        Platform::Other => {
            if let Some(x) = xdg {
                let chars: Vec<char> = to_chars(x.as_str());
                if chars.len() > 0 {
                    return path_of(x.as_str(), Some("kintuba-afm-viewer"), None, None);
                }
            }
            match home {
                Some(h) => path_of(
                    h.as_str(),
                    Some(".config"),
                    Some("kintuba-afm-viewer"),
                    None,
                ),
                None => path_of(".", None, None, None),
            }
        },
    }
}

} // verus!
