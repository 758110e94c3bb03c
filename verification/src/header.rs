//! The text header of a Nanoscope file: sections, fields and image blocks.

use crate::fields::{distinct, law_put, law_put_new, put, put_new, value_of, Entries, FieldMap};
use crate::text::{
    copy, cut, lines, lines_of, matches_at, same, split_once, stands_at, strip_front, to_chars,
    to_text, trim, trim_front, trimmed, views, CharSet,
};
use vstd::prelude::*;

verus! {

/// One image block of a header.
#[derive(Debug)]
pub struct ImageBlock {
    pub fields: FieldMap,
}

impl Clone for ImageBlock {
    fn clone(&self) -> (r: ImageBlock)
        ensures
            r@ == self@,
    {
        ImageBlock { fields: self.fields.clone() }
    }
}

impl Default for ImageBlock {
    fn default() -> (r: ImageBlock)
        ensures
            r@ == Entries::empty(),
    {
        ImageBlock { fields: FieldMap::new() }
    }
}

impl ImageBlock {
    pub open spec fn view(&self) -> Entries {
        self.fields@
    }
}

/// The fields of some blocks.
pub open spec fn block_views(v: Seq<ImageBlock>) -> Seq<Entries> {
    Seq::new(v.len(), |i: int| v[i]@)
}

/// What has been read of a header.
pub struct Progress {
    /// The section that the last section line opened.
    pub section: Seq<char>,
    /// The fields of all sections, with and without the section's name.
    pub conditions: Entries,
    /// The image blocks that are complete.
    pub blocks: Seq<Entries>,
    /// The image block that is open.
    pub current: Option<Entries>,
}

/// `s` without the copies of `pat` at its start.
pub open spec fn strip_prefixes(s: Seq<char>, pat: Seq<char>) -> Seq<char>
    decreases s.len(),
{
    if pat.len() > 0 && stands_at(s, pat, 0) {
        strip_prefixes(s.skip(pat.len() as int), pat)
    } else {
        s
    }
}

/// The key and the value of a field line.
pub open spec fn field_of(body: Seq<char>) -> Option<(Seq<char>, Seq<char>)> {
    match cut(body, ": "@) {
        Some((k, v)) => Some((trimmed(k), trimmed(v))),
        None => match cut(body, ":"@) {
            Some((k, v)) => Some((trimmed(k), trimmed(v))),
            None => None,
        },
    }
}

/// The key of a field together with its section.
pub open spec fn sectioned(section: Seq<char>, key: Seq<char>) -> Seq<char> {
    section + "::"@ + key
}

/// A line of a header.
pub enum HeaderLine {
    /// Opens a section.
    Section { name: Seq<char> },
    /// A field of the current section.
    Field { key: Seq<char>, value: Seq<char> },
    /// Anything else.
    Other,
}

/// What a line says.
pub open spec fn header_line(raw: Seq<char>) -> HeaderLine {
    let line = trimmed(raw);
    if !stands_at(line, "\\"@, 0) {
        HeaderLine::Other
    } else if stands_at(line, "\\*"@, 0) {
        HeaderLine::Section { name: trimmed(strip_prefixes(line, "\\*"@)) }
    } else {
        match field_of(strip_front(line, CharSet::Backslash)) {
            Some((key, value)) => HeaderLine::Field { key, value },
            None => HeaderLine::Other,
        }
    }
}

/// The effect of one line.
pub open spec fn after_line(p: Progress, raw: Seq<char>) -> Progress {
    match header_line(raw) {
        HeaderLine::Other => p,
        HeaderLine::Section { name } => if name == "Ciao image list"@ {
            Progress {
                section: name,
                conditions: p.conditions,
                blocks: match p.current {
                    Some(b) => p.blocks.push(b),
                    None => p.blocks,
                },
                current: Some(Entries::empty()),
            }
        } else {
            Progress { section: name, ..p }
        },
        HeaderLine::Field { key, value } => Progress {
            section: p.section,
            conditions: put_new(put(p.conditions, sectioned(p.section, key), value), key, value),
            blocks: p.blocks,
            current: match p.current {
                Some(b) => Some(put(b, key, value)),
                None => None,
            },
        },
    }
}

/// Nothing read yet.
pub open spec fn start() -> Progress {
    Progress {
        section: "root"@,
        conditions: Entries::empty(),
        blocks: Seq::empty(),
        current: None,
    }
}

/// What has been read after some lines.
pub open spec fn after_lines(ls: Seq<Seq<char>>) -> Progress
    decreases ls.len(),
{
    if ls.len() == 0 {
        start()
    } else {
        after_line(after_lines(ls.drop_last()), ls.last())
    }
}

/// All image blocks, the open one last.
pub open spec fn all_blocks(p: Progress) -> Seq<Entries> {
    match p.current {
        Some(b) => p.blocks.push(b),
        None => p.blocks,
    }
}

/// The fields of a header.
pub open spec fn conditions_of(text: Seq<char>) -> Entries {
    after_lines(lines_of(text)).conditions
}

/// The image blocks of a header.
pub open spec fn blocks_of(text: Seq<char>) -> Seq<Entries> {
    all_blocks(after_lines(lines_of(text)))
}

/// Removes the copies of `pat` at the start.
fn trim_prefixes<'a>(s: &'a [char], pat: &[char]) -> (r: &'a [char])
    requires
        pat@.len() > 0,
    ensures
        r@ == strip_prefixes(s@, pat@),
{
    let mut rest: &[char] = s;
    while matches_at(rest, pat, 0)
        invariant
            pat@.len() > 0,
            strip_prefixes(s@, pat@) == strip_prefixes(rest@, pat@),
        decreases rest@.len(),
    {
        let n: usize = rest.len();
        assert(rest@.subrange(pat@.len() as int, n as int) == rest@.skip(pat@.len() as int));
        rest = &rest[pat.len()..n];
    }
    rest
}

/// Reads a field line.
fn read_field<'a>(body: &'a [char]) -> (r: Option<(&'a [char], &'a [char])>)
    ensures
        match r {
            Some(p) => field_of(body@) == Some((p.0@, p.1@)),
            None => field_of(body@) is None,
        },
{
    let wide: Vec<char> = to_chars(": ");
    let narrow: Vec<char> = to_chars(":");
    match split_once(body, wide.as_slice()) {
        Some(p) => Some((trim(p.0), trim(p.1))),
        None => match split_once(body, narrow.as_slice()) {
            Some(p) => Some((trim(p.0), trim(p.1))),
            None => None,
        },
    }
}

/// Reads a header into its fields and its image blocks.
pub fn parse_header_and_image_blocks(header_text: &str) -> (r: (FieldMap, Vec<ImageBlock>))
    ensures
        r.0@ == conditions_of(header_text@),
        block_views(r.1@) == blocks_of(header_text@),
        distinct(r.0@),
        forall|i: int| 0 <= i < r.1@.len() ==> distinct((#[trigger] r.1@[i])@),
{
    let text: Vec<char> = to_chars(header_text);
    let ls: Vec<Vec<char>> = lines(text.as_slice());
    let ghost all = views(ls@);
    let bar: Vec<char> = to_chars("\\");
    let star: Vec<char> = to_chars("\\*");
    let list: Vec<char> = to_chars("Ciao image list");
    let mut section: Vec<char> = to_chars("root");
    let mut conditions: FieldMap = FieldMap::new();
    let mut blocks: Vec<ImageBlock> = Vec::new();
    let mut current: Option<ImageBlock> = None;
    let mut i: usize = 0;
    assert(all.take(0).len() == 0);
    assert(block_views(blocks@) =~= Seq::empty());
    while i < ls.len()
        invariant
            all == views(ls@),
            i <= ls@.len(),
            bar@ == "\\"@,
            star@ == "\\*"@,
            list@ == "Ciao image list"@,
            section@ == after_lines(all.take(i as int)).section,
            conditions@ == after_lines(all.take(i as int)).conditions,
            block_views(blocks@) == after_lines(all.take(i as int)).blocks,
            current is Some == after_lines(all.take(i as int)).current is Some,
            current is Some ==> current->0@ == after_lines(all.take(i as int)).current->0,
            distinct(conditions@),
            current is Some ==> distinct(current->0@),
            forall|k: int| 0 <= k < blocks@.len() ==> distinct((#[trigger] blocks@[k])@),
        decreases ls@.len() - i,
    {
        let ghost before = after_lines(all.take(i as int));
        proof {
            assert(all.take(i as int + 1).drop_last() == all.take(i as int));
            assert(all.take(i as int + 1).last() == ls@[i as int]@);
            reveal_strlit("\\");
            reveal_strlit("\\*");
        }
        let line: &[char] = trim(ls[i].as_slice());
        i += 1;
        if !matches_at(line, bar.as_slice(), 0) {
            continue;
        }
        if matches_at(line, star.as_slice(), 0) {
            let name: &[char] = trim(trim_prefixes(line, star.as_slice()));
            section = copy(name);
            if same(name, list.as_slice()) {
                let ghost shown = block_views(blocks@);
                match current {
                    Some(b) => {
                        let ghost bv = b@;
                        blocks.push(b);
                        assert(block_views(blocks@) =~= shown.push(bv));
                    },
                    None => {},
                }
                current = Some(ImageBlock { fields: FieldMap::new() });
            }
            continue;
        }
        let body: &[char] = trim_front(line, CharSet::Backslash);
        match read_field(body) {
            Some(p) => {
                let key: String = to_text(p.0);
                let value: String = to_text(p.1);
                let full: String = to_text(section.as_slice()).concat("::").concat(key.as_str());
                assert(full@ == sectioned(before.section, key@));
                conditions.insert(full, value.clone());
                conditions.insert_new(key.clone(), value.clone());
                match current {
                    Some(b) => {
                        let mut fields: FieldMap = b.fields;
                        fields.insert(key, value);
                        current = Some(ImageBlock { fields });
                    },
                    None => {
                        current = None;
                    },
                }
            },
            None => {},
        }
    }
    assert(all.take(i as int) == all);
    let ghost shown = block_views(blocks@);
    match current {
        Some(b) => {
            let ghost bv = b@;
            blocks.push(b);
            assert(block_views(blocks@) =~= shown.push(bv));
        },
        None => {},
    }
    (conditions, blocks)
}

// ---- what a header keeps ----

/// A field as it stands in a header: its section, its key, its value.
pub struct FieldLine {
    pub section: Seq<char>,
    pub key: Seq<char>,
    pub value: Seq<char>,
}

/// The fields of some lines, in order.
pub open spec fn field_lines(ls: Seq<Seq<char>>) -> Seq<FieldLine>
    decreases ls.len(),
{
    if ls.len() == 0 {
        Seq::empty()
    } else {
        let before = field_lines(ls.drop_last());
        match header_line(ls.last()) {
            HeaderLine::Field { key, value } => before.push(
                FieldLine { section: after_lines(ls.drop_last()).section, key, value },
            ),
            _ => before,
        }
    }
}

/// The value of the first field with a key.
pub open spec fn first_value(fs: Seq<FieldLine>, key: Seq<char>) -> Option<Seq<char>>
    decreases fs.len(),
{
    if fs.len() == 0 {
        None
    } else {
        match first_value(fs.drop_last(), key) {
            Some(v) => Some(v),
            None => if fs.last().key == key {
                Some(fs.last().value)
            } else {
                None
            },
        }
    }
}

/// The value of the last field of a section with a key.
pub open spec fn last_value(fs: Seq<FieldLine>, section: Seq<char>, key: Seq<char>) -> Option<
    Seq<char>,
>
    decreases fs.len(),
{
    if fs.len() == 0 {
        None
    } else if fs.last().section == section && fs.last().key == key {
        Some(fs.last().value)
    } else {
        last_value(fs.drop_last(), section, key)
    }
}

/// A bare key holds the value of its first occurrence in the header, unless
/// some field's section and key spell it too.
pub proof fn law_bare_key_keeps_first(ls: Seq<Seq<char>>, key: Seq<char>)
    requires
        forall|i: int|
            0 <= i < field_lines(ls).len() ==> sectioned(
                (#[trigger] field_lines(ls)[i]).section,
                field_lines(ls)[i].key,
            ) != key,
    ensures
        value_of(after_lines(ls).conditions, key) == first_value(field_lines(ls), key),
    decreases ls.len(),
{
    if ls.len() > 0 {
        let before = ls.drop_last();
        let (old, new) = (field_lines(before), field_lines(ls));
        assert forall|i: int| 0 <= i < old.len() implies sectioned(
            (#[trigger] old[i]).section,
            old[i].key,
        ) != key by {
            assert(new[i] == old[i]);
        }
        law_bare_key_keeps_first(before, key);
        let p = after_lines(before);
        match header_line(ls.last()) {
            HeaderLine::Field { key: k, value } => {
                let full = sectioned(p.section, k);
                assert(new.drop_last() == old);
                assert(new.last() == new[new.len() - 1]);
                law_put(p.conditions, full, value, key);
                law_put_new(put(p.conditions, full, value), k, value, key);
            },
            _ => {},
        }
    }
}

/// A key with its section holds the value of its last occurrence in that
/// section, unless another field spells the same key.
pub proof fn law_sectioned_key_keeps_last(
    ls: Seq<Seq<char>>,
    section: Seq<char>,
    key: Seq<char>,
)
    requires
        forall|i: int|
            #![trigger field_lines(ls)[i]]
            0 <= i < field_lines(ls).len() ==> {
                let f = field_lines(ls)[i];
                &&& f.key != sectioned(section, key)
                &&& sectioned(f.section, f.key) == sectioned(section, key) ==> f.section == section
                    && f.key == key
            },
    ensures
        value_of(after_lines(ls).conditions, sectioned(section, key)) == last_value(
            field_lines(ls),
            section,
            key,
        ),
    decreases ls.len(),
{
    if ls.len() > 0 {
        let before = ls.drop_last();
        let (old, new) = (field_lines(before), field_lines(ls));
        let want = sectioned(section, key);
        assert forall|i: int|
            #![trigger old[i]]
            0 <= i < old.len() implies {
            let f = old[i];
            &&& f.key != want
            &&& sectioned(f.section, f.key) == want ==> f.section == section && f.key == key
        } by {
            assert(new[i] == old[i]);
        }
        law_sectioned_key_keeps_last(before, section, key);
        let p = after_lines(before);
        match header_line(ls.last()) {
            HeaderLine::Field { key: k, value } => {
                let full = sectioned(p.section, k);
                assert(new.drop_last() == old);
                assert(new.last() == new[new.len() - 1]);
                law_put(p.conditions, full, value, want);
                law_put_new(put(p.conditions, full, value), k, value, want);
            },
            _ => {},
        }
    }
}

/// The number of lines that open an image list.
pub open spec fn image_lists(ls: Seq<Seq<char>>) -> nat
    decreases ls.len(),
{
    if ls.len() == 0 {
        0
    } else {
        image_lists(ls.drop_last()) + match header_line(ls.last()) {
            HeaderLine::Section { name } => if name == "Ciao image list"@ {
                1nat
            } else {
                0nat
            },
            _ => 0nat,
        }
    }
}

/// A header has one image block for every image list.
pub proof fn law_one_block_per_image_list(ls: Seq<Seq<char>>)
    ensures
        all_blocks(after_lines(ls)).len() == image_lists(ls),
    decreases ls.len(),
{
    if ls.len() > 0 {
        law_one_block_per_image_list(ls.drop_last());
    }
}

} // verus!
