//! The channels of a file: naming them and choosing one.

use crate::fields::{has_key, value_of, Entries, FieldMap};
use crate::header::{block_views, ImageBlock};
use crate::text::{
    contains, decimal, ends_with, has_end, has_text, parts, same, split, to_chars, to_decimal,
    to_text, views,
};
use vstd::prelude::*;

verus! {

/// A channel that can be loaded.
#[derive(Debug)]
pub struct ChannelInfo {
    pub index: usize,
    pub name: String,
    pub direction: String,
}

impl Clone for ChannelInfo {
    fn clone(&self) -> (r: ChannelInfo)
        ensures
            r@ == self@,
    {
        ChannelInfo {
            index: self.index,
            name: self.name.clone(),
            direction: self.direction.clone(),
        }
    }
}

/// What a channel says.
pub struct ChannelModel {
    pub index: int,
    pub name: Seq<char>,
    pub direction: Seq<char>,
}

impl ChannelInfo {
    pub open spec fn view(&self) -> ChannelModel {
        ChannelModel { index: self.index as int, name: self.name@, direction: self.direction@ }
    }
}

pub open spec fn channel_views(v: Seq<ChannelInfo>) -> Seq<ChannelModel> {
    Seq::new(v.len(), |i: int| v[i]@)
}

/// The fields that an image block cannot do without.
pub open spec fn is_complete(b: Entries) -> bool {
    &&& has_key(b, "Data offset"@)
    &&& has_key(b, "Data length"@)
    &&& has_key(b, "Samps/line"@)
    &&& has_key(b, "Number of lines"@)
    &&& has_key(b, "Bytes/pixel"@)
}

/// Whether a block has the fields that it cannot do without.
pub fn has_required_fields(b: &ImageBlock) -> (r: bool)
    ensures
        r == is_complete(b@),
{
    b.fields.contains_key("Data offset") && b.fields.contains_key("Data length")
        && b.fields.contains_key("Samps/line") && b.fields.contains_key("Number of lines")
        && b.fields.contains_key("Bytes/pixel")
}

/// Whether a key is `name`, alone or behind a group number.
pub open spec fn names_field(key: Seq<char>, name: Seq<char>) -> bool {
    key == name || has_end(key, ":"@ + name)
}

/// The position of the first key that is `name`, alone or behind a group
/// number; the number of fields when there is none.
pub open spec fn first_named(m: Entries, name: Seq<char>) -> nat
    decreases m.len(),
{
    if m.len() == 0 || names_field(m[0].0, name) {
        0
    } else {
        1 + first_named(m.drop_first(), name)
    }
}

/// The value of that field.
pub open spec fn named_value(m: Entries, name: Seq<char>) -> Option<Seq<char>> {
    if first_named(m, name) < m.len() {
        Some(m[first_named(m, name) as int].1)
    } else {
        None
    }
}

/// Looks up a field by its name, alone or behind a group number.
pub fn find_named<'a>(fields: &'a FieldMap, name: &str) -> (r: Option<&'a String>)
    ensures
        match r {
            Some(v) => named_value(fields@, name@) == Some(v@),
            None => named_value(fields@, name@) is None,
        },
{
    let bare: Vec<char> = to_chars(name);
    let tail: Vec<char> = to_chars(":".to_owned().concat(name).as_str());
    let n: usize = fields.len();
    let mut i: usize = 0;
    assert(fields@.skip(0) == fields@);
    while i < n
        invariant
            n == fields@.len(),
            i <= n,
            bare@ == name@,
            tail@ == ":"@ + name@,
            first_named(fields@, name@) == i + first_named(fields@.skip(i as int), name@),
        decreases n - i,
    {
        let k: Vec<char> = to_chars(fields.key(i).as_str());
        if same(k.as_slice(), bare.as_slice()) || ends_with(k.as_slice(), tail.as_slice()) {
            return Some(fields.value(i));
        }
        assert(fields@.skip(i as int).drop_first() == fields@.skip(i as int + 1));
        i += 1;
    }
    None
}

/// The name that an image-data field gives: what stands between its first two
/// quotes, or the whole field when there is nothing between them.
pub open spec fn channel_name_in(value: Seq<char>) -> Seq<char> {
    let ps = parts(value, '"');
    if ps.len() >= 2 && ps[1].len() > 0 {
        ps[1]
    } else {
        value
    }
}

/// Reads the name that an image-data field gives.
pub fn extract_channel_name(image_data_value: &str) -> (r: String)
    ensures
        r@ == channel_name_in(image_data_value@),
{
    let s: Vec<char> = to_chars(image_data_value);
    let ps: Vec<Vec<char>> = split(s.as_slice(), '"');
    assert(ps@.len() >= 2 ==> views(ps@)[1] == ps@[1]@);
    assert(views(ps@).len() == ps@.len());
    if ps.len() >= 2 && ps[1].len() > 0 {
        to_text(ps[1].as_slice())
    } else {
        image_data_value.to_owned()
    }
}

/// The name of a channel that gives none.
pub open spec fn default_name(i: int) -> Seq<char> {
    "Channel "@ + decimal(i as nat)
}

/// The channel of block `i`.
pub open spec fn channel_of(b: Entries, i: int) -> ChannelModel {
    ChannelModel {
        index: i,
        name: match named_value(b, "Image Data"@) {
            Some(v) => channel_name_in(v),
            None => default_name(i),
        },
        direction: match value_of(b, "Line Direction"@) {
            Some(v) => v,
            None => Seq::empty(),
        },
    }
}

/// The channels of some blocks: one for each that is complete.
pub open spec fn channels_of(blocks: Seq<Entries>) -> Seq<ChannelModel>
    decreases blocks.len(),
{
    if blocks.len() == 0 {
        Seq::empty()
    } else {
        let before = channels_of(blocks.drop_last());
        if is_complete(blocks.last()) {
            before.push(channel_of(blocks.last(), blocks.len() - 1))
        } else {
            before
        }
    }
}

fn name_default(i: usize) -> (r: String)
    ensures
        r@ == default_name(i as int),
{
    let d: Vec<char> = to_decimal(i);
    let t: String = to_text(d.as_slice());
    "Channel ".to_owned().concat(t.as_str())
}

/// Lists the channels of some blocks.
pub fn list_channels_from_blocks(image_blocks: &[ImageBlock]) -> (r: Vec<ChannelInfo>)
    ensures
        channel_views(r@) == channels_of(block_views(image_blocks@)),
{
    let ghost all = block_views(image_blocks@);
    let mut r: Vec<ChannelInfo> = Vec::new();
    let mut i: usize = 0;
    assert(channel_views(r@) =~= Seq::empty());
    assert(all.take(0).len() == 0);
    while i < image_blocks.len()
        invariant
            all == block_views(image_blocks@),
            i <= image_blocks@.len(),
            channel_views(r@) == channels_of(all.take(i as int)),
        decreases image_blocks@.len() - i,
    {
        let b: &ImageBlock = &image_blocks[i];
        assert(all.take(i as int + 1).drop_last() == all.take(i as int));
        assert(all.take(i as int + 1).last() == b@);
        if has_required_fields(b) {
            let name: String = match find_named(&b.fields, "Image Data") {
                Some(v) => extract_channel_name(v.as_str()),
                None => name_default(i),
            };
            let direction: String = match b.fields.get("Line Direction") {
                Some(v) => v.clone(),
                None => String::new(),
            };
            let ghost before = channel_views(r@);
            r.push(ChannelInfo { index: i, name, direction });
            proof {
                let c = channel_of(b@, i as int);
                assert(direction@ == c.direction) by {
                    if value_of(b@, "Line Direction"@) is None {
                        assert(direction@ =~= Seq::<char>::empty());
                    }
                }
                assert(channel_views(r@) =~= before.push(c));
            }
        }
        i += 1;
    }
    assert(all.take(i as int) == all);
    r
}

/// Whether one of the image-data fields speaks of a height.
pub open spec fn shows_height(b: Entries) -> bool {
    exists|i: int|
        0 <= i < b.len() && names_field((#[trigger] b[i]).0, "Image Data"@) && has_text(
            b[i].1,
            "Height"@,
        )
}

fn has_height(fields: &FieldMap) -> (r: bool)
    ensures
        r == shows_height(fields@),
{
    let bare: Vec<char> = to_chars("Image Data");
    let tail: Vec<char> = to_chars(":".to_owned().concat("Image Data").as_str());
    let height: Vec<char> = to_chars("Height");
    let n: usize = fields.len();
    let mut i: usize = 0;
    while i < n
        invariant
            n == fields@.len(),
            i <= n,
            bare@ == "Image Data"@,
            tail@ == ":"@ + "Image Data"@,
            height@ == "Height"@,
            forall|k: int|
                0 <= k < i ==> !(names_field((#[trigger] fields@[k]).0, "Image Data"@) && has_text(
                    fields@[k].1,
                    "Height"@,
                )),
        decreases n - i,
    {
        let k: Vec<char> = to_chars(fields.key(i).as_str());
        if same(k.as_slice(), bare.as_slice()) || ends_with(k.as_slice(), tail.as_slice()) {
            let v: Vec<char> = to_chars(fields.value(i).as_str());
            if contains(v.as_slice(), height.as_slice()) {
                assert(names_field(fields@[i as int].0, "Image Data"@));
                return true;
            }
        }
        i += 1;
    }
    false
}

/// The last complete block that shows a height, if any.
pub open spec fn last_height(blocks: Seq<Entries>) -> Option<int>
    decreases blocks.len(),
{
    if blocks.len() == 0 {
        None
    } else if is_complete(blocks.last()) && shows_height(blocks.last()) {
        Some(blocks.len() - 1)
    } else {
        last_height(blocks.drop_last())
    }
}

/// The first complete block, if any.
pub open spec fn first_complete(blocks: Seq<Entries>) -> Option<int>
    decreases blocks.len(),
{
    if blocks.len() == 0 {
        None
    } else {
        match first_complete(blocks.drop_last()) {
            Some(i) => Some(i),
            None => if is_complete(blocks.last()) {
                Some(blocks.len() - 1)
            } else {
                None
            },
        }
    }
}

/// Whether a block was recorded on the way back.
pub open spec fn is_retrace(b: Entries) -> bool {
    value_of(b, "Line Direction"@) == Some("Retrace"@)
}

/// The last complete block that shows a height on the way back, if any.
pub open spec fn last_retrace(blocks: Seq<Entries>) -> Option<int>
    decreases blocks.len(),
{
    if blocks.len() == 0 {
        None
    } else if is_complete(blocks.last()) && shows_height(blocks.last()) && is_retrace(
        blocks.last(),
    ) {
        Some(blocks.len() - 1)
    } else {
        last_retrace(blocks.drop_last())
    }
}

/// The last complete block that shows a height, whatever its direction; else
/// the first complete one.
pub open spec fn default_block(blocks: Seq<Entries>) -> Result<int, Seq<char>> {
    match last_height(blocks) {
        Some(i) => Ok(i),
        None => match first_complete(blocks) {
            Some(i) => Ok(i),
            None => Err("No image block with required fields found"@),
        },
    }
}

/// The block that is loaded: the one asked for; else the last that shows a
/// height on the way back; else the last that shows a height; else the first. It
/// must be complete.
pub open spec fn chosen_block(blocks: Seq<Entries>, channel: Option<usize>) -> Result<
    int,
    Seq<char>,
> {
    match channel {
        Some(idx) => if idx >= blocks.len() {
            Err("Channel index "@ + decimal(idx as nat) + " out of range"@)
        } else if !is_complete(blocks[idx as int]) {
            Err("Channel "@ + decimal(idx as nat) + " is missing required fields"@)
        } else {
            Ok(idx as int)
        },
        None => match last_retrace(blocks) {
            Some(i) => Ok(i),
            None => default_block(blocks),
        },
    }
}

fn is_retrace_block(fields: &FieldMap) -> (r: bool)
    ensures
        r == is_retrace(fields@),
{
    match fields.get("Line Direction") {
        Some(v) => {
            let v: Vec<char> = to_chars(v.as_str());
            let back: Vec<char> = to_chars("Retrace");
            same(v.as_slice(), back.as_slice())
        },
        None => false,
    }
}

/// Chooses a block without regard to its direction.
pub fn choose_default_block(image_blocks: &[ImageBlock]) -> (r: Result<
    (usize, &ImageBlock),
    String,
>)
    ensures
        match r {
            Ok(p) => default_block(block_views(image_blocks@)) == Ok::<int, Seq<char>>(p.0 as int)
                && p.0 < image_blocks@.len() && *p.1 == image_blocks@[p.0 as int],
            Err(e) => default_block(block_views(image_blocks@)) == Err::<int, Seq<char>>(e@),
        },
{
    let ghost all = block_views(image_blocks@);
    let total: usize = image_blocks.len();
    let mut n: usize = total;
    assert(all.take(n as int) == all);
    while n > 0
        invariant
            all == block_views(image_blocks@),
            total == image_blocks@.len(),
            n <= total,
            last_height(all) == last_height(all.take(n as int)),
        decreases n,
    {
        let b: &ImageBlock = &image_blocks[n - 1];
        assert(all.take(n as int).last() == b@);
        assert(all.take(n as int).drop_last() == all.take(n as int - 1));
        if has_required_fields(b) && has_height(&b.fields) {
            return Ok((n - 1, b));
        }
        n -= 1;
    }
    let mut i: usize = 0;
    assert(all.take(0).len() == 0);
    while i < total
        invariant
            all == block_views(image_blocks@),
            total == image_blocks@.len(),
            i <= total,
            last_height(all) is None,
            first_complete(all.take(i as int)) is None,
        decreases total - i,
    {
        let b: &ImageBlock = &image_blocks[i];
        assert(all.take(i as int + 1).last() == b@);
        assert(all.take(i as int + 1).drop_last() == all.take(i as int));
        if has_required_fields(b) {
            proof {
                lemma_first_complete(all, i as int + 1);
            }
            return Ok((i, b));
        }
        i += 1;
    }
    assert(all.take(i as int) == all);
    Err("No image block with required fields found".to_owned())
}

/// Chooses the block to load.
pub fn choose_image_block(image_blocks: &[ImageBlock], channel_idx: Option<usize>) -> (r: Result<
    (usize, &ImageBlock),
    String,
>)
    ensures
        match r {
            Ok(p) => chosen_block(block_views(image_blocks@), channel_idx) == Ok::<int, Seq<char>>(
                p.0 as int,
            ) && p.0 < image_blocks@.len() && *p.1 == image_blocks@[p.0 as int],
            Err(e) => chosen_block(block_views(image_blocks@), channel_idx) == Err::<
                int,
                Seq<char>,
            >(e@),
        },
{
    let ghost all = block_views(image_blocks@);
    let total: usize = image_blocks.len();
    if let Some(idx) = channel_idx {
        let d: Vec<char> = to_decimal(idx);
        let t: String = to_text(d.as_slice());
        if idx >= total {
            return Err("Channel index ".to_owned().concat(t.as_str()).concat(" out of range"));
        }
        assert(all[idx as int] == image_blocks@[idx as int]@);
        if !has_required_fields(&image_blocks[idx]) {
            return Err("Channel ".to_owned().concat(t.as_str()).concat(
                " is missing required fields",
            ));
        }
        return Ok((idx, &image_blocks[idx]));
    }
    let mut n: usize = total;
    assert(all.take(n as int) == all);
    while n > 0
        invariant
            all == block_views(image_blocks@),
            total == image_blocks@.len(),
            n <= total,
            channel_idx is None,
            last_retrace(all) == last_retrace(all.take(n as int)),
        decreases n,
    {
        let b: &ImageBlock = &image_blocks[n - 1];
        assert(all.take(n as int).last() == b@);
        assert(all.take(n as int).drop_last() == all.take(n as int - 1));
        if has_required_fields(b) && has_height(&b.fields) && is_retrace_block(&b.fields) {
            return Ok((n - 1, b));
        }
        n -= 1;
    }
    choose_default_block(image_blocks)
}

/// More blocks do not change which is the first complete one.
proof fn lemma_first_complete(blocks: Seq<Entries>, n: int)
    requires
        0 <= n <= blocks.len(),
        first_complete(blocks.take(n)) is Some,
    ensures
        first_complete(blocks) == first_complete(blocks.take(n)),
    decreases blocks.len(),
{
    if n < blocks.len() {
        assert(blocks.take(n) == blocks.drop_last().take(n));
        lemma_first_complete(blocks.drop_last(), n);
    } else {
        assert(blocks.take(n) == blocks);
    }
}

/// Whenever a complete block shows a height on the way back, such a block is
/// chosen without a request: the last of them.
pub proof fn law_retrace_preferred(blocks: Seq<Entries>, i: int)
    requires
        0 <= i < blocks.len(),
        is_complete(blocks[i]),
        shows_height(blocks[i]),
        is_retrace(blocks[i]),
    ensures
        chosen_block(blocks, None) matches Ok(j) && i <= j < blocks.len() && is_complete(blocks[j])
            && shows_height(blocks[j]) && is_retrace(blocks[j]),
    decreases blocks.len(),
{
    if i < blocks.len() - 1 {
        law_retrace_preferred(blocks.drop_last(), i);
        lemma_retrace_found(blocks.drop_last(), i);
    }
}

proof fn lemma_retrace_found(blocks: Seq<Entries>, i: int)
    requires
        0 <= i < blocks.len(),
        is_complete(blocks[i]),
        shows_height(blocks[i]),
        is_retrace(blocks[i]),
    ensures
        last_retrace(blocks) is Some,
    decreases blocks.len(),
{
    if i < blocks.len() - 1 {
        lemma_retrace_found(blocks.drop_last(), i);
    }
}

/// What is said of the last retrace holds of a block of that kind.
proof fn lemma_retrace_complete(blocks: Seq<Entries>)
    ensures
        last_retrace(blocks) matches Some(i) ==> 0 <= i < blocks.len() && is_complete(blocks[i])
            && shows_height(blocks[i]) && is_retrace(blocks[i]),
    decreases blocks.len(),
{
    if blocks.len() > 0 {
        lemma_retrace_complete(blocks.drop_last());
    }
}

/// Where no height was recorded on the way back, the last complete block that
/// shows a height is chosen without a request.
pub proof fn law_last_height_preferred(blocks: Seq<Entries>, i: int)
    requires
        0 <= i < blocks.len(),
        is_complete(blocks[i]),
        shows_height(blocks[i]),
        forall|j: int|
            i < j < blocks.len() ==> !(is_complete(#[trigger] blocks[j]) && shows_height(
                blocks[j],
            )),
        forall|j: int|
            0 <= j < blocks.len() ==> !(is_complete(#[trigger] blocks[j]) && shows_height(blocks[j])
                && is_retrace(blocks[j])),
    ensures
        chosen_block(blocks, None) == Ok::<int, Seq<char>>(i),
{
    lemma_retrace_complete(blocks);
    law_default_is_last_height(blocks, i);
}

/// Without regard to the direction, the last complete block that shows a height
/// is the default.
pub proof fn law_default_is_last_height(blocks: Seq<Entries>, i: int)
    requires
        0 <= i < blocks.len(),
        is_complete(blocks[i]),
        shows_height(blocks[i]),
        forall|j: int|
            i < j < blocks.len() ==> !(is_complete(#[trigger] blocks[j]) && shows_height(
                blocks[j],
            )),
    ensures
        default_block(blocks) == Ok::<int, Seq<char>>(i),
    decreases blocks.len(),
{
    if i < blocks.len() - 1 {
        assert(blocks.last() == blocks[blocks.len() - 1]);
        law_default_is_last_height(blocks.drop_last(), i);
        lemma_height_found(blocks.drop_last(), i);
    }
}

proof fn lemma_height_found(blocks: Seq<Entries>, i: int)
    requires
        0 <= i < blocks.len(),
        is_complete(blocks[i]),
        shows_height(blocks[i]),
    ensures
        last_height(blocks) is Some,
    decreases blocks.len(),
{
    if i < blocks.len() - 1 {
        lemma_height_found(blocks.drop_last(), i);
    }
}

/// Whatever block is chosen is there and complete.
pub proof fn law_chosen_block_is_complete(blocks: Seq<Entries>, channel: Option<usize>)
    ensures
        chosen_block(blocks, channel) matches Ok(i) ==> 0 <= i < blocks.len() && is_complete(
            blocks[i],
        ),
{
    lemma_retrace_complete(blocks);
    law_default_block_is_complete(blocks);
}

/// The default block is there and complete.
pub proof fn law_default_block_is_complete(blocks: Seq<Entries>)
    ensures
        default_block(blocks) matches Ok(i) ==> 0 <= i < blocks.len() && is_complete(blocks[i]),
{
    lemma_height_complete(blocks);
    lemma_first_is_complete(blocks);
}

proof fn lemma_height_complete(blocks: Seq<Entries>)
    ensures
        last_height(blocks) matches Some(i) ==> 0 <= i < blocks.len() && is_complete(blocks[i]),
    decreases blocks.len(),
{
    if blocks.len() > 0 {
        lemma_height_complete(blocks.drop_last());
    }
}

proof fn lemma_first_is_complete(blocks: Seq<Entries>)
    ensures
        first_complete(blocks) matches Some(i) ==> 0 <= i < blocks.len() && is_complete(blocks[i]),
    decreases blocks.len(),
{
    if blocks.len() > 0 {
        lemma_first_is_complete(blocks.drop_last());
    }
}

} // verus!
