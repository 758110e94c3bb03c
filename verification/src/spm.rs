//! Loading an image from the bytes of a Nanoscope file.

use crate::binary::Binary32;
use crate::calibration::Calibration;
use crate::channels::{
    channel_views, channels_of, choose_image_block, chosen_block, default_name, is_complete,
    law_chosen_block_is_complete, list_channels_from_blocks, ChannelInfo, ChannelModel,
};
use crate::fields::{value_of, Entries, FieldMap};
use crate::filter::{epsilon, EPSILON};
use crate::header::{
    block_views, blocks_of, conditions_of, parse_header_and_image_blocks, ImageBlock,
};
use crate::poly::{flatten_polynomial, flattened, law_flattening_keeps_the_size};
use crate::samples::{
    apply_scale_in_place, decode_image_to_2d, decoded, is_big_endian, join_rows, joined,
    law_decoded_shape, law_joined_is_row_major, lemma_joined_len, rows_of, sample, scaled_rows,
};
use crate::scale::{
    instrument_id, instrument_of, parse_nm_per_lsb, parse_scan_size_nm_xy, parse_usize_field,
    scan_size, step_height, usize_field,
};
use crate::smooth::{apply_gaussian_filter, smoothed};
use crate::text::{decimal, to_chars, to_decimal, to_text};
use vstd::prelude::*;
use vstd::utf8::{decode_utf8, valid_utf8};

verus! {

// ---- bytes ----

/// Whether `needle` stands in `hay` at position `i`.
pub open spec fn bytes_at(hay: Seq<u8>, needle: Seq<u8>, i: int) -> bool {
    0 <= i && i + needle.len() <= hay.len() && hay.subrange(i, i + needle.len()) == needle
}

/// The first position of `needle` in `hay`; there is none for an empty one.
pub open spec fn is_first(hay: Seq<u8>, needle: Seq<u8>, i: int) -> bool {
    needle.len() > 0 && bytes_at(hay, needle, i) && forall|k: int|
        0 <= k < i ==> !bytes_at(hay, needle, k)
}

/// Finds the first position of some bytes.
pub fn find_bytes(haystack: &[u8], needle: &[u8]) -> (r: Option<usize>)
    ensures
        match r {
            Some(i) => is_first(haystack@, needle@, i as int),
            None => forall|i: int| !is_first(haystack@, needle@, i),
        },
{
    let n: usize = haystack.len();
    let m: usize = needle.len();
    if m == 0 || n < m {
        return None;
    }
    let mut i: usize = 0;
    while i <= n - m
        invariant
            n == haystack@.len(),
            m == needle@.len(),
            0 < m <= n,
            i <= n - m + 1,
            forall|k: int| 0 <= k < i ==> !bytes_at(haystack@, needle@, k),
        decreases n - m + 1 - i,
    {
        let mut k: usize = 0;
        while k < m && haystack[i + k] == needle[k]
            invariant
                n == haystack@.len(),
                m == needle@.len(),
                i + m <= n,
                k <= m,
                forall|x: int| 0 <= x < k ==> haystack@[i + x] == needle@[x],
            decreases m - k,
        {
            k += 1;
        }
        if k == m {
            assert(haystack@.subrange(i as int, i + m) =~= needle@);
            return Some(i);
        }
        assert(haystack@.subrange(i as int, i + m)[k as int] != needle@[k as int]);
        i += 1;
    }
    None
}

/// The bytes of an ASCII text.
pub open spec fn ascii(s: Seq<char>) -> Seq<u8> {
    Seq::new(s.len(), |i: int| s[i] as u8)
}

/// The end of a header.
pub open spec fn end_marker() -> Seq<u8> {
    ascii("\\*File list end"@)
}

fn marker_bytes() -> (r: Vec<u8>)
    ensures
        r@ == end_marker(),
{
    let chars: Vec<char> = to_chars("\\*File list end");
    let mut r: Vec<u8> = Vec::new();
    let mut i: usize = 0;
    while i < chars.len()
        invariant
            chars@ == "\\*File list end"@,
            i <= chars@.len(),
            r@ == end_marker().take(i as int),
        decreases chars@.len() - i,
    {
        r.push(chars[i] as u8);
        i += 1;
        assert(r@ =~= end_marker().take(i as int));
    }
    assert(r@ =~= end_marker());
    r
}

/// What `String::from_utf8_lossy` makes of some bytes.
pub uninterp spec fn lossy_text(bytes: Seq<u8>) -> Seq<char>;

/// `String::from_utf8_lossy`: the text that some bytes spell in UTF-8, which
/// depends on the bytes alone. Of valid UTF-8 it is the decoded text; what
/// stands for invalid bytes is left unsaid.
#[verifier::external_body]
fn text_of(bytes: &[u8]) -> (r: String)
    ensures
        r@ == lossy_text(bytes@),
        valid_utf8(bytes@) ==> r@ == decode_utf8(bytes@),
{
    String::from_utf8_lossy(bytes).into_owned()
}

// ---- what is loaded ----

/// A loaded image.
pub struct SpmImage {
    /// The heights in nanometres, row by row.
    pub data: Vec<Binary32>,
    pub metadata: FieldMap,
    /// The extent that the columns span, along the fast axis.
    pub scan_size_x_nm: Binary32,
    /// The extent that the rows span, along the slow axis.
    pub scan_size_y_nm: Binary32,
    pub samps_per_line: usize,
    pub number_of_lines: usize,
    pub channel_name: String,
    pub channel_idx: usize,
    pub available_channels: Vec<ChannelInfo>,
    /// The instrument that the image comes from.
    pub instrument_id: Option<String>,
    /// The calibration that is already applied.
    pub calibration: Calibration,
}

/// What a loaded image holds.
pub struct ImageModel {
    pub data: Seq<Binary32>,
    pub metadata: Entries,
    pub width_nm: Binary32,
    pub height_nm: Binary32,
    pub cols: int,
    pub rows: int,
    pub channel_name: Seq<char>,
    pub channel_idx: int,
    pub channels: Seq<ChannelModel>,
    pub instrument: Option<Seq<char>>,
    pub calibration: Calibration,
}

pub open spec fn opt_view(s: Option<String>) -> Option<Seq<char>> {
    match s {
        Some(t) => Some(t@),
        None => None,
    }
}

impl SpmImage {
    pub open spec fn view(&self) -> ImageModel {
        ImageModel {
            data: self.data@,
            metadata: self.metadata@,
            width_nm: self.scan_size_x_nm,
            height_nm: self.scan_size_y_nm,
            cols: self.samps_per_line as int,
            rows: self.number_of_lines as int,
            channel_name: self.channel_name@,
            channel_idx: self.channel_idx as int,
            channels: channel_views(self.available_channels@),
            instrument: opt_view(self.instrument_id),
            calibration: self.calibration,
        }
    }

    /// The heights fill the grid.
    pub open spec fn wf(&self) -> bool {
        self.data@.len() == self.samps_per_line * self.number_of_lines
    }
}

/// The numbers that say where an image is and how it is stored.
pub struct Layout {
    pub offset: nat,
    pub length: nat,
    pub cols: nat,
    pub rows: nat,
    pub width: nat,
}

/// The layout that a block states, or why it states none.
pub open spec fn layout_of(b: Entries) -> Result<Layout, Seq<char>> {
    match usize_field(value_of(b, "Data offset"@), "Data offset"@) {
        Err(e) => Err(e),
        Ok(offset) => match usize_field(value_of(b, "Data length"@), "Data length"@) {
            Err(e) => Err(e),
            Ok(length) => match usize_field(value_of(b, "Samps/line"@), "Samps/line"@) {
                Err(e) => Err(e),
                Ok(cols) => match usize_field(
                    value_of(b, "Number of lines"@),
                    "Number of lines"@,
                ) {
                    Err(e) => Err(e),
                    Ok(rows) => match usize_field(value_of(b, "Bytes/pixel"@), "Bytes/pixel"@) {
                        Err(e) => Err(e),
                        Ok(width) => Ok(Layout { offset, length, cols, rows, width }),
                    },
                },
            },
        },
    }
}

/// The bytes of an image in a file, or why there are none.
pub open spec fn data_slice(bytes: Seq<u8>, l: Layout) -> Result<Seq<u8>, Seq<char>> {
    if l.offset + l.length > usize::MAX {
        Err("Data offset overflow"@)
    } else if l.offset + l.length > bytes.len() {
        Err(
            "Data slice out of range: offset="@ + decimal(l.offset) + ", length="@ + decimal(
                l.length,
            ) + ", file_size="@ + decimal(bytes.len()),
        )
    } else {
        Ok(bytes.subrange(l.offset as int, (l.offset + l.length) as int))
    }
}

/// The rows of raw samples of a block, or why there are none.
pub open spec fn raw_rows(bytes: Seq<u8>, b: Entries, l: Layout) -> Result<
    Seq<Seq<Binary32>>,
    Seq<char>,
> {
    match data_slice(bytes, l) {
        Err(e) => Err(e),
        Ok(d) => decoded(d, l.cols, l.rows, l.width, value_of(b, "Start context"@)),
    }
}

/// The heights of some rows, flattened if asked for, one row after the other.
pub open spec fn heights(rows: Seq<Seq<Binary32>>, step: Binary32, flatten: Option<u32>) -> Result<
    Seq<Binary32>,
    Seq<char>,
> {
    let nm = scaled_rows(rows, step);
    match flatten {
        Some(order) => flattened(nm, order as nat),
        None => Ok(joined(nm)),
    }
}

/// How an image is to be processed once its samples are read.
pub struct Processing {
    pub flatten: Option<u32>,
    pub sigma: Binary32,
    /// The weights of the smoothing, before they are divided by their sum.
    pub exps: Seq<Binary32>,
}

/// The name of the channel with an index.
pub open spec fn name_of(cs: Seq<ChannelModel>, idx: int) -> Seq<char>
    decreases cs.len(),
{
    if cs.len() == 0 {
        default_name(idx)
    } else if cs[0].index == idx {
        cs[0].name
    } else {
        name_of(cs.drop_first(), idx)
    }
}

/// The image of block `i`, from its layout and its heights.
pub open spec fn image_of(
    conditions: Entries,
    blocks: Seq<Entries>,
    i: int,
    l: Layout,
    data: Seq<Binary32>,
    p: Processing,
) -> ImageModel {
    let size = scan_size(conditions, blocks[i], l.cols as int, l.rows as int);
    ImageModel {
        data: smoothed(data, l.cols as int, l.rows as int, p.sigma, p.exps),
        metadata: conditions,
        width_nm: size.0,
        height_nm: size.1,
        cols: l.cols as int,
        rows: l.rows as int,
        channel_name: name_of(channels_of(blocks), i),
        channel_idx: i,
        channels: channels_of(blocks),
        instrument: instrument_of(conditions),
        calibration: Calibration::unity(),
    }
}

/// The image of block `i` of a file, or why there is none.
pub open spec fn block_image(
    bytes: Seq<u8>,
    conditions: Entries,
    blocks: Seq<Entries>,
    i: int,
    p: Processing,
) -> Result<ImageModel, Seq<char>> {
    match layout_of(blocks[i]) {
        Err(e) => Err(e),
        Ok(l) => match raw_rows(bytes, blocks[i], l) {
            Err(e) => Err(e),
            Ok(rows) => match step_height(blocks[i], conditions, l.width) {
                Err(e) => Err(e),
                Ok(step) => match heights(rows, step, p.flatten) {
                    Err(e) => Err(e),
                    Ok(data) => Ok(image_of(conditions, blocks, i, l, data, p)),
                },
            },
        },
    }
}

/// The image of a file with a header text, or why there is none.
pub open spec fn loaded(bytes: Seq<u8>, text: Seq<char>, channel: Option<usize>, p: Processing)
    -> Result<ImageModel, Seq<char>> {
    match chosen_block(blocks_of(text), channel) {
        Err(e) => Err(e),
        Ok(i) => block_image(bytes, conditions_of(text), blocks_of(text), i, p),
    }
}

/// Whether a block can be cut into lines: it does not promise lines without
/// samples.
pub open spec fn can_be_cut(bytes: Seq<u8>, b: Entries) -> bool {
    match layout_of(b) {
        Err(e) => true,
        Ok(l) => data_slice(bytes, l) is Err || l.cols > 0 || (l.width != 2 && l.width != 4),
    }
}

/// Whether the chosen block can be cut into lines.
pub open spec fn has_samples(bytes: Seq<u8>, text: Seq<char>, channel: Option<usize>) -> bool {
    match chosen_block(blocks_of(text), channel) {
        Err(e) => true,
        Ok(i) => can_be_cut(bytes, blocks_of(text)[i]),
    }
}

/// The layout of a block, as read.
#[derive(Clone, Copy)]
pub struct BlockLayout {
    pub offset: usize,
    pub length: usize,
    pub cols: usize,
    pub rows: usize,
    pub width: usize,
}

impl BlockLayout {
    pub open spec fn view(&self) -> Layout {
        Layout {
            offset: self.offset as nat,
            length: self.length as nat,
            cols: self.cols as nat,
            rows: self.rows as nat,
            width: self.width as nat,
        }
    }
}

/// Reads the layout that a block states.
pub fn read_layout(b: &ImageBlock) -> (r: Result<BlockLayout, String>)
    ensures
        match r {
            Ok(l) => layout_of(b@) == Ok::<Layout, Seq<char>>(l@),
            Err(e) => layout_of(b@) == Err::<Layout, Seq<char>>(e@),
        },
{
    let offset: usize = match parse_usize_field(b.fields.get("Data offset"), "Data offset") {
        Ok(n) => n,
        Err(e) => {
            return Err(e);
        },
    };
    let length: usize = match parse_usize_field(b.fields.get("Data length"), "Data length") {
        Ok(n) => n,
        Err(e) => {
            return Err(e);
        },
    };
    let cols: usize = match parse_usize_field(b.fields.get("Samps/line"), "Samps/line") {
        Ok(n) => n,
        Err(e) => {
            return Err(e);
        },
    };
    let rows: usize = match parse_usize_field(b.fields.get("Number of lines"), "Number of lines") {
        Ok(n) => n,
        Err(e) => {
            return Err(e);
        },
    };
    let width: usize = match parse_usize_field(b.fields.get("Bytes/pixel"), "Bytes/pixel") {
        Ok(n) => n,
        Err(e) => {
            return Err(e);
        },
    };
    Ok(BlockLayout { offset, length, cols, rows, width })
}

fn number(n: usize) -> (r: String)
    ensures
        r@ == decimal(n as nat),
{
    let d: Vec<char> = to_decimal(n);
    to_text(d.as_slice())
}

/// Cuts the bytes of an image out of a file.
pub fn slice_data<'a>(bytes: &'a [u8], l: BlockLayout) -> (r: Result<&'a [u8], String>)
    ensures
        match r {
            Ok(d) => data_slice(bytes@, l@) == Ok::<Seq<u8>, Seq<char>>(d@),
            Err(e) => data_slice(bytes@, l@) == Err::<Seq<u8>, Seq<char>>(e@),
        },
{
    let len: usize = bytes.len();
    let end: usize = match l.offset.checked_add(l.length) {
        Some(n) => n,
        None => {
            return Err("Data offset overflow".to_owned());
        },
    };
    if end > len {
        return Err(
            "Data slice out of range: offset=".to_owned().concat(number(l.offset).as_str()).concat(
                ", length=",
            ).concat(number(l.length).as_str()).concat(", file_size=").concat(
                number(len).as_str(),
            ),
        );
    }
    Ok(&bytes[l.offset..end])
}

/// Reads the rows of raw samples of a block.
pub fn read_rows(bytes: &[u8], b: &ImageBlock, l: BlockLayout) -> (r: Result<
    Vec<Vec<Binary32>>,
    String,
>)
    requires
        data_slice(bytes@, l@) is Err || l.cols > 0 || (l.width != 2 && l.width != 4),
    ensures
        match r {
            Ok(v) => raw_rows(bytes@, b@, l@) == Ok::<Seq<Seq<Binary32>>, Seq<char>>(rows_of(v@)),
            Err(e) => raw_rows(bytes@, b@, l@) == Err::<Seq<Seq<Binary32>>, Seq<char>>(e@),
        },
{
    match slice_data(bytes, l) {
        Err(e) => Err(e),
        Ok(d) => decode_image_to_2d(d, l.cols, l.rows, l.width, b.fields.get("Start context")),
    }
}

/// Turns rows of raw samples into heights, flattened if asked for.
pub fn rows_to_heights(rows: Vec<Vec<Binary32>>, step: Binary32, flatten: Option<u32>) -> (r: Result<
    Vec<Binary32>,
    String,
>)
    ensures
        match r {
            Ok(v) => heights(rows_of(rows@), step, flatten) == Ok::<Seq<Binary32>, Seq<char>>(v@),
            Err(e) => heights(rows_of(rows@), step, flatten) == Err::<Seq<Binary32>, Seq<char>>(
                e@,
            ),
        },
{
    let mut image: Vec<Vec<Binary32>> = rows;
    apply_scale_in_place(&mut image, step);
    match flatten {
        Some(order) => flatten_polynomial(&image, order),
        None => Ok(join_rows(&image)),
    }
}

/// Heights of whole rows fill the grid.
pub proof fn lemma_heights_fill(
    rows: Seq<Seq<Binary32>>,
    step: Binary32,
    flatten: Option<u32>,
    cols: nat,
)
    requires
        forall|r: int| 0 <= r < rows.len() ==> (#[trigger] rows[r]).len() == cols,
    ensures
        heights(rows, step, flatten) matches Ok(v) ==> v.len() == cols * rows.len(),
{
    let nm = scaled_rows(rows, step);
    assert forall|r: int| 0 <= r < nm.len() implies (#[trigger] nm[r]).len() == cols by {
        assert(rows[r].len() == cols);
    }
    lemma_joined_len(nm, cols);
    assert(rows.len() * cols == cols * rows.len()) by (nonlinear_arith);
    match flatten {
        Some(order) => {
            law_flattening_keeps_the_size(nm, order as nat);
            if order <= 3 && nm.len() > 0 {
                assert(nm[0].len() == cols);
            }
        },
        None => {},
    }
}

fn find_name(cs: &Vec<ChannelInfo>, idx: usize) -> (r: String)
    ensures
        r@ == name_of(channel_views(cs@), idx as int),
{
    let ghost all = channel_views(cs@);
    let mut i: usize = 0;
    assert(all.skip(0) == all);
    while i < cs.len()
        invariant
            all == channel_views(cs@),
            i <= cs@.len(),
            name_of(all, idx as int) == name_of(all.skip(i as int), idx as int),
        decreases cs@.len() - i,
    {
        assert(all.skip(i as int)[0] == cs@[i as int]@);
        if cs[i].index == idx {
            return cs[i].name.clone();
        }
        assert(all.skip(i as int).drop_first() == all.skip(i as int + 1));
        i += 1;
    }
    "Channel ".to_owned().concat(number(idx).as_str())
}

/// Tests whether a block can be cut into lines.
pub fn check_block(bytes: &[u8], b: &ImageBlock) -> (r: bool)
    ensures
        r == can_be_cut(bytes@, b@),
{
    match read_layout(b) {
        Err(_) => true,
        Ok(l) => slice_data(bytes, l).is_err() || l.cols > 0 || (l.width != 2 && l.width != 4),
    }
}

/// Tests whether the chosen block can be cut into lines.
pub fn check_samples(bytes: &[u8], header_text: &str, channel_idx: Option<usize>) -> (r: bool)
    ensures
        r == has_samples(bytes@, header_text@, channel_idx),
{
    let (_conditions, blocks) = parse_header_and_image_blocks(header_text);
    match choose_image_block(blocks.as_slice(), channel_idx) {
        Err(_) => true,
        Ok((i, b)) => {
            assert(block_views(blocks@)[i as int] == b@);
            check_block(bytes, b)
        },
    }
}

/// Loads an image from the bytes of a file and the text of its header; `exps`
/// are the weights of the smoothing.
pub fn load_image(
    bytes: &[u8],
    header_text: &str,
    flatten: Option<u32>,
    smooth_sigma: Binary32,
    exps: &[Binary32],
    channel_idx: Option<usize>,
) -> (r: Result<SpmImage, String>)
    requires
        has_samples(bytes@, header_text@, channel_idx),
    ensures
        ({
            let p = Processing { flatten, sigma: smooth_sigma, exps: exps@ };
            match r {
                Ok(img) => loaded(bytes@, header_text@, channel_idx, p) == Ok::<
                    ImageModel,
                    Seq<char>,
                >(img@) && img.wf(),
                Err(e) => loaded(bytes@, header_text@, channel_idx, p) == Err::<
                    ImageModel,
                    Seq<char>,
                >(e@),
            }
        }),
{
    let ghost p = Processing { flatten, sigma: smooth_sigma, exps: exps@ };
    let (conditions, blocks) = parse_header_and_image_blocks(header_text);
    let ghost bv = blocks_of(header_text@);
    let channels: Vec<ChannelInfo> = list_channels_from_blocks(blocks.as_slice());
    let (idx, block) = match choose_image_block(blocks.as_slice(), channel_idx) {
        Ok(x) => x,
        Err(e) => {
            return Err(e);
        },
    };
    assert(bv[idx as int] == block@);
    let channel_name: String = find_name(&channels, idx);
    let l: BlockLayout = match read_layout(block) {
        Ok(l) => l,
        Err(e) => {
            return Err(e);
        },
    };
    let rows: Vec<Vec<Binary32>> = match read_rows(bytes, block, l) {
        Ok(v) => v,
        Err(e) => {
            return Err(e);
        },
    };
    let step: Binary32 = match parse_nm_per_lsb(block, &conditions, l.width) {
        Ok(v) => v,
        Err(e) => {
            return Err(e);
        },
    };
    let ghost rv = rows_of(rows@);
    let data: Vec<Binary32> = match rows_to_heights(rows, step, flatten) {
        Ok(v) => v,
        Err(e) => {
            return Err(e);
        },
    };
    proof {
        lemma_heights_fill(rv, step, flatten, l.cols as nat);
        assert(data@.len() == l.cols * l.rows);
    }
    let data: Vec<Binary32> = apply_gaussian_filter(
        data.as_slice(),
        l.cols,
        l.rows,
        smooth_sigma,
        exps,
    );
    let (x, y) = parse_scan_size_nm_xy(&conditions, &block.fields, l.cols, l.rows);
    let instrument: Option<String> = instrument_id(&conditions);
    Ok(
        SpmImage {
            data,
            metadata: conditions,
            scan_size_x_nm: x,
            scan_size_y_nm: y,
            samps_per_line: l.cols,
            number_of_lines: l.rows,
            channel_name,
            channel_idx: idx,
            available_channels: channels,
            instrument_id: instrument,
            calibration: Calibration::unity(),
        },
    )
}

/// The text of the header that ends with the marker at `at`.
pub open spec fn header_text_of(bytes: Seq<u8>, at: int) -> Seq<char> {
    lossy_text(bytes.take(at + end_marker().len()))
}

/// Whether the text of a header is the one that its bytes spell, provided that
/// they spell one.
pub open spec fn header_is_plain(bytes: Seq<u8>, at: int) -> bool {
    let header = bytes.take(at + end_marker().len());
    valid_utf8(header) ==> header_text_of(bytes, at) == decode_utf8(header)
}

/// Loads an image from the bytes of a file; `exps` are the weights of the
/// smoothing. There is no result for a header that promises lines without
/// samples.
pub fn load_spm(
    bytes: &[u8],
    flatten: Option<u32>,
    smooth_sigma: Binary32,
    exps: &[Binary32],
    channel_idx: Option<usize>,
) -> (r: Option<Result<SpmImage, String>>)
    ensures
        (forall|at: int| !is_first(bytes@, end_marker(), at)) ==> (r matches Some(Err(e)) && e@
            == "Could not find \\*File list end marker in file"@),
        forall|at: int|
            #[trigger] is_first(bytes@, end_marker(), at) ==> ({
                let text = header_text_of(bytes@, at);
                let p = Processing { flatten, sigma: smooth_sigma, exps: exps@ };
                match r {
                    None => !has_samples(bytes@, text, channel_idx),
                    Some(Ok(img)) => has_samples(bytes@, text, channel_idx) && loaded(
                        bytes@,
                        text,
                        channel_idx,
                        p,
                    ) == Ok::<ImageModel, Seq<char>>(img@) && img.wf(),
                    Some(Err(e)) => has_samples(bytes@, text, channel_idx) && loaded(
                        bytes@,
                        text,
                        channel_idx,
                        p,
                    ) == Err::<ImageModel, Seq<char>>(e@),
                }
            }),
        forall|at: int| #[trigger]
            is_first(bytes@, end_marker(), at) ==> header_is_plain(bytes@, at),
{
    let text: String = match read_header_text(bytes) {
        Some(t) => t,
        None => {
            return Some(Err("Could not find \\*File list end marker in file".to_owned()));
        },
    };
    if !check_samples(bytes, text.as_str(), channel_idx) {
        return None;
    }
    Some(load_image(bytes, text.as_str(), flatten, smooth_sigma, exps, channel_idx))
}

/// Reads the text of the header: all up to and with its end marker.
pub fn read_header_text(bytes: &[u8]) -> (r: Option<String>)
    ensures
        match r {
            Some(t) => exists|at: int| #[trigger]
                is_first(bytes@, end_marker(), at) && t@ == header_text_of(bytes@, at),
            None => forall|at: int| !is_first(bytes@, end_marker(), at),
        },
        r matches Some(t) ==> forall|at: int| #[trigger]
            is_first(bytes@, end_marker(), at) ==> t@ == header_text_of(bytes@, at),
        forall|at: int| #[trigger]
            is_first(bytes@, end_marker(), at) ==> header_is_plain(bytes@, at),
{
    let n: usize = bytes.len();
    let marker: Vec<u8> = marker_bytes();
    match find_bytes(bytes, marker.as_slice()) {
        None => None,
        Some(at) => {
            assert(at + marker@.len() <= n);
            let end: usize = at + marker.len();
            assert(bytes@.subrange(0, end as int) == bytes@.take(end as int));
            proof {
                assert forall|other: int| #[trigger]
                    is_first(bytes@, end_marker(), other) implies other == at by {}
            }
            let text: String = text_of(&bytes[0..end]);
            assert(header_is_plain(bytes@, at as int));
            Some(text)
        },
    }
}

// ---- calibration ----

/// Some heights with a Z factor applied, unless it is one.
pub open spec fn scaled_heights(data: Seq<Binary32>, z: Binary32) -> Seq<Binary32> {
    if epsilon().below(z.minus(Binary32::of_integer(1)).abs()) {
        Seq::new(data.len(), |i: int| data[i].times(z))
    } else {
        data
    }
}

/// An image with a calibration applied: `x` and `y` scale its extents, `z` its
/// heights, and the factors are recorded.
pub open spec fn calibrated(m: ImageModel, cal: Calibration) -> ImageModel {
    ImageModel {
        data: scaled_heights(m.data, cal.z),
        width_nm: m.width_nm.times(cal.x),
        height_nm: m.height_nm.times(cal.y),
        calibration: cal,
        ..m
    }
}

impl SpmImage {
    /// Applies a calibration.
    pub fn apply_calibration(&mut self, cal: Calibration)
        ensures
            final(self)@ == calibrated(old(self)@, cal),
            old(self).wf() ==> final(self).wf(),
    {
        let ghost before = self@;
        self.scan_size_x_nm = self.scan_size_x_nm.times(cal.x);
        self.scan_size_y_nm = self.scan_size_y_nm.times(cal.y);
        if (Binary32 { bits: EPSILON }).below(cal.z.minus(Binary32::from_usize(1)).abs()) {
            let ghost goal = scaled_heights(before.data, cal.z);
            let mut out: Vec<Binary32> = Vec::new();
            let mut i: usize = 0;
            while i < self.data.len()
                invariant
                    i <= self.data@.len(),
                    self.data@ == before.data,
                    goal == Seq::new(before.data.len(), |i: int| before.data[i].times(cal.z)),
                    out@ == goal.take(i as int),
                decreases self.data@.len() - i,
            {
                out.push(self.data[i].times(cal.z));
                i += 1;
                assert(out@ =~= goal.take(i as int));
            }
            assert(out@ =~= goal);
            self.data = out;
        }
        self.calibration = cal;
    }
}

/// A calibration changes the extents and the heights of an image and nothing
/// else of it, and it is on record.
pub proof fn law_calibration_is_recorded(m: ImageModel, cal: Calibration)
    ensures
        calibrated(m, cal).calibration == cal,
        calibrated(m, cal).rows == m.rows,
        calibrated(m, cal).cols == m.cols,
        calibrated(m, cal).data.len() == m.data.len(),
        calibrated(m, cal).metadata == m.metadata,
        calibrated(m, cal).instrument == m.instrument,
        calibrated(m, cal).channels == m.channels,
{
}

/// A freshly loaded image is not calibrated, and comes from the block that was
/// asked for.
pub proof fn law_loaded_image(
    bytes: Seq<u8>,
    text: Seq<char>,
    channel: Option<usize>,
    p: Processing,
)
    ensures
        loaded(bytes, text, channel, p) matches Ok(m) ==> {
            &&& m.calibration == Calibration::unity()
            &&& channel is Some ==> m.channel_idx == channel->0
            &&& 0 <= m.channel_idx < blocks_of(text).len()
            &&& is_complete(blocks_of(text)[m.channel_idx])
        },
{
    law_chosen_block_is_complete(blocks_of(text), channel);
}

/// Where neither flattening nor smoothing is asked for, every height of a block's
/// image is its raw sample times the step that the block states; the last line
/// of the file comes first.
pub proof fn law_heights_are_scaled_samples(
    bytes: Seq<u8>,
    conditions: Entries,
    blocks: Seq<Entries>,
    i: int,
    p: Processing,
    r: int,
    c: int,
)
    requires
        p.flatten is None,
        p.sigma.at_most(Binary32::of_integer(0)),
        block_image(bytes, conditions, blocks, i, p) is Ok,
        0 <= r < layout_of(blocks[i])->Ok_0.rows,
        0 <= c < layout_of(blocks[i])->Ok_0.cols,
    ensures
        ({
            let l = layout_of(blocks[i])->Ok_0;
            let m = block_image(bytes, conditions, blocks, i, p)->Ok_0;
            let b = data_slice(bytes, l)->Ok_0;
            let big = is_big_endian(value_of(blocks[i], "Start context"@));
            let raw = sample(b, (l.rows - 1 - r) * l.cols + c, l.width as int, big);
            let step = step_height(blocks[i], conditions, l.width)->Ok_0;
            &&& m.cols == l.cols && m.rows == l.rows
            &&& m.data[r * l.cols + c] == Binary32::of_integer(raw).times(step)
        }),
{
    let l = layout_of(blocks[i])->Ok_0;
    let b = data_slice(bytes, l)->Ok_0;
    let context = value_of(blocks[i], "Start context"@);
    law_decoded_shape(b, l.cols, l.rows, l.width, context);
    let rows = raw_rows(bytes, blocks[i], l)->Ok_0;
    let step = step_height(blocks[i], conditions, l.width)->Ok_0;
    let nm = scaled_rows(rows, step);
    assert forall|k: int| 0 <= k < nm.len() implies (#[trigger] nm[k]).len() == l.cols by {
        assert(rows[k].len() == l.cols);
    }
    assert(rows[r].len() == l.cols);
    law_joined_is_row_major(nm, l.cols, r, c);
    assert(nm[r][c] == rows[r][c].times(step));
}

} // verus!
