//! Loading the default channel without any display processing, as the Python
//! module does.

use crate::binary::Binary32;
use crate::channels::{choose_default_block, default_block, find_named, named_value};
use crate::fields::{value_of, Entries, FieldMap};
use crate::header::{
    block_views, blocks_of, conditions_of, parse_header_and_image_blocks, ImageBlock,
};
use crate::samples::rows_of;
use crate::scale::{
    number_before, parse_float_before_unit, parse_sensitivity_name, sensitivity_key,
    sensitivity_name,
};
use crate::spm::{
    can_be_cut, check_block, end_marker, header_is_plain, header_text_of, heights, is_first,
    layout_of, lemma_heights_fill, raw_rows, read_header_text, read_layout, read_rows,
    rows_to_heights, BlockLayout,
};
use vstd::prelude::*;

verus! {

/// The greeting of the module.
pub fn hello_from_bin() -> (r: String)
    ensures
        r@ == "Hello from afm-image-loader!"@,
{
    "Hello from afm-image-loader!".to_owned()
}

/// Nanometres per step of a raw sample as the scale states it, or why it is not
/// known.
pub open spec fn stated_step(block: Entries, conditions: Entries) -> Result<Binary32, Seq<char>> {
    match named_value(block, "Z scale"@) {
        None => Err("Missing Z scale field in image block"@),
        Some(z) => match number_before(z, "nm/LSB"@) {
            Some(v) => Ok(v),
            None => match number_before(z, "V/LSB"@) {
                None => Err("Could not parse V/LSB from Z scale: "@ + z),
                Some(volts) => match sensitivity_name(z) {
                    None => Err("Could not parse sensitivity reference from Z scale: "@ + z),
                    Some(name) => match value_of(conditions, sensitivity_key(name)) {
                        None => Err("Missing sensitivity field: "@ + sensitivity_key(name)),
                        Some(sens) => match number_before(sens, "nm/V"@) {
                            None => Err(
                                "Could not parse nm/V from sensitivity field "@ + sensitivity_key(
                                    name,
                                ) + ": "@ + sens,
                            ),
                            Some(nm) => Ok(volts.times(nm)),
                        },
                    },
                },
            },
        },
    }
}

/// Reads how many nanometres one step of a raw sample is, as the scale states
/// it.
pub fn parse_nm_per_lsb(image_block: &ImageBlock, measurement_conditions: &FieldMap) -> (r: Result<
    Binary32,
    String,
>)
    ensures
        match r {
            Ok(v) => stated_step(image_block@, measurement_conditions@) == Ok::<
                Binary32,
                Seq<char>,
            >(v),
            Err(e) => stated_step(image_block@, measurement_conditions@) == Err::<
                Binary32,
                Seq<char>,
            >(e@),
        },
{
    let z: &String = match find_named(&image_block.fields, "Z scale") {
        Some(v) => v,
        None => {
            return Err("Missing Z scale field in image block".to_owned());
        },
    };
    if let Some(v) = parse_float_before_unit(z.as_str(), "nm/LSB") {
        return Ok(v);
    }
    let volts: Binary32 = match parse_float_before_unit(z.as_str(), "V/LSB") {
        Some(v) => v,
        None => {
            return Err("Could not parse V/LSB from Z scale: ".to_owned().concat(z.as_str()));
        },
    };
    let name: String = match parse_sensitivity_name(z.as_str()) {
        Some(s) => s,
        None => {
            return Err(
                "Could not parse sensitivity reference from Z scale: ".to_owned().concat(
                    z.as_str(),
                ),
            );
        },
    };
    let key: String = "@Sens. ".to_owned().concat(name.as_str());
    let sens: &String = match measurement_conditions.get(key.as_str()) {
        Some(v) => v,
        None => {
            return Err("Missing sensitivity field: ".to_owned().concat(key.as_str()));
        },
    };
    match parse_float_before_unit(sens.as_str(), "nm/V") {
        Some(nm) => Ok(volts.times(nm)),
        None => Err(
            "Could not parse nm/V from sensitivity field ".to_owned().concat(key.as_str()).concat(
                ": ",
            ).concat(sens.as_str()),
        ),
    }
}

/// Chooses the default block: of several that show a height the last one counts,
/// whatever its direction; else the first.
pub fn choose_image_block(image_blocks: &[ImageBlock]) -> (r: Result<&ImageBlock, String>)
    ensures
        match r {
            Ok(b) => default_block(block_views(image_blocks@)) matches Ok(i) && 0 <= i
                < image_blocks@.len() && *b == image_blocks@[i],
            Err(e) => default_block(block_views(image_blocks@)) == Err::<int, Seq<char>>(e@),
        },
{
    match choose_default_block(image_blocks) {
        Ok((_i, b)) => Ok(b),
        Err(e) => Err(e),
    }
}

/// A scan: its header fields and its heights, row by row.
pub struct RawScan {
    pub metadata: FieldMap,
    pub rows: usize,
    pub cols: usize,
    pub data: Vec<Binary32>,
}

/// What a scan holds.
pub struct ScanModel {
    pub metadata: Entries,
    pub rows: int,
    pub cols: int,
    pub data: Seq<Binary32>,
}

impl RawScan {
    pub open spec fn view(&self) -> ScanModel {
        ScanModel {
            metadata: self.metadata@,
            rows: self.rows as int,
            cols: self.cols as int,
            data: self.data@,
        }
    }
}

/// The scan of the default block of a file, or why there is none.
pub open spec fn raw_loaded(bytes: Seq<u8>, text: Seq<char>, flatten: Option<u32>) -> Result<
    ScanModel,
    Seq<char>,
> {
    let (conditions, blocks) = (conditions_of(text), blocks_of(text));
    match default_block(blocks) {
        Err(e) => Err(e),
        Ok(i) => match layout_of(blocks[i]) {
            Err(e) => Err(e),
            Ok(l) => match raw_rows(bytes, blocks[i], l) {
                Err(e) => Err(e),
                Ok(rows) => match stated_step(blocks[i], conditions) {
                    Err(e) => Err(e),
                    Ok(step) => match heights(rows, step, flatten) {
                        Err(e) => Err(e),
                        Ok(data) => Ok(
                            ScanModel {
                                metadata: conditions,
                                rows: l.rows as int,
                                cols: l.cols as int,
                                data,
                            },
                        ),
                    },
                },
            },
        },
    }
}

/// Whether the default block can be cut into lines.
pub open spec fn has_lines(bytes: Seq<u8>, text: Seq<char>) -> bool {
    match default_block(blocks_of(text)) {
        Err(e) => true,
        Ok(i) => can_be_cut(bytes, blocks_of(text)[i]),
    }
}

/// Tests whether the default block can be cut into lines.
pub fn check_lines(bytes: &[u8], header_text: &str) -> (r: bool)
    ensures
        r == has_lines(bytes@, header_text@),
{
    let (_conditions, blocks) = parse_header_and_image_blocks(header_text);
    match choose_default_block(blocks.as_slice()) {
        Err(_) => true,
        Ok((i, b)) => {
            assert(block_views(blocks@)[i as int] == b@);
            check_block(bytes, b)
        },
    }
}

/// Loads the default block of a file whose header text is at hand.
pub fn load_scan(bytes: &[u8], header_text: &str, flatten: Option<u32>) -> (r: Result<
    RawScan,
    String,
>)
    requires
        has_lines(bytes@, header_text@),
    ensures
        match r {
            Ok(s) => raw_loaded(bytes@, header_text@, flatten) == Ok::<ScanModel, Seq<char>>(s@)
                && s.data@.len() == s.rows * s.cols,
            Err(e) => raw_loaded(bytes@, header_text@, flatten) == Err::<ScanModel, Seq<char>>(e@),
        },
{
    let (conditions, blocks) = parse_header_and_image_blocks(header_text);
    let block: &ImageBlock = match choose_image_block(blocks.as_slice()) {
        Ok(b) => b,
        Err(e) => {
            return Err(e);
        },
    };
    proof {
        let i = default_block(blocks_of(header_text@))->Ok_0;
        assert(blocks_of(header_text@)[i] == block@);
    }
    let l: BlockLayout = match read_layout(block) {
        Ok(l) => l,
        Err(e) => {
            return Err(e);
        },
    };
    let rows: Vec<Vec<Binary32>> = match read_rows(bytes, block, l) {
        Ok(v) => v,
        Err(e) => {
            return Err(e);
        },
    };
    let step: Binary32 = match parse_nm_per_lsb(block, &conditions) {
        Ok(v) => v,
        Err(e) => {
            return Err(e);
        },
    };
    let ghost rv = rows_of(rows@);
    match rows_to_heights(rows, step, flatten) {
        Err(e) => Err(e),
        Ok(data) => {
            proof {
                lemma_heights_fill(rv, step, flatten, l.cols as nat);
                assert(l.rows * l.cols == l.cols * l.rows) by (nonlinear_arith);
            }
            Ok(RawScan { metadata: conditions, rows: l.rows, cols: l.cols, data })
        },
    }
}

/// Loads the default block of a file. There is no result for a header that
/// promises lines without samples.
pub fn load_spm_raw(bytes: &[u8], flatten: Option<u32>) -> (r: Option<Result<RawScan, String>>)
    ensures
        (forall|at: int| !is_first(bytes@, end_marker(), at)) ==> (r matches Some(Err(e)) && e@
            == "Could not find \\*File list end marker in file"@),
        forall|at: int|
            #[trigger] is_first(bytes@, end_marker(), at) ==> ({
                let text = header_text_of(bytes@, at);
                match r {
                    None => !has_lines(bytes@, text),
                    Some(Ok(s)) => has_lines(bytes@, text) && raw_loaded(
                        bytes@,
                        text,
                        flatten,
                    ) == Ok::<ScanModel, Seq<char>>(s@) && s.data@.len() == s.rows * s.cols,
                    Some(Err(e)) => has_lines(bytes@, text) && raw_loaded(
                        bytes@,
                        text,
                        flatten,
                    ) == Err::<ScanModel, Seq<char>>(e@),
                }
            }),
        forall|at: int| #[trigger]
            is_first(bytes@, end_marker(), at) ==> header_is_plain(bytes@, at),
{
    let text: String = match read_header_text(bytes) {
        Some(t) => t,
        None => {
            return Some(Err("Could not find \\*File list end marker in file".to_owned()));
        },
    };
    if !check_lines(bytes, text.as_str()) {
        return None;
    }
    Some(load_scan(bytes, text.as_str(), flatten))
}

} // verus!
