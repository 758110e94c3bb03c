//! Header fields, scales and the instrument.

use kintuba::binary::Binary32;
use kintuba::channels::{
    choose_default_block, choose_image_block, extract_channel_name, has_required_fields,
    list_channels_from_blocks,
};
use kintuba::fields::{header_get, FieldMap};
use kintuba::header::{parse_header_and_image_blocks, ImageBlock};
use kintuba::scale::{
    instrument_id, is_nonsquare_aspect, parse_float_before_unit, parse_last_float,
    parse_nm_per_lsb, parse_scan_size_nm_xy, parse_sensitivity_name, parse_usize_field,
};

fn g(v: Binary32) -> f32 {
    f32::from_bits(v.bits)
}

fn meta(pairs: &[(&str, &str)]) -> FieldMap {
    let mut m = FieldMap::new();
    for (k, v) in pairs {
        m.insert(k.to_string(), v.to_string());
    }
    m
}

fn size_of(m: &FieldMap, block: &FieldMap, cols: usize, rows: usize) -> (f32, f32) {
    let (x, y) = parse_scan_size_nm_xy(m, block, cols, rows);
    (g(x), g(y))
}

/// Scan size for a square 512x512 image with no aspect-ratio quirks.
fn scan_size(pairs: &[(&str, &str)]) -> (f32, f32) {
    size_of(&meta(pairs), &FieldMap::new(), 512, 512)
}

#[test]
fn scan_size_reads_both_axes() {
    assert_eq!(scan_size(&[("Scan Size", "5.00000 5.00000 ~m")]), (5000.0, 5000.0));
    assert_eq!(scan_size(&[("Scan Size", "5.0 2.5 ~m")]), (5000.0, 2500.0));
}

#[test]
fn scan_size_prefers_the_form_that_spells_out_both_axes() {
    // Real Nanoscope files put a fast-axis-only value on the bare key and
    // the explicit pair in a section; the pair must win.
    let m = [
        ("Scan Size", "1000 nm"),
        ("Ciao scan list::Scan Size", "1000 nm"),
        ("Ciao image list::Scan Size", "1 0.5 ~m"),
    ];
    assert_eq!(scan_size(&m), (1000.0, 500.0));

    // The scan list wins over the image list when both spell out two axes.
    let m = [
        ("Scan Size", "1000 nm"),
        ("Ciao scan list::Scan Size", "1 1 ~m"),
        ("Ciao image list::Scan Size", "2 2 ~m"),
    ];
    assert_eq!(scan_size(&m), (1000.0, 1000.0));
}

#[test]
fn scan_size_falls_back_to_a_single_number_for_both_axes() {
    assert_eq!(scan_size(&[("Scan Size", "4000 nm")]), (4000.0, 4000.0));
    assert_eq!(scan_size(&[("Scan Size", "4000")]), (4000.0, 4000.0));
    // Missing or unparseable: fall back to the 1 µm default.
    assert_eq!(scan_size(&[]), (1000.0, 1000.0));
    assert_eq!(scan_size(&[("Scan Size", "nonsense")]), (1000.0, 1000.0));
}

#[test]
fn scan_size_keys_are_matched_ignoring_case() {
    assert_eq!(scan_size(&[("Scan size", "5 2.5 ~m")]), (5000.0, 2500.0));
    assert_eq!(
        scan_size(&[("ciao SCAN list::scan size", "5 2.5 ~m")]),
        (5000.0, 2500.0)
    );
    assert_eq!(
        scan_size(&[
            ("Scan size", "1000 nm"),
            ("Ciao scan list::Scan size", "1000 nm"),
            ("Ciao scan list::Slow axis size", "500 nm"),
        ]),
        (1000.0, 500.0)
    );
}

#[test]
fn slow_axis_size_overrides_the_scan_size_pair() {
    let m = [
        ("Ciao image list::Scan Size", "1 1 ~m"),
        ("Ciao scan list::Slow Axis Size", "400 nm"),
    ];
    assert_eq!(scan_size(&m), (1000.0, 400.0));

    // A missing or degenerate value leaves the pair alone.
    let m = [
        ("Ciao image list::Scan Size", "1 0.5 ~m"),
        ("Ciao scan list::Slow Axis Size", "0 nm"),
    ];
    assert_eq!(scan_size(&m), (1000.0, 500.0));
}

#[test]
fn a_square_aspect_ratio_never_rescales_the_slow_axis() {
    let m = meta(&[
        ("Ciao image list::Scan Size", "1 1 ~m"),
        ("Ciao scan list::Slow Axis Size", "1000 nm"),
        ("Ciao scan list::Aspect Ratio", "1:1"),
        ("Ciao scan list::Lines", "512"),
    ]);
    let block = meta(&[("Aspect Ratio", "1:1")]);
    assert_eq!(size_of(&m, &block, 512, 128), (1000.0, 1000.0));
}

#[test]
fn a_partly_captured_rectangular_frame_spans_less_of_the_slow_axis() {
    // A 2:1 scan that was set up for 256 lines but saved after 128.
    let m = meta(&[
        ("Ciao scan list::Scan Size", "1000 nm"),
        ("Ciao scan list::Slow Axis Size", "500 nm"),
        ("Ciao scan list::Aspect Ratio", "2:1"),
        ("Ciao scan list::Lines", "256"),
    ]);
    let block = meta(&[("Aspect Ratio", "2:1")]);
    assert_eq!(size_of(&m, &block, 512, 128), (1000.0, 250.0));
    // The complete frame is left alone.
    assert_eq!(size_of(&m, &block, 512, 256), (1000.0, 500.0));
}

#[test]
fn a_rectangular_scan_without_slow_axis_size_is_scaled_by_the_line_counts() {
    // No `Slow Axis Size`, scan list still 1:1: y follows the image's line
    // count against the scan list's.
    let m = meta(&[
        ("Ciao image list::Scan Size", "1 1 ~m"),
        ("Ciao scan list::Aspect Ratio", "1:1"),
        ("Ciao scan list::Lines", "512"),
    ]);
    let block = meta(&[("Aspect Ratio", "2:1")]);
    assert_eq!(size_of(&m, &block, 512, 256), (1000.0, 500.0));

    // Both sections non-square: the image's own grid decides.
    let m = meta(&[
        ("Ciao image list::Scan Size", "1 1 ~m"),
        ("Ciao scan list::Aspect Ratio", "2:1"),
        ("Ciao scan list::Lines", "512"),
    ]);
    assert_eq!(size_of(&m, &block, 512, 256), (1000.0, 500.0));
}

#[test]
fn aspect_ratio_classification_matches_gwyddion() {
    assert!(!is_nonsquare_aspect(None));
    assert!(!is_nonsquare_aspect(Some(&"1:1".to_string())));
    assert!(!is_nonsquare_aspect(Some(&"junk".to_string())));
    assert!(is_nonsquare_aspect(Some(&"2:1".to_string())));
    assert!(is_nonsquare_aspect(Some(&" 0.5:1 ".to_string())));
}

#[test]
fn instrument_id_is_case_insensitive_and_normalised() {
    assert_eq!(
        instrument_id(&meta(&[("Serial number", "10396JVLR")])),
        Some("10396jvlr".to_string())
    );
    assert_eq!(
        instrument_id(&meta(&[("Serial Number", "  \"10396jvlr\"  ")])),
        Some("10396jvlr".to_string())
    );
    assert_eq!(instrument_id(&meta(&[("Serial Number", "  ")])), None);
    assert_eq!(instrument_id(&meta(&[("Date", "2026-01-01")])), None);
}

#[test]
fn instrument_id_ignores_unrelated_sections() {
    let m = meta(&[
        ("Equipment list::Serial number", "sectioned"),
        ("Serial number", "10396jvlr"),
    ]);
    assert_eq!(instrument_id(&m), Some("10396jvlr".to_string()));

    let only_equipment = meta(&[("Equipment list::Serial number", "sectioned")]);
    assert_eq!(instrument_id(&only_equipment), None);
}

#[test]
fn instrument_id_prefers_the_scanner_over_the_microscope_body() {
    let m = meta(&[
        ("Equipment list::Serial Number", "BODY-1"),
        ("Serial Number", "BODY-1"),
        ("Scanner list::Serial Number", "11400EVLR"),
    ]);
    assert_eq!(instrument_id(&m), Some("11400evlr".to_string()));

    // An empty scanner entry still falls back rather than yielding nothing.
    let m = meta(&[
        ("Scanner list::Serial Number", "   "),
        ("Serial Number", "11400EVLR"),
    ]);
    assert_eq!(instrument_id(&m), Some("11400evlr".to_string()));
}

// ---- fields ----

#[test]
fn fields_are_kept_by_key() {
    let mut m = FieldMap::new();
    m.insert("a".to_string(), "1".to_string());
    m.insert("b".to_string(), "2".to_string());
    m.insert("a".to_string(), "3".to_string());
    m.insert_new("b".to_string(), "4".to_string());
    m.insert_new("c".to_string(), "5".to_string());
    assert_eq!(m.len(), 3);
    assert_eq!(m.get("a").map(|s| s.as_str()), Some("3"));
    assert_eq!(m.get("b").map(|s| s.as_str()), Some("2"));
    assert_eq!(m.get("c").map(|s| s.as_str()), Some("5"));
    assert!(m.get("A").is_none());
    assert!(m.contains_key("c") && !m.contains_key("d"));
}

#[test]
fn lookups_ignore_case() {
    let m = meta(&[("Ciao scan list::Scan Size", "1"), ("scan size", "2")]);
    let text = |v: Option<&String>| v.map(|s| s.to_string());
    assert_eq!(text(header_get(&m, Some("CIAO scan list"), "scan SIZE")), Some("1".to_string()));
    assert_eq!(text(header_get(&m, None, "Scan Size")), Some("2".to_string()));
    assert_eq!(text(header_get(&m, Some("other"), "Scan Size")), None);
}

#[test]
fn a_header_is_read_section_by_section() {
    let text = "\\*File list\r\n\\Version: 1\n\\*Ciao scan list\n\\Lines: 4\n\\Version: 2\n\
                \\*Ciao image list\n\\Samps/line: 8\n\\*Ciao image list\n\\Samps/line: 9\n\
                no field\n\\*File list end\n";
    let (conditions, blocks) = parse_header_and_image_blocks(text);
    let get = |k: &str| conditions.get(k).map(|s| s.to_string());
    // A bare key keeps the first value, one with its section the last.
    assert_eq!(get("Version"), Some("1".to_string()));
    assert_eq!(get("Ciao scan list::Version"), Some("2".to_string()));
    assert_eq!(get("Ciao scan list::Lines"), Some("4".to_string()));
    assert_eq!(get("Ciao image list::Samps/line"), Some("9".to_string()));
    assert_eq!(blocks.len(), 2);
    assert_eq!(blocks[0].fields.get("Samps/line").map(|s| s.as_str()), Some("8"));
    assert_eq!(blocks[1].fields.get("Samps/line").map(|s| s.as_str()), Some("9"));
}

// ---- channels ----

fn block(image_data: &str, complete: bool) -> ImageBlock {
    let mut fields = meta(&[
        ("Data offset", "0"),
        ("Data length", "2"),
        ("Samps/line", "1"),
        ("Number of lines", "1"),
        ("@2:Image Data", image_data),
        ("Line Direction", "Retrace"),
    ]);
    if complete {
        fields.insert("Bytes/pixel".to_string(), "2".to_string());
    }
    ImageBlock { fields }
}

fn height(direction: &str) -> ImageBlock {
    let mut b = block("S [Height] \"Height\"", true);
    b.fields.insert("Line Direction".to_string(), direction.to_string());
    b
}

#[test]
fn a_retrace_is_preferred() {
    let blocks = [height("Retrace"), height("Trace")];
    assert_eq!(choose_image_block(&blocks, None).unwrap().0, 0);
    let blocks = [height("Trace"), height("Retrace"), height("Retrace"), height("Trace")];
    assert_eq!(choose_image_block(&blocks, None).unwrap().0, 2);
    assert_eq!(choose_image_block(&blocks, Some(0)).unwrap().0, 0);
    let blocks = [height("Trace"), height("Trace"), block("S [Phase] \"Phase\"", true)];
    assert_eq!(choose_image_block(&blocks, None).unwrap().0, 1);
}

#[test]
fn the_default_is_the_last_height_whatever_its_direction() {
    let blocks = [height("Retrace"), height("Trace")];
    assert_eq!(choose_default_block(&blocks).unwrap().0, 1);
    let chosen = kintuba::raw::choose_image_block(&blocks).ok().unwrap();
    assert_eq!(chosen.fields.get("Line Direction").map(|s| s.as_str()), Some("Trace"));
}

#[test]
fn the_last_height_channel_is_preferred() {
    let blocks = [
        block("S [Height] \"Height\"", true),
        block("S [Phase] \"Phase\"", true),
        block("S [Height] \"Height Sensor\"", true),
        block("S [Height] \"Height\"", false),
    ];
    assert_eq!(choose_image_block(&blocks, None).unwrap().0, 2);
    assert_eq!(choose_image_block(&blocks, Some(1)).unwrap().0, 1);
    assert_eq!(choose_image_block(&blocks[1..2], None).unwrap().0, 0);
    assert_eq!(
        choose_image_block(&blocks, Some(3)).err().unwrap(),
        "Channel 3 is missing required fields"
    );
    assert_eq!(
        choose_image_block(&blocks, Some(4)).err().unwrap(),
        "Channel index 4 out of range"
    );
    assert_eq!(
        choose_image_block(&blocks[3..4], None).err().unwrap(),
        "No image block with required fields found"
    );
    assert!(has_required_fields(&blocks[0]) && !has_required_fields(&blocks[3]));

    let channels = list_channels_from_blocks(&blocks);
    let names: Vec<(usize, &str, &str)> = channels
        .iter()
        .map(|c| (c.index, c.name.as_str(), c.direction.as_str()))
        .collect();
    assert_eq!(
        names,
        [(0, "Height", "Retrace"), (1, "Phase", "Retrace"), (2, "Height Sensor", "Retrace")]
    );
    assert_eq!(extract_channel_name("S [Height] \"Height Sensor\""), "Height Sensor");
}

// ---- scales ----

#[test]
fn numbers_are_read_out_of_fields() {
    let text = |s: &str| s.to_string();
    assert_eq!(parse_usize_field(Some(&text(" 12 ")), "Samps/line"), Ok(12));
    assert!(parse_usize_field(Some(&text("x")), "Samps/line").is_err());
    assert!(parse_usize_field(None, "Samps/line").is_err());
    assert_eq!(
        parse_float_before_unit("V [Sens. Zsens] (0.5 nm/LSB) 100 nm", "nm/LSB").map(g),
        Some(0.5)
    );
    assert_eq!(parse_last_float("V 12.5 nm/V").map(g), Some(12.5));
    assert_eq!(
        parse_sensitivity_name("V [Sens. Zsens] (0.5 V/LSB) 100 V"),
        Some("Zsens".to_string())
    );
}

#[test]
fn a_step_of_a_sample_is_worked_out() {
    let conditions = meta(&[("@Sens. Zsens", "V 20.0 nm/V"), ("@Sens. Bad", "V x nm/V")]);
    let step = |scale: &str, bytes: usize| {
        let b = ImageBlock { fields: meta(&[("@2:Z scale", scale)]) };
        parse_nm_per_lsb(&b, &conditions, bytes).map(g)
    };
    assert_eq!(step("V [Sens. Zsens] (0.5 nm/LSB) 100 nm", 2), Ok(0.5));
    // The lesser of the stated step and the full scale over all steps counts.
    assert_eq!(step("V [Sens. Zsens] (0.5 V/LSB) 65536 V", 2), Ok(10.0));
    assert_eq!(step("V [Sens. Zsens] (0.5 V/LSB) 16384 V", 2), Ok(5.0));
    assert_eq!(step("V [Sens. Zsens] (0.5 V/LSB) 16384 V", 1), Ok(10.0));

    let missing = ImageBlock { fields: FieldMap::new() };
    assert_eq!(
        parse_nm_per_lsb(&missing, &conditions, 2).unwrap_err(),
        "Missing Z scale field in image block"
    );
    assert_eq!(
        step("V [Sens. Zsens] nothing", 2).unwrap_err(),
        "Could not parse V/LSB from Z scale: V [Sens. Zsens] nothing"
    );
    assert_eq!(
        step("(0.5 V/LSB) 3 V", 2).unwrap_err(),
        "Could not parse sensitivity reference from Z scale: (0.5 V/LSB) 3 V"
    );
    assert_eq!(
        step("[Sens. Other] (0.5 V/LSB) 3 V", 2).unwrap_err(),
        "Missing sensitivity field: @Sens. Other"
    );
    assert_eq!(
        step("[Sens. Bad] (0.5 V/LSB) 3 V", 2).unwrap_err(),
        "Could not parse nm/V from sensitivity field @Sens. Bad: V x nm/V"
    );
}

#[test]
fn fields_can_come_in_any_order() {
    let pairs = [
        ("scan size", "9 9 ~m"),
        ("Scan Size", "1000 nm"),
        ("Ciao scan list::Scan Size", "2 1 ~m"),
        ("Ciao scan list::scan size", "7 7 ~m"),
        ("Ciao scan list::Lines", "256"),
        ("Serial Number", "B"),
        ("serial number", "C"),
    ];
    let mut turned = pairs;
    turned.reverse();
    assert_eq!(scan_size(&pairs), (2000.0, 1000.0));
    assert_eq!(scan_size(&turned), (2000.0, 1000.0));
    assert_eq!(instrument_id(&meta(&pairs)), Some("b".to_string()));
    assert_eq!(instrument_id(&meta(&turned)), Some("b".to_string()));
}
