//! The calibration table.

use kintuba::binary::Binary32;
use kintuba::calibration::{
    config_dir, normalize_id, Calibration, CalibrationTable, Platform, ReadOutcome, SaveFailure,
};
use kintuba::table::{parse_table, render_table};

fn f(v: f32) -> Binary32 {
    Binary32 { bits: v.to_bits() }
}

fn cal(x: f32, y: f32, z: f32) -> Calibration {
    Calibration { x: f(x), y: f(y), z: f(z) }
}

#[test]
fn unregistered_instrument_is_unity() {
    let table = CalibrationTable::default();
    assert_eq!(table.get("10396jvlr"), Calibration::unity());
    assert!(Calibration::unity().is_unity());
    assert!(!cal(1.0, 1.0, 0.987).is_unity(), "a z-only factor counts");
}

#[test]
fn round_trips_through_the_text_format() {
    let mut table = CalibrationTable::default();
    table.set("10396jvlr", cal(1.0, 1.023, 0.987));
    table.set("ABC123", cal(0.98, 1.0, 1.0));

    let text = table.to_file_text();
    let (entries, err) = parse_table(&text);
    assert!(err.is_none(), "clean round-trip should not report errors");
    assert_eq!(render_table(&entries), text);

    let reloaded = CalibrationTable::load(ReadOutcome::Text(text));
    assert_eq!(reloaded.get("10396jvlr"), cal(1.0, 1.023, 0.987));
    // Keys are stored lower-cased, so lookups are case-insensitive.
    assert_eq!(reloaded.get("abc123"), cal(0.98, 1.0, 1.0));
    assert_eq!(reloaded.get("AbC123"), cal(0.98, 1.0, 1.0));
}

#[test]
fn a_table_without_a_z_column_still_loads() {
    // Tables written before Z calibration existed have three columns.
    let (entries, err) = parse_table("10396jvlr  1.0  1.023\n");
    assert!(err.is_none(), "three columns is a valid table");
    assert_eq!(entries.get("10396jvlr"), Some(cal(1.0, 1.023, 1.0)));
}

#[test]
fn skips_comments_blanks_and_malformed_lines() {
    let text = "\
# a comment

10396jvlr  1.0  1.023  0.987
broken line
onlytwo  1.0
negative  -1.0  1.0
notanumber  x  y
zero_z  1.0  1.0  0
  9999abc   1.5   2.5  1.0  extra
";
    let (entries, err) = parse_table(text);
    assert_eq!(entries.len(), 1);
    assert_eq!(entries.get("10396jvlr"), Some(cal(1.0, 1.023, 0.987)));

    let err = err.expect("malformed lines should be reported");
    // Lines 4-9 (1-indexed) are the bad ones, including the trailing junk:
    // a calibration file is not the place to quietly ignore a typo.
    for n in ["4", "5", "6", "7", "8", "9"] {
        assert!(err.contains(n), "expected line {n} in {err:?}");
    }
    assert_eq!(err, "Skipped lines: 4, 5, 6, 7, 8, 9");
}

#[test]
fn set_and_remove() {
    let mut table = CalibrationTable::default();
    assert!(table.is_empty());
    table.set(" 10396JVLR ", cal(1.1, 1.2, 1.3));
    assert!(table.contains("10396jvlr"));
    assert_eq!(table.get("10396jvlr"), cal(1.1, 1.2, 1.3));
    table.remove("10396JVLR");
    assert!(table.is_empty());
}

#[test]
fn the_file_is_plain_text() {
    let mut table = CalibrationTable::default();
    table.set("10396jvlr", cal(1.0, 1.023, 0.987));
    table.set("0001", cal(2.0, 0.5, 1.0));
    assert_eq!(
        table.to_file_text(),
        "# Kintuba AFM Viewer — instrument XYZ calibration\n\
         # <serial number>  <x scale>  <y scale>  <z scale>\n\
         0001  2.000000  0.500000  1.000000\n\
         10396jvlr  1.000000  1.023000  0.987000\n"
    );
}

#[test]
fn instruments_are_listed_in_order() {
    let mut table = CalibrationTable::default();
    for id in ["b", "a", "C", "b"] {
        table.set(id, cal(1.0, 1.0, 1.5));
    }
    table.set("  ", cal(3.0, 3.0, 3.0));
    let ids: Vec<&str> = table.iter().iter().map(|(id, _)| id.as_str()).collect();
    assert_eq!(ids, ["a", "b", "c"]);
    assert_eq!(normalize_id("  AbC "), "abc");
}

#[test]
fn factors_can_be_edited_in_place() {
    let mut table = CalibrationTable::default();
    table.set("a", cal(1.0, 1.0, 1.0));
    match table.get_mut("A") {
        Some(c) => c.y = f(1.25),
        None => panic!("registered"),
    }
    assert_eq!(table.get("a"), cal(1.0, 1.25, 1.0));
    assert!(table.get_mut("b").is_none());
}

#[test]
fn a_missing_file_is_an_empty_table() {
    let table = CalibrationTable::load(ReadOutcome::Missing);
    assert!(table.is_empty());
    assert!(table.load_error().is_none());
}

#[test]
fn a_file_that_cannot_be_read_is_reported() {
    let table = CalibrationTable::load(ReadOutcome::Failed {
        path: "/tmp/calibration.txt".to_string(),
        error: "permission denied".to_string(),
    });
    assert!(table.is_empty());
    let text = table.load_error().expect("reported").to_string();
    assert_eq!(text, "/tmp/calibration.txt: permission denied");
}

#[test]
fn failures_to_save_name_what_failed() {
    let dir = CalibrationTable::save_message(SaveFailure::Directory {
        path: "/a".to_string(),
        error: "full".to_string(),
    });
    let file = CalibrationTable::save_message(SaveFailure::File {
        path: "/a/b".to_string(),
        error: "full".to_string(),
    });
    assert_eq!(dir, "Could not create the config directory (/a): full");
    assert_eq!(file, "Could not save (/a/b): full");
}

#[test]
fn the_table_has_its_place_on_each_platform() {
    let (d, h, x, none) =
        ("D".to_string(), "H".to_string(), "X".to_string(), String::new());
    let join = |parts: Vec<String>| parts.join("/");
    assert_eq!(
        join(CalibrationTable::path(Platform::Windows, Some(&d), None, None)),
        "D/KintubaAfmViewer/calibration.txt"
    );
    assert_eq!(
        join(CalibrationTable::path(Platform::MacOs, None, None, Some(&h))),
        "H/Library/Application Support/KintubaAfmViewer/calibration.txt"
    );
    assert_eq!(
        join(CalibrationTable::path(Platform::Other, None, Some(&x), Some(&h))),
        "X/kintuba-afm-viewer/calibration.txt"
    );
    assert_eq!(
        join(CalibrationTable::path(Platform::Other, None, Some(&none), Some(&h))),
        "H/.config/kintuba-afm-viewer/calibration.txt"
    );
    assert_eq!(config_dir(Platform::Other, None, None, None), ["."]);
    assert_eq!(config_dir(Platform::Windows, None, Some(&x), Some(&h)), ["."]);
}

#[test]
fn factors_close_to_one_count_as_one() {
    assert!(cal(1.0 + 1e-7, 1.0, 1.0).is_unity());
    assert!(!cal(1.001, 1.0, 1.0).is_unity());
    assert!(!cal(1.0, 0.999, 1.0).is_unity());
}

#[test]
fn six_decimals_are_kept() {
    let cases = [
        "0.000001", "0.000002", "0.333333", "0.987", "1.000001", "1.023", "7.999999", "8.000001",
        "12.345678", "15.999999", "16.000001", "123.456789", "99999.5", "16777217",
    ];
    for text in cases {
        let (read, err) = parse_table(&format!("a {text} {text}\n"));
        assert!(err.is_none());
        let first = read.get("a").unwrap();
        assert_eq!(first.x.bits, text.parse::<f32>().unwrap().to_bits());
        let (again, err) = parse_table(&render_table(&read));
        assert!(err.is_none());
        assert_eq!(again.get("a"), Some(first), "{text}");
    }
}

#[test]
fn a_table_is_stable_once_it_was_read() {
    let mut table = CalibrationTable::default();
    table.set("a", cal(1.0 / 3.0, 0.1234567, 9.8765432));
    let (once, _) = parse_table(&table.to_file_text());
    assert_ne!(once.get("a"), Some(table.get("a")));
    let (twice, _) = parse_table(&render_table(&once));
    assert_eq!(once.get("a"), twice.get("a"));
    // Less than half a millionth is nothing to six decimals.
    table.set("a", cal(1.0, 1.0, 4.0e-7));
    let (lost, err) = parse_table(&table.to_file_text());
    assert_eq!(lost.len(), 0);
    assert_eq!(err.as_deref(), Some("Skipped lines: 3"));
}

#[test]
fn any_usual_factor_comes_back_to_a_millionth() {
    let factors = [0.000001f32, 0.0000015, 0.1234567, 1.0 / 3.0, 1.9999999, 12.345678, 1e5, 3e30];
    for v in factors {
        let mut table = CalibrationTable::default();
        table.set("a", cal(v, v, v));
        let (read, err) = parse_table(&table.to_file_text());
        assert!(err.is_none());
        let got = f32::from_bits(read.get("a").unwrap().x.bits);
        assert!((got as f64 - v as f64).abs() <= 1e-6, "{v}");
    }
}

#[test]
fn factors_are_compared_as_numbers() {
    assert_eq!(cal(0.0, 1.0, 2.0), cal(-0.0, 1.0, 2.0));
    assert_ne!(cal(f32::NAN, 1.0, 1.0), cal(f32::NAN, 1.0, 1.0));
    assert_ne!(cal(1.0, 1.0, 1.0), cal(1.0, 1.0, 1.0 + f32::EPSILON));
}

#[test]
fn a_copy_of_a_table_has_a_life_of_its_own() {
    let mut table = CalibrationTable::default();
    table.set("10396jvlr", cal(1.0, 1.023, 0.987));
    let copy = table.clone();
    table.set("10396jvlr", cal(2.0, 2.0, 2.0));
    assert_eq!(copy.get("10396jvlr"), cal(1.0, 1.023, 0.987));
    let (entries, _) = parse_table("a 1 2 3\nb 4 5 6\n");
    assert_eq!(render_table(&entries.clone()), render_table(&entries));
}
