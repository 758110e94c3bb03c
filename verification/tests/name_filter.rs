//! The file name filter and the list of files.

use kintuba::binary::Binary64;
use kintuba::files::{is_spm_file, scan_extension, scan_files, visible_files};
use kintuba::name_filter::{lower_chars, Cond, NameFilter, Op};

fn m(pattern: &str, name: &str) -> bool {
    match NameFilter::parse(pattern) {
        Ok(Some(filter)) => filter.matches(name),
        Ok(None) => panic!("pattern is blank"),
        Err(e) => panic!("pattern does not parse: {e}"),
    }
}

fn error(pattern: &str) -> String {
    match NameFilter::parse(pattern) {
        Err(e) => e,
        Ok(_) => panic!("{pattern} parses"),
    }
}

#[test]
fn blank_pattern_is_no_filter() {
    assert!(matches!(NameFilter::parse(""), Ok(None)));
    assert!(matches!(NameFilter::parse("   "), Ok(None)));
}

#[test]
fn plain_text_is_a_substring_search() {
    assert!(m("EtOH", "20260101_a_b_c_EtOH10_scan.003"));
    assert!(m("etoh", "20260101_a_b_c_EtOH10_scan.003"));
    assert!(!m("MeOH", "20260101_a_b_c_EtOH10_scan.003"));
    assert!(m(".003", "20260101_a_b_c_EtOH10_scan.003"));
}

#[test]
fn example_pattern() {
    let p = "{<20260808}_*_*_*_EtOH10_**";
    assert!(m(p, "20260101_a_b_c_EtOH10_scan.003"));
    // `**` spans the remaining underscores.
    assert!(m(p, "20260101_a_b_c_EtOH10_scan_retrace.003"));
    // Date is not below the bound.
    assert!(!m(p, "20261231_a_b_c_EtOH10_scan.003"));
    assert!(!m(p, "20260808_a_b_c_EtOH10_scan.003"));
    // One segment short.
    assert!(!m(p, "20260101_a_b_EtOH10_x.003"));
    // Different solvent.
    assert!(!m(p, "20260101_a_b_c_MeOH10_x.003"));
    // Case-insensitive literals.
    assert!(m("{<20260808}_*_*_*_etoh10_**", "20260101_a_b_c_EtOH10_x.003"));
    // Three arbitrary segments of any length.
    assert!(m(p, "20260101_sampleA_p1_run3_EtOH10_scan.003"));
}

#[test]
fn star_does_not_cross_underscore() {
    assert!(m("a_*_c", "a_bb_c"));
    assert!(!m("a_*_c", "a_b_b_c"));
    assert!(m("a_*", "a_.003"));
    // `*` also matches the empty string.
    assert!(m("a_*_c", "a__c"));
}

#[test]
fn double_star_crosses_underscore() {
    assert!(m("a_**_c", "a_b_b_c"));
    assert!(m("**", "anything_at_all.003"));
    assert!(m("**.003", "a_b.003"));
}

#[test]
fn numeric_conditions() {
    assert!(m("{>=20260101,<20260808}_**", "20260501_x.003"));
    assert!(!m("{>=20260101,<20260808}_**", "20251231_x.003"));
    assert!(!m("{>=20260101,<20260808}_**", "20260808_x.003"));
    assert!(m("{<=5}_**", "5_x.003"));
    assert!(m("{>5}_**", "6_x.003"));
    assert!(!m("{>5}_**", "5_x.003"));
    assert!(m("{=5}_**", "5_x.003"));
    assert!(m("{!=5}_**", "6_x.003"));
    assert!(!m("{!=5}_**", "5_x.003"));
}

#[test]
fn digit_run_is_taken_whole() {
    // `2` alone would satisfy `<100`; the whole run must be compared.
    assert!(!m("{<100}**", "20260808_x.003"));
    assert!(m("{<100}**", "42_x.003"));
}

#[test]
fn numeric_condition_needs_digits() {
    assert!(!m("{<100}_**", "abc_x.003"));
}

#[test]
fn alternatives() {
    assert!(m("**_{EtOH|MeOH}10_**", "20260101_a_EtOH10_x.003"));
    assert!(m("**_{EtOH|MeOH}10_**", "20260101_a_meoh10_x.003"));
    assert!(!m("**_{EtOH|MeOH}10_**", "20260101_a_IPA10_x.003"));
    // A brace without an operator or `|` is a plain literal.
    assert!(m("{20260808}_**", "20260808_x.003"));
    assert!(!m("{20260808}_**", "20260101_x.003"));
}

#[test]
fn syntax_errors() {
    assert!(NameFilter::parse("{<20260808_*").is_err());
    assert!(NameFilter::parse("{}_*").is_err());
    assert!(NameFilter::parse("{<abc}_*").is_err());
    assert!(NameFilter::parse("a}_*").is_err());
    assert!(NameFilter::parse("{a|}_*").is_err());
}

#[test]
fn each_syntax_error_has_its_message() {
    assert_eq!(error("{}_*"), "empty {} in filter");
    assert_eq!(error("{<abc}_*"), "'abc' is not a number");
    assert_eq!(error("{<1,5}_*"), "missing comparison operator in '5'");
}

#[test]
fn case_is_ignored_beyond_ascii() {
    assert!(m("ÄTHER", "20260101_äther.003"));
    assert!(m("*_äther*", "20260101_ÄTHER.003"));
    assert_eq!(lower_chars("ÀB"), ['à', 'b']);
}

#[test]
fn scans_are_told_by_their_extension() {
    for name in ["a.spm", "a.SPM", "a.Spm", "a.000", "x.y.00012", "a."] {
        assert!(is_spm_file(name), "{name}");
    }
    for name in ["a", "a.txt", "a.00x", "spm", ".spm", "..", ".", "", "a.sp", ".000"] {
        assert!(!is_spm_file(name), "{name}");
    }
    // The same as the extension of a path has it.
    for name in ["..spm", ".a.003", "a.spm.txt", "a..", "...", "é.００１"] {
        let ext = std::path::Path::new(name).extension();
        let want = match ext.map(|e| e.to_string_lossy().to_lowercase()) {
            Some(e) => e == "spm" || e.chars().all(|c| c.is_ascii_digit()),
            None => false,
        };
        assert_eq!(is_spm_file(name), want, "{name}");
    }
    assert!(scan_extension(&['s', 'p', 'm']));
    assert!(!scan_extension(&['S', 'P', 'M']));
    assert!(scan_extension(&['0', '9']));
}

fn names(v: &[&str]) -> Vec<String> {
    v.iter().map(|s| s.to_string()).collect()
}

#[test]
fn scans_are_listed_by_name() {
    let all = names(&["b.001", "notes.txt", "a.spm", "b.000", "Z.spm", "a.spm", "ab.003"]);
    let list = scan_files(&all);
    assert_eq!(list, [4, 2, 5, 6, 3, 0]);
    assert!(scan_files(&names(&["readme"])).is_empty());
}

#[test]
fn a_filter_narrows_the_list() {
    let all = names(&["20260101_a.spm", "20260901_b.spm", "20260102_c.spm"]);
    assert_eq!(visible_files(&all, &None), [0, 1, 2]);
    let filter = match NameFilter::parse("{<20260808}_**") {
        Ok(f) => f,
        Err(e) => panic!("{e}"),
    };
    assert_eq!(visible_files(&all, &filter), [0, 2]);
}

#[test]
fn the_case_of_a_pattern_does_not_matter() {
    let patterns = ["EtOH", "{<2E7}_*_etoh**", "{EtOH|MeOH}*", "**_Run{>=1e0,!=5}.spm"];
    let names = ["20260101_a_EtOH10", "ETOH.spm", "meoh_5", "x_run12.spm", "x_RUN5.SPM"];
    for p in patterns {
        for n in names {
            let got = m(p, n);
            for q in [p.to_ascii_uppercase(), p.to_ascii_lowercase()] {
                assert_eq!(m(&q, n), got);
            }
            assert_eq!(m(p, &n.to_ascii_uppercase()), got);
            assert_eq!(m(p, &n.to_ascii_lowercase()), got);
        }
    }
    assert!(NameFilter::parse("{<1E}").is_err() && NameFilter::parse("{<1e}").is_err());
}

#[test]
fn filters_are_equal_when_their_numbers_are() {
    let of = |p: &str| NameFilter::parse(p);
    assert_eq!(of("{>=0}_*"), of("{>=-0}_*"));
    assert_eq!(of("{<5}_*"), of("{<5.0}_*"));
    assert_ne!(of("{<5}_*"), of("{<=5}_*"));
    assert_ne!(of("{<nan}_*"), of("{<nan}_*"));
    let c = Cond { op: Op::Lt, value: Binary64 { bits: 0f64.to_bits() } };
    assert_eq!(c, Cond { op: Op::Lt, value: Binary64 { bits: (-0f64).to_bits() } });
}
