//! Loading images from the bytes of a file.

use kintuba::binary::Binary32;
use kintuba::calibration::Calibration;
use kintuba::fields::FieldMap;
use kintuba::profile::{line_profile, Point};
use kintuba::raw::{hello_from_bin, load_spm_raw};
use kintuba::samples::{decode_image_to_2d, join_rows};
use kintuba::smooth::kernel_exponents;
use kintuba::spm::{find_bytes, load_image, load_spm, read_header_text, SpmImage};

fn f(v: f32) -> Binary32 {
    Binary32 { bits: v.to_bits() }
}

fn g(v: Binary32) -> f32 {
    f32::from_bits(v.bits)
}

fn gs(v: &[Binary32]) -> Vec<f32> {
    v.iter().map(|&x| g(x)).collect()
}

const HEADER: &str = r#"\*File list
\Version: 0x09300000
\*Equipment list
\Description: MultiMode
\Serial number: BODY-0000
\*Scanner list
\Serial number: 10396JVLR
\*Ciao scan list
\Scan Size: 5.00000 2.50000 ~m
\Aspect Ratio: 1:1
\Lines: 2
\*Ciao image list
\Data offset: 1024
\Data length: 16
\Samps/line: 4
\Number of lines: 2
\Bytes/pixel: 2
\@2:Image Data: S [Height] "Height"
\@2:Z scale: V [Sens. Zsens] (0.5 nm/LSB) 100 nm
\*File list end
"#;

/// A small Nanoscope file: a header up to its end marker, blanks up to byte
/// 1024, and 4x2 samples.
fn file_with(header: &str) -> Vec<u8> {
    let mut bytes = header.as_bytes().to_vec();
    assert!(bytes.len() < 1024);
    bytes.resize(1024, b' ');
    for v in 0i16..8 {
        bytes.extend_from_slice(&v.to_le_bytes());
    }
    bytes
}

fn load(bytes: &[u8], flatten: Option<u32>, channel: Option<usize>) -> Result<SpmImage, String> {
    load_spm(bytes, flatten, f(0.0), &[], channel).expect("lines have samples")
}

fn failure(header: &str) -> String {
    match load(&file_with(header), None, None) {
        Err(e) => e,
        Ok(_) => panic!("loaded"),
    }
}

#[test]
fn load_spm_reads_the_serial_number_and_both_scan_extents() {
    let img = match load(&file_with(HEADER), None, None) {
        Ok(img) => img,
        Err(e) => panic!("synthetic file should parse: {e}"),
    };

    // The scanner's serial, not the body's, even though the body's comes
    // first in the file.
    assert_eq!(img.instrument_id.as_deref(), Some("10396jvlr"));
    assert_eq!(img.samps_per_line, 4);
    assert_eq!(img.number_of_lines, 2);
    assert_eq!(img.channel_name, "Height");
    // "5.00000 2.50000 ~m" -> both axes in nm, Y half of X.
    assert_eq!(g(img.scan_size_x_nm), 5000.0);
    assert_eq!(g(img.scan_size_y_nm), 2500.0);
    assert_eq!(img.calibration, Calibration::unity());
    // 0.5 nm/LSB applied to the raw counts, rows reversed.
    assert_eq!(gs(&img.data), vec![2.0, 2.5, 3.0, 3.5, 0.0, 0.5, 1.0, 1.5]);
}

#[test]
fn apply_calibration_scales_extents_and_records_the_factors() {
    let mut img = SpmImage {
        data: vec![f(4.0), f(8.0), f(12.0), f(16.0)],
        metadata: FieldMap::new(),
        scan_size_x_nm: f(1000.0),
        scan_size_y_nm: f(1000.0),
        samps_per_line: 2,
        number_of_lines: 2,
        channel_name: "Height".into(),
        channel_idx: 0,
        available_channels: Vec::new(),
        instrument_id: Some("10396jvlr".into()),
        calibration: Calibration::unity(),
    };
    img.apply_calibration(Calibration { x: f(1.0), y: f(1.2), z: f(0.5) });
    assert_eq!(g(img.scan_size_x_nm), 1000.0);
    assert!((g(img.scan_size_y_nm) - 1200.0).abs() < 1e-3);
    // Z scales the height samples themselves.
    assert_eq!(gs(&img.data), vec![2.0, 4.0, 6.0, 8.0]);
    assert_eq!(g(img.calibration.z), 0.5);
}

#[test]
fn a_file_without_an_end_marker_is_refused() {
    assert_eq!(
        load(b"no header here", None, None).err().unwrap(),
        "Could not find \\*File list end marker in file"
    );
    assert!(read_header_text(b"\\*File list en").is_none());
    assert_eq!(read_header_text(b"a\\*File list end b").unwrap(), "a\\*File list end");
    // What is not UTF-8 in a header does no harm.
    assert_eq!(
        read_header_text(b"\xb5m\\*File list end").unwrap(),
        "\u{fffd}m\\*File list end"
    );
    assert_eq!(find_bytes(b"aabab", b"ab"), Some(1));
    assert_eq!(find_bytes(b"aabab", b""), None);
}

#[test]
fn each_thing_that_is_wrong_has_its_message() {
    assert_eq!(
        failure("\\*File list\n\\*File list end\n"),
        "No image block with required fields found"
    );
    assert_eq!(
        failure(&HEADER.replace("Data length: 16", "Data length: 99")),
        "Data slice out of range: offset=1024, length=99, file_size=1040"
    );
    assert_eq!(
        failure(&HEADER.replace("Data length: 16", "Data length: 18446744073709551615")),
        "Data offset overflow"
    );
    assert_eq!(
        failure(&HEADER.replace("Data length: 16", "Data length: 15")),
        "Not enough image bytes: expected 16, got 15"
    );
    assert_eq!(
        failure(&HEADER.replace("Z scale", "X scale")),
        "Missing Z scale field in image block"
    );
    assert_eq!(
        load(&file_with(HEADER), None, Some(1)).err().unwrap(),
        "Channel index 1 out of range"
    );
    assert_eq!(
        failure(&HEADER.replace("Bytes/pixel: 2", "Bytes/pixel: 1")),
        "Unsupported Bytes/pixel value: 1"
    );
    let text = failure(&HEADER.replace("Samps/line: 4", "Samps/line: four"));
    assert!(text.contains("Samps/line"), "{text}");
}

#[test]
fn lines_without_samples_have_no_result() {
    let header = HEADER.replace("Samps/line: 4", "Samps/line: 0");
    assert!(load_spm(&file_with(&header), None, f(0.0), &[], None).is_none());
}

#[test]
fn samples_are_read_in_their_byte_order() {
    let big = "BIG ENDIAN".to_string();
    let rows = decode_image_to_2d(&[0, 1, 0, 2, 255, 255, 0, 4], 2, 2, 2, Some(&big)).unwrap();
    assert_eq!(gs(&join_rows(&rows)), [-1.0, 4.0, 1.0, 2.0]);
    let rows = decode_image_to_2d(&[1, 0, 0, 0, 255, 255, 255, 255], 2, 1, 4, None).unwrap();
    assert_eq!(gs(&join_rows(&rows)), [1.0, -1.0]);
}

#[test]
fn flattening_and_smoothing_follow_the_settings() {
    let bytes = file_with(HEADER);
    let flat = load(&bytes, Some(1), None).ok().unwrap();
    assert!(gs(&flat.data).iter().all(|v| v.abs() < 1e-5));
    assert_eq!(
        load(&bytes, Some(9), None).err().unwrap(),
        "Polynomial order must be 0-3"
    );

    let sigma = f(0.3);
    let exps: Vec<Binary32> = kernel_exponents(sigma).iter().map(|&e| f(g(e).exp())).collect();
    let smooth = load_spm(&bytes, None, sigma, &exps, None).unwrap().ok().unwrap();
    let plain = load(&bytes, None, None).ok().unwrap();
    assert_ne!(smooth.data, plain.data);
    assert!((g(smooth.data[1]) - 2.5).abs() < 0.1);
}

#[test]
fn an_image_is_loaded_for_a_header_text() {
    let bytes = file_with(HEADER);
    let img = load_image(&bytes, HEADER, None, f(0.0), &[], Some(0)).ok().unwrap();
    assert_eq!(img.channel_idx, 0);
    assert_eq!(img.available_channels.len(), 1);
    assert_eq!(img.metadata.get("Version").map(|s| s.as_str()), Some("0x09300000"));
    let p = line_profile(&img, Point { x: f(0.0), y: f(0.0) }, Point { x: f(0.5), y: f(0.0) });
    assert_eq!(p.iter().map(|&(a, b)| (g(a), g(b))).collect::<Vec<_>>(), [
        (0.0, 2.0),
        (2500.0, 3.0)
    ]);
}

// ---- raw scans ----

#[test]
fn a_raw_scan_is_read() {
    assert_eq!(hello_from_bin(), "Hello from afm-image-loader!");
    let header = HEADER.replace("(0.5 nm/LSB) 100 nm", "(0.5 V/LSB) 10 V").replace(
        "\\*Ciao scan list",
        "\\@Sens. Zsens: V 2.0 nm/V\n\\*Ciao scan list",
    );
    match load_spm_raw(&file_with(&header), None) {
        Some(Ok(scan)) => {
            assert_eq!((scan.rows, scan.cols), (2, 4));
            // The stated step is taken as it is: half a volt of two nanometres.
            assert_eq!(gs(&scan.data), [4.0, 5.0, 6.0, 7.0, 0.0, 1.0, 2.0, 3.0]);
            assert_eq!(scan.metadata.get("Lines").map(|s| s.as_str()), Some("2"));
        }
        Some(Err(e)) => panic!("{e}"),
        None => panic!("no samples"),
    }
    match load_spm_raw(&file_with(&header), Some(4)) {
        Some(Err(e)) => assert_eq!(e, "Polynomial order must be 0-3"),
        _ => panic!("loaded"),
    }
}

#[test]
fn a_channel_can_be_copied() {
    let img = match load(&file_with(HEADER), None, None) {
        Ok(img) => img,
        Err(e) => panic!("does not load: {e}"),
    };
    let copy = img.available_channels[0].clone();
    assert_eq!((copy.index, copy.name.as_str()), (0, "Height"));
    assert_eq!(format!("{copy:?}"), format!("{:?}", img.available_channels[0]));
}
