use lib::cli::ObjFormat;
use lib::image::Region;
use lib::object::records;

fn tail() -> Region {
    Region { start: 0x0168, bytes: vec![0x12, 0x62, 0x12, 0x63, 0x12, 0x56] }
}

fn text(v: Vec<u8>) -> String {
    String::from_utf8(v).unwrap()
}

#[test]
fn intel_hex_matches_the_corpus() {
    let s = text(lib::object::write(ObjFormat::IntelHex, &[tail()], 0x18, 0, false));
    assert_eq!(s, ":0601680012621263125640\n:00000001FF\n");
}

#[test]
fn mos_technology_matches_the_corpus() {
    let s = text(lib::object::write(ObjFormat::MosTech, &[tail()], 0x18, 0, false));
    assert_eq!(s, ";06016812621263125601C0\n;00\n");
}

#[test]
fn srecord_matches_the_corpus() {
    let s = text(lib::object::write(ObjFormat::SRecord, &[tail()], 0x18, 0, false));
    assert_eq!(s, "S10901681262126312563C\nS9030000FC\n");
}

#[test]
fn a_full_length_record_shows_the_srecord_length_convention() {
    let r = Region { start: 0, bytes: (0..24).map(|_| 0u8).collect() };
    let s = text(lib::object::write(ObjFormat::SRecord, &[r], 0x18, 0, false));
    assert!(s.starts_with("S11B0000"), "got {}", &s[..12]);
}

#[test]
fn word_addressing_prints_a_halved_address_with_the_byte_checksum() {
    let data: Vec<u8> = vec![
        0x36, 0x37, 0x34, 0x56, 0x35, 0x12, 0x01, 0x93, 0x58, 0x59, 0x5A, 0x5B,
        0x5C, 0x5D, 0x5E, 0x5F, 0x56, 0x57, 0x54, 0x56, 0x55, 0x12, 0xB0, 0x81,
    ];
    let g0 = text(lib::object::write(ObjFormat::IntelHex, &[Region { start: 0x18, bytes: data.clone() }], 0x18, 0, true));
    let g4 = text(lib::object::write(ObjFormat::IntelWord, &[Region { start: 0x18, bytes: data }], 0x18, 0, true));
    assert!(g0.starts_with(":18001800"), "{}", &g0[..12]);
    assert!(g4.starts_with(":18000C00"), "{}", &g4[..12]);
    let cs = |s: &str| s.lines().next().unwrap().chars().rev().take(2).collect::<String>();
    assert_eq!(cs(&g0), cs(&g4), "both checksums come from the byte address");
    assert!(g0.lines().next().unwrap().ends_with("33"));
}

#[test]
fn record_length_is_hexadecimal() {
    let r = Region { start: 0, bytes: (0..60u8).collect() };
    let recs = records(&r, 0x32);
    assert_eq!(recs[0].1.len(), 50);
    assert_eq!(recs[1].1.len(), 10);
    let recs = records(&r, 0x08);
    assert_eq!(recs[0].1.len(), 8);
}

#[test]
fn binary_has_no_framing() {
    let out = lib::object::write(ObjFormat::Binary, &[tail()], 0x18, 0, false);
    assert_eq!(out, vec![0x12, 0x62, 0x12, 0x63, 0x12, 0x56]);
}

#[test]
fn an_end_address_reaches_the_s9_record() {
    let s = text(lib::object::write(ObjFormat::SRecord, &[tail()], 0x18, 0x1234, false));
    assert!(s.ends_with("S9031234B6\n"), "got {:?}", s.lines().last());
}

/// Every byte of a record, checksum included, sums to zero modulo 256.
fn intel_sum_ok(line: &str) -> bool {
    let hex = &line[1..];
    let mut sum: u32 = 0;
    for k in (0..hex.len()).step_by(2) {
        sum += u32::from_str_radix(&hex[k..k + 2], 16).unwrap();
    }
    sum % 256 == 0
}

#[test]
fn corrected_word_records_carry_a_valid_checksum() {
    let data: Vec<u8> = (1..=20).collect();
    let g4 = text(lib::object::write(ObjFormat::IntelWord, &[Region { start: 0x18, bytes: data }], 0x10, 0, false));
    for l in g4.lines() {
        assert!(intel_sum_ok(l), "{}", l);
    }
    let srec = text(lib::object::write(ObjFormat::SRecord, &[Region { start: 0x1234, bytes: vec![1, 2, 3] }], 0x10, 0, false));
    let first = srec.lines().next().unwrap();
    let hex = &first[2..];
    let mut sum: u32 = 0;
    for k in (0..hex.len()).step_by(2) {
        sum += u32::from_str_radix(&hex[k..k + 2], 16).unwrap();
    }
    assert_eq!(sum % 256, 0xFF);
}

#[test]
fn bug_compatibility_changes_only_the_word_addressed_records() {
    let regs = || vec![Region { start: 0x18, bytes: (1..=20).collect() }];
    for f in [ObjFormat::IntelHex, ObjFormat::MosTech, ObjFormat::SRecord, ObjFormat::Binary] {
        assert_eq!(lib::object::write(f, &regs(), 0x10, 0, true), lib::object::write(f, &regs(), 0x10, 0, false));
    }
    assert_ne!(
        lib::object::write(ObjFormat::IntelWord, &regs(), 0x10, 0, true),
        lib::object::write(ObjFormat::IntelWord, &regs(), 0x10, 0, false)
    );
}

#[test]
fn a_byte_written_to_the_image_reads_back() {
    let mut img = lib::image::Image::new(0xFF);
    assert_eq!(img.read(0x1234), 0xFF);
    assert!(img.write(0x1234, 0x5A));
    assert_eq!(img.read(0x1234), 0x5A);
    assert_eq!(img.read(0x1235), 0xFF);
    assert!(!img.write(0x1_0010, 7));
    assert_eq!(img.read(0x0010), 7);
    assert_eq!(img.read(0x1_0010), 0);
    img.flush();
    let regions: Vec<(u32, Vec<u8>)> = img.regions.into_iter().map(|r| (r.start, r.bytes)).collect();
    assert_eq!(regions, vec![(0x1234, vec![0x5A]), (0x1_0010, vec![7])]);
}
