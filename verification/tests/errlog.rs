use lib::errlog::{Format, Msg};

fn s(v: Vec<u8>) -> String {
    String::from_utf8(v).unwrap()
}

#[test]
fn default_layout_matches_the_corpus() {
    let f = Format::default_layout();
    assert_eq!(
        s(f.render(b"err-undef.asm", 4, Msg::LabelNotFound.text().as_bytes(), Some(b"no_such_label"))),
        "err-undef.asm line 0004: Label not found: (no_such_label)"
    );
    assert_eq!(
        s(f.render(b"err-range.asm", 5, Msg::RangeBranch.text().as_bytes(), None)),
        "err-range.asm line 0005: Range of relative branch exceeded. "
    );
    assert_eq!(
        s(f.render(b"err-baddir.asm", 4, Msg::BadDirective.text().as_bytes(), Some(b".NOTADIRECTIVE"))),
        "err-baddir.asm line 0004: unrecognized directive.            (.NOTADIRECTIVE)"
    );
    assert_eq!(
        s(f.render(b"err-badinst.asm", 4, Msg::BadInstruction.text().as_bytes(), Some(b"FROBNICATE"))),
        "err-badinst.asm line 0004: unrecognized instruction.          (FROBNICATE)"
    );
    assert_eq!(
        s(f.render(b"zp-phase.asm", 23, Msg::Misaligned.text().as_bytes(), Some(b"after"))),
        "zp-phase.asm line 0023: label value misalligned.           (after)"
    );
}

#[test]
fn accepted_custom_formats_match_the_corpus() {
    for (spec, want) in [
        ("%s(%d): %s %s", "err-undef.asm(4): Label not found: (no_such_label)"),
        ("%s", "err-undef.asm"),
        ("%-20s %04d %s%s", "err-undef.asm        0004 Label not found:(no_such_label)"),
    ] {
        let (f, warn) = Format::from_env(Some(spec.as_bytes()));
        assert!(warn.is_none(), "{} should be accepted", spec);
        assert_eq!(
            s(f.render(b"err-undef.asm", 4, Msg::LabelNotFound.text().as_bytes(), Some(b"no_such_label"))),
            want,
            "format {}",
            spec
        );
    }
}

#[test]
fn mismatched_formats_are_rejected_and_fall_back() {
    for spec in ["%s %s %s %s", "%s %n", "%d %d %d %d", "%*s"] {
        let (f, warn) = Format::from_env(Some(spec.as_bytes()));
        assert!(warn.is_some(), "{} must be rejected", spec);
        assert_eq!(
            s(f.render(b"err-undef.asm", 4, Msg::LabelNotFound.text().as_bytes(), Some(b"no_such_label"))),
            "err-undef.asm line 0004: Label not found: (no_such_label)"
        );
    }
}

#[test]
fn a_huge_field_width_is_honoured_and_truncated_not_rejected() {
    let (f, warn) = Format::from_env(Some(b"%99999999s"));
    assert!(warn.is_none(), "a large width is conforming");
    let out = f.render(b"err-undef.asm", 4, Msg::LabelNotFound.text().as_bytes(), Some(b"no_such_label"));
    assert_eq!(out.len(), 510);
    assert!(out.iter().all(|c| *c == b' '), "the name never reaches the buffer");
}

#[test]
fn the_rejection_warning_matches_the_golden_err_files() {
    let (_, warn) = Format::from_env(Some(b"%s %n"));
    assert_eq!(
        format!("tasm: {}", warn.unwrap()),
        "tasm: ignoring TASMERRFORMAT: unsupported conversion (expected %s, %d, %s, %s in that order)"
    );
}

#[test]
fn zero_padded_and_precision_conversions() {
    let (f, warn) = Format::from_env(Some(b"%.3s|%5d|%-4s|%%"));
    assert!(warn.is_none());
    assert_eq!(s(f.render(b"abcdef", 42, b"m", None)), "abc|   42|m   |%");
    assert!(Format::from_env(Some(b"%s %d %d")).1.is_some());
    let (f, _) = Format::from_env(Some(b"%s:%0999d"));
    let out = f.render(b"f", 7, b"m", None);
    assert_eq!(out.len(), 510);
    assert_eq!(&out[..3], b"f:0");
    assert!(Format::from_env(None).1.is_none());
}

#[test]
fn plain_text_in_a_custom_layout_is_cut_at_the_line_limit() {
    let spec = format!("{}%s", "x".repeat(600));
    let (f, w) = Format::from_env(Some(spec.as_bytes()));
    assert!(w.is_none());
    let out = f.render(b"a.asm", 1, b"msg", None);
    assert_eq!(out.len(), 510);
    assert_eq!(out, "x".repeat(510).into_bytes());
    let spec = format!("{}%%", "y".repeat(509));
    let (f, _) = Format::from_env(Some(spec.as_bytes()));
    assert_eq!(f.render(b"a.asm", 1, b"msg", None), format!("{}%", "y".repeat(509)).into_bytes());
}
