use lib::cli::Options;

fn opts(args: &[&str]) -> Options {
    let v: Vec<Vec<u8>> = args.iter().map(|s| s.as_bytes().to_vec()).collect();
    Options::parse(&v, None).opts
}

fn table(o: &Options) -> Option<String> {
    o.table.as_ref().map(|t| String::from_utf8(t.clone()).unwrap())
}

fn strs(v: &[Vec<u8>]) -> Vec<String> {
    v.iter().map(|s| String::from_utf8(s.clone()).unwrap()).collect()
}

#[test]
fn cpu_selects_the_table_and_accepts_alphanumeric_names() {
    assert_eq!(table(&opts(&["--cpu=z80"])).as_deref(), Some("z80"));
    assert_eq!(table(&opts(&["--cpu=tms320c25"])).as_deref(), Some("tms320c25"));
    assert_eq!(table(&opts(&["--cpu=8051"])).as_deref(), Some("8051"));
    assert_eq!(table(&opts(&["-51"])).as_deref(), Some("51"));
    assert_eq!(table(&opts(&["-tz80"])).as_deref(), Some("z80"));
}

#[test]
fn candidate_table_paths_are_tried_current_format_first() {
    let o = opts(&["--cpu=z80"]);
    assert_eq!(strs(&o.table_paths(None)), ["z80.tab2", "tasmz80.tab"]);
    assert_eq!(strs(&o.table_paths(Some(b"/t"))), ["/t/z80.tab2", "/t/tasmz80.tab"]);
    assert!(opts(&[]).table_paths(Some(b"/t")).is_empty());
}

#[test]
fn the_identity_options_are_values_not_modes() {
    assert_eq!(opts(&[]).message_prefix, b"tabasm".to_vec());
    assert_eq!(opts(&[]).page_title, b"tabasm".to_vec());
    let o = opts(&["--message-prefix=tasm", "--page-title=Some Vendor."]);
    assert_eq!(o.message_prefix, b"tasm".to_vec());
    assert_eq!(o.page_title, b"Some Vendor.".to_vec());
}

#[test]
fn a_long_option_takes_its_value_either_spelled_way() {
    for a in [vec!["--cpu", "z80"], vec!["--cpu=z80"]] {
        assert_eq!(table(&opts(&a)).as_deref(), Some("z80"), "{:?}", a);
    }
    let o = opts(&["--message-prefix", "tasm", "--page-title", "Some Vendor."]);
    assert_eq!(o.message_prefix, b"tasm".to_vec());
    assert_eq!(o.page_title, b"Some Vendor.".to_vec());
    let o = opts(&[
        "--compatibility",
        "--bug-compatibility",
        "--message-prefix",
        "tasm",
        "--cpu",
        "8051",
        "x.asm",
    ]);
    assert!(o.compatibility && o.bug_compatibility);
    assert_eq!(o.message_prefix, b"tasm".to_vec());
    assert_eq!(table(&o).as_deref(), Some("8051"));
    assert_eq!(strs(&o.files), ["x.asm"]);
}

#[test]
fn a_separated_value_is_consumed_and_never_read_as_a_file_name() {
    let o = opts(&["--cpu", "z80", "x.asm"]);
    assert_eq!(strs(&o.files), ["x.asm"]);
    assert_eq!(opts(&["--page-title", "-x"]).page_title, b"-x".to_vec());
    let p = Options::parse(&vec![b"--cpu".to_vec()], None);
    assert!(strs(&p.warnings).iter().any(|w| w.contains("needs a value")));
    assert_eq!(p.opts.table, None);
}

#[test]
fn the_two_compatibility_switches_are_independent() {
    let o = opts(&["--compatibility"]);
    assert!(o.compatibility && !o.bug_compatibility);
    let o = opts(&["--bug-compatibility"]);
    assert!(!o.compatibility && o.bug_compatibility);
}

#[test]
fn the_command_line_wins_over_the_environment() {
    let v: Vec<Vec<u8>> = vec![b"-g2".to_vec(), b"a.asm".to_vec()];
    let p = Options::parse(&v, Some(b"  -g1   -q "));
    assert_eq!(p.opts.format, lib::cli::ObjFormat::SRecord);
    assert!(p.opts.quiet);
    assert_eq!(strs(&p.opts.files), ["a.asm"]);
}

#[test]
fn short_options_read_hex_and_decimal_arguments() {
    let o = opts(&["-o32", "-p60", "-a", "-x2", "-fEA", "-lL", "-c", "-dFOO"]);
    assert_eq!(o.bytes_per_record, 0x32);
    assert_eq!(o.page_lines, Some(60));
    assert_eq!(o.strict, 0xFF);
    assert_eq!(o.class_mask, 2);
    assert_eq!(o.fill, Some(0xEA));
    assert_eq!(o.labels, lib::cli::LabelTable::Long);
    assert!(o.block);
    assert_eq!(strs(&o.defines), ["FOO"]);
    assert_eq!(opts(&["-x"]).class_mask, 0xFF);
    assert_eq!(opts(&["-a0C"]).strict, 0x0C);
}

#[test]
fn unknown_options_and_extra_files_are_warned_about() {
    let v: Vec<Vec<u8>> = ["-Y", "-g9", "--nope", "-w", "a", "b", "c", "d", "e", "f"]
        .iter().map(|s| s.as_bytes().to_vec()).collect();
    let p = Options::parse(&v, None);
    let w = strs(&p.warnings);
    assert_eq!(w[0], "unrecognized option: -Y");
    assert_eq!(w[1], "unrecognized object format: -g9");
    assert_eq!(w[2], "unrecognized option: --nope");
    assert_eq!(w[3], "unrecognized option: -w");
    assert_eq!(w[4], "too many file names (max 5): f");
    assert_eq!(p.opts.files.len(), 5);
}

#[test]
fn output_names_default_from_the_base_name() {
    let o = opts(&["dir/prog.v1.asm"]);
    let (base, warn) = o.base_name();
    assert_eq!(base, b"dir/prog".to_vec());
    assert!(warn.is_none());
    assert_eq!(o.out_name(1, b".obj", &base), b"dir/prog.obj".to_vec());
    let o = opts(&["x.asm", "y.hex"]);
    assert_eq!(o.out_name(1, b".obj", b"x"), b"y.hex".to_vec());
    let long = "a".repeat(100);
    let o = opts(&[&long]);
    let (base, warn) = o.base_name();
    assert_eq!(base.len(), 79);
    assert!(String::from_utf8(warn.unwrap()).unwrap().starts_with("base file name longer than 79 characters"));
}
