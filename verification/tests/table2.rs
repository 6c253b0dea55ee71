use lib::table::LoadError;
use lib::table2::{display, parse};
use lib::rules::Rule;

const HEAD: &str = "%format 2\n%columns mnemonic operands opcode op-bytes arg-bytes rule\n";

fn fails(body: &str) -> String {
    match parse(format!("{}{}", HEAD, body).as_bytes(), b"51") {
        Err(LoadError::Syntax(line, what)) => format!("{}: {}", line, String::from_utf8_lossy(&what)),
        Err(_) => "other".to_string(),
        Ok(_) => panic!("expected a diagnostic for {:?}", body),
    }
}

fn ok(body: &str) -> lib::table::Row {
    parse(format!("{}{}", HEAD, body).as_bytes(), b"51").ok().unwrap().rows.remove(0)
}

#[test]
fn a_missing_column_is_an_error_naming_the_line() {
    assert!(fails("IM0 46ED 2 plain\n").contains("expected 6 columns"), "{}", fails("IM0 46ED 2 plain\n"));
    assert!(fails("NOP - 00 1 0 plain junk\n").contains("extra field junk"));
}

#[test]
fn op_bytes_must_agree_with_the_opcode_width() {
    assert!(fails("NOP - 0 1 0 plain\n").contains("disagrees"));
    assert!(fails("NOP - 46ED 1 0 plain\n").contains("disagrees"));
    assert_eq!(ok("NOP - 46ED 2 0 plain\n").opcode_bytes, 2);
}

#[test]
fn an_unknown_rule_name_is_an_error() {
    assert!(fails("NOP - 00 1 0 combrel\n").contains("unknown rule combrel"));
    assert!(fails("NOP - 00 1 0 NOTOUCH\n").contains("unknown rule"));
    assert_eq!(ok("NOP - 00 1 0 plain\n").rule, Rule::NO);
}

#[test]
fn a_parameter_the_rule_does_not_read_is_an_error() {
    assert!(fails("NOP - 00 1 0 plain page-mask=F800\n").contains("has no parameter"));
    assert!(fails("ACALL <expr> 11 1 1 jmp-page-2k valid-mask=7F\n").contains("has no parameter"));
    assert_eq!(ok("ACALL <expr> 11 1 1 jmp-page-2k page-mask=F800\n").or, 0xF800);
    let r = ok("BIT <expr>,(HL) 46CB 2 0 bit-z80 post-or=4600\n");
    assert_eq!((r.post_or, r.or), (0x4600, 0));
}

#[test]
fn a_non_final_capture_needs_a_delimiter() {
    assert!(fails("FOO <expr><expr> 00 1 0 plain\n").contains("must be followed by"));
    assert!(parse(format!("{}FOO <expr>,<expr> 00 1 0 plain\n", HEAD).as_bytes(), b"51").is_ok());
    assert!(parse(format!("{}FOO A,#<expr>,<expr> 00 1 0 plain\n", HEAD).as_bytes(), b"51").is_ok());
}

#[test]
fn an_unreachable_row_is_an_error() {
    let e = fails("ADD A,<expr> 25 1 1 plain\nADD A,<expr> 26 1 1 plain\n");
    assert!(e.contains("unreachable row"), "{}", e);
    assert!(parse(
        format!("{}%class 2 ext\nADD A,<expr> 25 1 1 plain\nADD A,<expr> 26 1 1 plain class=2\n", HEAD).as_bytes(),
        b"51"
    )
    .is_ok());
}

#[test]
fn the_header_is_validated() {
    assert!(parse(b"%format 3\n", b"51").is_err());
    assert!(parse(b"NOP - 00 1 0 plain\n", b"51").is_err(), "a row before %format");
    assert!(parse(b"%format 2\nNOP - 00 1 0 plain\n", b"51").is_err(), "a row before %columns");
    assert!(parse(b"%format 2\n%wildcard @\n", b"51").is_err(), "no %wildcard in v2");
    assert!(parse(b"%format 2\n%aux-registers 3\n", b"51").is_err(), "not a power of two");
}

#[test]
fn comments_do_not_eat_the_immediate_prefix() {
    let r = ok("ADD A,#<expr> 24 1 1 plain   ; immediate\n");
    assert_eq!(display(&r.args), b"A,#<expr>".to_vec());
}

#[test]
fn hostile_tables_are_rejected_rather_than_crashing() {
    for body in [
        &format!("NOP - {} 1 0 plain\n", "A".repeat(200)),
        "NOP - 00 99 0 plain\n",
        "NOP - 00 1 99 plain\n",
        "NOP\n",
        "NOP - 00 1 0 plain shift=FFFFFFFFFF\n",
        &format!("{} - 00 1 0 plain\n", "A".repeat(600)),
        "NOP <bogus> 00 1 0 plain\n",
    ] {
        let _ = parse(format!("{}{}", HEAD, body).as_bytes(), b"51");
    }
    assert!(parse(b"", b"51").is_err());
    assert!(parse(b"; nothing here\n", b"51").is_err());
}

#[test]
fn a_rendered_table_reads_back_the_same() {
    let src = "%format 2\n%banner \"Demo\"\n%opcode-order ms-first\n%address-unit word\n%aux-registers 8\n%regset \"*BR0+\" mask=F0\n%columns mnemonic operands opcode op-bytes arg-bytes rule\nADD <reg>,<expr> 0080 2 0 tms-fold shift=4 valid-mask=7F\nNOP - 00 1 0 plain class=2\n";
    let t = parse(src.as_bytes(), b"c25").ok().unwrap();
    let text = lib::table2::render(&t, None);
    let t2 = parse(&text, b"c25").ok().unwrap();
    assert_eq!(t.banner, t2.banner);
    assert_eq!((t.msfirst, t.wordaddrs, t.aux_registers), (t2.msfirst, t2.wordaddrs, t2.aux_registers));
    assert_eq!(t.rows.len(), t2.rows.len());
    for (a, b) in t.rows.iter().zip(&t2.rows) {
        assert_eq!((&a.mnemonic, &a.args, a.opcode, a.opcode_bytes, a.arg_bytes, a.rule, a.class),
                   (&b.mnemonic, &b.args, b.opcode, b.opcode_bytes, b.arg_bytes, b.rule, b.class));
        assert_eq!((a.shift, a.or, a.post_shift, a.post_or), (b.shift, b.or, b.post_shift, b.post_or));
    }
    assert_eq!(t2.regsets[0].name, b"*BR0+".to_vec());
    assert_eq!(lib::table2::name_for(Rule::CR), "combine-rel");
    assert_eq!(lib::table2::rule_for(b"combine-rel"), Some(Rule::CR));
}

#[test]
fn an_unreachable_row_names_the_line_of_the_repeat() {
    let e = fails("ADD A,<expr> 25 1 1 plain\nADD A,<expr> 26 1 1 plain\n");
    assert!(e.starts_with("4: "), "{}", e);
    assert!(e.contains("unreachable row"), "{}", e);
}

#[test]
fn every_rule_has_a_name_that_reads_back() {
    assert_eq!(lib::table2::name_for(Rule::T2), "tms9900-swap-dst");
    assert_eq!(lib::table2::rule_for(lib::table2::name_for(Rule::T2).as_bytes()), Some(Rule::T2));
}

#[test]
fn the_loader_refuses_a_33rd_register_set_and_a_1201st_row() {
    let rs = format!("%format 2\n{}", "%regset \"R\" mask=1\n".repeat(33));
    assert!(matches!(parse(rs.as_bytes(), b"51"), Err(LoadError::TooManyRegsets)));
    let rows = format!("{}{}", HEAD, "NOP - 00 1 0 plain\n".repeat(1201));
    assert!(matches!(parse(rows.as_bytes(), b"51"), Err(LoadError::TooManyRows)));
    let ok32 = format!("%format 2\n{}", "%regset \"R\" mask=1\n".repeat(32));
    assert!(parse(ok32.as_bytes(), b"51").is_ok());
}

#[test]
fn display_gives_back_the_operands_column_that_was_read() {
    for col in ["A,#<expr>", "<reg>,<expr>", "@R0", "-"] {
        let t = parse(format!("{}ADD {} 25 1 1 plain\n", HEAD, col).as_bytes(), b"51").ok().unwrap();
        assert_eq!(String::from_utf8(display(&t.rows[0].args)).unwrap(), col);
    }
}
