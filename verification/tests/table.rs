use lib::rules::Rule;
use lib::table::{parse_row, Table};

/// A legacy table in the shape of the shipped 8051 one: its banner, the
/// `.NOARGSHIFT` directive, and the rows the cases below look at.
const T51: &str = "\"TASM 8051 Assembler.    \"\n\
.NOARGSHIFT\n\
ACALL *  11 2 JMP 1 0 F800\n\
LCALL *  12 3 SWAP 1\n\
ANL  C,/*  b0 2 NOP 1\n\
; not a row\n\
nop lower case is skipped\n";

fn load(text: &str, sel: &str) -> Table {
    match Table::load(text.as_bytes(), sel.as_bytes()) {
        Ok(t) => t,
        Err(_) => panic!("could not load the {} table", sel),
    }
}

#[test]
fn table_directives_match_the_shipped_tables() {
    let t51 = load(T51, "51");
    assert!(t51.noargshift);
    assert!(!t51.msfirst);
    let t68 = load("\"TASM 6800-6811 Assembler\"\n.MSFIRST\nNOP \"\" 01 1 NOP 1\n", "68");
    assert!(t68.msfirst);
    let c25 = "\"TASM TMS320C25 Assembler.\"\n.MSFIRST\n.WORDADDRS\n.NOARGSHIFT\n.ALTWILD\n\
.REGSET *BR0+ F0 1\n.REGSET *BR0- C0 1\n.REGSET *0+ A0 1\n.REGSET *0- 90 1\n.REGSET *+ A0 1\n.REGSET *- 90 1\n.REGSET * 80 1\n";
    for sel in ["3210", "3225"] {
        let t = load(c25, sel);
        assert!(t.msfirst && t.wordaddrs && t.noargshift, "tasm{}", sel);
        assert_eq!(t.wildcard, b'@', "bare .ALTWILD means '@'");
    }
    assert_eq!(load(".ALTWILD+\n", "70").wildcard, b'+', ".ALTWILD+ in tasm70.tab");
    let t = load(c25, "3225");
    assert_eq!(t.regsets.len(), 7);
    assert_eq!(t.regsets[0].name, b"*BR0+".to_vec());
    assert_eq!(t.regsets[6].name, b"*".to_vec());
    assert_eq!((t.aux_registers, load(c25, "3210").aux_registers), (8, 2));
}

#[test]
fn banners_keep_their_padding() {
    assert_eq!(load(T51, "51").banner, b"TASM 8051 Assembler.    ".to_vec());
    assert_eq!(load("\"TASM 8096 Assembler.\"\n", "96").banner, b"TASM 8096 Assembler.".to_vec());
    assert_eq!(load("\"TASM 6800-6811 Assembler\" trailing\n", "68").banner, b"TASM 6800-6811 Assembler".to_vec());
}

#[test]
fn opcode_and_argument_byte_counts_are_derived() {
    let t = load(T51, "51");
    let find = |m: &[u8], a: &[u8]| t.rows.iter().position(|r| r.mnemonic == m && r.args == a).unwrap();
    let acall = &t.rows[find(b"ACALL", b"*")];
    assert_eq!((acall.opcode, acall.opcode_bytes, acall.arg_bytes), (0x11, 1, 1));
    assert_eq!(acall.rule, Rule::JM);
    assert_eq!((acall.shift, acall.or), (0, 0xF800));
    let lcall = &t.rows[find(b"LCALL", b"*")];
    assert_eq!((lcall.opcode_bytes, lcall.arg_bytes, lcall.rule), (1, 2, Rule::SW));
    assert_eq!((lcall.shift, lcall.or), (0, 0));
}

#[test]
fn trailing_commentary_is_not_read_as_shift_or_or() {
    let t = load("\"x\"\nEN   DMA    E5 1 NOP 2  ;8041\n", "48");
    let en = t.rows.iter().find(|r| r.mnemonic == b"EN" && r.args == b"DMA").unwrap();
    assert_eq!((en.class, en.shift, en.or), (2, 0, 0));
    let t = load("\"x\"\n.NOARGSHIFT\nADDK @  CC00 2 T1 1 0 00FF   ;8 bit constant\n", "3225");
    let addk = t.rows.iter().find(|r| r.mnemonic == b"ADDK").unwrap();
    assert_eq!((addk.shift, addk.or), (0, 0x00FF));
}

#[test]
fn slash_star_in_an_args_field_is_not_a_comment() {
    let t = load(T51, "51");
    let anl = t.rows.iter().find(|r| r.mnemonic == b"ANL" && r.args == b"C,/*");
    assert!(anl.is_some(), "ANL C,/* must survive the loader");
    assert_eq!(anl.unwrap().opcode, 0xb0);
}

#[test]
fn the_z80_im_alias_rows_are_present_and_repaired() {
    let t = load("\"x\"\nIM0 \"\" 46ED 2 NOP 1\nIM1 \"\" 56ED 2 NOP 1\nIM2 \"\" 5EED 2 NOP 1\n", "80");
    for (m, op) in [("IM0", 0x46EDu32), ("IM1", 0x56ED), ("IM2", 0x5EED)] {
        let r = t.rows.iter().find(|r| r.mnemonic == m.as_bytes()).expect(m);
        assert_eq!(r.args, b"\"\"".to_vec(), "{} must take no operands", m);
        assert_eq!((r.opcode, r.opcode_bytes, r.rule), (op, 2, Rule::NO));
    }
}

#[test]
fn a_byte_count_under_the_opcode_size_is_flagged_not_wrapped() {
    let r = parse_row(b"FOO *,* 12 FF ZW 1").unwrap();
    assert!(r.short_count);
    assert_eq!(r.arg_bytes, 0);
}

#[test]
fn malformed_rows_are_skipped_rather_than_crashing() {
    assert!(parse_row(b"NOP").is_none());
    assert!(parse_row(b"").is_none());
    let long = format!("NOP \"\" {} 1 NOP 1", "A".repeat(200));
    let r = parse_row(long.as_bytes()).unwrap();
    assert!(r.opcode_bytes <= 4, "a 200-digit opcode must be bounded");
}

#[test]
fn the_post_rule_step_follows_the_table_switch() {
    let t = load("\"x\"\nLD A,* 3E 2 NOP 1 8 4\r\n", "80");
    assert_eq!((t.rows[0].post_shift, t.rows[0].post_or), (8, 4));
    let t = load("\"x\"\n.noargshift\nLD A,* 3E 2 NOP 1 8 4\n", "80");
    assert_eq!((t.rows[0].post_shift, t.rows[0].post_or), (0, 0));
    assert!(lib::table::is_v2(b"; comment\n\n  %format 2\n"));
    assert!(!lib::table::is_v2(b"\"banner\"\n%format 2\n"));
    assert_eq!(Rule::from_str(b"combrel"), Rule::CO);
    assert_eq!(Rule::from_str(b"n"), Rule::key(b'N', b' '));
}

#[test]
fn the_first_line_with_content_decides_the_format() {
    assert!(lib::table::is_v2(b"; a v2 table\n%format 2\n"));
    assert!(!lib::table::is_v2(b"\"v1 banner\"\nNOP \"\" 00 1 NOP 1\n"));
    assert!(!lib::table::is_v2(b""));
    assert!(!lib::table::is_v2(b"  \n; only comments\n"));
    assert!(lib::table::is_v2(b"\r\n   %format 2\r\n"));
}
