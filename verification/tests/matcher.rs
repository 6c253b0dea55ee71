use lib::matcher::find;
use lib::rules::Rule;
use lib::table::Table;
use lib::table2::display;

const HEAD: &str = "%format 2\n%columns mnemonic operands opcode op-bytes arg-bytes rule\n";

/// Rows of the 8051 table that the cases below reach, in table order.
fn t8051() -> Table {
    let rows = "\
ADD A,#<expr> 24 1 1 plain
ADD A,<expr> 25 1 1 plain
ADD A,R0 28 1 0 plain
ANL C,/<expr> B0 1 1 plain
CJNE A,#<expr>,<expr> B4 1 2 combine-rel
MOV A,#<expr> 74 1 1 plain
NOP - 00 1 0 plain
";
    Table::load(format!("{}{}", HEAD, rows).as_bytes(), b"8051").ok().unwrap()
}

fn strs(v: &[Vec<u8>]) -> Vec<String> {
    v.iter().map(|s| String::from_utf8(s.clone()).unwrap()).collect()
}

#[test]
fn worked_example_from_6_6() {
    let t = t8051();
    let m = find(&t, b"CJNE", b"A,#25h,loop", 1).expect("CJNE must match");
    let row = &t.rows[m.row];
    assert_eq!(display(&row.args), b"A,#<expr>,<expr>".to_vec());
    assert_eq!((m.opcode, row.opcode_bytes, row.arg_bytes), (0xB4, 1, 2));
    assert_eq!(row.rule, Rule::CR);
    assert_eq!(strs(&m.args), vec!["25h".to_string(), "loop".to_string()]);
}

#[test]
fn row_order_decides_which_form_wins() {
    let t = t8051();
    let m = find(&t, b"ADD", b"A,#5", 1).unwrap();
    assert_eq!(display(&t.rows[m.row].args), b"A,#<expr>".to_vec());
    assert_eq!(strs(&m.args), vec!["5".to_string()]);
    let m = find(&t, b"ADD", b"A,25h", 1).unwrap();
    assert_eq!(display(&t.rows[m.row].args), b"A,<expr>".to_vec());
}

#[test]
fn empty_operand_pattern_requires_empty_operands() {
    let t = t8051();
    assert!(find(&t, b"NOP", b"", 1).is_some());
    assert!(find(&t, b"NOP", b"A", 1).is_none());
    let z80 = "\
IM 0 46ED 2 0 plain
IM 1 56ED 2 0 plain
IM 2 5EED 2 0 plain
IM0 - 46ED 2 0 plain
IM1 - 56ED 2 0 plain
IM2 - 5EED 2 0 plain
";
    let t = Table::load(format!("{}{}", HEAD, z80).as_bytes(), b"z80").ok().unwrap();
    for (m, op) in [("IM0", 0x46EDu32), ("IM1", 0x56ED), ("IM2", 0x5EED)] {
        assert_eq!(find(&t, m.as_bytes(), b"", 1).unwrap().opcode, op);
    }
    for (a, op) in [("0", 0x46EDu32), ("1", 0x56ED), ("2", 0x5EED)] {
        assert_eq!(find(&t, b"IM", a.as_bytes(), 1).unwrap().opcode, op);
    }
}

#[test]
fn matching_is_case_insensitive_but_capture_is_not() {
    let t = t8051();
    let m = find(&t, b"mov", b"A,#MixedCase", 1).unwrap();
    assert_eq!(strs(&m.args), vec!["MixedCase".to_string()]);
}

#[test]
fn whitespace_in_operands_is_removed_before_matching() {
    let t = t8051();
    assert!(find(&t, b"CJNE", b"A , # 25h , loop", 1).is_some());
}

#[test]
fn class_mask_gates_rows() {
    let rows = "%class 2 i8021\nEN I 05 1 0 plain\nEN DMA E5 1 0 plain class=2\n";
    let t = Table::load(format!("{}{}", HEAD, rows).as_bytes(), b"8048").ok().unwrap();
    assert!(find(&t, b"EN", b"DMA", 1).is_none(), "class 2 needs -x2");
    assert!(find(&t, b"EN", b"DMA", 2).is_some());
}

#[test]
fn register_sets_match_by_prefix_in_declaration_order() {
    let text = "%format 2\n%regset \"*BR0+\" mask=F0\n%regset \"*0+\" mask=A0\n%regset \"*\" mask=80\n\
%columns mnemonic operands opcode op-bytes arg-bytes rule\nADD <reg>,<expr> 0080 2 0 plain\n";
    let t = Table::load(text.as_bytes(), b"tms320c25").ok().unwrap();
    let m = find(&t, b"ADD", b"*BR0+,4", 1);
    assert!(m.is_some(), "*BR0+ must match its own regset");
    let m = m.unwrap();
    assert_eq!(m.opcode & 0xF0, 0xF0);
}

#[test]
fn a_slash_in_the_pattern_is_a_literal() {
    let t = t8051();
    let m = find(&t, b"ANL", b"C,/40h", 1).expect("ANL C,/expr must match");
    assert_eq!(t.rows[m.row].opcode, 0xb0);
    assert_eq!(strs(&m.args), vec!["40h".to_string()]);
}

#[test]
fn an_unknown_mnemonic_matches_nothing() {
    let t = t8051();
    assert!(find(&t, b"FROBNICATE", b"a,r0", 1).is_none());
    assert!(find(&t, b"WIBBLE", b"", 1).is_none());
}

#[test]
fn a_quoted_space_is_kept_and_legacy_tables_match_too() {
    let t = t8051();
    let m = find(&t, b"MOV", b"A,#' '", 1).unwrap();
    assert_eq!(strs(&m.args), vec!["' '".to_string()]);
    let v1 = Table::load(b"\"TASM 8051 Assembler.    \"\nADD  A,#*  24 2 NOP 1\nNOP  \"\"  00 1 NOP 1\n", b"51").ok().unwrap();
    let m = find(&v1, b"add", b"a,#3", 1).unwrap();
    assert_eq!((m.row, m.opcode), (0, 0x24));
    assert!(find(&v1, b"NOP", b"", 1).is_some());
}

#[test]
fn the_longest_register_set_name_wins_whatever_the_declaration_order() {
    let text = "%format 2\n%regset \"*\" mask=80\n%regset \"*BR0+\" mask=F0\n\
%columns mnemonic operands opcode op-bytes arg-bytes rule\nADD <reg> 00 1 0 plain\n";
    let t = Table::load(text.as_bytes(), b"x").ok().unwrap();
    let m = find(&t, b"ADD", b"*BR0+", 1).expect("*BR0+ names its own register set");
    assert_eq!(m.row, 0);
    assert_eq!(m.opcode, 0xF0);
    assert!(m.args.is_empty());
}
