use lib::listing::{continuation, depth_marker, line_nocodes};

fn s(v: Vec<u8>) -> String {
    String::from_utf8(v).unwrap()
}

#[test]
fn lines_match_the_corpus_byte_for_byte() {
    assert_eq!(
        s(lib::listing::line(24, 0, 0x0002, false, &[0x28], b"        ADD  A,R0     ;28    1   NOP 1")),
        "0024   0002 28                  ADD  A,R0     ;28    1   NOP 1"
    );
    let blank = s(lib::listing::line(4, 0, 0, false, &[], b""));
    assert_eq!(blank, "0004   0000             ");
    assert_eq!(blank.len(), 24);
}

#[test]
fn a_five_byte_instruction_wraps_after_four() {
    assert_eq!(
        s(lib::listing::line(339, 0, 0x0200, false, &[0x18, 0x1F, 0x34, 0x12], b"        BRCLR   addr1,Y,bmsk,lab1")),
        "0339   0200 18 1F 34 12         BRCLR   addr1,Y,bmsk,lab1"
    );
    let cont = s(continuation(339, 0, 0x0204, &[0xEB]));
    assert_eq!(cont, "0339   0204 EB ");
    assert_eq!(cont.len(), 15, "a continuation is not padded to 24");
}

#[test]
fn source_case_survives_the_upper_casing_of_the_prefix() {
    assert_eq!(
        s(lib::listing::line(19, 0, 0, false, &[], b"n:          equ 20h")),
        "0019   0000             n:          equ 20h"
    );
}

#[test]
fn skipped_lines_carry_a_tilde_in_column_11() {
    assert_eq!(s(lib::listing::line(33, 0, 2, true, &[], b"#ifdef FOO")), "0033   0002~            #ifdef FOO");
}

#[test]
fn include_depth_saturates_at_three_plus_signs() {
    assert_eq!(s(depth_marker(0)), "   ");
    assert_eq!(s(depth_marker(1)), "   ");
    assert_eq!(s(depth_marker(2)), "+  ");
    assert_eq!(s(depth_marker(3)), "++ ");
    assert_eq!(s(depth_marker(9)), "+++");
}

#[test]
fn the_address_field_shows_sixteen_bits_and_nocodes_shows_source_only() {
    assert_eq!(s(lib::listing::line(1, 2, 0x12345, false, &[0xab, 1, 2, 3, 4], b"x")), "0001+  2345 AB 01 02 03 x");
    assert_eq!(s(line_nocodes(b"  .nocodes")), "  .nocodes");
}
