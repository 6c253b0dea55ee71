use lib::errlog::Msg;
use lib::expr::{eval, Outcome};
use lib::limits::UNDEFINED;
use lib::symbols::{Segment, Symbols};

fn run(text: &str, pc: i32, compat: bool, syms: &Symbols) -> Outcome {
    eval(text.as_bytes(), pc, compat, b'_', syms, b"noname")
}
fn v(text: &str) -> i32 {
    run(text, 0, false, &Symbols::new(false)).value
}
fn vc(text: &str) -> i32 {
    run(text, 0, true, &Symbols::new(false)).value
}
fn at(text: &str, pc: i32) -> i32 {
    run(text, pc, false, &Symbols::new(false)).value
}
fn o(text: &str) -> Outcome {
    run(text, 0, false, &Symbols::new(false))
}

#[test]
fn expressions_case_default_mode() {
    assert_eq!(v("1+2*3+4"), 11);
    assert_eq!(v("1+2*(3+4)"), 15);
    assert_eq!(v("2+3*4"), 14);
    assert_eq!(v("10-2-3"), 5);
    assert_eq!(v("$1F"), 31);
    assert_eq!(v("%1010"), 10);
    assert_eq!(v("@17"), 15);
    assert_eq!(v("0FFh"), 255);
    assert_eq!(v("1010b"), 10);
    assert_eq!(v("100d"), 100);
    assert_eq!(v("0107q"), 71);
    assert_eq!(v("'A'"), 65);
    assert_eq!(v("5>3"), 1);
    assert_eq!(v("5<3"), 0);
    assert_eq!(v("5==5"), 1);
    assert_eq!(v("6&3"), 2);
    assert_eq!(v("4|1"), 5);
    assert_eq!(v("6^3"), 5);
    assert_eq!(v("1<<4"), 16);
    assert_eq!(v("32>>2"), 8);
    assert_eq!(v("17%5"), 2);
    assert_eq!(v("~0"), -1);
    assert_eq!(v("!0"), 1);
    assert_eq!(v("-1"), -1);
}

#[test]
fn expressions_case_compatibility_mode() {
    assert_eq!(vc("1+2*3+4"), 13);
    assert_eq!(vc("1+2*(3+4)"), 21);
    assert_eq!(vc("2+3*4"), 20);
    assert_eq!(vc("10-2-3"), 5);
    assert_eq!(vc("-5"), -5);
}

#[test]
fn shifts_bind_looser_than_addition() {
    assert_eq!(v("1<<2+3"), 32);
}

#[test]
fn program_counter_is_the_start_of_the_statement() {
    assert_eq!(at("$", 0x1234), 0x1234);
    assert_eq!(at("*", 0x1234), 0x1234);
    assert_eq!(at("*+2", 0x100), 0x102);
    assert_eq!(at("* 3", 4), 0);
    assert_eq!(at("2*3", 0), 6);
}

#[test]
fn radix_forms_that_are_not_numbers() {
    assert_eq!(v("0x10"), 0);
    let out = o("FFh");
    assert_eq!(out.undefined, vec![b"FFh".to_vec()]);
}

#[test]
fn value_width_is_fixed_at_32_bits() {
    assert_eq!(v("-1") as u32, 0xFFFFFFFF);
    assert_eq!(v("-7") as u32, 0xFFFFFFF9);
    assert_eq!(v("-65536") as u32, 0xFFFF0000);
    assert_eq!(v("~0") as u32, 0xFFFFFFFF);
    assert_eq!(v("1<<31") as u32, 0x80000000);
    assert_eq!(v("32767"), 0x7FFF);
}

#[test]
fn arithmetic_wraps_rather_than_overflowing() {
    assert_eq!(v("2000000000+2000000000") as u32, 4_000_000_000u32);
    assert_eq!(v("100000*100000") as u32, 100_000u32.wrapping_mul(100_000));
    assert_eq!(v("-2147483648"), i32::MIN);
}

#[test]
fn division_and_shift_hazards_are_guarded() {
    let out = o("1/0");
    assert_eq!(out.value, 0);
    assert_eq!(out.diags[0].msg, Msg::DivideByZero);
    let out = o("1%0");
    assert_eq!(out.diags[0].msg, Msg::ModuloByZero);
    assert_eq!(v("(1<<31)/-1"), i32::MIN);
    assert_eq!(v("(1<<31)%-1"), 0);
    assert_eq!(v("1<<32"), 0);
    assert_eq!(v("1>>64"), 0);
    assert_eq!(v("-1>>64"), -1);
    let out = o("1<<-1");
    assert_eq!(out.diags[0].msg, Msg::NegativeShift);
}

#[test]
fn unary_operators_chain_and_are_positional() {
    assert_eq!(v("--5"), 5);
    assert_eq!(v("~-1"), 0);
    assert_eq!(v("1 + +5"), 6);
    assert_eq!(v("5 ~ 3"), 5);
    assert_eq!(vc("5 ~ 3"), !3i32);
}

#[test]
fn undefined_symbols_take_the_sentinel() {
    let out = o("nosuch");
    assert_eq!(out.value, UNDEFINED);
    assert_eq!(out.undefined, vec![b"nosuch".to_vec()]);
    assert_eq!(UNDEFINED & 0xFFFF, 0);
    assert!(UNDEFINED >= 0x10000);
}

#[test]
fn symbols_resolve_through_the_lookup() {
    let mut f = Symbols::new(false);
    f.define(b"lab2", 0x12, Segment::Null, false);
    f.define(b"lab3", 0x1234, Segment::Null, false);
    assert_eq!(run("lab2+1", 0, false, &f).value, 0x13);
    assert_eq!(run("lab3", 0, false, &f).value, 0x1234);
    let mut g = Symbols::new(false);
    g.define(b"a.b", 7, Segment::Null, false);
    assert_eq!(run("a.b", 0, false, &g).value, 7);
}

#[test]
fn a_strict_leading_operator_is_diagnosed() {
    let out = lib::expr::eval_strict(b"*3", 4, false, b'_', 0x08, &Symbols::new(false), b"noname");
    assert!(out.diags.iter().any(|d| d.msg == Msg::NonUnary));
    let out = o("(1+2");
    assert!(out.diags.iter().any(|d| d.msg == Msg::ParenImbalance));
}
