use lib::errlog::Msg;
use lib::limits::LINE_SIZE;
use lib::macros::Macros;

fn m() -> Macros {
    Macros::new()
}

fn s(v: Vec<u8>) -> String {
    String::from_utf8(v).unwrap()
}

#[test]
fn simple_substitution_as_the_shipped_headers_use_it() {
    let mut ms = m();
    ms.define(b"equ .equ");
    ms.define(b"end .end");
    let (t, e) = ms.expand(b"n:          equ 20h", b';');
    assert_eq!(s(t), "n:          .equ 20h");
    assert!(e.is_empty());
}

#[test]
fn a_leading_hash_suppresses_expansion_for_the_line() {
    let mut ms = m();
    ms.define(b"FOO 1");
    assert_eq!(s(ms.expand(b"#undef FOO", b';').0), "#undef FOO");
    assert_eq!(s(ms.expand(b"#ifdef FOO", b';').0), "#ifdef FOO");
    assert_eq!(s(ms.expand(b".undef FOO", b';').0), ".undef 1");
}

#[test]
fn whole_identifiers_only_and_not_inside_quotes() {
    let mut ms = m();
    ms.define(b"FOO 1");
    assert_eq!(s(ms.expand(b"        .byte FOOBAR", b';').0), "        .byte FOOBAR");
    assert_eq!(s(ms.expand(b"        .text \"FOO\"", b';').0), "        .text \"FOO\"");
    assert_eq!(s(ms.expand(b"        .byte FOO", b';').0), "        .byte 1");
}

#[test]
fn nested_macros_expand_until_nothing_changes() {
    let mut ms = m();
    ms.define(b"A B");
    ms.define(b"B C");
    ms.define(b"C 42");
    assert_eq!(s(ms.expand(b"        .byte A", b';').0), "        .byte 42");
}

#[test]
fn cyclic_macros_are_stopped_by_the_pass_cap() {
    let mut ms = m();
    ms.define(b"A A");
    let (_, e) = ms.expand(b"        A", b';');
    assert!(e.contains(&Msg::MacroTooDeep));

    let mut ms = m();
    ms.define(b"A B");
    ms.define(b"B A");
    let (_, e) = ms.expand(b"        A", b';');
    assert!(e.contains(&Msg::MacroTooDeep));

    let mut ms = m();
    ms.define(b"F(a) F(a)");
    let (_, e) = ms.expand(b"        F(9)", b';');
    assert!(e.contains(&Msg::MacroTooDeep));
}

#[test]
fn runaway_length_is_capped_independently() {
    let mut ms = m();
    ms.define(format!("BIG {}", "A".repeat(400)).as_bytes());
    ms.defcont("B".repeat(400).as_bytes());
    let (t, _) = ms.expand(b"        .byte BIG", b';');
    assert!(t.len() < LINE_SIZE);
}

#[test]
fn undef_removes_and_is_silent_on_an_unknown_name() {
    let mut ms = m();
    ms.define(b"FOO 1");
    ms.define(b"BAR 2");
    ms.undef(b"FOO");
    assert!(!ms.defined(b"FOO"));
    assert!(ms.defined(b"BAR"), "removal must not disturb neighbours");
    ms.undef(b"NEVER_DEFINED");
}

#[test]
fn defcont_without_a_define_is_an_error() {
    let mut ms = m();
    assert_eq!(ms.defcont(b"x"), Some(Msg::DefcontNoDefine));
}

#[test]
fn hostile_definitions_do_not_panic() {
    let mut ms = m();
    ms.define(b"");
    ms.define(b"M ?!");
    ms.define(b"M2 ?");
    let _ = ms.expand(b"        .byte M", b';');
    let _ = ms.expand(b"        .byte M2", b';');
}

#[test]
fn parameters_are_substituted_by_name_and_by_position() {
    let mut ms = m();
    ms.define(b"ADDX(a, b) a+b+?1");
    let (t, e) = ms.expand(b"  .byte ADDX(1,(2,3))", b';');
    assert_eq!(s(t), "  .byte 1+(2,3)+(2,3)");
    assert!(e.is_empty());
    let (_, e) = ms.expand(b"  .byte ADDX", b';');
    assert!(e.contains(&Msg::MacroExpectsArgs));
    let (t, _) = ms.expand(b"; ADDX", b';');
    assert_eq!(s(t), "; ADDX");
}

#[test]
fn defcont_extends_the_most_recently_defined_macro() {
    let mut ms = m();
    ms.define(b"A 1");
    ms.define(b"B 2");
    ms.define(b"A 3");
    assert_eq!(ms.defcont(b"x"), None);
    let body = |n: &[u8]| ms.list.iter().find(|d| d.name == n).map(|d| s(d.body.clone()));
    assert_eq!(body(b"A"), Some("3x".to_string()));
    assert_eq!(body(b"B"), Some("2".to_string()));
}

#[test]
fn redefining_a_macro_keeps_one_entry_per_name() {
    let mut ms = m();
    ms.define(b"A 1");
    ms.define(b"B 2");
    ms.define(b"A 3");
    assert_eq!(ms.list.len(), 2);
    let (t, _) = ms.expand(b" .byte A,B", b';');
    assert_eq!(s(t), " .byte 3,2");
}

#[test]
fn bytes_outside_words_are_copied_as_they_are() {
    let mut ms = m();
    ms.define(b"X 1");
    let line: &[u8] = b" .text \"caf\xc3\xa9\" ; \xc3\xa9t\xc3\xa9";
    let (t, e) = ms.expand(line, b';');
    assert_eq!(t, line.to_vec());
    assert!(e.is_empty());
    let (t, _) = ms.expand(b" .byte X ; \xc3\xa9", b';');
    assert_eq!(t, b" .byte 1 ; \xc3\xa9".to_vec());
}
