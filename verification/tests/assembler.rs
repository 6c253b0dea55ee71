use lib::assembler::{lexical_order, shaker_order, split_args, split_statement, split_statements, strip_comment, text_bytes, matching_outer_parens};
use lib::assembler::{Asm, RunError, Sources};
use lib::cli::Options;
use lib::errlog::Format;
use lib::table::Table;

fn order(names: &[&str]) -> Vec<String> {
    let keys: Vec<u8> = names.iter().map(|s| s.as_bytes()[0]).collect();
    shaker_order(&keys).into_iter().map(|i| names[i].to_string()).collect()
}

fn sorted(names: &[&str]) -> Vec<String> {
    let v: Vec<Vec<u8>> = names.iter().map(|s| s.as_bytes().to_vec()).collect();
    lexical_order(&v).into_iter().map(|i| names[i].to_string()).collect()
}

#[test]
fn the_cocktail_sort_stops_early_as_specified() {
    assert_eq!(order(&["bee", "dee", "ayy", "azz", "ell"]), ["ayy", "bee", "azz", "dee", "ell"]);
    assert_eq!(
        order(&["bit3", "data", "addz", "addr", "loop1"]),
        ["addz", "bit3", "addr", "data", "loop1"]
    );
    assert_eq!(
        order(&["labimm", "lab2", "lab3", "lab5", "labbt_1", "bit", "lab4", "jlab", "jlab5"]),
        ["bit", "jlab", "jlab5", "labimm", "lab2", "lab3", "lab5", "labbt_1", "lab4"]
    );
}

#[test]
fn the_default_ordering_is_a_full_lexical_sort() {
    assert_eq!(sorted(&["bit3", "data", "addz", "addr", "loop1"]), ["addr", "addz", "bit3", "data", "loop1"]);
    assert_eq!(
        sorted(&["labimm", "lab2", "lab3", "lab5", "labbt_1", "bit", "lab4"]),
        ["bit", "lab2", "lab3", "lab4", "lab5", "labbt_1", "labimm"]
    );
}

#[test]
fn statements_split_at_backslashes_and_comments_outside_quotes() {
    let st = split_statements(b" nop \\ .byte '\\\\' \\ x");
    assert_eq!(st.len(), 3);
    assert_eq!(strip_comment(b"  .text \"a;b\" ; c", b';'), b"  .text \"a;b\" ".to_vec());
    assert_eq!(strip_comment(b"* comment", b'*'), Vec::<u8>::new());
    let (l, m, o) = split_statement(b"LABEL=5", b';', b'_');
    assert_eq!((l.unwrap(), m, o), (b"LABEL=".to_vec(), b"5".to_vec(), Vec::new()));
    let (l, m, o) = split_statement(b"loop: djnz r0 , loop ", b';', b'_');
    assert_eq!((l.unwrap(), m, o), (b"loop".to_vec(), b"djnz".to_vec(), b"r0 , loop".to_vec()));
    let (l, m, _) = split_statement(b"  .org 100h", b';', b'_');
    assert!(l.is_none());
    assert_eq!(m, b".org".to_vec());
    assert_eq!(split_args(b"1, \"a,b\", 3").len(), 3);
    assert_eq!(text_bytes(b"\"A\\n\\101\\\\\""), (b"A\nA\\".to_vec(), true));
    assert_eq!(text_bytes(b"\"open"), (b"open".to_vec(), false));
    assert!(matching_outer_parens(b"(a+(b))"));
    assert!(!matching_outer_parens(b"(a)+(b)"));
}


/// A few 8051 rows, in the legacy format.
const T51: &str = "\"TASM 8051 Assembler.    \"\n\
NOP  \"\"   00 1 NOP 1\n\
MOV  A,#*  74 2 NOP 1\n\
LJMP *     02 3 SWAP 1\n\
SJMP *     80 2 R1 1\n";

fn assembler(opts: Options) -> Asm {
    let t = match Table::load(T51.as_bytes(), b"51") {
        Ok(t) => t,
        Err(_) => panic!("the test table does not load"),
    };
    Asm::new(opts, t, Format::default_layout())
}

fn run(src: &str) -> Asm {
    let mut a = assembler(Options::default());
    let files = Sources { files: vec![(b"t.asm".to_vec(), Some(src.as_bytes().to_vec()))] };
    match a.run(&files, b"t.asm") {
        Ok(()) => a,
        Err(e) => panic!("the run stopped: {:?}", e),
    }
}

fn image(a: &Asm) -> Vec<(u32, Vec<u8>)> {
    a.regions().into_iter().map(|r| (r.start, r.bytes)).collect()
}

fn text(b: &[u8]) -> String {
    String::from_utf8_lossy(b).into_owned()
}

#[test]
fn a_small_program_assembles_to_the_expected_bytes() {
    let a = run("        .org 100h\nstart:  nop\n        mov a,#12h\n        ljmp start\n        .byte 1,2,\"AB\"\n        .word 1234h\nval     .equ 5\n        .end\n");
    assert_eq!(a.errors, 0, "{}", text(&a.stdout));
    assert_eq!(image(&a), vec![(0x100, vec![0x00, 0x74, 0x12, 0x02, 0x01, 0x00, 0x01, 0x02, 0x41, 0x42, 0x34, 0x12])]);
    assert_eq!(a.syms.value(b"start"), Some(0x100));
    assert_eq!(a.syms.value(b"val"), Some(5));
    assert_eq!(text(&a.stdout), "tabasm: pass 1 complete.\ntabasm: pass 2 complete.\n");
}

#[test]
fn the_listing_shows_each_line_with_its_address_and_bytes() {
    let a = run("        .org 100h\nstart:  nop\n        .fill 6, 0eeh\n        .end\n");
    let lst: Vec<String> = a.lst.iter().map(|l| text(l)).collect();
    assert_eq!(lst[1], "0002   0100 00          start:  nop");
    assert_eq!(lst[2], "0003   0101 EE EE EE EE         .fill 6, 0eeh");
    assert_eq!(lst[3], "0003   0105 EE EE ");
    assert_eq!(lst.len(), 5);
}

#[test]
fn a_forward_reference_resolves_in_the_second_pass() {
    let a = run("        ljmp ahead\n        nop\nahead:  nop\n        .end\n");
    assert_eq!(a.errors, 0, "{}", text(&a.stdout));
    assert_eq!(image(&a), vec![(0, vec![0x02, 0x00, 0x04, 0x00, 0x00])]);
}

#[test]
fn a_false_branch_is_skipped_and_marked() {
    let a = run(" .if 0\n .byte 1\n .else\n .byte 7\n .endif\n .end\n");
    assert_eq!(image(&a), vec![(0, vec![7])]);
    let lst: Vec<String> = a.lst.iter().map(|l| text(l)).collect();
    assert_eq!(&lst[1][11..12], "~");
}

#[test]
fn an_unknown_mnemonic_and_a_missing_end_are_reported() {
    let a = run(" frob 1\n");
    assert_eq!(a.errors, 2);
    let out = text(&a.stdout);
    assert!(out.contains("unrecognized instruction."), "{}", out);
    assert!(out.contains("No END directive before EOF."), "{}", out);
}

#[test]
fn an_include_is_asked_for_by_name_and_then_assembled() {
    let mut a = assembler(Options::default());
    let mut files = Sources { files: vec![(b"t.asm".to_vec(), Some(b" .include \"x.inc\"\n .end\n".to_vec()))] };
    match a.run(&files, b"t.asm") {
        Err(RunError::Missing(p)) => assert_eq!(p, b"x.inc".to_vec()),
        _ => panic!("the include was not asked for"),
    }
    files.files.push((b"x.inc".to_vec(), Some(b" nop\n nop\n".to_vec())));
    let mut a = assembler(Options::default());
    assert!(a.run(&files, b"t.asm").is_ok());
    assert_eq!(image(&a), vec![(0, vec![0, 0])]);
    files.files.push((b"y.inc".to_vec(), None));
    let mut a = assembler(Options::default());
    let f2 = Sources { files: vec![(b"t.asm".to_vec(), Some(b" .include y.inc\n".to_vec())), (b"y.inc".to_vec(), None)] };
    match a.run(&f2, b"t.asm") {
        Err(RunError::Exit(c)) => assert_eq!(c, lib::limits::EXIT_FILE),
        _ => panic!("an unreadable include is a file failure"),
    }
}

#[test]
fn the_first_definition_of_a_label_wins() {
    let a = run("x .equ 1\nx .equ 2\n .byte x\n .end\n");
    assert_eq!(a.syms.value(b"x"), Some(1));
    assert_eq!(image(&a), vec![(0, vec![1])]);
}

#[test]
fn the_symbol_and_export_files_follow_the_symbol_order() {
    let a = run("beta .equ 2\nalpha .equ 1\n .export alpha\n .end\n");
    assert_eq!(text(&a.symbol_text()), "alpha             0001\nbeta              0002\n");
    assert_eq!(text(&a.export_text()), "alpha            .EQU  $0001\n");
    assert!(a.has_exports());
    let listing = text(&a.build_listing(b"tabasm: Number of errors = 0\n"));
    assert!(listing.ends_with("tabasm: Number of errors = 0\n"), "{}", listing);
}

#[test]
fn word_addressing_halves_the_counter() {
    let mut t = Table::load(T51.as_bytes(), b"51").unwrap_or_else(|_| panic!("table"));
    t.wordaddrs = true;
    let mut a = Asm::new(Options::default(), t, Format::default_layout());
    let files = Sources { files: vec![(b"t.asm".to_vec(), Some(b" .byte 1,2,3\nhere nop\n .end\n".to_vec()))] };
    assert!(a.run(&files, b"t.asm").is_ok());
    assert_eq!(a.syms.value(b"here"), Some(2));
}

#[test]
fn documented_expression_values_hold() {
    let cases: &[(&str, &str, i64)] = &[
        ("1+2*3+4", "", 11),
        ("1+2*(3+4)", "", 15),
        ("2+3*4", "", 14),
        ("10-2-3", "", 5),
        ("1<<2+3", "", 32),
        ("$1F", "", 31),
        ("%1010", "", 10),
        ("@17", "", 15),
        ("0FFh", "", 255),
        ("1010b", "", 10),
        ("0107q", "", 71),
        ("'A'", "", 65),
        ("17%5", "", 2),
        ("~0", "", 0xFF),
        ("!0", "", 1),
        ("-1", "", 0xFF),
        ("1+2*3+4", "--compatibility", 13),
        ("1+2*(3+4)", "--compatibility", 21),
        ("2+3*4", "--compatibility", 20),
    ];
    for (expr, mode, want) in cases {
        let mut args: Vec<Vec<u8>> = vec![b"--cpu=8051".to_vec()];
        if !mode.is_empty() {
            args.push(mode.as_bytes().to_vec());
        }
        args.push(b"e.asm".to_vec());
        let o = Options::parse(&args, None).opts;
        let mut a = assembler(o);
        let src = format!("        .org 0\n        .byte {}\n        .end\n", expr);
        let files = Sources { files: vec![(b"e.asm".to_vec(), Some(src.into_bytes()))] };
        assert!(a.run(&files, b"e.asm").is_ok());
        let got = image(&a);
        assert_eq!(got.first().map(|r| r.1[0] as i64), Some(*want & 0xFF), "`{}` {} should be {}", expr, mode, want);
    }
}

#[test]
fn listing_lines_keep_the_fixed_prefix() {
    let a = run(" .org 10h\n .byte 1,2,3,4,5,6,7,8,9\nlab: nop\n .if 0\n nop\n .endif\n .end\n");
    for l in a.lst.iter().map(|l| text(l)) {
        if l.len() < 4 || !l.as_bytes()[..4].iter().all(|c| c.is_ascii_digit()) {
            continue;
        }
        let field = if l.len() > 24 { &l[12..24] } else { &l[12..] };
        assert!(field.split_whitespace().count() <= 4, "{:?}", l);
        if l.len() > 24 {
            assert!(&l[11..12] == " " || &l[11..12] == "~", "{:?}", l);
        }
    }
}

#[test]
fn an_else_inside_a_skipped_branch_stays_skipped() {
    let a = run(" .if 0\n .if 1\n .else\n .byte 5\n .endif\n .endif\n .byte 9\n .end\n");
    assert_eq!(a.errors, 0, "{}", text(&a.stdout));
    assert_eq!(image(&a), vec![(0, vec![9])]);
}

#[test]
fn a_repeated_equ_keeps_its_first_value_and_is_reported() {
    let a = run("X .equ 5\nX .equ 6\n .end\n");
    assert_eq!(a.syms.value(b"X"), Some(5));
    assert_eq!(a.syms.list.len(), 1);
    let out = text(&a.stdout);
    assert!(out.contains("Duplicate label: (X)"), "{}", out);
}

#[test]
fn set_updates_a_known_name_and_never_creates_one() {
    let a = run("Z .set 7\nY .equ 1\nY .set 7\nY .set 8\n .end\n");
    assert_eq!(a.syms.value(b"Z"), None);
    assert_eq!(a.syms.value(b"Y"), Some(8));
    assert_eq!(a.syms.list.len(), 1);
    let out = text(&a.stdout);
    assert!(!out.contains("Duplicate label"), "{}", out);
    assert!(out.contains("Label must pre-exist for SET:"), "{}", out);
}
