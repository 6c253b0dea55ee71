//! Hostile input must not crash or hang the assembler. These assert that a
//! run comes back at all; reporting errors is the right answer to most of it.

use lib::assembler::{Asm, Sources};
use lib::cli::{ObjFormat, Options};
use lib::errlog::Format;
use lib::table::Table;

/// A few 8051 rows, in the legacy format.
const T51: &str = "\"TASM 8051 Assembler.    \"\n\
NOP  \"\"   00 1 NOP 1\n\
MOV  A,#*  74 2 NOP 1\n\
LJMP *     02 3 SWAP 1\n\
SJMP *     80 2 R1 1\n";

fn run_with(table: Table, opts: Options, body: &str) -> Asm {
    let text = format!("        .org 0\n{}\n        .end\n", body);
    let files = Sources { files: vec![(b"t.asm".to_vec(), Some(text.into_bytes()))] };
    let mut a = Asm::new(opts, table, Format::default_layout());
    let _ = a.run(&files, b"t.asm");
    a
}

/// Assemble `body` for the 8051 rows above and require the run to come back,
/// with its listing and object built.
fn survives(name: &str, body: &str) {
    let t = Table::load(T51.as_bytes(), b"51").unwrap_or_else(|_| panic!("{}: the table", name));
    let a = run_with(t, Options::default(), body);
    let _ = a.build_listing(b"count");
    let regions = a.regions();
    if regions.iter().all(|r| (r.start as u64) + (r.bytes.len() as u64) <= 0xFFFF_FFFF) {
        let _ = lib::object::write(ObjFormat::IntelHex, &regions, 24, a.end_addr, false);
    }
}

/// As `survives`, but the hostile input is the table.
fn survives_table(name: &str, table: &str, body: &str) {
    if let Ok(t) = Table::load(table.as_bytes(), b"hostile") {
        let a = run_with(t, Options::default(), body);
        let _ = a.build_listing(b"count");
    }
    let _ = name;
}

#[test]
fn hostile_expressions() {
    survives("divide by zero", "        .byte 1/0");
    survives("modulo by zero", "        .byte 1%0");
    survives("INT_MIN / -1", "        .byte (1<<31)/-1");
    survives("shift count 32", "        .byte 1<<32");
    survives("negative shift", "        .byte 1<<-1");
    survives("right shift 64", "        .byte 1>>64");
    survives("overflow", "        .byte 2000000000+2000000000\n        .byte 100000*100000");
    survives("500-digit literal", &format!("        .byte {}", "9".repeat(500)));
    survives("400-character symbol", &format!("        .byte {}", "A".repeat(400)));
    survives("deep parens", &format!("        .byte {}1{}", "(".repeat(200), ")".repeat(200)));
    survives("unary chain", &format!("        .byte {}1", "-".repeat(300)));
}

#[test]
fn hostile_counters_and_addresses() {
    survives("org at the top", "        .org 0FFFFh\n        .byte 1,2,3,4");
    survives("org beyond the image", "        .org 20000h\n        .byte 1");
    survives("org huge", "        .org 7FFFFFFFh\n        .byte 1");
    survives("org negative", "        .org -1\n        .byte 1");
    survives("fill negative", "        .fill -1");
    survives("fill past the end", "        .org 0FFF0h\n        .fill 200");
    survives("chk at zero", "        .chk 0");
    survives("block huge", "        .block 7FFFFFFFh");
}

#[test]
fn hostile_conditionals_and_macros() {
    survives("unmatched endif", "        .endif\n        .endif");
    survives("unmatched else", "        .else");
    let deep: String = (0..40).map(|_| "#ifdef FOO\n").collect::<String>()
        + "        nop\n"
        + &(0..40).map(|_| "#endif\n").collect::<String>();
    survives("40 nested ifdef", &deep);
    survives("bare define", "#define");
    survives("defcont with no define", "#defcont x");
    survives("cyclic macro", "#define A A\n        A");
    survives("mutually cyclic", "#define A B\n#define B A\n        A");
    survives("cyclic with parameters", "#define F(a) F(a)\n        F(9)");
    survives("parameter with no argument", "#define M ?0\n        .byte M");
    let many: String = (0..1100).map(|i| format!("#define M{} {}\n", i, i)).collect();
    survives("1100 macros", &many);
    let long: String = format!("#define BIG {}\n", "A".repeat(400))
        + &(0..8).map(|_| format!("#defcont {}\n", "B".repeat(400))).collect::<String>()
        + "        .byte BIG\n";
    survives("macro body past the line buffer", &long);
}

#[test]
fn hostile_strings_and_lines() {
    survives("high-bit bytes", r#"        .byte "\200\201\202""#);
    survives("trailing backslash", r#"        .text "abc\"#);
    survives("truncated octal", r#"        .text "abc\1"#);
    survives("unterminated string", r#"        .text "abc"#);
    survives("500-character line", &format!("        nop ;{}", "x".repeat(490)));
    survives("many operands", &format!("        .byte {}", "1,".repeat(400) + "1"));
}

#[test]
fn hostile_addinstr() {
    survives("addinstr mnemonic only", "        .addinstr FOO");
    survives("addinstr no operand", "        .addinstr");
    survives("addinstr long mnemonic", &format!("        .addinstr {}", "A".repeat(600)));
    survives("addinstr 200-digit opcode", &format!("        .addinstr FOO * {} 3 NO 1", "A".repeat(200)));
    survives("addinstr byte count under opcode", "        .addinstr FOO *,* 12 FF ZW 1\n        FOO 1,2");
}

#[test]
fn hostile_tables() {
    let head = "%format 2\n%columns mnemonic operands opcode op-bytes arg-bytes rule\n";
    survives_table("empty table", "", "        nop");
    survives_table("no format directive", "NOP - 00 1 0 plain\n", "        nop");
    survives_table("truncated row", &format!("{}NOP\n", head), "        nop");
    survives_table("200-digit opcode", &format!("{}NOP - {} 1 0 plain\n", head, "A".repeat(200)), "        nop");
    survives_table("absurd byte counts", &format!("{}NOP - 00 99 99 plain\n", head), "        nop");
    survives_table(
        "200 placeholders",
        &format!("{}FOO {} 12 1 2 plain\n", head, "<expr>,".repeat(200) + "<expr>"),
        "        foo 1",
    );
    survives_table("format specifiers in a pattern", &format!("{}NOP %s%s%n 00 1 0 plain\n", head), "        nop");
    survives_table("unknown rule", &format!("{}NOP - 00 1 0 no-such-rule\n", head), "        nop");
    survives_table("legacy table, mnemonic only", "\"X\"\nNOP\n", "        nop");
    survives_table("legacy table, no banner quote", "no quote\nNOP \"\" 00 1 NOP 1\n", "        nop");
}

#[test]
fn hostile_command_line_and_environment() {
    let args = |v: &[&str]| -> Vec<Vec<u8>> { v.iter().map(|s| s.as_bytes().to_vec()).collect() };
    let big = format!("-d{}", "A".repeat(9000));
    for (name, a) in [
        ("eight file names", args(&["--cpu=8051", "t.asm", "a", "b", "c", "d", "e", "f", "g"])),
        ("-d with 9000 characters", args(&["--cpu=8051", "t.asm", big.as_str()])),
        ("-o beyond a record", args(&["--cpu=8051", "-offff", "t.asm"])),
        ("-p zero", args(&["--cpu=8051", "-p0", "t.asm"])),
        ("-x absurd", args(&["--cpu=8051", "-xFFFFFFFF", "t.asm"])),
        ("-f absurd", args(&["--cpu=8051", "-fFFFFFFFF", "t.asm"])),
        ("no such cpu", args(&["--cpu=..%2f..%2fetc", "t.asm"])),
        ("empty cpu", args(&["--cpu=", "t.asm"])),
    ] {
        let o = Options::parse(&a, None).opts;
        let _ = o.table_paths(None);
        let _ = o.base_name();
        let t = Table::load(T51.as_bytes(), b"51").unwrap_or_else(|_| panic!("{}: the table", name));
        let r = run_with(t, o, "        nop");
        let _ = r.build_listing(b"count");
    }
    for fmt in ["%s %s %s %s", "%s %n", "%99999999s", "%d %d %d %d", "%*s", "%", "%1$s"] {
        let (f, _) = Format::from_env(Some(fmt.as_bytes()));
        let t = Table::load(T51.as_bytes(), b"51").unwrap_or_else(|_| panic!("the table"));
        let files = Sources { files: vec![(b"t.asm".to_vec(), Some(b" .byte undefined_name\n".to_vec()))] };
        let mut a = Asm::new(Options::default(), t, f);
        let _ = a.run(&files, b"t.asm");
    }
    let opts = "-q ".repeat(300);
    let _ = Options::parse(&args(&["--cpu=8051", "t.asm"]), Some(opts.as_bytes()));
}

#[test]
fn a_full_image_still_emits_records() {
    let o = Options::parse(&vec![b"--cpu=8051".to_vec(), b"-c".to_vec(), b"full.asm".to_vec()], None).opts;
    let t = Table::load(T51.as_bytes(), b"51").unwrap_or_else(|_| panic!("the table"));
    let files = Sources {
        files: vec![(b"full.asm".to_vec(), Some(b"        .org 0\n        .fill 0FFFFh\n        .byte 42h\n        .end\n".to_vec()))],
    };
    let mut a = Asm::new(o, t, Format::default_layout());
    assert!(a.run(&files, b"full.asm").is_ok());
    let regions = a.regions();
    let obj = String::from_utf8(lib::object::write(a.o.format, &regions, a.o.bytes_per_record as usize, a.end_addr, false)).unwrap();
    assert!(obj.lines().filter(|l| l.starts_with(':')).count() > 2, "object is near-empty");
    assert!(obj.contains("42"), "the last byte is missing from the object");
}
