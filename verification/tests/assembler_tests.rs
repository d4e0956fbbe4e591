//! The shared assembler: line classes, dialect tables, the two-pass
//! resolution, and what each failure reports.

use metakit::assembler::{Dialect, OpDesc, ArgForm, AsmError, parse};

fn toy_dialect() -> Dialect {
    Dialect {
        ops: vec![
            OpDesc { name: "B".to_string(), form: ArgForm::LabelIc },
            OpDesc { name: "ST".to_string(), form: ArgForm::LabelMem },
            OpDesc { name: "LD".to_string(), form: ArgForm::LabelMem },
            OpDesc { name: "LDL".to_string(), form: ArgForm::Num },
            OpDesc { name: "EDT".to_string(), form: ArgForm::Str },
            OpDesc { name: "HLT".to_string(), form: ArgForm::NoArg },
        ],
        accept_blk: true,
    }
}

#[test]
fn it_works() {
    assert!(parse(
        &toy_dialect(),
        r#"
  # comment
# comment
 B  A # jump
X#ok
   BLK 003#blk
A  # label
   LDL  5.0
  ST X
   LD X
   HLT
   EDT'233'
   END#comment
"#
    )
    .is_ok())
}

#[test]
fn mprogram_parse_vs_lexing() {
    assert!(metakit::avm::assemble(
        r#"
  # comment
# comment
 B  A # jump
X#ok
   BLK 003#blk
A  # label
   LDL  5.0
 ST X
   LD X
   EDT'233'
   END#comment
"#
    )
    .is_ok());
}

// A program whose labels all resolve assembles; a referenced but undefined
// label fails the load with a message holding that label.
#[test]
fn unknown_label_is_reported() {
    let good = "        ADR S\nS\n        R\n        END\n";
    assert!(metakit::mvm::assemble(good).is_ok());
    let bad = "        ADR S\nS\n        B T\n        R\n        END\n";
    match metakit::mvm::assemble(bad) {
        Err(e) => {
            let msg = e.msg();
            assert_eq!(msg, "unknown label T");
            assert!(msg.contains("T"));
        },
        Ok(_) => assert!(false),
    }
}

// A label declared past the last instruction cannot be branched to.
#[test]
fn dangling_label_is_reported() {
    let bad = "        B E\nE\n        END\n";
    match metakit::avm::assemble(bad) {
        Err(e) => {
            assert_eq!(e.msg(), "instruction counter 1 for E without instruction");
        },
        Ok(_) => assert!(false),
    }
}

// An unknown mnemonic, and a mnemonic with the wrong argument shape, are
// both invalid instructions.
#[test]
fn invalid_instruction_is_reported() {
    match parse(&toy_dialect(), "   FOO\n   END\n") {
        Err(e) => assert_eq!(e.msg(), "invalid instruction    FOO"),
        Ok(_) => assert!(false),
    }
    match parse(&toy_dialect(), "   HLT X\n   END\n") {
        Err(e) => assert_eq!(e.msg(), "invalid instruction    HLT X"),
        Ok(_) => assert!(false),
    }
}

// The MVM dialect rejects the BLK pseudo-instruction; the AVM dialect
// rejects a fractional or negative count.
#[test]
fn blk_rules() {
    match metakit::mvm::assemble("        BLK 2\n        END\n") {
        Err(e) => assert_eq!(e.msg(), "BLK use is invalid"),
        Ok(_) => assert!(false),
    }
    match metakit::avm::assemble("        BLK 2.5\n        END\n") {
        Err(e) => assert_eq!(e.msg(), "invalid BLK: {line}"),
        Ok(_) => assert!(false),
    }
}

// A scanner failure inside a line surfaces as the scanner's own message.
#[test]
fn lex_error_surfaces() {
    match metakit::avm::assemble("        LDL 1.2.3\n        END\n") {
        Err(e) => assert_eq!(e.msg(), "invalid float literal"),
        Ok(_) => assert!(false),
    }
}

// A line may not begin with a number or a string.
#[test]
fn unexpected_line_start() {
    match metakit::avm::assemble("'x'\n        END\n") {
        Err(e) => assert!(e.msg().starts_with("unexpected ")),
        Ok(_) => assert!(false),
    }
}
