//! Whole-run scenarios for the translator machine: a loaded program against
//! a source text, end to end.

use metakit::mvm::{M, assemble};

// The identity program accepts the empty source without writing anything:
// the output buffer holds only its initial indentation column.
#[test]
fn empty_source_identity_program() {
    let p = assemble("        ADR S\nS\n        R\n        END\n").expect("assembles");
    let mut m = M::new("");
    let done = m.execute(&p, 1000);
    assert!(done);
    assert_eq!(m.output, " ".repeat(8));
    assert_eq!(m.left(), "");
}

// An identifier is recognized and copied: the output line is eight spaces
// and the matched word.
#[test]
fn identifier_is_copied() {
    let p = assemble(
        "        ADR S\nS\n        ID\n        BE\n        CI\n        OUT\n        R\n        END\n",
    )
    .expect("assembles");
    let mut m = M::new("abc");
    let done = m.execute(&p, 1000);
    assert!(done);
    let out = m.generated().expect("accepted");
    assert_eq!(out.lines().next(), Some("        abc"));
}

// A malformed number is a recognition failure that leaves the offending
// text as the remaining input.
#[test]
fn bad_number_fails_recognition() {
    let p = assemble("        ADR S\nS\n        NUM\n        BE\n        R\n        END\n")
        .expect("assembles");
    let mut m = M::new("12..33");
    let done = m.execute(&p, 1000);
    assert!(done);
    assert!(m.generated().is_err());
    assert_eq!(m.left(), "12..33");
}

// Generated labels inside a running program: GN1 is stable per frame and
// OUT/LB shape the emitted lines, driven by the instruction set itself.
#[test]
fn generated_labels_in_program() {
    let p = assemble(
        "        ADR S\nS\n        LB\n        GN1\n        OUT\n        CL 'B'\n        GN1\n        OUT\n        SET\n        R\n        END\n",
    )
    .expect("assembles");
    let mut m = M::new("");
    let done = m.execute(&p, 1000);
    assert!(done);
    let out = m.generated().expect("accepted");
    assert_eq!(out, "A001 \n        B A001 \n        ");
}

// A program that never halts runs out of fuel rather than finishing.
#[test]
fn looping_program_is_allowed() {
    let p = assemble("        ADR S\nS\n        SET\n        B S\n        R\n        END\n")
        .expect("assembles");
    let mut m = M::new("");
    let done = m.execute(&p, 100000);
    assert!(!done);
}
