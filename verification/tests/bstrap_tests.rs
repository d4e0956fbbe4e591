//! The bootstrap translator, and the self-hosting fixed point: the program
//! it emits for META's own grammar translates that grammar to the very same
//! program.

use metakit::mvm::{M, Recognition};
use metakit::bstrap::program;

#[test]
fn program_works() {
    let mut m = M::new(
        r#"
.SYNTAX A

A =  X / 'Y' ;

.END
"#,
    );
    assert!(matches!(program(&mut m), Ok(Recognition::Recognized)));
    let expected = "        ADR A\nA\n        CLL X\n        BF  A001 \nA001 \n        BT  A002 \n        TST  'Y'\n        BF  A003 \nA003 \nA002 \n        R \n        END \n        ";
    assert_eq!(m.generated().expect("failed regcognition"), expected)
}

/// META's own grammar, written in META: what the hand-coded translator
/// recognizes, rule for rule.
fn meta_grammar() -> &'static str {
    "\
.SYNTAX PROGRAM

OUT1 = '*1' .OUT('GN1') / '*2' .OUT('GN2') / '*' .OUT('CI') / .STRING .OUT('CL ' *) ;

OUTPUT = ('.OUT' '(' $ OUT1 ')' / '.LABEL' .OUT('LB') OUT1) .OUT('OUT') ;

EX3 = .ID .OUT('CLL' *) / .STRING .OUT('TST ' *) / '.ID' .OUT('ID') /
  '.NUMBER' .OUT('NUM') / '.STRING' .OUT('SR') / '(' EX1 ')' /
  '.EMPTY' .OUT('SET') / '$' .LABEL *1 EX3 .OUT('BT ' *1) .OUT('SET') ;

EX2 = (EX3 .OUT('BF ' *1) / OUTPUT) $(EX3 .OUT('BE') / OUTPUT) .LABEL *1 ;

EX1 = EX2 $('/' .OUT('BT ' *1) EX2) .LABEL *1 ;

ST = .ID .LABEL * '=' EX1 ';' .OUT('R') ;

PROGRAM = '.SYNTAX' .ID .OUT('ADR' *) $ ST '.END' .OUT('END') ;

.END
"
}

// The self-hosting fixed point: the bootstrap translation of META's grammar
// is a program that, run against the same grammar, emits that very
// translation.
#[test]
fn self_host_fixed_point() {
    let grammar = meta_grammar();
    let mut first = M::new(grammar);
    assert!(matches!(program(&mut first), Ok(Recognition::Recognized)));
    let once = first.generated().expect("the grammar translates");

    let compiled = metakit::mvm::assemble(&once).expect("the translation assembles");
    let mut second = M::new(grammar);
    let done = second.execute(&compiled, 10_000_000);
    assert!(done);
    let twice = second.generated().expect("the program recognizes its own grammar");
    assert_eq!(once, twice);
}

// A syntax description that does not open with .SYNTAX is simply not
// recognized, and the machine has consumed nothing but whitespace.
#[test]
fn program_declines_other_text() {
    let mut m = M::new("  .WRONG A .END");
    assert!(matches!(program(&mut m), Ok(Recognition::Unrecognized)));
    assert_eq!(&m.input[m.pos..], ".WRONG A .END");
}

// A recognition failure inside a rule surfaces as the translator's one
// error, with the offending input still unconsumed.
#[test]
fn program_reports_failure() {
    let mut m = M::new(".SYNTAX A\nA = ;\n.END\n");
    assert!(program(&mut m).is_err());
}

// A failed alternation inside parentheses is reported as a recognition
// failure with the call stack restored, never as a stuck machine.
#[test]
fn paren_failure_reports_cleanly() {
    let mut m = M::new(".SYNTAX A\nA = ( ;\n.END\n");
    assert!(program(&mut m).is_err());
    assert_eq!(m.stk.len(), 0);
}
