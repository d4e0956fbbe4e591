//! The arithmetic machine: its stack, memory, print area, and a whole
//! program run end to end.

use metakit::avm::M;
use metakit::value::Value;

#[test]
fn m() {
    let mut m = M::new();
    m.push(Value::from_int(1));
    assert_eq!(m.pop(), Value::from_int(1));
}

#[test]
fn m_add() {
    let mut m = M::new();
    m.push(Value::from_int(2));
    m.push(Value::from_int(3));
    m.add();
    assert_eq!(m.pop(), Value::from_int(5));
}

#[test]
fn m_mlt() {
    let mut m = M::new();
    m.push(Value::from_int(3));
    m.push(Value::from_int(-4));
    m.mlt();
    assert_eq!(m.pop(), Value::from_int(-12));
}

#[test]
fn m_equ() {
    let mut m = M::new();
    m.push(Value::from_int(3));
    m.push(Value::from_int(-4));
    m.mlt();
    m.push(Value::from_int(-12));
    m.equ();
    assert_eq!(m.pop(), Value::from_int(1));
}

#[test]
fn m_edt_simple() {
    let mut m = M::new();
    m.push(Value::from_int(3));
    m.edt("abc");
    assert_eq!(m.print_area.len(), 100);
    assert_eq!(m.print_area.trim_end(), "   abc");
    m.push(Value::from_int(99));
    m.edt("z");
    assert_eq!(m.print_area.len(), 100);
    assert_eq!(m.print_area.trim_end(), "   abc                                                                                             z");
    m.push(Value::from_int(100));
    m.edt("x");
    assert_eq!(m.print_area.trim_end(), "   abc                                                                                             z");
    m.push(Value::from_int(98));
    m.edt("xy");
    assert_eq!(m.print_area.trim_end(), "   abc                                                                                            xy");
    m.push(Value::from_int(98));
    m.edt("zzz");
    assert_eq!(m.print_area.trim_end(), "   abc                                                                                            xy");
    m.push(Value::from_int(4));
    m.edt("x");
    m.push(Value::from_int(6));
    m.edt("y");
    assert_eq!(m.print_area.trim_end(), "   axcy                                                                                           xy");
    m.push(Value::from_int(-1));
    m.edt("aa");
    assert_eq!(m.print_area.trim_end(), "   axcy                                                                                           xy");
    m.push(Value::from_int(0));
    m.edt("aa");
    assert_eq!(m.print_area.trim_end(), "aa axcy                                                                                           xy");
    // printing
    m.pnt();
    assert_eq!(m.print_area, "");
    // further
    m.push(Value::from_int(0));
    m.edt("aa");
    assert_eq!(m.print_area.trim_end(), "aa");
}

#[test]
fn m_st_ld_sub() {
    let mut m = M::new();
    m.ld(0);
    let v = m.pop();
    assert_eq!(v, Value::from_int(0));
    m.push(Value::from_int(2));
    m.st(0);
    m.push(Value::from_int(3));
    m.st(1);
    m.ld(1);
    m.ld(0);
    m.sub();
    assert_eq!(m.pop(), Value::from_int(-1));
}

// A write before column 0 or past column 100 leaves the print area alone
// and raises no error.
#[test]
fn edt_out_of_range_is_a_no_op() {
    let mut m = M::new();
    m.push(Value::from_int(-1));
    m.edt("aa");
    assert_eq!(m.print_area, "");
    m.push(Value::from_int(101));
    m.edt("x");
    assert_eq!(m.print_area, "");
    m.push(Value::from_int(99));
    m.edt("xy");
    assert_eq!(m.print_area, "");
    m.push(Value::from_int(99));
    m.edt("y");
    assert_eq!(m.print_area.trim_end(), format!("{}y", " ".repeat(99)));
}

// A small program: 2 + 3 equals 5, so the machine prints `ok`.
#[test]
fn arithmetic_program_prints_ok() {
    let text = "        LDL 2\n        LDL 3\n        ADD\n        LDL 5\n        EQU\n        BFP F\n        LDL 0\n        EDT 'ok'\n        PNT\n        HLT\nF\n        HLT\n        END\n";
    let p = metakit::avm::assemble(text).expect("assembles");
    let mut m = M::new();
    let done = m.execute(&p, 1000);
    assert!(done);
    assert_eq!(m.printed, "ok\n");
}

// The rounding the print position goes through: halves away from zero.
#[test]
fn edt_rounds_half_away() {
    let mut m = M::new();
    m.push(Value::from_micros(2_500_000));
    m.edt("a");
    assert_eq!(m.print_area.trim_end(), "   a");
}
