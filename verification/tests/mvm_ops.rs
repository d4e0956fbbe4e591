//! The translator machine's operations, exercised one by one.

use metakit::mvm::M;

#[test]
fn lib_m() {
    let m = M::new("  abc ");
    assert_eq!(m.input, "  abc ");
    assert_eq!(m.sw, false);
    assert_eq!(m.last, "");
    assert_eq!(m.output, " ".repeat(8));
}

#[test]
fn m_tst() {
    let mut m = M::new("  abc_");
    assert_eq!(m.input, "  abc_");
    assert!(m.tst("abc"));
    assert_eq!(m.sw, true);
    assert_eq!(m.last, "abc");
    assert_eq!(&m.input[m.pos..], "_");
    assert!(!m.tst("__"));
    assert_eq!(m.sw, false);
    assert_eq!(m.last, "abc");
    assert_eq!(&m.input[m.pos..], "_");
}

#[test]
fn m_id() {
    let mut m = M::new("  ab3c_");
    assert_eq!(m.input, "  ab3c_");
    assert!(m.id());
    assert_eq!(m.sw, true);
    assert_eq!(m.last, "ab3c");
    assert_eq!(&m.input[m.pos..], "_");
    assert!(!m.id());
    assert_eq!(m.sw, false);
    assert_eq!(m.last, "ab3c");
    assert_eq!(&m.input[m.pos..], "_");
}

#[test]
fn m_num() {
    let mut m = M::new("  00.120_");
    assert_eq!(m.input, "  00.120_");
    assert!(m.num());
    assert_eq!(m.sw, true);
    assert_eq!(m.last, "00.120");
    assert_eq!(&m.input[m.pos..], "_");
    assert!(!m.num());
    assert_eq!(m.sw, false);
    assert_eq!(m.last, "00.120");
    assert_eq!(&m.input[m.pos..], "_");
}

#[test]
fn m_num_not_accepted() {
    let mut m = M::new("  1.");
    assert!(!m.num());
    assert_eq!(m.sw, false);

    let mut m = M::new("  12..33");
    assert!(!m.num());
    assert_eq!(m.sw, false);
    assert_eq!(&m.input[m.pos..], "12..33")
}

#[test]
fn m_sr() {
    let mut m = M::new("  'ab c  '_");
    assert_eq!(m.input, "  'ab c  '_");
    assert!(m.sr());
    assert_eq!(m.sw, true);
    assert_eq!(m.last, "'ab c  '");
    assert_eq!(&m.input[m.pos..], "_");
    assert!(!m.sr());
    assert_eq!(m.sw, false);
    assert_eq!(m.last, "'ab c  '");
    assert_eq!(&m.input[m.pos..], "_");
}

#[test]
fn m_sr_unterminated() {
    let mut m = M::new("  'ab c  _");
    assert!(!m.sr());
    assert_eq!(m.sw, false);
    assert_eq!(m.last, "");
    assert_eq!(&m.input[m.pos..], "'ab c  _");
}

#[test]
fn m_cll_and_gnx() {
    let mut m = M::new("");
    m.output.truncate(0);
    m.cll(100);
    m.gn1();
    m.gn2();
    m.gn2();
    m.gn1();
    let ric = m.r();
    assert_eq!(ric, 100);
    assert_eq!(m.output.as_str(), "A001 B001 B001 A001 ")
}

#[test]
fn m_cll_and_gnx_nested_shallow() {
    let mut m = M::new("");
    m.output.truncate(0);
    m.cll(100);
    m.cll(200);
    m.gn1();
    m.gn2();
    m.gn1();
    let ric = m.r();
    assert_eq!(ric, 200);
    m.gn1();
    let ric = m.r();
    assert_eq!(ric, 100);
    assert_eq!(m.output.as_str(), "A001 B001 A001 A002 ")
}

#[test]
fn m_cll_and_gnx_nested() {
    let mut m = M::new("");
    m.output.truncate(0);
    m.cll(100);
    m.gn1();
    m.cll(200);
    m.gn2();
    m.gn1();
    m.gn2();
    let ric = m.r();
    assert_eq!(ric, 200);
    m.gn1();
    let ric = m.r();
    assert_eq!(ric, 100);
    assert_eq!(m.output.as_str(), "A001 B001 A002 B001 A001 ")
}

#[test]
fn m_switch_and_set() {
    let mut m = M::new("");
    assert_eq!(m.sw, false);
    m.set();
    assert_eq!(m.sw, true);
}

#[test]
fn m_cl() {
    let mut m = M::new("");
    m.cl("ABC");
    m.cl("DEF");
    assert_eq!(m.output.as_str(), "        ABC DEF ")
}

#[test]
fn m_ci() {
    let mut m = M::new("SET XYZ FOO");
    m.tst("SET");
    m.ci();
    m.id();
    m.ci();
    m.tst("END");
    m.ci();
    assert_eq!(m.output.as_str(), "        SETXYZ")
}

#[test]
fn m_out_lb() {
    let mut m = M::new("");
    m.lb();
    m.cl("ABC");
    m.out();
    m.cl("DEF");
    m.out();
    m.lb();
    m.cl("XXX");
    m.out();
    assert_eq!(m.output.as_str(), "ABC \n        DEF \nXXX \n        ")
}

// A call frame is repaid exactly: one return per call, the return target is
// the one pushed, and the stack depth is back where it was.
#[test]
fn call_return_restores_depth() {
    let mut m = M::new("");
    assert_eq!(m.stk.len(), 0);
    m.cll(7);
    assert_eq!(m.stk.len(), 3);
    m.gn1();
    m.gn2();
    m.cll(9);
    assert_eq!(m.stk.len(), 6);
    assert_eq!(m.r(), 9);
    assert_eq!(m.stk.len(), 3);
    assert_eq!(m.r(), 7);
    assert_eq!(m.stk.len(), 0);
}

// Collapsed blank slots are restored on return: calling from a frame whose
// slots are untouched keeps the depth bookkeeping exact.
#[test]
fn collapsed_slots_restored() {
    let mut m = M::new("");
    m.cll(1);
    let depth_outer = m.stk.len();
    m.cll(2);
    assert_eq!(m.r(), 2);
    assert_eq!(m.stk.len(), depth_outer);
    assert_eq!(m.r(), 1);
    assert_eq!(m.stk.len(), 0);
}

// After a scanning primitive the position never moves backwards and stays
// inside the input; a match ends exactly at the new position.
#[test]
fn scan_monotone_and_last_ends_at_pos() {
    let mut m = M::new("  ab 12 'q'");
    let mut prev = m.pos;
    assert!(m.id());
    assert!(m.pos >= prev && m.pos <= m.input.len());
    assert_eq!(&m.input[m.pos - m.last.len()..m.pos], m.last);
    prev = m.pos;
    assert!(m.num());
    assert!(m.pos >= prev && m.pos <= m.input.len());
    assert_eq!(&m.input[m.pos - m.last.len()..m.pos], m.last);
    prev = m.pos;
    assert!(m.sr());
    assert!(m.pos >= prev && m.pos <= m.input.len());
    assert_eq!(&m.input[m.pos - m.last.len()..m.pos], m.last);
    prev = m.pos;
    assert!(!m.tst("zzz"));
    assert!(m.pos >= prev && m.pos <= m.input.len());
}

// A lone quote at the very end of the input is a complete string match:
// the span is the quote itself.
#[test]
fn m_sr_lone_quote() {
    let mut m = M::new(" '");
    assert!(m.sr());
    assert_eq!(m.last, "'");
    assert_eq!(m.pos, m.input.len());
}
