//! The bootstrap translator: a hand-coded recognizer for META syntax
//! descriptions, driving the translator machine's own operations and
//! emitting MVM assembly. Beside each rule stands its mathematical twin, a
//! spec-level translation function over the machine state; every rule
//! ensures that its result and the whole machine it leaves — position,
//! switch, matched span, counters, stack and emitted text — equal that
//! function's. The shorter clauses beside the equality say the readable
//! part on their own: the scanner only moves forward, the call stack is
//! repaid exactly, and a rule declines precisely when its leading token is
//! absent.

use vstd::prelude::*;
use crate::mvm::{
    M, MView, MResult, Recognition, SynError, spec_cll_stk, slots_only, lemma_call_return,
    spec_tst, spec_id, spec_sr, spec_ci, spec_cl, spec_out, spec_lb, spec_gn1, spec_cll,
    spec_r_stk, FrameV,
};
use crate::text::{skip_ws, is_alpha_char, lemma_skip_ws};

verus! {

/// Would `TST s` succeed here?
pub open spec fn tst_match(m: MView, s: Seq<char>) -> bool {
    let p = skip_ws(m.input, m.pos);
    p + s.len() <= m.input.len() && m.input.subrange(p, p + s.len()) == s
}

/// Would `ID` succeed here?
pub open spec fn id_match(m: MView) -> bool {
    let p = skip_ws(m.input, m.pos);
    p < m.input.len() && is_alpha_char(m.input[p])
}

/// Would `SR` succeed here?
pub open spec fn sr_match(m: MView) -> bool {
    spec_sr(m).sw
}

/// The tokens an output element can begin with.
pub open spec fn out1_lead(m: MView) -> bool {
    tst_match(m, "*1"@) || tst_match(m, "*2"@) || tst_match(m, "*"@) || sr_match(m)
}

/// The tokens an output clause can begin with.
pub open spec fn output_lead(m: MView) -> bool {
    tst_match(m, ".OUT"@) || tst_match(m, ".LABEL"@)
}

/// The tokens a primary expression can begin with.
pub open spec fn ex3_lead(m: MView) -> bool {
    id_match(m) || sr_match(m) || tst_match(m, ".ID"@) || tst_match(m, ".NUMBER"@) || tst_match(
        m,
        ".STRING"@,
    ) || tst_match(m, "("@) || tst_match(m, ".EMPTY"@) || tst_match(m, "$"@)
}

/// The tokens a sequence element can begin with.
pub open spec fn ex2_lead(m: MView) -> bool {
    ex3_lead(m) || output_lead(m)
}

/// The scanner only moves forward, the text and the label counters only
/// grow.
pub open spec fn advances(a: MView, b: MView) -> bool {
    b.input == a.input && a.pos <= b.pos && b.pos <= b.input.len() && a.a_cnt <= b.a_cnt
        && a.b_cnt <= b.b_cnt
}

/// A rule that declines leaves the machine where its leading tests left it:
/// whitespace skipped, the switch off, all else untouched.
pub open spec fn declined(a: MView, b: MView) -> bool {
    b == (MView { pos: skip_ws(a.input, a.pos), sw: false, ..a })
}



/// What one translator rule yields: the recognition result and the whole
/// machine it leaves behind.
#[verifier::ext_equal]
pub struct TransV {
    pub r: MResult,
    pub m: MView,
}

/// An emitted instruction line: the text and one space, then the line
/// closed and the next one indented.
pub open spec fn emit_line(m: MView, s: Seq<char>) -> MView {
    MView { output: spec_out(spec_cl(m.output, s)), ..m }
}

/// An emitted instruction line whose argument is the last matched span:
/// the mnemonic, the span, then the line closed.
pub open spec fn emit_line_ci(m: MView, s: Seq<char>) -> MView {
    let a = spec_ci(MView { output: spec_cl(m.output, s), ..m });
    MView { output: spec_out(a.output), ..a }
}

/// The join label closing a rule: the line reopened, the frame's A-label
/// emitted at column 0, the line closed.
pub open spec fn spec_rule_close(m: MView) -> MView {
    let a = spec_gn1(MView { output: spec_lb(m.output), ..m });
    MView { output: spec_out(a.output), ..a }
}

/// Popping the rule's call frame on the way out.
pub open spec fn frame_out(t: TransV) -> TransV {
    TransV { r: t.r, m: MView { stk: spec_r_stk(t.m.stk), ..t.m } }
}

/// The scanner stands inside the text it reads, and a rule's work only
/// moved it forward. The spec rules recurse only under this bound, which
/// every run of the executable rules maintains.
pub open spec fn moved_ahead(a: MView, b: MView) -> bool {
    b.input == a.input && a.pos <= b.pos <= a.input.len()
}

/// What `out1` computes: one output element translated to its line.
pub open spec fn spec_out1_body(m: MView) -> TransV {
    let m1 = spec_tst(m, "*1"@);
    if m1.sw {
        TransV { r: MResult::Ok(Recognition::Recognized), m: emit_line(m1, "GN1"@) }
    } else {
        let m2 = spec_tst(m1, "*2"@);
        if m2.sw {
            TransV { r: MResult::Ok(Recognition::Recognized), m: emit_line(m2, "GN2"@) }
        } else {
            let m3 = spec_tst(m2, "*"@);
            if m3.sw {
                TransV { r: MResult::Ok(Recognition::Recognized), m: emit_line(m3, "CI"@) }
            } else {
                let m4 = spec_sr(m3);
                if m4.sw {
                    TransV {
                        r: MResult::Ok(Recognition::Recognized),
                        m: emit_line_ci(m4, "CL "@),
                    }
                } else {
                    TransV { r: MResult::Ok(Recognition::Unrecognized), m: m4 }
                }
            }
        }
    }
}

pub open spec fn spec_out1(m: MView) -> TransV {
    frame_out(spec_out1_body(spec_cll(m, 5)))
}

/// The `$`-run of output elements inside `.OUT( ... )`: elements are taken
/// while they are recognized; each recognized element consumed input.
pub open spec fn spec_out1_list(m: MView) -> MView
    decreases m.input.len() - m.pos,
{
    let t = spec_out1(m);
    if t.r == MResult::Ok(Recognition::Recognized) && m.pos < t.m.pos && moved_ahead(m, t.m)
        && 0 <= m.pos {
        spec_out1_list(t.m)
    } else {
        t.m
    }
}

/// What `output` computes: an output clause translated to its lines.
pub open spec fn spec_output_body(m: MView) -> TransV {
    let m1 = spec_tst(m, ".OUT"@);
    if m1.sw {
        let m2 = spec_tst(m1, "("@);
        if !m2.sw {
            TransV { r: MResult::Err(SynError::Unexpected), m: m2 }
        } else {
            let m3 = spec_out1_list(m2);
            let m4 = spec_tst(m3, ")"@);
            if !m4.sw {
                TransV { r: MResult::Err(SynError::Unexpected), m: m4 }
            } else {
                TransV { r: MResult::Ok(Recognition::Recognized), m: emit_line(m4, "OUT"@) }
            }
        }
    } else {
        let m2 = spec_tst(m1, ".LABEL"@);
        if m2.sw {
            let t = spec_out1(emit_line(m2, "LB"@));
            if t.r == MResult::Ok(Recognition::Recognized) {
                TransV { r: MResult::Ok(Recognition::Recognized), m: emit_line(t.m, "OUT"@) }
            } else {
                TransV { r: MResult::Err(SynError::Unexpected), m: t.m }
            }
        } else {
            TransV { r: MResult::Ok(Recognition::Unrecognized), m: m2 }
        }
    }
}

pub open spec fn spec_output(m: MView) -> TransV {
    frame_out(spec_output_body(spec_cll(m, 4)))
}

/// What `ex3` computes: one primary translated to its lines. The
/// parenthesized and `$` forms recurse; they do so only under the
/// forward-motion bound the scanner guarantees.
pub open spec fn spec_ex3_body(m: MView) -> TransV
    decreases m.input.len() - m.pos, 5int,
{
    let m1 = spec_id(m);
    if m1.sw {
        TransV { r: MResult::Ok(Recognition::Recognized), m: emit_line_ci(m1, "CLL"@) }
    } else {
        let m2 = spec_sr(m1);
        if m2.sw {
            TransV { r: MResult::Ok(Recognition::Recognized), m: emit_line_ci(m2, "TST "@) }
        } else {
            let m3 = spec_tst(m2, ".ID"@);
            if m3.sw {
                TransV { r: MResult::Ok(Recognition::Recognized), m: emit_line(m3, "ID"@) }
            } else {
                let m4 = spec_tst(m3, ".NUMBER"@);
                if m4.sw {
                    TransV { r: MResult::Ok(Recognition::Recognized), m: emit_line(m4, "NUM"@) }
                } else {
                    let m5 = spec_tst(m4, ".STRING"@);
                    if m5.sw {
                        TransV {
                            r: MResult::Ok(Recognition::Recognized),
                            m: emit_line(m5, "SR"@),
                        }
                    } else {
                        let m6 = spec_tst(m5, "("@);
                        if m6.sw {
                            spec_ex3_paren(m, m6)
                        } else {
                            let m7 = spec_tst(m6, ".EMPTY"@);
                            if m7.sw {
                                TransV {
                                    r: MResult::Ok(Recognition::Recognized),
                                    m: emit_line(m7, "SET"@),
                                }
                            } else {
                                let m8 = spec_tst(m7, "$"@);
                                if m8.sw {
                                    spec_ex3_loop(m, m8)
                                } else {
                                    TransV {
                                        r: MResult::Ok(Recognition::Unrecognized),
                                        m: m8,
                                    }
                                }
                            }
                        }
                    }
                }
            }
        }
    }
}

/// The parenthesized alternation inside a primary.
pub open spec fn spec_ex3_paren(m: MView, m6: MView) -> TransV
    decreases m.input.len() - m.pos, 4int,
{
    if m.pos < m6.pos && moved_ahead(m, m6) {
        let t = spec_ex1(m6);
        if t.r == MResult::Ok(Recognition::Recognized) {
            let m7 = spec_tst(t.m, ")"@);
            if m7.sw {
                TransV { r: MResult::Ok(Recognition::Recognized), m: m7 }
            } else {
                TransV { r: MResult::Err(SynError::Unexpected), m: m7 }
            }
        } else if t.r == MResult::Ok(Recognition::Unrecognized) {
            TransV { r: MResult::Err(SynError::Unexpected), m: t.m }
        } else {
            t
        }
    } else {
        TransV { r: MResult::Err(SynError::Unexpected), m: m6 }
    }
}

/// The `$` repetition inside a primary: its loop label line, the repeated
/// primary, the back branch and the closing `SET`.
pub open spec fn spec_ex3_loop(m: MView, m8: MView) -> TransV
    decreases m.input.len() - m.pos, 4int,
{
    let m9 = spec_gn1(MView { output: spec_lb(m8.output), ..m8 });
    let m10 = MView { output: spec_out(m9.output), ..m9 };
    if m.pos < m10.pos && moved_ahead(m, m10) {
        let t = spec_ex3(m10);
        if t.r == MResult::Ok(Recognition::Recognized) {
            let a = spec_gn1(MView { output: spec_cl(t.m.output, "BT "@), ..t.m });
            let b = MView { output: spec_out(a.output), ..a };
            TransV { r: MResult::Ok(Recognition::Recognized), m: emit_line(b, "SET"@) }
        } else if t.r == MResult::Ok(Recognition::Unrecognized) {
            TransV { r: MResult::Err(SynError::Unexpected), m: t.m }
        } else {
            t
        }
    } else {
        TransV { r: MResult::Err(SynError::Unexpected), m: m10 }
    }
}

pub open spec fn spec_ex3(m: MView) -> TransV
    decreases m.input.len() - m.pos, 6int,
{
    frame_out(spec_ex3_body(spec_cll(m, 3)))
}

/// The tail of a sequence: further primaries guarded by `BE`, or further
/// output clauses, until neither is recognized.
pub open spec fn spec_ex2_tail(m: MView) -> TransV
    decreases m.input.len() - m.pos, 7int,
{
    let t = spec_ex3(m);
    if t.r == MResult::Ok(Recognition::Recognized) {
        let m2 = emit_line(t.m, "BE"@);
        if m.pos < m2.pos && moved_ahead(m, m2) {
            spec_ex2_tail(m2)
        } else {
            TransV { r: MResult::Err(SynError::Unexpected), m: m2 }
        }
    } else if t.r == MResult::Ok(Recognition::Unrecognized) {
        let u = spec_output(t.m);
        if u.r == MResult::Ok(Recognition::Recognized) {
            if m.pos < u.m.pos && moved_ahead(m, u.m) {
                spec_ex2_tail(u.m)
            } else {
                TransV { r: MResult::Err(SynError::Unexpected), m: u.m }
            }
        } else if u.r == MResult::Ok(Recognition::Unrecognized) {
            TransV { r: MResult::Ok(Recognition::Recognized), m: u.m }
        } else {
            u
        }
    } else {
        t
    }
}

/// What `ex2` computes: the first element — a primary with its `BF` guard,
/// or an output clause — then the tail, then the rule's join label.
pub open spec fn spec_ex2_body(m: MView) -> TransV
    decreases m.input.len() - m.pos, 9int,
{
    let t = spec_ex3(m);
    if t.r == MResult::Ok(Recognition::Recognized) {
        let a = spec_gn1(MView { output: spec_cl(t.m.output, "BF "@), ..t.m });
        let m1 = MView { output: spec_out(a.output), ..a };
        spec_ex2_rest(m, m1)
    } else if t.r == MResult::Ok(Recognition::Unrecognized) {
        let u = spec_output(t.m);
        if u.r == MResult::Ok(Recognition::Recognized) {
            spec_ex2_rest(m, u.m)
        } else if u.r == MResult::Ok(Recognition::Unrecognized) {
            TransV { r: MResult::Ok(Recognition::Unrecognized), m: u.m }
        } else {
            u
        }
    } else {
        t
    }
}

/// The tail and join label after a sequence's first element.
pub open spec fn spec_ex2_rest(m: MView, m1: MView) -> TransV
    decreases m.input.len() - m.pos, 8int,
{
    let l = if moved_ahead(m, m1) {
        spec_ex2_tail(m1)
    } else {
        TransV { r: MResult::Err(SynError::Unexpected), m: m1 }
    };
    if l.r == MResult::Ok(Recognition::Recognized) {
        TransV { r: MResult::Ok(Recognition::Recognized), m: spec_rule_close(l.m) }
    } else {
        l
    }
}

pub open spec fn spec_ex2(m: MView) -> TransV
    decreases m.input.len() - m.pos, 10int,
{
    frame_out(spec_ex2_body(spec_cll(m, 2)))
}

/// The tail of an alternation: further `/`-joined sequences, each entered
/// over a `BT` to the shared join label.
pub open spec fn spec_ex1_tail(m: MView) -> TransV
    decreases m.input.len() - m.pos, 11int,
{
    let m1 = spec_tst(m, "/"@);
    if !m1.sw {
        TransV { r: MResult::Ok(Recognition::Recognized), m: m1 }
    } else {
        let a = spec_gn1(MView { output: spec_cl(m1.output, "BT "@), ..m1 });
        let m2 = MView { output: spec_out(a.output), ..a };
        let t = if moved_ahead(m, m2) {
            spec_ex2(m2)
        } else {
            TransV { r: MResult::Err(SynError::Unexpected), m: m2 }
        };
        if t.r == MResult::Ok(Recognition::Recognized) {
            if m.pos < t.m.pos && moved_ahead(m, t.m) {
                spec_ex1_tail(t.m)
            } else {
                TransV { r: MResult::Err(SynError::Unexpected), m: t.m }
            }
        } else if t.r == MResult::Ok(Recognition::Unrecognized) {
            TransV { r: MResult::Err(SynError::Unexpected), m: t.m }
        } else {
            t
        }
    }
}

/// What `ex1` computes: an alternation in its own call frame, closed by
/// the shared join label; the frame is repaid on every way out.
#[verifier::opaque]
pub open spec fn spec_ex1(m: MView) -> TransV
    decreases m.input.len() - m.pos, 12int,
{
    let c = spec_cll(m, 1);
    let t = spec_ex2(c);
    if t.r == MResult::Ok(Recognition::Recognized) {
        let l = if moved_ahead(m, t.m) {
            spec_ex1_tail(t.m)
        } else {
            TransV { r: MResult::Err(SynError::Unexpected), m: t.m }
        };
        if l.r == MResult::Ok(Recognition::Recognized) {
            frame_out(TransV { r: l.r, m: spec_rule_close(l.m) })
        } else {
            frame_out(l)
        }
    } else {
        frame_out(t)
    }
}

/// What `st` computes: one rule — its name as a label line, `=`, the
/// translated alternation, `;`, and the closing `R` line.
pub open spec fn spec_st(m: MView) -> TransV {
    let m1 = spec_id(m);
    if !m1.sw {
        TransV { r: MResult::Ok(Recognition::Unrecognized), m: m1 }
    } else {
        let m2 = spec_ci(MView { output: spec_lb(m1.output), ..m1 });
        let m3 = MView { output: spec_out(m2.output), ..m2 };
        let m4 = spec_tst(m3, "="@);
        if !m4.sw {
            TransV { r: MResult::Err(SynError::Unexpected), m: m4 }
        } else {
            let t = if moved_ahead(m, m4) {
                spec_ex1(m4)
            } else {
                TransV { r: MResult::Err(SynError::Unexpected), m: m4 }
            };
            if t.r == MResult::Ok(Recognition::Recognized) {
                let m5 = spec_tst(t.m, ";"@);
                if !m5.sw {
                    TransV { r: MResult::Err(SynError::Unexpected), m: m5 }
                } else {
                    TransV { r: MResult::Ok(Recognition::Recognized), m: emit_line(m5, "R"@) }
                }
            } else if t.r == MResult::Ok(Recognition::Unrecognized) {
                TransV { r: MResult::Err(SynError::Unexpected), m: t.m }
            } else {
                t
            }
        }
    }
}

/// The run of rules in a syntax description: rules are taken while they
/// are recognized; each recognized rule consumed input.
pub open spec fn spec_st_list(m: MView) -> TransV
    decreases m.input.len() - m.pos,
{
    let t = spec_st(m);
    if t.r == MResult::Ok(Recognition::Recognized) {
        if m.pos < t.m.pos && moved_ahead(m, t.m) && 0 <= m.pos {
            spec_st_list(t.m)
        } else {
            TransV { r: MResult::Err(SynError::Unexpected), m: t.m }
        }
    } else if t.r == MResult::Ok(Recognition::Unrecognized) {
        TransV { r: MResult::Ok(Recognition::Recognized), m: t.m }
    } else {
        t
    }
}

/// The rules and the closing `.END` of a description, after its prolog.
pub open spec fn spec_program_rest(ml: MView) -> TransV {
    let l = spec_st_list(ml);
    if l.r == MResult::Ok(Recognition::Recognized) {
        let m5 = spec_tst(l.m, ".END"@);
        if !m5.sw {
            TransV { r: MResult::Err(SynError::Unexpected), m: m5 }
        } else {
            TransV { r: MResult::Ok(Recognition::Recognized), m: emit_line(m5, "END"@) }
        }
    } else {
        l
    }
}

/// What `program` computes: the whole translation — `ADR` naming the
/// first rule, each rule's lines, and the closing `END` line.
pub open spec fn spec_program(m: MView) -> TransV {
    let m1 = spec_tst(m, ".SYNTAX"@);
    if !m1.sw {
        TransV { r: MResult::Ok(Recognition::Unrecognized), m: m1 }
    } else {
        let m2 = spec_id(m1);
        if !m2.sw {
            TransV { r: MResult::Err(SynError::Unexpected), m: m2 }
        } else {
            let m3 = spec_ci(MView { output: spec_cl(m2.output, "ADR"@), ..m2 });
            let m4 = MView { output: spec_out(m3.output), ..m3 };
            if moved_ahead(m, m4) {
                spec_program_rest(m4)
            } else {
                TransV { r: MResult::Err(SynError::Unexpected), m: m4 }
            }
        }
    }
}

/// The line `out1` emits for the element standing at the scanner: the
/// translated operation, or `CL` with the quoted text.
pub open spec fn out1_emitted(m: MView) -> Seq<char> {
    if tst_match(m, "*1"@) {
        spec_out(spec_cl(m.output, "GN1"@))
    } else if tst_match(m, "*2"@) {
        spec_out(spec_cl(m.output, "GN2"@))
    } else if tst_match(m, "*"@) {
        spec_out(spec_cl(m.output, "CI"@))
    } else {
        spec_out(spec_cl(m.output, "CL "@) + spec_sr(m).last)
    }
}

/// One output element: `*1`, `*2`, `*`, or a string, translated to `GN1`,
/// `GN2`, `CI`, or `CL` with the quoted text.
pub fn out1(m: &mut M) -> (r: MResult)
    requires
        old(m).wf(),
    ensures
        final(m).wf(),
        advances(old(m)@, final(m)@),
        final(m)@.stk == old(m)@.stk,
        r matches Ok(_),
        r == MResult::Ok(Recognition::Recognized) ==> old(m)@.pos < final(m)@.pos,
        (r == MResult::Ok(Recognition::Unrecognized)) <==> !out1_lead(old(m)@),
        r == MResult::Ok(Recognition::Unrecognized) ==> declined(old(m)@, final(m)@),
        r == MResult::Ok(Recognition::Recognized) ==> final(m)@.output == out1_emitted(old(m)@),
        r == spec_out1(old(m)@).r,
        final(m)@ == spec_out1(old(m)@).m,
    decreases old(m).input@.len() - old(m).pos, 2int,
{
    let ghost orig = old(m)@;
    m.cll(5);
    let res = out1_body(m);
    let ghost before_r = m@;
    proof {
        lemma_call_return(orig.stk, before_r.stk, 5);
    }
    let rc = m.r();
    proof {
        assert(rc == 5);
    }
    res
}

/// The body of `out1`, between its call frame's push and pop.
#[verifier::spinoff_prover]
fn out1_body(m: &mut M) -> (r: MResult)
    requires
        old(m).wf(),
    ensures
        final(m).wf(),
        advances(old(m)@, final(m)@),
        final(m)@.stk == old(m)@.stk,
        r matches Ok(_),
        r == MResult::Ok(Recognition::Recognized) ==> old(m)@.pos < final(m)@.pos,
        (r == MResult::Ok(Recognition::Unrecognized)) <==> !out1_lead(old(m)@),
        r == MResult::Ok(Recognition::Unrecognized) ==> declined(old(m)@, final(m)@),
        r == MResult::Ok(Recognition::Recognized) ==> final(m)@.output == out1_emitted(old(m)@),
        r == spec_out1_body(old(m)@).r,
        final(m)@ == spec_out1_body(old(m)@).m,
    decreases old(m).input@.len() - old(m).pos, 1int,
{
    proof {
        reveal_strlit("*1");
        reveal_strlit("*2");
        reveal_strlit("*");
        lemma_skip_ws(m.input@, m.pos as int);
    }
    let ghost m0 = old(m)@;
    if m.tst("*1") {
        m.cl("GN1");
        m.out();
        return Ok(Recognition::Recognized);
    }
    let ghost m1 = m@;
    proof {
        crate::mvm::lemma_skip_ws_idem(m0.input, m0.pos);
    }
    if m.tst("*2") {
        m.cl("GN2");
        m.out();
        return Ok(Recognition::Recognized);
    }
    if m.tst("*") {
        m.cl("CI");
        m.out();
        return Ok(Recognition::Recognized);
    }
    proof {
        let mv = m@;
        lemma_skip_ws(mv.input, mv.pos);
        let p = skip_ws(mv.input, mv.pos);
        if p < mv.input.len() {
            crate::text::lemma_find_quote(mv.input, p + 1);
        }
    }
    if m.sr() {
        m.cl("CL ");
        m.ci();
        m.out();
        return Ok(Recognition::Recognized);
    }
    proof {
        assert(!out1_lead(m0));
        assert(declined(m0, m@));
    }
    Ok(Recognition::Unrecognized)
}

/// The top two frames are label slots, so the label operations may run.
pub open spec fn slots_ready(stk: Seq<FrameV>) -> bool {
    stk.len() >= 2 && (stk[stk.len() - 1] matches FrameV::Lb(_)) && (stk[stk.len() - 2]
        matches FrameV::Lb(_))
}

/// An output clause: `.OUT( element* )`, or `.LABEL element`, each closed
/// with an `OUT` line.
pub fn output(m: &mut M) -> (r: MResult)
    requires
        old(m).wf(),
    ensures
        final(m).wf(),
        advances(old(m)@, final(m)@),
        final(m)@.stk == old(m)@.stk,
        r == MResult::Ok(Recognition::Recognized) ==> old(m)@.pos < final(m)@.pos,
        (r == MResult::Ok(Recognition::Unrecognized)) <==> !output_lead(old(m)@),
        r == MResult::Ok(Recognition::Unrecognized) ==> declined(old(m)@, final(m)@),
        r == spec_output(old(m)@).r,
        final(m)@ == spec_output(old(m)@).m,
    decreases old(m).input@.len() - old(m).pos, 4int,
{
    let ghost orig = old(m)@;
    m.cll(4);
    let res = output_body(m);
    proof {
        lemma_call_return(orig.stk, m@.stk, 4);
    }
    let rc = m.r();
    proof {
        assert(rc == 4);
    }
    res
}

/// The body of `output`, between its call frame's push and pop.
#[verifier::spinoff_prover]
fn output_body(m: &mut M) -> (r: MResult)
    requires
        old(m).wf(),
    ensures
        final(m).wf(),
        advances(old(m)@, final(m)@),
        final(m)@.stk == old(m)@.stk,
        r == MResult::Ok(Recognition::Recognized) ==> old(m)@.pos < final(m)@.pos,
        (r == MResult::Ok(Recognition::Unrecognized)) <==> !output_lead(old(m)@),
        r == MResult::Ok(Recognition::Unrecognized) ==> declined(old(m)@, final(m)@),
        r == spec_output_body(old(m)@).r,
        final(m)@ == spec_output_body(old(m)@).m,
    decreases old(m).input@.len() - old(m).pos, 3int,
{
    proof {
        reveal_strlit(".OUT");
        reveal_strlit(".LABEL");
        lemma_skip_ws(m.input@, m.pos as int);
    }
    let ghost m0 = old(m)@;
    if m.tst(".OUT") {
        m.tst("(");
        match m.be() {
            Err(e) => {
                return Err(e);
            },
            Ok(_) => {},
        }
        let ghost mloop = m@;
        loop
            invariant_except_break
                spec_out1_list(mloop) == spec_out1_list(m@),
            invariant
                m.wf(),
                advances(m0, m@),
                m@.stk == m0.stk,
                m0.pos < m@.pos,
            ensures
                m.wf(),
                advances(m0, m@),
                m@.stk == m0.stk,
                m0.pos < m@.pos,
                m@ == spec_out1_list(mloop),
            decreases m@.input.len() - m@.pos,
        {
            let ghost mi = m@;
            match out1(m) {
                Ok(Recognition::Recognized) => {
                    proof {
                        assert(spec_out1_list(mi) == spec_out1_list(m@));
                    }
                },
                Ok(Recognition::Unrecognized) => {
                    proof {
                        assert(spec_out1_list(mi) == m@);
                    }
                    break;
                },
                Err(e) => {
                    proof {
                        assert(false);
                    }
                    return Err(e);
                },
            }
        }
        m.tst(")");
        match m.be() {
            Err(e) => {
                return Err(e);
            },
            Ok(_) => {},
        }
        m.cl("OUT");
        m.out();
        Ok(Recognition::Recognized)
    } else {
        proof {
            crate::mvm::lemma_skip_ws_idem(m0.input, m0.pos);
        }
        if m.tst(".LABEL") {
            m.cl("LB");
            m.out();
            match out1(m) {
                Ok(Recognition::Recognized) => {},
                Ok(Recognition::Unrecognized) => {
                    return Err(SynError::Unexpected);
                },
                Err(e) => {
                    proof {
                        assert(false);
                    }
                    return Err(e);
                },
            }
            m.cl("OUT");
            m.out();
            Ok(Recognition::Recognized)
        } else {
            proof {
                assert(!output_lead(m0));
                assert(declined(m0, m@));
            }
            Ok(Recognition::Unrecognized)
        }
    }
}


/// The line `ex3` emits for a primary that compiles to a single
/// instruction line; the parenthesized and `$` forms, whose emission is
/// recursive, yield nothing here.
pub open spec fn ex3_emitted(m: MView) -> Option<Seq<char>> {
    if id_match(m) {
        Option::Some(spec_out(spec_cl(m.output, "CLL"@) + spec_id(m).last))
    } else if sr_match(m) {
        Option::Some(spec_out(spec_cl(m.output, "TST "@) + spec_sr(m).last))
    } else if tst_match(m, ".ID"@) {
        Option::Some(spec_out(spec_cl(m.output, "ID"@)))
    } else if tst_match(m, ".NUMBER"@) {
        Option::Some(spec_out(spec_cl(m.output, "NUM"@)))
    } else if tst_match(m, ".STRING"@) {
        Option::Some(spec_out(spec_cl(m.output, "SR"@)))
    } else if tst_match(m, "("@) {
        Option::None
    } else if tst_match(m, ".EMPTY"@) {
        Option::Some(spec_out(spec_cl(m.output, "SET"@)))
    } else {
        Option::None
    }
}

/// A primary expression: a rule name, a literal, one of the token classes,
/// a parenthesized alternation, `.EMPTY`, or a `$` repetition compiled to a
/// back-edge loop over its own generated label.
#[verifier::spinoff_prover]
pub fn ex3(m: &mut M) -> (r: MResult)
    requires
        old(m).wf(),
    ensures
        final(m).wf(),
        advances(old(m)@, final(m)@),
        final(m)@.stk == old(m)@.stk,
        r == MResult::Ok(Recognition::Recognized) ==> old(m)@.pos < final(m)@.pos,
        (r == MResult::Ok(Recognition::Unrecognized)) <==> !ex3_lead(old(m)@),
        r == MResult::Ok(Recognition::Unrecognized) ==> declined(old(m)@, final(m)@),
        (r == MResult::Ok(Recognition::Recognized) && ex3_emitted(old(m)@) is Some)
            ==> final(m)@.output == ex3_emitted(old(m)@)->0,
        r == spec_ex3(old(m)@).r,
        final(m)@ == spec_ex3(old(m)@).m,
    decreases old(m).input@.len() - old(m).pos, 6int,
{
    let ghost orig = old(m)@;
    m.cll(3);
    let res = ex3_body(m);
    proof {
        lemma_call_return(orig.stk, m@.stk, 3);
    }
    let rc = m.r();
    proof {
        assert(rc == 3);
    }
    res
}

/// The body of `ex3`, between its call frame's push and pop. It may fill
/// the frame's A-slot through `GN1`.
#[verifier::spinoff_prover]
fn ex3_body(m: &mut M) -> (r: MResult)
    requires
        old(m).wf(),
        slots_ready(old(m)@.stk),
    ensures
        final(m).wf(),
        advances(old(m)@, final(m)@),
        slots_only(old(m)@.stk, final(m)@.stk),
        r == MResult::Ok(Recognition::Recognized) ==> old(m)@.pos < final(m)@.pos,
        (r == MResult::Ok(Recognition::Unrecognized)) <==> !ex3_lead(old(m)@),
        r == MResult::Ok(Recognition::Unrecognized) ==> declined(old(m)@, final(m)@),
        (r == MResult::Ok(Recognition::Recognized) && ex3_emitted(old(m)@) is Some)
            ==> final(m)@.output == ex3_emitted(old(m)@)->0,
        r == spec_ex3_body(old(m)@).r,
        final(m)@ == spec_ex3_body(old(m)@).m,
    decreases old(m).input@.len() - old(m).pos, 5int,
{
    proof {
        reveal_strlit(".ID");
        reveal_strlit(".NUMBER");
        reveal_strlit(".STRING");
        reveal_strlit("(");
        reveal_strlit(")");
        reveal_strlit(".EMPTY");
        reveal_strlit("$");
        lemma_skip_ws(m.input@, m.pos as int);
    }
    let ghost m0 = old(m)@;
    if m.id() {
        m.cl("CLL");
        m.ci();
        m.out();
        return Ok(Recognition::Recognized);
    }
    proof {
        crate::mvm::lemma_skip_ws_idem(m0.input, m0.pos);
        let mv = m@;
        let p = skip_ws(mv.input, mv.pos);
        if p < mv.input.len() {
            crate::text::lemma_find_quote(mv.input, p + 1);
        }
    }
    if m.sr() {
        m.cl("TST ");
        m.ci();
        m.out();
        return Ok(Recognition::Recognized);
    }
    if m.tst(".ID") {
        m.cl("ID");
        m.out();
        return Ok(Recognition::Recognized);
    }
    if m.tst(".NUMBER") {
        m.cl("NUM");
        m.out();
        return Ok(Recognition::Recognized);
    }
    if m.tst(".STRING") {
        m.cl("SR");
        m.out();
        return Ok(Recognition::Recognized);
    }
    if m.tst("(") {
        match ex1(m) {
            Err(e) => {
                return Err(e);
            },
            Ok(Recognition::Unrecognized) => {
                return Err(SynError::Unexpected);
            },
            Ok(Recognition::Recognized) => {},
        }
        m.tst(")");
        match m.be() {
            Err(e) => {
                return Err(e);
            },
            Ok(_) => {},
        }
        return Ok(Recognition::Recognized);
    }
    if m.tst(".EMPTY") {
        m.cl("SET");
        m.out();
        return Ok(Recognition::Recognized);
    }
    if m.tst("$") {
        m.lb();
        let ghost mga = m@;
        m.gn1();
        proof {
            crate::mvm::lemma_slots_gn1(m0.stk, mga);
        }
        m.out();
        match ex3(m) {
            Err(e) => {
                return Err(e);
            },
            Ok(Recognition::Unrecognized) => {
                return Err(SynError::Unexpected);
            },
            Ok(Recognition::Recognized) => {},
        }
        m.cl("BT ");
        let ghost mgb = m@;
        m.gn1();
        proof {
            crate::mvm::lemma_slots_gn1(m0.stk, mgb);
        }
        m.out();
        m.cl("SET");
        m.out();
        return Ok(Recognition::Recognized);
    }
    proof {
        assert(!ex3_lead(m0));
        assert(declined(m0, m@));
    }
    Ok(Recognition::Unrecognized)
}

/// A sequence of primaries and output clauses, each primary guarded by
/// `BE`, the whole closed by its generated join label.
#[verifier::rlimit(60)]
pub fn ex2(m: &mut M) -> (r: MResult)
    requires
        old(m).wf(),
    ensures
        final(m).wf(),
        advances(old(m)@, final(m)@),
        final(m)@.stk == old(m)@.stk,
        r == MResult::Ok(Recognition::Recognized) ==> old(m)@.pos < final(m)@.pos,
        (r == MResult::Ok(Recognition::Unrecognized)) <==> !ex2_lead(old(m)@),
        r == MResult::Ok(Recognition::Unrecognized) ==> declined(old(m)@, final(m)@),
        r == spec_ex2(old(m)@).r,
        final(m)@ == spec_ex2(old(m)@).m,
    decreases old(m).input@.len() - old(m).pos, 8int,
{
    let ghost orig = old(m)@;
    m.cll(2);
    let res = ex2_body(m);
    proof {
        lemma_call_return(orig.stk, m@.stk, 2);
    }
    let rc = m.r();
    proof {
        assert(rc == 2);
    }
    res
}

/// The body of `ex2`, between its call frame's push and pop. It may fill
/// the frame's A-slot through `GN1`.
#[verifier::spinoff_prover]
fn ex2_body(m: &mut M) -> (r: MResult)
    requires
        old(m).wf(),
        slots_ready(old(m)@.stk),
    ensures
        final(m).wf(),
        advances(old(m)@, final(m)@),
        slots_only(old(m)@.stk, final(m)@.stk),
        r == MResult::Ok(Recognition::Recognized) ==> old(m)@.pos < final(m)@.pos,
        (r == MResult::Ok(Recognition::Unrecognized)) <==> !ex2_lead(old(m)@),
        r == MResult::Ok(Recognition::Unrecognized) ==> declined(old(m)@, final(m)@),
        r == spec_ex2_body(old(m)@).r,
        final(m)@ == spec_ex2_body(old(m)@).m,
    decreases old(m).input@.len() - old(m).pos, 7int,
{
    let ghost m0 = old(m)@;
    match ex3(m) {
        Err(e) => {
            return Err(e);
        },
        Ok(Recognition::Recognized) => {
            m.cl("BF ");
            let ghost mg = m@;
            m.gn1();
            proof {
                crate::mvm::lemma_slots_gn1(m0.stk, mg);
            }
            m.out();
        },
        Ok(Recognition::Unrecognized) => {
            proof {
                crate::mvm::lemma_skip_ws_idem(m0.input, m0.pos);
                lemma_skip_ws(m0.input, m0.pos);
            }
            match output(m) {
                Err(e) => {
                    return Err(e);
                },
                Ok(Recognition::Unrecognized) => {
                    proof {
                        assert(!ex2_lead(m0));
                        assert(declined(m0, m@));
                    }
                    return Ok(Recognition::Unrecognized);
                },
                Ok(Recognition::Recognized) => {},
            }
        },
    }
    let ghost m1v = m@;
    proof {
        assert(spec_ex2_body(m0) == spec_ex2_rest(m0, m1v));
    }
    loop
        invariant_except_break
            spec_ex2_tail(m1v) == spec_ex2_tail(m@),
        invariant
            m0 == old(m)@,
            ex2_lead(m0),
            m.wf(),
            advances(m0, m@),
            slots_only(m0.stk, m@.stk),
            m0.pos < m@.pos,
            moved_ahead(m0, m1v),
            spec_ex2_body(m0) == spec_ex2_rest(m0, m1v),
        ensures
            m.wf(),
            advances(m0, m@),
            slots_only(m0.stk, m@.stk),
            m0.pos < m@.pos,
            spec_ex2_body(m0) == spec_ex2_rest(m0, m1v),
            (spec_ex2_tail(m1v) == (TransV {
                r: MResult::Ok(Recognition::Recognized),
                m: m@,
            })),
        decreases m@.input.len() - m@.pos,
    {
        let ghost mi = m@;
        match ex3(m) {
            Err(e) => {
                proof {
                    assert(spec_ex2_tail(mi) == (TransV {
                        r: MResult::Err(SynError::Unexpected),
                        m: m@,
                    }));
                }
                return Err(e);
            },
            Ok(Recognition::Recognized) => {
                m.cl("BE");
                m.out();
                proof {
                    assert(spec_ex2_tail(mi) == spec_ex2_tail(m@));
                }
            },
            Ok(Recognition::Unrecognized) => {
                proof {
                    crate::mvm::lemma_skip_ws_idem(mi.input, mi.pos);
                    lemma_skip_ws(mi.input, mi.pos);
                }
                match output(m) {
                    Err(e) => {
                        proof {
                            assert(spec_ex2_tail(mi) == (TransV {
                                r: MResult::Err(SynError::Unexpected),
                                m: m@,
                            }));
                        }
                        return Err(e);
                    },
                    Ok(Recognition::Unrecognized) => {
                        proof {
                            assert(spec_ex2_tail(mi) == (TransV {
                                r: MResult::Ok(Recognition::Recognized),
                                m: m@,
                            }));
                        }
                        break;
                    },
                    Ok(Recognition::Recognized) => {
                        proof {
                            assert(spec_ex2_tail(mi) == spec_ex2_tail(m@));
                        }
                    },
                }
            },
        }
    }
    m.lb();
    let ghost mg2 = m@;
    m.gn1();
    proof {
        crate::mvm::lemma_slots_gn1(m0.stk, mg2);
    }
    m.out();
    proof {
        assert(spec_ex2_body(m0).m =~= m@);
    }
    Ok(Recognition::Recognized)
}

/// An alternation: sequences joined by `/`, each interim guarded by a
/// branch to the shared join label, the whole inside one call frame.
#[verifier::rlimit(100)]
#[verifier::spinoff_prover]
pub fn ex1(m: &mut M) -> (r: MResult)
    requires
        old(m).wf(),
    ensures
        final(m).wf(),
        advances(old(m)@, final(m)@),
        final(m)@.stk == old(m)@.stk,
        r == MResult::Ok(Recognition::Recognized) ==> old(m)@.pos < final(m)@.pos,
        (r == MResult::Ok(Recognition::Unrecognized)) <==> !ex2_lead(old(m)@),
        r == MResult::Ok(Recognition::Unrecognized) ==> declined(old(m)@, final(m)@),
        r == spec_ex1(old(m)@).r,
        final(m)@ == spec_ex1(old(m)@).m,
    decreases old(m).input@.len() - old(m).pos, 9int,
{
    proof {
        reveal_strlit("/");
    }
    let ghost orig = old(m)@;
    m.cll(1);
    match ex2(m) {
        Err(e) => {
            proof {
                reveal(spec_ex1);
                assert(spec_ex1(orig) == frame_out(TransV {
                    r: MResult::Err(SynError::Unexpected),
                    m: m@,
                }));
                lemma_call_return(orig.stk, m@.stk, 1);
            }
            let rc = m.r();
            return Err(e);
        },
        Ok(Recognition::Unrecognized) => {
            proof {
                reveal(spec_ex1);
                assert(spec_ex1(orig) == frame_out(TransV {
                    r: MResult::Ok(Recognition::Unrecognized),
                    m: m@,
                }));
                lemma_call_return(orig.stk, m@.stk, 1);
            }
            let rc = m.r();
            proof {
                assert(declined(orig, m@));
            }
            return Ok(Recognition::Unrecognized);
        },
        Ok(Recognition::Recognized) => {},
    }
    let ghost mt = m@;
    loop
        invariant_except_break
            spec_ex1_tail(mt) == spec_ex1_tail(m@),
        invariant
            orig == old(m)@,
            ex2_lead(orig),
            m.wf(),
            advances(orig, m@),
            slots_only(spec_cll_stk(orig.stk, 1), m@.stk),
            orig.pos < m@.pos,
            moved_ahead(orig, mt),
            (spec_ex2(spec_cll(orig, 1)) == (TransV {
                r: MResult::Ok(Recognition::Recognized),
                m: mt,
            })),
        ensures
            m.wf(),
            advances(orig, m@),
            slots_only(spec_cll_stk(orig.stk, 1), m@.stk),
            orig.pos < m@.pos,
            (spec_ex2(spec_cll(orig, 1)) == (TransV {
                r: MResult::Ok(Recognition::Recognized),
                m: mt,
            })),
            moved_ahead(orig, mt),
            (spec_ex1_tail(mt) == (TransV { r: MResult::Ok(Recognition::Recognized), m: m@ })),
        decreases m@.input.len() - m@.pos,
    {
        let ghost mi = m@;
        if !m.tst("/") {
            proof {
                assert(spec_ex1_tail(mi) == (TransV {
                    r: MResult::Ok(Recognition::Recognized),
                    m: m@,
                }));
            }
            break;
        }
        m.cl("BT ");
        let ghost mgc = m@;
        m.gn1();
        proof {
            crate::mvm::lemma_slots_gn1(spec_cll_stk(orig.stk, 1), mgc);
        }
        m.out();
        match ex2(m) {
            Err(e) => {
                proof {
                    assert(spec_ex1_tail(mi) == (TransV {
                        r: MResult::Err(SynError::Unexpected),
                        m: m@,
                    }));
                    reveal(spec_ex1);
                    assert(spec_ex1(orig) == frame_out(TransV {
                        r: MResult::Err(SynError::Unexpected),
                        m: m@,
                    }));
                    lemma_call_return(orig.stk, m@.stk, 1);
                }
                let rc = m.r();
                return Err(e);
            },
            Ok(Recognition::Unrecognized) => {
                proof {
                    assert(spec_ex1_tail(mi) == (TransV {
                        r: MResult::Err(SynError::Unexpected),
                        m: m@,
                    }));
                    reveal(spec_ex1);
                    assert(spec_ex1(orig) == frame_out(TransV {
                        r: MResult::Err(SynError::Unexpected),
                        m: m@,
                    }));
                    lemma_call_return(orig.stk, m@.stk, 1);
                }
                let rc = m.r();
                return Err(SynError::Unexpected);
            },
            Ok(Recognition::Recognized) => {
                proof {
                    assert(spec_ex1_tail(mi) == spec_ex1_tail(m@));
                }
            },
        }
    }
    m.lb();
    let ghost mgd = m@;
    m.gn1();
    proof {
        crate::mvm::lemma_slots_gn1(spec_cll_stk(orig.stk, 1), mgd);
    }
    m.out();
    proof {
        reveal(spec_ex1);
        assert(m@ == spec_rule_close(spec_ex1_tail(mt).m));
        assert(spec_ex1(orig) == frame_out(TransV {
            r: MResult::Ok(Recognition::Recognized),
            m: m@,
        }));
        lemma_call_return(orig.stk, m@.stk, 1);
    }
    let rc = m.r();
    proof {
        assert(rc == 1);
    }
    Ok(Recognition::Recognized)
}

/// One rule: a name, `=`, an alternation, `;`, closed with an `R` line; the
/// rule's name becomes a label line.
#[verifier::spinoff_prover]
pub fn st(m: &mut M) -> (r: MResult)
    requires
        old(m).wf(),
    ensures
        final(m).wf(),
        advances(old(m)@, final(m)@),
        final(m)@.stk == old(m)@.stk,
        r == MResult::Ok(Recognition::Recognized) ==> old(m)@.pos < final(m)@.pos,
        (r == MResult::Ok(Recognition::Unrecognized)) <==> !id_match(old(m)@),
        r == MResult::Ok(Recognition::Unrecognized) ==> declined(old(m)@, final(m)@),
        r == spec_st(old(m)@).r,
        final(m)@ == spec_st(old(m)@).m,
    decreases old(m).input@.len() - old(m).pos, 10int,
{
    proof {
        reveal_strlit("=");
        reveal_strlit(";");
        lemma_skip_ws(m.input@, m.pos as int);
    }
    let ghost m0 = old(m)@;
    if !m.id() {
        proof {
            assert(declined(m0, m@));
        }
        return Ok(Recognition::Unrecognized);
    }
    m.lb();
    m.ci();
    m.out();
    m.tst("=");
    match m.be() {
        Err(e) => {
            return Err(e);
        },
        Ok(_) => {},
    }
    match ex1(m) {
        Err(e) => {
            return Err(e);
        },
        Ok(Recognition::Unrecognized) => {
            return Err(SynError::Unexpected);
        },
        Ok(Recognition::Recognized) => {},
    }
    m.tst(";");
    match m.be() {
        Err(e) => {
            return Err(e);
        },
        Ok(_) => {},
    }
    m.cl("R");
    m.out();
    Ok(Recognition::Recognized)
}

/// A whole syntax description: `.SYNTAX name`, the rules, `.END`; the
/// translation opens with an `ADR` line naming the first rule and closes
/// with `END`.
#[verifier::spinoff_prover]
pub fn program(m: &mut M) -> (r: MResult)
    requires
        old(m).wf(),
    ensures
        final(m).wf(),
        advances(old(m)@, final(m)@),
        final(m)@.stk == old(m)@.stk,
        r == MResult::Ok(Recognition::Recognized) ==> old(m)@.pos < final(m)@.pos,
        (r == MResult::Ok(Recognition::Unrecognized)) <==> !tst_match(old(m)@, ".SYNTAX"@),
        r == MResult::Ok(Recognition::Unrecognized) ==> declined(old(m)@, final(m)@),
        r == spec_program(old(m)@).r,
        final(m)@ == spec_program(old(m)@).m,
    decreases old(m).input@.len() - old(m).pos, 11int,
{
    proof {
        reveal_strlit(".SYNTAX");
        reveal_strlit(".END");
        lemma_skip_ws(m.input@, m.pos as int);
    }
    let ghost m0 = old(m)@;
    if !m.tst(".SYNTAX") {
        proof {
            assert(declined(m0, m@));
        }
        return Ok(Recognition::Unrecognized);
    }
    m.id();
    match m.be() {
        Err(e) => {
            return Err(e);
        },
        Ok(_) => {},
    }
    m.cl("ADR");
    m.ci();
    m.out();
    let ghost ml = m@;
    proof {
        assert(spec_program(m0) == spec_program_rest(ml));
    }
    loop
        invariant_except_break
            spec_st_list(ml) == spec_st_list(m@),
        invariant
            m0 == old(m)@,
            tst_match(m0, ".SYNTAX"@),
            m.wf(),
            advances(m0, m@),
            m@.stk == m0.stk,
            m0.pos < m@.pos,
            spec_program(m0) == spec_program_rest(ml),
        ensures
            m.wf(),
            advances(m0, m@),
            m@.stk == m0.stk,
            m0.pos < m@.pos,
            spec_program(m0) == spec_program_rest(ml),
            (spec_st_list(ml) == (TransV { r: MResult::Ok(Recognition::Recognized), m: m@ })),
        decreases m@.input.len() - m@.pos,
    {
        let ghost mi = m@;
        match st(m) {
            Err(e) => {
                proof {
                    assert(spec_st_list(mi) == (TransV {
                        r: MResult::Err(SynError::Unexpected),
                        m: m@,
                    }));
                }
                return Err(e);
            },
            Ok(Recognition::Recognized) => {
                proof {
                    assert(spec_st_list(mi) == spec_st_list(m@));
                }
            },
            Ok(Recognition::Unrecognized) => {
                proof {
                    assert(spec_st_list(mi) == (TransV {
                        r: MResult::Ok(Recognition::Recognized),
                        m: m@,
                    }));
                }
                break;
            },
        }
    }
    m.tst(".END");
    match m.be() {
        Err(e) => {
            return Err(e);
        },
        Ok(_) => {},
    }
    m.cl("END");
    m.out();
    Ok(Recognition::Recognized)
}

} // verus!
