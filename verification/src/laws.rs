//! The laws the machines obey, stated over the spec-level transitions that
//! the executable operations are verified against. Each is a theorem a
//! reader can hold the machine to without re-reading the implementations.

use vstd::prelude::*;
use crate::mvm::{
    MView, MInstrV, MStatus, ExecV, run, spec_tst, spec_id, spec_num, spec_sr, spec_gn1,
    spec_gn2, spec_cl, spec_out, spec_lb, gn1_allowed, gn2_allowed, a_label, b_label, spaces8,
};
use crate::text::{
    skip_ws, lemma_skip_ws, lemma_alnum_end, lemma_num_end, lemma_find_quote, after_last_nl,
    lemma_after_last_nl,
};
use crate::assembler::{RInstrV, AsmErrorV, spec_resolve_instr, spec_resolve_from};

verus! {

/// After any scanning primitive the position has not moved backwards and
/// still lies inside the input; chained over a run of calls this says the
/// scanner only ever moves forward.
pub proof fn law_scan_monotone(m: MView, s: Seq<char>)
    requires
        0 <= m.pos <= m.input.len(),
    ensures
        m.pos <= spec_tst(m, s).pos <= m.input.len(),
        m.pos <= spec_id(m).pos <= m.input.len(),
        m.pos <= spec_num(m).pos <= m.input.len(),
        m.pos <= spec_sr(m).pos <= m.input.len(),
{
    lemma_skip_ws(m.input, m.pos);
    let p = skip_ws(m.input, m.pos);
    lemma_alnum_end(m.input, p);
    lemma_num_end(m.input, p);
    if p < m.input.len() {
        lemma_find_quote(m.input, p + 1);
    }
}

/// When a scanning primitive leaves the switch on, `last` is a contiguous
/// substring of the input that ends exactly at the new position.
pub proof fn law_last_ends_at_pos(m: MView, s: Seq<char>)
    requires
        0 <= m.pos <= m.input.len(),
    ensures
        spec_tst(m, s).sw ==> exists|st: int|
            0 <= st <= spec_tst(m, s).pos && spec_tst(m, s).last == m.input.subrange(
                st,
                spec_tst(m, s).pos,
            ),
        spec_id(m).sw ==> exists|st: int|
            0 <= st <= spec_id(m).pos && spec_id(m).last == m.input.subrange(
                st,
                spec_id(m).pos,
            ),
        spec_num(m).sw ==> exists|st: int|
            0 <= st <= spec_num(m).pos && spec_num(m).last == m.input.subrange(
                st,
                spec_num(m).pos,
            ),
        spec_sr(m).sw ==> exists|st: int|
            0 <= st <= spec_sr(m).pos && spec_sr(m).last == m.input.subrange(
                st,
                spec_sr(m).pos,
            ),
{
    lemma_skip_ws(m.input, m.pos);
    let p = skip_ws(m.input, m.pos);
    lemma_alnum_end(m.input, p);
    lemma_num_end(m.input, p);
    if p < m.input.len() {
        lemma_find_quote(m.input, p + 1);
    }
    if spec_tst(m, s).sw {
        assert(spec_tst(m, s).last == m.input.subrange(p, spec_tst(m, s).pos));
    }
    if spec_id(m).sw {
        assert(spec_id(m).last == m.input.subrange(p, spec_id(m).pos));
    }
    if spec_num(m).sw {
        assert(spec_num(m).last == m.input.subrange(p, spec_num(m).pos));
    }
    if spec_sr(m).sw {
        assert(spec_sr(m).last == m.input.subrange(p, spec_sr(m).pos));
    }
}

/// Within one call frame, a repeated `GN1` emits the very label the first
/// one did, and allocates nothing new.
pub proof fn law_gn1_stable(m: MView)
    requires
        gn1_allowed(m.stk),
    ensures
        ({
            let b = spec_gn1(m);
            let lab = b.stk[b.stk.len() - 2]->Lb_0;
            b.output == m.output + lab + seq![' '] && spec_gn1(b).output == b.output + lab + seq![
                ' ',
            ] && spec_gn1(b).a_cnt == b.a_cnt && spec_gn1(b).stk == b.stk
        }),
{
}

/// Within one call frame, a repeated `GN2` emits the very label the first
/// one did, and allocates nothing new.
pub proof fn law_gn2_stable(m: MView)
    requires
        gn2_allowed(m.stk),
    ensures
        ({
            let b = spec_gn2(m);
            let lab = b.stk[b.stk.len() - 1]->Lb_0;
            b.output == m.output + lab + seq![' '] && spec_gn2(b).output == b.output + lab + seq![
                ' ',
            ] && spec_gn2(b).b_cnt == b.b_cnt && spec_gn2(b).stk == b.stk
        }),
{
}

/// An A-label never collides with a B-label.
pub proof fn law_ab_labels_distinct(i: int, j: int)
    ensures
        a_label(i) != b_label(j),
{
    assert(a_label(i)[0] == 'A');
    assert(b_label(j)[0] == 'B');
}

/// Below the saturation point the A-counter increases strictly when `GN1`
/// fills an empty slot; the B-counter likewise for `GN2`.
pub proof fn law_counters_strict(m: MView)
    requires
        gn1_allowed(m.stk),
        gn2_allowed(m.stk),
        m.a_cnt < 65535,
        m.b_cnt < 65535,
    ensures
        m.stk[m.stk.len() - 2]->Lb_0.len() == 0 ==> spec_gn1(m).a_cnt == m.a_cnt + 1,
        m.stk[m.stk.len() - 1]->Lb_0.len() == 0 ==> spec_gn2(m).b_cnt == m.b_cnt + 1,
{
}

/// `LB; CL s; OUT` yields a line holding `s` and a space at column 0: the
/// reopened buffer ends at a line start, and the emitted text stands
/// directly there, closed by the newline `OUT` appends.
pub proof fn law_label_line(out: Seq<char>, s: Seq<char>)
    ensures
        ({
            let base = spec_lb(out);
            let o = spec_out(spec_cl(base, s));
            (base.len() == 0 || base.last() == '\n') && o =~= base + s + seq![' '] + seq!['\n']
                + spaces8() && o.subrange(base.len() as int, base.len() + s.len() + 1 as int) =~= s
                + seq![' ']
        }),
{
    lemma_after_last_nl(out);
}

/// On a fresh line — the output just closed by `OUT` — a bare `CL t` puts
/// `t` at column 8, the indentation column.
pub proof fn law_indented_line(out: Seq<char>, t: Seq<char>)
    ensures
        ({
            let o = spec_cl(spec_out(out), t);
            let line_start = after_last_nl(spec_out(out));
            spec_out(out).len() - line_start == 8 && o.subrange(
                line_start + 8,
                line_start + 8 + t.len(),
            ) =~= t
        }),
{
    let closed = spec_out(out);
    assert(closed[closed.len() - 9] == '\n');
    assert forall|j: int| closed.len() - 8 <= j < closed.len() implies closed[j] != '\n' by {
        assert(closed[j] == spaces8()[j - (closed.len() - 8)]);
    }
    lemma_after_last_nl(closed);
    if after_last_nl(closed) < closed.len() - 8 {
        assert(closed[closed.len() - 9] != '\n');
    }
    let o = spec_cl(closed, t);
    assert(forall|k: int|
        0 <= k < t.len() ==> #[trigger] o[after_last_nl(closed) + 8 + k] == t[k]);
}


/// Over a whole run of the translator machine — any program, any number of
/// steps — the input text never changes, and the scanner's position never
/// moves backwards and never leaves the input.
pub proof fn law_run_scans_forward(pgm: Seq<MInstrV>, s: ExecV, n: nat)
    requires
        0 <= s.m.pos <= s.m.input.len(),
    ensures
        run(pgm, s, n).m.input == s.m.input,
        s.m.pos <= run(pgm, s, n).m.pos <= s.m.input.len(),
    decreases n,
{
    if n > 0 {
        law_run_scans_forward(pgm, s, (n - 1) as nat);
        let prev = run(pgm, s, (n - 1) as nat);
        if prev.status matches MStatus::Running && 0 <= prev.ic < pgm.len() {
            match pgm[prev.ic] {
                MInstrV::TST(t) => law_scan_monotone(prev.m, t),
                MInstrV::ID => law_scan_monotone(prev.m, Seq::empty()),
                MInstrV::NUM => law_scan_monotone(prev.m, Seq::empty()),
                MInstrV::SR => law_scan_monotone(prev.m, Seq::empty()),
                _ => {},
            }
        }
    }
}

/// Whether one instruction resolves.
pub open spec fn resolvable(
    r: RInstrV,
    labels: Map<Seq<char>, u32>,
    ic: Map<u32, usize>,
    pgm_len: int,
) -> bool {
    spec_resolve_instr(r, labels, ic, pgm_len) is Ok
}

/// The assembly identity, first half: a program whose label references all
/// resolve assembles — the resolution pass succeeds if and only if every
/// instruction resolves.
pub proof fn law_resolvable_assembles(
    instrs: Seq<RInstrV>,
    labels: Map<Seq<char>, u32>,
    ic: Map<u32, usize>,
    pgm_len: int,
    i: int,
)
    requires
        0 <= i <= instrs.len(),
    ensures
        (spec_resolve_from(instrs, labels, ic, pgm_len, i) is Ok) <==> (forall|j: int|
            i <= j < instrs.len() ==> resolvable(#[trigger] instrs[j], labels, ic, pgm_len)),
    decreases instrs.len() - i,
{
    if i < instrs.len() {
        law_resolvable_assembles(instrs, labels, ic, pgm_len, i + 1);
    }
}

/// The assembly identity, second half: when resolution fails over an
/// unknown label, that label is referenced by some instruction and is
/// absent from the label map — and the failure's message carries it.
pub proof fn law_unknown_label_reported(
    instrs: Seq<RInstrV>,
    labels: Map<Seq<char>, u32>,
    ic: Map<u32, usize>,
    pgm_len: int,
    i: int,
    l: Seq<char>,
)
    requires
        0 <= i <= instrs.len(),
        spec_resolve_from(instrs, labels, ic, pgm_len, i) == Result::<
            Seq<RInstrV>,
            AsmErrorV,
        >::Err(AsmErrorV::UnknownLabel(l)),
    ensures
        !labels.contains_key(l),
        exists|j: int|
            i <= j < instrs.len() && (((#[trigger] instrs[j]) matches RInstrV::Branch(
                _,
                lbl,
                _,
            ) && lbl == l) || (instrs[j] matches RInstrV::MemRef(_, lbl, _) && lbl == l)),
    decreases instrs.len() - i,
{
    if spec_resolve_instr(instrs[i], labels, ic, pgm_len) == Result::<RInstrV, AsmErrorV>::Err(
        AsmErrorV::UnknownLabel(l),
    ) {
        assert((instrs[i] matches RInstrV::Branch(_, lbl, _) && lbl == l) || (instrs[i]
            matches RInstrV::MemRef(_, lbl, _) && lbl == l));
    } else {
        if spec_resolve_instr(instrs[i], labels, ic, pgm_len) is Ok {
            law_unknown_label_reported(instrs, labels, ic, pgm_len, i + 1, l);
        }
    }
}

/// A print-area write that starts before column 0 or would run past column
/// 100 changes nothing.
pub proof fn law_edt_out_of_range(area: Seq<char>, n: int, s: Seq<char>)
    requires
        n < 0 || n + s.len() > 100,
    ensures
        crate::avm::spec_edt_area(area, n, s) == area,
{
}

} // verus!
