//! The Meta Virtual Machine: a pointer-advancing scanner over a source text,
//! a recognition switch, a recursion-and-label stack, and a line-oriented
//! output buffer. Each public operation is one machine instruction; the spec
//! functions beside them are the machine's transition relation, which the
//! interpreter is verified against step by step.

use vstd::prelude::*;
use crate::text::{
    is_alpha_char, is_digit_char, skip_ws, alnum_end, num_end, find_quote, after_last_nl,
    dec3_digits, skip_ws_from, alnum_end_from, num_end_from, find_quote_from, copy_range,
    matches_at, dec3_string, lemma_skip_ws, lemma_alnum_end, lemma_num_end,
    lemma_after_last_nl,
};

verus! {

/// Outcome of a recognizing step that can only succeed or leave the input
/// unrecognized.
#[derive(Debug, PartialEq, Eq, Structural)]
pub enum Recognition {
    Recognized,
    Unrecognized,
}

/// The one failure a running translator reports: the source text did not
/// match where the program demanded it must.
#[derive(Debug, PartialEq, Eq, Structural)]
pub enum SynError {
    Unexpected,
}

pub type MResult = Result<Recognition, SynError>;

/// One frame of the machine stack: a label slot, or a return marker.
#[derive(Debug)]
pub enum StackVal {
    Lb(String),
    Back { ric: usize, blanks: bool },
}

/// The view of a stack frame.
pub enum FrameV {
    Lb(Seq<char>),
    Back { ric: int, blanks: bool },
}

impl View for StackVal {
    type V = FrameV;

    open spec fn view(&self) -> FrameV {
        match self {
            StackVal::Lb(s) => FrameV::Lb(s@),
            StackVal::Back { ric, blanks } => FrameV::Back { ric: *ric as int, blanks: *blanks },
        }
    }
}

/// The views of a stack of frames.
pub open spec fn frames_of(stk: Seq<StackVal>) -> Seq<FrameV> {
    Seq::new(stk.len(), |i: int| stk[i]@)
}

/// The whole machine state, mathematically.
#[verifier::ext_equal]
pub struct MView {
    pub input: Seq<char>,
    pub pos: int,
    pub sw: bool,
    pub last: Seq<char>,
    pub a_cnt: int,
    pub b_cnt: int,
    pub output: Seq<char>,
    pub stk: Seq<FrameV>,
}

/// The eight spaces standing for one indentation column.
pub open spec fn spaces8() -> Seq<char> {
    seq![' ', ' ', ' ', ' ', ' ', ' ', ' ', ' ']
}

/// What `TST s` does: skip whitespace, then match `s` verbatim.
pub open spec fn spec_tst(m: MView, s: Seq<char>) -> MView {
    let p = skip_ws(m.input, m.pos);
    if p + s.len() <= m.input.len() && m.input.subrange(p, p + s.len()) == s {
        MView { pos: p + s.len(), sw: true, last: m.input.subrange(p, p + s.len()), ..m }
    } else {
        MView { pos: p, sw: false, ..m }
    }
}

/// What `ID` does: skip whitespace, then take a letter followed by letters
/// and digits.
pub open spec fn spec_id(m: MView) -> MView {
    let p = skip_ws(m.input, m.pos);
    if p < m.input.len() && is_alpha_char(m.input[p]) {
        let e = alnum_end(m.input, p);
        MView { pos: e, sw: true, last: m.input.subrange(p, e), ..m }
    } else {
        MView { pos: p, sw: false, ..m }
    }
}

/// A run of digits and dots that ends in a dot or holds two adjacent dots is
/// not a number.
pub open spec fn has_double_dot(s: Seq<char>) -> bool {
    exists|k: int| 0 <= k < s.len() - 1 && #[trigger] s[k] == '.' && s[k + 1] == '.'
}

/// What `NUM` does: skip whitespace, then take digits with embedded dots,
/// rejecting a trailing dot and adjacent dots without consuming.
pub open spec fn spec_num(m: MView) -> MView {
    let p = skip_ws(m.input, m.pos);
    if p < m.input.len() && is_digit_char(m.input[p]) {
        let e = num_end(m.input, p);
        let tok = m.input.subrange(p, e);
        if tok.last() == '.' || has_double_dot(tok) {
            MView { pos: p, sw: false, ..m }
        } else {
            MView { pos: e, sw: true, last: tok, ..m }
        }
    } else {
        MView { pos: p, sw: false, ..m }
    }
}

/// What `SR` does: skip whitespace, then take a quoted string, quotes
/// included in the matched span.
pub open spec fn spec_sr(m: MView) -> MView {
    let p = skip_ws(m.input, m.pos);
    if p < m.input.len() && m.input[p] == '\'' {
        let q = find_quote(m.input, p + 1);
        let e = if q < m.input.len() {
            q + 1
        } else {
            m.input.len() as int
        };
        let tok = m.input.subrange(p, e);
        if tok.last() == '\'' {
            MView { pos: e, sw: true, last: tok, ..m }
        } else {
            MView { pos: p, sw: false, ..m }
        }
    } else {
        MView { pos: p, sw: false, ..m }
    }
}

/// Is this frame an empty label slot?
pub open spec fn is_blank_slot(f: FrameV) -> bool {
    f matches FrameV::Lb(s) && s.len() == 0
}

/// What `CLL target` does to the stack: collapse two adjacent empty label
/// slots below the new frame if both are present, then push the return
/// marker and two fresh slots.
pub open spec fn spec_cll_stk(stk: Seq<FrameV>, ric: int) -> Seq<FrameV> {
    if stk.len() >= 2 && is_blank_slot(stk[stk.len() - 1]) && is_blank_slot(stk[stk.len() - 2]) {
        stk.take(stk.len() - 2) + seq![
            FrameV::Back { ric, blanks: true },
            FrameV::Lb(Seq::empty()),
            FrameV::Lb(Seq::empty()),
        ]
    } else {
        stk + seq![
            FrameV::Back { ric, blanks: false },
            FrameV::Lb(Seq::empty()),
            FrameV::Lb(Seq::empty()),
        ]
    }
}

pub open spec fn spec_cll(m: MView, ric: int) -> MView {
    MView { stk: spec_cll_stk(m.stk, ric), ..m }
}

/// `R` finds its return marker three frames down.
pub open spec fn r_allowed(stk: Seq<FrameV>) -> bool {
    stk.len() >= 3 && stk[stk.len() - 3] matches FrameV::Back { .. }
}

/// The return target `R` pops.
pub open spec fn spec_r_ric(stk: Seq<FrameV>) -> int
    recommends
        r_allowed(stk),
{
    stk[stk.len() - 3]->Back_ric
}

/// What `R` does to the stack: drop the top three frames, and restore the
/// two empty slots the matching call collapsed, if it did.
pub open spec fn spec_r_stk(stk: Seq<FrameV>) -> Seq<FrameV>
    recommends
        r_allowed(stk),
{
    if stk[stk.len() - 3]->Back_blanks {
        stk.take(stk.len() - 3) + seq![FrameV::Lb(Seq::empty()), FrameV::Lb(Seq::empty())]
    } else {
        stk.take(stk.len() - 3)
    }
}

/// What `CL s` does: the text and one space.
pub open spec fn spec_cl(out: Seq<char>, s: Seq<char>) -> Seq<char> {
    out + s + seq![' ']
}

/// What `CI` does: the last matched span, only while the switch is on.
pub open spec fn spec_ci(m: MView) -> MView {
    if m.sw {
        MView { output: m.output + m.last, ..m }
    } else {
        m
    }
}

/// What `OUT` does: close the line and indent the next one.
pub open spec fn spec_out(out: Seq<char>) -> Seq<char> {
    out + seq!['\n'] + spaces8()
}

/// What `LB` does: reopen the current line back to just after the most
/// recent newline, so a label can start at column 0.
pub open spec fn spec_lb(out: Seq<char>) -> Seq<char> {
    out.take(after_last_nl(out))
}

/// `GN1` consults the A-slot, the second frame from the top.
pub open spec fn gn1_allowed(stk: Seq<FrameV>) -> bool {
    stk.len() >= 2 && stk[stk.len() - 2] matches FrameV::Lb(_)
}

/// `GN2` consults the B-slot, the top frame.
pub open spec fn gn2_allowed(stk: Seq<FrameV>) -> bool {
    stk.len() >= 1 && stk[stk.len() - 1] matches FrameV::Lb(_)
}

/// Label counters stop one short of wrapping.
pub open spec fn sat_u16(v: int) -> int {
    if v > 65535 {
        65535
    } else {
        v
    }
}

/// The A-label spelled for counter value `n`.
pub open spec fn a_label(n: int) -> Seq<char> {
    seq!['A'] + dec3_digits(n)
}

/// The B-label spelled for counter value `n`.
pub open spec fn b_label(n: int) -> Seq<char> {
    seq!['B'] + dec3_digits(n)
}

/// What `GN1` does: fill the A-slot with a fresh label if it is empty, then
/// emit the slot's label and a space.
pub open spec fn spec_gn1(m: MView) -> MView
    recommends
        gn1_allowed(m.stk),
{
    let i = m.stk.len() - 2;
    let slot = m.stk[i]->Lb_0;
    if slot.len() == 0 {
        let c = sat_u16(m.a_cnt + 1);
        let lab = a_label(c);
        MView {
            a_cnt: c,
            stk: m.stk.update(i, FrameV::Lb(lab)),
            output: m.output + lab + seq![' '],
            ..m
        }
    } else {
        MView { output: m.output + slot + seq![' '], ..m }
    }
}

/// What `GN2` does: the same for the B-slot.
pub open spec fn spec_gn2(m: MView) -> MView
    recommends
        gn2_allowed(m.stk),
{
    let i = m.stk.len() - 1;
    let slot = m.stk[i]->Lb_0;
    if slot.len() == 0 {
        let c = sat_u16(m.b_cnt + 1);
        let lab = b_label(c);
        MView {
            b_cnt: c,
            stk: m.stk.update(i, FrameV::Lb(lab)),
            output: m.output + lab + seq![' '],
            ..m
        }
    } else {
        MView { output: m.output + slot + seq![' '], ..m }
    }
}

/// Skipping whitespace twice is skipping it once.
pub proof fn lemma_skip_ws_idem(s: Seq<char>, i: int)
    requires
        0 <= i <= s.len(),
    ensures
        skip_ws(s, skip_ws(s, i)) == skip_ws(s, i),
{
    lemma_skip_ws(s, i);
}

/// Between a call and its return, only the two label slots of the new frame
/// may change, and they stay label slots.
pub open spec fn slots_only(a: Seq<FrameV>, b: Seq<FrameV>) -> bool {
    b.len() == a.len() && a.len() >= 2 && b.subrange(0, a.len() - 2) == a.subrange(
        0,
        a.len() - 2,
    ) && (b[a.len() - 1] matches FrameV::Lb(_)) && (b[a.len() - 2] matches FrameV::Lb(_))
}

/// The call-return law: a stack that `CLL` grew, its two fresh slots
/// touched at most by the label operations, satisfies `R`, hands back the
/// pushed return target, and returns to exactly the stack before the call —
/// the `blanks` flag repays the collapsed slots.
pub proof fn lemma_call_return(orig: Seq<FrameV>, cur: Seq<FrameV>, ric: int)
    requires
        slots_only(spec_cll_stk(orig, ric), cur),
    ensures
        r_allowed(cur),
        spec_r_ric(cur) == ric,
        spec_r_stk(cur) == orig,
{
    let grown = spec_cll_stk(orig, ric);
    assert(cur[grown.len() - 3] == grown.subrange(0, grown.len() - 2)[grown.len() - 3]);
    assert(grown.subrange(0, grown.len() - 2)[grown.len() - 3] == grown[grown.len() - 3]);
    if orig.len() >= 2 && is_blank_slot(orig[orig.len() - 1]) && is_blank_slot(
        orig[orig.len() - 2],
    ) {
        assert(grown[grown.len() - 3] == (FrameV::Back { ric, blanks: true }));
        assert(spec_r_stk(cur) =~= cur.subrange(0, cur.len() - 3) + seq![
            FrameV::Lb(Seq::empty()),
            FrameV::Lb(Seq::empty()),
        ]);
        assert forall|j: int| 0 <= j < orig.len() - 2 implies cur.subrange(0, cur.len() - 3)[j]
            == orig[j] by {
            assert(cur.subrange(0, cur.len() - 2)[j] == grown.subrange(0, grown.len() - 2)[j]);
        }
        assert(orig[orig.len() - 1]->Lb_0 =~= Seq::<char>::empty());
        assert(orig[orig.len() - 2]->Lb_0 =~= Seq::<char>::empty());
        assert(spec_r_stk(cur) =~= orig);
    } else {
        assert(grown[grown.len() - 3] == (FrameV::Back { ric, blanks: false }));
        assert forall|j: int| 0 <= j < orig.len() implies cur.subrange(0, cur.len() - 3)[j]
            == orig[j] by {
            assert(cur.subrange(0, cur.len() - 2)[j] == grown.subrange(0, grown.len() - 2)[j]);
        }
        assert(spec_r_stk(cur) =~= orig);
    }
}

/// Filling a label slot through `GN1` keeps the call frame's discipline.
pub proof fn lemma_slots_gn1(a: Seq<FrameV>, m1: MView)
    requires
        slots_only(a, m1.stk),
    ensures
        slots_only(a, spec_gn1(m1).stk),
{
    let i = m1.stk.len() - 2;
    let slot = m1.stk[i]->Lb_0;
    if slot.len() == 0 {
        let c = sat_u16(m1.a_cnt + 1);
        assert(spec_gn1(m1).stk.subrange(0, a.len() - 2) =~= m1.stk.subrange(0, a.len() - 2));
    }
}

/// The translator machine.
#[derive(Debug)]
pub struct M {
    pub input: String,
    pub pos: usize,
    pub sw: bool,
    pub last: String,
    pub a_cnt: u16,
    pub b_cnt: u16,
    pub output: String,
    pub stk: Vec<StackVal>,
}

impl View for M {
    type V = MView;

    open spec fn view(&self) -> MView {
        MView {
            input: self.input@,
            pos: self.pos as int,
            sw: self.sw,
            last: self.last@,
            a_cnt: self.a_cnt as int,
            b_cnt: self.b_cnt as int,
            output: self.output@,
            stk: frames_of(self.stk@),
        }
    }
}

/// A label built from a one-letter prefix and a zero-padded counter.
fn label_string(prefix: &str, n: u16) -> (r: String)
    ensures
        r@ == prefix@ + dec3_digits(n as int),
{
    let mut s = String::from_str(prefix);
    let d = dec3_string(n as u64);
    s.append(d.as_str());
    s
}

impl M {
    /// The position stays inside the input.
    pub open spec fn wf(&self) -> bool {
        self.pos <= self.input@.len()
    }

    /// A fresh machine over `input`: switch off, nothing matched, the output
    /// holding one indentation column, the stack empty.
    pub fn new(input: &str) -> (r: M)
        ensures
            r@.input == input@,
            r@.pos == 0,
            r@.sw == false,
            r@.last == Seq::<char>::empty(),
            r@.a_cnt == 0,
            r@.b_cnt == 0,
            r@.output == spaces8(),
            r@.stk == Seq::<FrameV>::empty(),
            r.wf(),
    {
        proof {
            reveal_strlit("        ");
            reveal_strlit("");
            assert("        "@ =~= spaces8());
            assert(""@ =~= Seq::<char>::empty());
        }
        let r = M {
            input: String::from_str(input),
            pos: 0,
            sw: false,
            last: String::from_str(""),
            a_cnt: 0,
            b_cnt: 0,
            output: String::from_str("        "),
            stk: Vec::new(),
        };
        proof {
            assert(frames_of(r.stk@) =~= Seq::<FrameV>::empty());
        }
        r
    }

    /// Advances the position past leading whitespace.
    fn eat_ws(&mut self)
        requires
            old(self).wf(),
        ensures
            final(self)@ == (MView { pos: skip_ws(old(self)@.input, old(self)@.pos), ..old(self)@ }),
            final(self).wf(),
            old(self).pos <= final(self).pos,
    {
        proof {
            lemma_skip_ws(self.input@, self.pos as int);
        }
        let e = skip_ws_from(self.input.as_str(), self.pos);
        self.pos = e;
        proof {
            assert(final(self)@ =~= (MView {
                pos: skip_ws(old(self)@.input, old(self)@.pos),
                ..old(self)@
            }));
        }
    }

    /// `TST s`: after whitespace, match the literal `s`. On success the
    /// matched span becomes `last` and the position moves past it.
    pub fn tst(&mut self, s: &str) -> (r: bool)
        requires
            old(self).wf(),
        ensures
            final(self)@ == spec_tst(old(self)@, s@),
            r == final(self).sw,
            final(self).wf(),
            old(self).pos <= final(self).pos,
            (final(self).sw && s@.len() > 0) ==> old(self).pos < final(self).pos,
    {
        self.eat_ws();
        let p = self.pos;
        let n = self.input.as_str().unicode_len();
        let hit = matches_at(self.input.as_str(), p, s);
        if hit {
            let slen = s.unicode_len();
            let t = copy_range(self.input.as_str(), p, p + slen);
            self.last = t;
            self.pos = p + slen;
            self.sw = true;
        } else {
            self.sw = false;
        }
        proof {
            assert(final(self)@ =~= spec_tst(old(self)@, s@));
        }
        self.sw
    }

    /// `ID`: after whitespace, match a letter followed by letters and digits.
    pub fn id(&mut self) -> (r: bool)
        requires
            old(self).wf(),
        ensures
            final(self)@ == spec_id(old(self)@),
            r == final(self).sw,
            final(self).wf(),
            old(self).pos <= final(self).pos,
            final(self).sw ==> old(self).pos < final(self).pos,
    {
        self.eat_ws();
        let p = self.pos;
        let n = self.input.as_str().unicode_len();
        if p < n && crate::text::is_alpha(self.input.as_str().get_char(p)) {
            proof {
                lemma_alnum_end(self.input@, p as int + 1);
            }
            let e = alnum_end_from(self.input.as_str(), p);
            let t = copy_range(self.input.as_str(), p, e);
            self.last = t;
            self.pos = e;
            self.sw = true;
        } else {
            self.sw = false;
        }
        proof {
            assert(final(self)@ =~= spec_id(old(self)@));
        }
        self.sw
    }

    /// `NUM`: after whitespace, match a decimal number; a trailing dot or
    /// two adjacent dots leave the position where the digits began.
    pub fn num(&mut self) -> (r: bool)
        requires
            old(self).wf(),
        ensures
            final(self)@ == spec_num(old(self)@),
            r == final(self).sw,
            final(self).wf(),
            old(self).pos <= final(self).pos,
            final(self).sw ==> old(self).pos < final(self).pos,
    {
        self.eat_ws();
        let p = self.pos;
        let n = self.input.as_str().unicode_len();
        self.sw = false;
        if p < n && crate::text::is_digit(self.input.as_str().get_char(p)) {
            let e = num_end_from(self.input.as_str(), p);
            proof {
                lemma_num_end(self.input@, p as int);
            }
            // A numeric run starts with a digit, so it is non-empty.
            let last_ch = self.input.as_str().get_char(e - 1);
            let mut bad = last_ch == '.';
            let mut k: usize = p;
            while k + 1 < e
                invariant
                    p <= k,
                    k < e || k == p,
                    p < e <= self.input@.len(),
                    self.wf(),
                    (bad == (self.input@.subrange(p as int, e as int).last() == '.'
                        || exists|j: int|
                            0 <= j < k - p && #[trigger] self.input@.subrange(
                                p as int,
                                e as int,
                            )[j] == '.' && self.input@.subrange(p as int, e as int)[j + 1]
                                == '.')),
                decreases e - k,
            {
                let c1 = self.input.as_str().get_char(k);
                let c2 = self.input.as_str().get_char(k + 1);
                if c1 == '.' && c2 == '.' {
                    proof {
                        let tok = self.input@.subrange(p as int, e as int);
                        assert(tok[k - p] == '.' && tok[k - p + 1] == '.');
                    }
                    bad = true;
                }
                k = k + 1;
            }
            let ghost tok = self.input@.subrange(p as int, e as int);
            proof {
                if !bad {
                    assert(!has_double_dot(tok)) by {
                        if has_double_dot(tok) {
                            let j = choose|j: int|
                                0 <= j < tok.len() - 1 && #[trigger] tok[j] == '.' && tok[j + 1]
                                    == '.';
                            assert(j < k - p);
                        }
                    }
                } else {
                    if tok.last() != '.' {
                        assert(has_double_dot(tok));
                    }
                }
            }
            if !bad {
                let t = copy_range(self.input.as_str(), p, e);
                self.last = t;
                self.pos = e;
                self.sw = true;
            }
        }
        proof {
            assert(final(self)@ =~= spec_num(old(self)@));
        }
        self.sw
    }

    /// `SR`: after whitespace, match a single-quoted string; the quotes stay
    /// part of the matched span.
    pub fn sr(&mut self) -> (r: bool)
        requires
            old(self).wf(),
        ensures
            final(self)@ == spec_sr(old(self)@),
            r == final(self).sw,
            final(self).wf(),
            old(self).pos <= final(self).pos,
            final(self).sw ==> old(self).pos < final(self).pos,
    {
        self.eat_ws();
        let p = self.pos;
        let n = self.input.as_str().unicode_len();
        self.sw = false;
        if p < n && self.input.as_str().get_char(p) == '\'' {
            let q = find_quote_from(self.input.as_str(), p + 1);
            let e: usize = if q < n {
                q + 1
            } else {
                n
            };
            let last_ch = self.input.as_str().get_char(e - 1);
            if last_ch == '\'' {
                let t = copy_range(self.input.as_str(), p, e);
                self.last = t;
                self.pos = e;
                self.sw = true;
            }
        }
        proof {
            assert(final(self)@ =~= spec_sr(old(self)@));
        }
        self.sw
    }

    /// `CLL target`: push a return marker and two fresh label slots,
    /// collapsing a pair of empty slots left just below.
    pub fn cll(&mut self, ric: usize)
        ensures
            final(self)@ == spec_cll(old(self)@, ric as int),
            final(self).wf() == old(self).wf(),
    {
        let n = self.stk.len();
        let mut blanks = false;
        if n >= 2 {
            let both_empty = match (&self.stk[n - 2], &self.stk[n - 1]) {
                (StackVal::Lb(a), StackVal::Lb(b)) => a.as_str().is_empty()
                    && b.as_str().is_empty(),
                _ => false,
            };
            if both_empty {
                self.stk.truncate(n - 2);
                blanks = true;
            }
        }
        self.stk.push(StackVal::Back { ric, blanks });
        self.stk.push(StackVal::Lb(String::new()));
        self.stk.push(StackVal::Lb(String::new()));
        proof {
            assert(frames_of(self.stk@) =~= spec_cll_stk(frames_of(old(self).stk@), ric as int));
            assert(final(self)@ =~= spec_cll(old(self)@, ric as int));
        }
    }

    /// `R`: pop the call's three frames, restore collapsed slots, and hand
    /// back the return target.
    pub fn r(&mut self) -> (ric: usize)
        requires
            r_allowed(old(self)@.stk),
        ensures
            final(self)@ == (MView { stk: spec_r_stk(old(self)@.stk), ..old(self)@ }),
            ric as int == spec_r_ric(old(self)@.stk),
            final(self).wf() == old(self).wf(),
    {
        let n = self.stk.len();
        let (ric, blanks): (usize, bool) = match &self.stk[n - 3] {
            StackVal::Back { ric, blanks } => (*ric, *blanks),
            StackVal::Lb(_) => {
                proof {
                    assert(false);
                }
                (0, false)
            },
        };
        self.stk.truncate(n - 3);
        if blanks {
            self.stk.push(StackVal::Lb(String::new()));
            self.stk.push(StackVal::Lb(String::new()));
        }
        proof {
            assert(frames_of(self.stk@) =~= spec_r_stk(frames_of(old(self).stk@)));
            assert(final(self)@ =~= (MView { stk: spec_r_stk(old(self)@.stk), ..old(self)@ }));
        }
        ric
    }

    /// `SET`: force the switch on.
    pub fn set(&mut self)
        ensures
            final(self)@ == (MView { sw: true, ..old(self)@ }),
            final(self).wf() == old(self).wf(),
    {
        self.sw = true;
        proof {
            assert(final(self)@ =~= (MView { sw: true, ..old(self)@ }));
        }
    }

    /// `BE`: demand the switch be on; a false switch is a recognition
    /// failure.
    pub fn be(&self) -> (r: MResult)
        ensures
            self.sw ==> r == MResult::Ok(Recognition::Recognized),
            !self.sw ==> r == MResult::Err(SynError::Unexpected),
    {
        if !self.sw {
            return Err(SynError::Unexpected);
        }
        Ok(Recognition::Recognized)
    }

    /// `CL s`: emit the text and a space.
    pub fn cl(&mut self, s: &str)
        ensures
            final(self)@ == (MView { output: spec_cl(old(self)@.output, s@), ..old(self)@ }),
            final(self).wf() == old(self).wf(),
    {
        proof {
            reveal_strlit(" ");
            assert(" "@ =~= seq![' ']);
        }
        self.output.append(s);
        self.output.append(" ");
        proof {
            assert(final(self)@ =~= (MView {
                output: spec_cl(old(self)@.output, s@),
                ..old(self)@
            }));
        }
    }

    /// `CI`: emit the last matched span, only while the switch is on.
    pub fn ci(&mut self)
        ensures
            final(self)@ == spec_ci(old(self)@),
            final(self).wf() == old(self).wf(),
    {
        if self.sw {
            let t = self.last.clone();
            self.output.append(t.as_str());
        }
        proof {
            assert(final(self)@ =~= spec_ci(old(self)@));
        }
    }

    /// `GN1`: a stable per-call label from the A-slot.
    pub fn gn1(&mut self)
        requires
            gn1_allowed(old(self)@.stk),
        ensures
            final(self)@ == spec_gn1(old(self)@),
            final(self).wf() == old(self).wf(),
    {
        proof {
            reveal_strlit("A");
            reveal_strlit(" ");
            assert("A"@ =~= seq!['A']);
            assert(" "@ =~= seq![' ']);
        }
        let i = self.stk.len() - 2;
        let (empty_slot, cur): (bool, String) = match &self.stk[i] {
            StackVal::Lb(s) => (s.as_str().is_empty(), s.clone()),
            StackVal::Back { .. } => {
                proof {
                    assert(false);
                }
                (false, String::new())
            },
        };
        if empty_slot {
            self.a_cnt = if self.a_cnt >= 65535 {
                65535
            } else {
                self.a_cnt + 1
            };
            let lab = label_string("A", self.a_cnt);
            self.stk[i] = StackVal::Lb(lab.clone());
            self.output.append(lab.as_str());
            self.output.append(" ");
            proof {
                assert(frames_of(self.stk@) =~= frames_of(old(self).stk@).update(
                    i as int,
                    FrameV::Lb(a_label(self.a_cnt as int)),
                ));
                assert(final(self)@ =~= spec_gn1(old(self)@));
            }
        } else {
            self.output.append(cur.as_str());
            self.output.append(" ");
            proof {
                assert(final(self)@ =~= spec_gn1(old(self)@));
            }
        }
    }

    /// `GN2`: a stable per-call label from the B-slot.
    pub fn gn2(&mut self)
        requires
            gn2_allowed(old(self)@.stk),
        ensures
            final(self)@ == spec_gn2(old(self)@),
            final(self).wf() == old(self).wf(),
    {
        proof {
            reveal_strlit("B");
            reveal_strlit(" ");
            assert("B"@ =~= seq!['B']);
            assert(" "@ =~= seq![' ']);
        }
        let i = self.stk.len() - 1;
        let (empty_slot, cur): (bool, String) = match &self.stk[i] {
            StackVal::Lb(s) => (s.as_str().is_empty(), s.clone()),
            StackVal::Back { .. } => {
                proof {
                    assert(false);
                }
                (false, String::new())
            },
        };
        if empty_slot {
            self.b_cnt = if self.b_cnt >= 65535 {
                65535
            } else {
                self.b_cnt + 1
            };
            let lab = label_string("B", self.b_cnt);
            self.stk[i] = StackVal::Lb(lab.clone());
            self.output.append(lab.as_str());
            self.output.append(" ");
            proof {
                assert(frames_of(self.stk@) =~= frames_of(old(self).stk@).update(
                    i as int,
                    FrameV::Lb(b_label(self.b_cnt as int)),
                ));
                assert(final(self)@ =~= spec_gn2(old(self)@));
            }
        } else {
            self.output.append(cur.as_str());
            self.output.append(" ");
            proof {
                assert(final(self)@ =~= spec_gn2(old(self)@));
            }
        }
    }

    /// `OUT`: close the output line and indent the next one.
    pub fn out(&mut self)
        ensures
            final(self)@ == (MView { output: spec_out(old(self)@.output), ..old(self)@ }),
            final(self).wf() == old(self).wf(),
    {
        proof {
            reveal_strlit("\n        ");
            assert("\n        "@ =~= seq!['\n'] + spaces8());
        }
        self.output.append("\n        ");
        proof {
            assert(final(self)@ =~= (MView { output: spec_out(old(self)@.output), ..old(self)@ }));
        }
    }

    /// `LB`: reopen the line so a label can start at column 0.
    pub fn lb(&mut self)
        ensures
            final(self)@ == (MView { output: spec_lb(old(self)@.output), ..old(self)@ }),
            final(self).wf() == old(self).wf(),
    {
        proof {
            lemma_after_last_nl(self.output@);
        }
        let n = self.output.as_str().unicode_len();
        let mut k: usize = n;
        while k > 0 && self.output.as_str().get_char(k - 1) != '\n'
            invariant
                0 <= k <= n,
                n == self.output@.len(),
                after_last_nl(self.output@) <= k,
                forall|j: int| k <= j < n ==> self.output@[j] != '\n',
            decreases k,
        {
            proof {
                lemma_after_last_nl(self.output@);
            }
            k = k - 1;
        }
        proof {
            assert(k as int == after_last_nl(self.output@)) by {
                lemma_after_last_nl(self.output@);
                if k > 0 {
                    assert(self.output@[k - 1] == '\n');
                    if after_last_nl(self.output@) < k {
                        assert(self.output@[k - 1] != '\n');
                    }
                }
            }
        }
        let t = copy_range(self.output.as_str(), 0, k);
        self.output = t;
        proof {
            assert(old(self)@.output.subrange(0, after_last_nl(old(self)@.output)) =~= spec_lb(
                old(self)@.output,
            ));
            assert(final(self)@ =~= (MView { output: spec_lb(old(self)@.output), ..old(self)@ }));
        }
    }

    /// The input not yet consumed, leading whitespace dropped.
    pub fn left(&self) -> (r: String)
        requires
            self.wf(),
        ensures
            r@ == self@.input.subrange(skip_ws(self@.input, self@.pos), self@.input.len() as int),
    {
        proof {
            lemma_skip_ws(self.input@, self.pos as int);
        }
        let e = skip_ws_from(self.input.as_str(), self.pos);
        let n = self.input.as_str().unicode_len();
        copy_range(self.input.as_str(), e, n)
    }

    /// A finished run's output: owed exactly when the switch is on and only
    /// whitespace remains unconsumed.
    pub fn generated(&self) -> (r: Result<String, SynError>)
        requires
            self.wf(),
        ensures
            (self@.sw && skip_ws(self@.input, self@.pos) == self@.input.len()) ==> (r matches Ok(s)
                && s@ == self@.output),
            !(self@.sw && skip_ws(self@.input, self@.pos) == self@.input.len()) ==> r == Result::<
                String,
                SynError,
            >::Err(SynError::Unexpected),
    {
        proof {
            lemma_skip_ws(self.input@, self.pos as int);
        }
        if !self.sw {
            return Err(SynError::Unexpected);
        }
        let e = skip_ws_from(self.input.as_str(), self.pos);
        let n = self.input.as_str().unicode_len();
        if e < n {
            return Err(SynError::Unexpected);
        }
        Ok(self.output.clone())
    }
}

/// One MVM instruction. Five arms carry a resolved target instruction index
/// beside the label they were written with; two carry an inline string.
#[derive(Debug)]
pub enum MInstr {
    TST(String),
    ID,
    NUM,
    SR,
    CLL(String, usize),
    R,
    SET,
    B(String, usize),
    BT(String, usize),
    BF(String, usize),
    BE,
    CL(String),
    CI,
    GN1,
    GN2,
    LB,
    OUT,
    ADR(String, usize),
    Undef,
}

/// The view of an instruction.
pub enum MInstrV {
    TST(Seq<char>),
    ID,
    NUM,
    SR,
    CLL(Seq<char>, int),
    R,
    SET,
    B(Seq<char>, int),
    BT(Seq<char>, int),
    BF(Seq<char>, int),
    BE,
    CL(Seq<char>),
    CI,
    GN1,
    GN2,
    LB,
    OUT,
    ADR(Seq<char>, int),
    Undef,
}

impl View for MInstr {
    type V = MInstrV;

    open spec fn view(&self) -> MInstrV {
        match self {
            MInstr::TST(s) => MInstrV::TST(s@),
            MInstr::ID => MInstrV::ID,
            MInstr::NUM => MInstrV::NUM,
            MInstr::SR => MInstrV::SR,
            MInstr::CLL(l, t) => MInstrV::CLL(l@, *t as int),
            MInstr::R => MInstrV::R,
            MInstr::SET => MInstrV::SET,
            MInstr::B(l, t) => MInstrV::B(l@, *t as int),
            MInstr::BT(l, t) => MInstrV::BT(l@, *t as int),
            MInstr::BF(l, t) => MInstrV::BF(l@, *t as int),
            MInstr::BE => MInstrV::BE,
            MInstr::CL(s) => MInstrV::CL(s@),
            MInstr::CI => MInstrV::CI,
            MInstr::GN1 => MInstrV::GN1,
            MInstr::GN2 => MInstrV::GN2,
            MInstr::LB => MInstrV::LB,
            MInstr::OUT => MInstrV::OUT,
            MInstr::ADR(l, t) => MInstrV::ADR(l@, *t as int),
            MInstr::Undef => MInstrV::Undef,
        }
    }
}

/// The instruction a label-argument line builds, its target not yet
/// resolved.
pub open spec fn spec_with_label(ins: Seq<char>, label: Seq<char>) -> MInstrV {
    if ins == "CLL"@ {
        MInstrV::CLL(label, 0)
    } else if ins == "B"@ {
        MInstrV::B(label, 0)
    } else if ins == "BT"@ {
        MInstrV::BT(label, 0)
    } else if ins == "BF"@ {
        MInstrV::BF(label, 0)
    } else if ins == "ADR"@ {
        MInstrV::ADR(label, 0)
    } else {
        MInstrV::Undef
    }
}

/// The instruction a string-argument line builds.
pub open spec fn spec_with_string(ins: Seq<char>, s: Seq<char>) -> MInstrV {
    if ins == "TST"@ {
        MInstrV::TST(s)
    } else if ins == "CL"@ {
        MInstrV::CL(s)
    } else {
        MInstrV::Undef
    }
}

/// The instruction an argument-less line builds.
pub open spec fn spec_with_noarg(ins: Seq<char>) -> MInstrV {
    if ins == "ID"@ {
        MInstrV::ID
    } else if ins == "NUM"@ {
        MInstrV::NUM
    } else if ins == "SR"@ {
        MInstrV::SR
    } else if ins == "R"@ {
        MInstrV::R
    } else if ins == "SET"@ {
        MInstrV::SET
    } else if ins == "BE"@ {
        MInstrV::BE
    } else if ins == "CI"@ {
        MInstrV::CI
    } else if ins == "GN1"@ {
        MInstrV::GN1
    } else if ins == "GN2"@ {
        MInstrV::GN2
    } else if ins == "LB"@ {
        MInstrV::LB
    } else if ins == "OUT"@ {
        MInstrV::OUT
    } else {
        MInstrV::Undef
    }
}

/// Does this instruction carry a label resolved to an instruction index?
pub open spec fn takes_ic(v: MInstrV) -> bool {
    v matches MInstrV::CLL(_, _) || v matches MInstrV::B(_, _) || v matches MInstrV::BT(_, _)
        || v matches MInstrV::BF(_, _) || v matches MInstrV::ADR(_, _)
}

/// The same kind of instruction, rebuilt with the label it resolves by and
/// its target index.
pub open spec fn spec_with_ic(v: MInstrV, aaa: Seq<char>, t: int) -> MInstrV
    recommends
        takes_ic(v),
{
    match v {
        MInstrV::CLL(_, _) => MInstrV::CLL(aaa, t),
        MInstrV::B(_, _) => MInstrV::B(aaa, t),
        MInstrV::BT(_, _) => MInstrV::BT(aaa, t),
        MInstrV::BF(_, _) => MInstrV::BF(aaa, t),
        MInstrV::ADR(_, _) => MInstrV::ADR(aaa, t),
        other => other,
    }
}

impl MInstr {
    /// Is this the undefined instruction?
    pub fn is_undefined(&self) -> (r: bool)
        ensures
            r == (self@ matches MInstrV::Undef),
    {
        matches!(self, MInstr::Undef)
    }

    /// Builds the instruction of a label-argument line.
    pub fn with_label(ins: &str, label: String) -> (r: MInstr)
        ensures
            r@ == spec_with_label(ins@, label@),
    {
        if crate::text::str_eq(ins, "CLL") {
            MInstr::CLL(label, 0)
        } else if crate::text::str_eq(ins, "B") {
            MInstr::B(label, 0)
        } else if crate::text::str_eq(ins, "BT") {
            MInstr::BT(label, 0)
        } else if crate::text::str_eq(ins, "BF") {
            MInstr::BF(label, 0)
        } else if crate::text::str_eq(ins, "ADR") {
            MInstr::ADR(label, 0)
        } else {
            MInstr::Undef
        }
    }

    /// No MVM instruction takes a numeric argument.
    pub fn with_num(ins: &str, n: crate::value::Value) -> (r: MInstr)
        ensures
            r@ matches MInstrV::Undef,
    {
        MInstr::Undef
    }

    /// Builds the instruction of a string-argument line.
    pub fn with_string(ins: &str, s: String) -> (r: MInstr)
        ensures
            r@ == spec_with_string(ins@, s@),
    {
        if crate::text::str_eq(ins, "TST") {
            MInstr::TST(s)
        } else if crate::text::str_eq(ins, "CL") {
            MInstr::CL(s)
        } else {
            MInstr::Undef
        }
    }

    /// Builds the instruction of an argument-less line.
    pub fn with_noarg(ins: &str) -> (r: MInstr)
        ensures
            r@ == spec_with_noarg(ins@),
    {
        if crate::text::str_eq(ins, "ID") {
            MInstr::ID
        } else if crate::text::str_eq(ins, "NUM") {
            MInstr::NUM
        } else if crate::text::str_eq(ins, "SR") {
            MInstr::SR
        } else if crate::text::str_eq(ins, "R") {
            MInstr::R
        } else if crate::text::str_eq(ins, "SET") {
            MInstr::SET
        } else if crate::text::str_eq(ins, "BE") {
            MInstr::BE
        } else if crate::text::str_eq(ins, "CI") {
            MInstr::CI
        } else if crate::text::str_eq(ins, "GN1") {
            MInstr::GN1
        } else if crate::text::str_eq(ins, "GN2") {
            MInstr::GN2
        } else if crate::text::str_eq(ins, "LB") {
            MInstr::LB
        } else if crate::text::str_eq(ins, "OUT") {
            MInstr::OUT
        } else {
            MInstr::Undef
        }
    }

    /// Which resolution this instruction needs: the five label-bearing arms
    /// resolve to instruction indices, the rest to nothing.
    pub fn aaa_of(&self) -> (r: crate::assembler::AAAUse)
        ensures
            takes_ic(self@) ==> (r matches crate::assembler::AAAUse::IC(_)),
            !takes_ic(self@) ==> (r matches crate::assembler::AAAUse::Nothing),
    {
        match self {
            MInstr::CLL(l, _) => crate::assembler::AAAUse::IC(l.clone()),
            MInstr::B(l, _) => crate::assembler::AAAUse::IC(l.clone()),
            MInstr::BT(l, _) => crate::assembler::AAAUse::IC(l.clone()),
            MInstr::BF(l, _) => crate::assembler::AAAUse::IC(l.clone()),
            MInstr::ADR(l, _) => crate::assembler::AAAUse::IC(l.clone()),
            _ => crate::assembler::AAAUse::Nothing,
        }
    }

    /// Rewrites a label-bearing instruction with its resolved instruction
    /// index.
    pub fn reconstruct_with_ic(&mut self, aaa: String, t: usize)
        requires
            takes_ic(old(self)@),
        ensures
            final(self)@ == spec_with_ic(old(self)@, aaa@, t as int),
    {
        let replacement = match &*self {
            MInstr::CLL(_, _) => MInstr::CLL(aaa, t),
            MInstr::B(_, _) => MInstr::B(aaa, t),
            MInstr::BT(_, _) => MInstr::BT(aaa, t),
            MInstr::BF(_, _) => MInstr::BF(aaa, t),
            MInstr::ADR(_, _) => MInstr::ADR(aaa, t),
            _ => {
                proof {
                    assert(false);
                }
                MInstr::Undef
            },
        };
        *self = replacement;
    }
}

/// The MVM instruction the assembler's neutral form stands for. The label
/// of a resolved branch is kept for diagnostics; the rewrite installs the
/// resolved index.
pub open spec fn spec_from_raw(r: crate::assembler::RInstrV) -> MInstrV {
    match r {
        crate::assembler::RInstrV::NoArg(m) => spec_with_noarg(m),
        crate::assembler::RInstrV::Branch(m, l, t) => spec_with_ic(spec_with_label(m, l), l, t),
        crate::assembler::RInstrV::MemRef(m, l, a) => MInstrV::Undef,
        crate::assembler::RInstrV::Num(m, v) => MInstrV::Undef,
        crate::assembler::RInstrV::Str(m, s) => spec_with_string(m, s),
    }
}

/// Builds the MVM instruction a neutral instruction stands for.
pub fn instr_from_raw(r: &crate::assembler::RInstr) -> (out: MInstr)
    ensures
        out@ == spec_from_raw(r@),
{
    match r {
        crate::assembler::RInstr::NoArg(m) => MInstr::with_noarg(m.as_str()),
        crate::assembler::RInstr::Branch(m, l, t) => {
            let mut i = MInstr::with_label(m.as_str(), l.clone());
            if i.is_undefined() {
                i
            } else {
                i.reconstruct_with_ic(l.clone(), *t);
                i
            }
        },
        crate::assembler::RInstr::MemRef(m, l, a) => MInstr::Undef,
        crate::assembler::RInstr::Num(m, v) => MInstr::Undef,
        crate::assembler::RInstr::Str(m, s) => MInstr::with_string(m.as_str(), s.clone()),
    }
}

/// The MVM's mnemonic table.
pub open spec fn mvm_ops() -> Seq<(Seq<char>, crate::assembler::ArgForm)> {
    seq![
        ("TST"@, crate::assembler::ArgForm::Str),
        ("ID"@, crate::assembler::ArgForm::NoArg),
        ("NUM"@, crate::assembler::ArgForm::NoArg),
        ("SR"@, crate::assembler::ArgForm::NoArg),
        ("CLL"@, crate::assembler::ArgForm::LabelIc),
        ("R"@, crate::assembler::ArgForm::NoArg),
        ("SET"@, crate::assembler::ArgForm::NoArg),
        ("B"@, crate::assembler::ArgForm::LabelIc),
        ("BT"@, crate::assembler::ArgForm::LabelIc),
        ("BF"@, crate::assembler::ArgForm::LabelIc),
        ("BE"@, crate::assembler::ArgForm::NoArg),
        ("CL"@, crate::assembler::ArgForm::Str),
        ("CI"@, crate::assembler::ArgForm::NoArg),
        ("GN1"@, crate::assembler::ArgForm::NoArg),
        ("GN2"@, crate::assembler::ArgForm::NoArg),
        ("LB"@, crate::assembler::ArgForm::NoArg),
        ("OUT"@, crate::assembler::ArgForm::NoArg),
        ("ADR"@, crate::assembler::ArgForm::LabelIc),
    ]
}

/// The MVM dialect: its mnemonics, and no `BLK`.
pub fn mvm_dialect() -> (d: crate::assembler::Dialect)
    ensures
        d@.ops == mvm_ops(),
        d@.accept_blk == false,
{
    let mut ops: Vec<crate::assembler::OpDesc> = Vec::new();
    ops.push(crate::assembler::OpDesc {
        name: String::from_str("TST"),
        form: crate::assembler::ArgForm::Str,
    });
    ops.push(crate::assembler::OpDesc {
        name: String::from_str("ID"),
        form: crate::assembler::ArgForm::NoArg,
    });
    ops.push(crate::assembler::OpDesc {
        name: String::from_str("NUM"),
        form: crate::assembler::ArgForm::NoArg,
    });
    ops.push(crate::assembler::OpDesc {
        name: String::from_str("SR"),
        form: crate::assembler::ArgForm::NoArg,
    });
    ops.push(crate::assembler::OpDesc {
        name: String::from_str("CLL"),
        form: crate::assembler::ArgForm::LabelIc,
    });
    ops.push(crate::assembler::OpDesc {
        name: String::from_str("R"),
        form: crate::assembler::ArgForm::NoArg,
    });
    ops.push(crate::assembler::OpDesc {
        name: String::from_str("SET"),
        form: crate::assembler::ArgForm::NoArg,
    });
    ops.push(crate::assembler::OpDesc {
        name: String::from_str("B"),
        form: crate::assembler::ArgForm::LabelIc,
    });
    ops.push(crate::assembler::OpDesc {
        name: String::from_str("BT"),
        form: crate::assembler::ArgForm::LabelIc,
    });
    ops.push(crate::assembler::OpDesc {
        name: String::from_str("BF"),
        form: crate::assembler::ArgForm::LabelIc,
    });
    ops.push(crate::assembler::OpDesc {
        name: String::from_str("BE"),
        form: crate::assembler::ArgForm::NoArg,
    });
    ops.push(crate::assembler::OpDesc {
        name: String::from_str("CL"),
        form: crate::assembler::ArgForm::Str,
    });
    ops.push(crate::assembler::OpDesc {
        name: String::from_str("CI"),
        form: crate::assembler::ArgForm::NoArg,
    });
    ops.push(crate::assembler::OpDesc {
        name: String::from_str("GN1"),
        form: crate::assembler::ArgForm::NoArg,
    });
    ops.push(crate::assembler::OpDesc {
        name: String::from_str("GN2"),
        form: crate::assembler::ArgForm::NoArg,
    });
    ops.push(crate::assembler::OpDesc {
        name: String::from_str("LB"),
        form: crate::assembler::ArgForm::NoArg,
    });
    ops.push(crate::assembler::OpDesc {
        name: String::from_str("OUT"),
        form: crate::assembler::ArgForm::NoArg,
    });
    ops.push(crate::assembler::OpDesc {
        name: String::from_str("ADR"),
        form: crate::assembler::ArgForm::LabelIc,
    });
    let d = crate::assembler::Dialect { ops, accept_blk: false };
    proof {
        assert(d@.ops =~= mvm_ops());
    }
    d
}

/// A loaded MVM program.
#[derive(Debug)]
pub struct MProgram {
    pub instrs: Vec<MInstr>,
    pub labels: crate::maps::LabelMap,
    pub ic: crate::maps::AddrMap<usize>,
}

/// The view of a loaded program.
#[verifier::ext_equal]
pub struct MProgV {
    pub instrs: Seq<MInstrV>,
    pub labels: Map<Seq<char>, u32>,
    pub ic: Map<u32, usize>,
}

/// The views of a vector of instructions.
pub open spec fn minstr_views(v: Seq<MInstr>) -> Seq<MInstrV> {
    Seq::new(v.len(), |i: int| v[i]@)
}

impl View for MProgram {
    type V = MProgV;

    open spec fn view(&self) -> MProgV {
        MProgV { instrs: minstr_views(self.instrs@), labels: self.labels@, ic: self.ic@ }
    }
}

/// What assembling MVM text yields: the shared assembler's outcome, each
/// neutral instruction given its MVM meaning.
pub open spec fn spec_assemble(text: Seq<char>) -> Result<MProgV, crate::assembler::AsmErrorV> {
    let d = crate::assembler::DialectV { ops: mvm_ops(), accept_blk: false };
    match crate::assembler::spec_parse(d, text) {
        Result::Err(e) => Result::Err(e),
        Result::Ok(pv) => Result::Ok(
            MProgV {
                instrs: Seq::new(pv.instrs.len(), |i: int| spec_from_raw(pv.instrs[i])),
                labels: pv.labels,
                ic: pv.ic,
            },
        ),
    }
}

/// Assembles an MVM program from text.
pub fn assemble(pgm: &str) -> (r: Result<MProgram, crate::assembler::AsmError>)
    ensures
        (match spec_assemble(pgm@) {
            Result::Ok(pv) => r matches Ok(p) && p@ == pv,
            Result::Err(ev) => r matches Err(e) && e@ == ev,
        }),
{
    let d = mvm_dialect();
    let raw = match crate::assembler::parse(&d, pgm) {
        Err(e) => {
            return Err(e);
        },
        Ok(p) => p,
    };
    let mut instrs: Vec<MInstr> = Vec::new();
    let mut i: usize = 0;
    let n = raw.instrs.len();
    while i < n
        invariant
            0 <= i <= n,
            n == raw.instrs@.len(),
            instrs@.len() == i,
            forall|k: int| 0 <= k < i ==> #[trigger] instrs@[k]@ == spec_from_raw(raw@.instrs[k]),
        decreases n - i,
    {
        let mi = instr_from_raw(&raw.instrs[i]);
        instrs.push(mi);
        i = i + 1;
    }
    let p = MProgram { instrs, labels: raw.labels, ic: raw.ic };
    proof {
        match spec_assemble(pgm@) {
            Result::Ok(pv) => {
                assert(minstr_views(p.instrs@) =~= pv.instrs);
                assert(p@ =~= pv);
            },
            Result::Err(_) => {},
        }
    }
    Ok(p)
}

/// How a run stands: still going, halted normally, stopped by a recognition
/// failure, or trapped on a malformed program.
pub enum MStatus {
    Running,
    Halted,
    Failed,
    Trapped,
}

/// A machine together with its instruction pointer and status.
#[verifier::ext_equal]
pub struct ExecV {
    pub m: MView,
    pub ic: int,
    pub status: MStatus,
}

/// One step of the machine: fetch at `ic`, apply the instruction's
/// transition, and advance. A fetch out of bounds, an `ADR` or undefined
/// instruction, or a stack the instruction cannot work on, traps.
pub open spec fn step(pgm: Seq<MInstrV>, s: ExecV) -> ExecV {
    if !(s.status matches MStatus::Running) {
        s
    } else if !(0 <= s.ic < pgm.len()) {
        ExecV { status: MStatus::Trapped, ..s }
    } else {
        match pgm[s.ic] {
            MInstrV::Undef => ExecV { status: MStatus::Trapped, ..s },
            MInstrV::ADR(_, _) => ExecV { status: MStatus::Trapped, ..s },
            MInstrV::TST(t) => ExecV { m: spec_tst(s.m, t), ic: s.ic + 1, ..s },
            MInstrV::ID => ExecV { m: spec_id(s.m), ic: s.ic + 1, ..s },
            MInstrV::NUM => ExecV { m: spec_num(s.m), ic: s.ic + 1, ..s },
            MInstrV::SR => ExecV { m: spec_sr(s.m), ic: s.ic + 1, ..s },
            MInstrV::CLL(_, t) => ExecV { m: spec_cll(s.m, s.ic + 1), ic: t, ..s },
            MInstrV::R => if !r_allowed(s.m.stk) {
                ExecV { status: MStatus::Trapped, ..s }
            } else {
                let ric = spec_r_ric(s.m.stk);
                let m2 = MView { stk: spec_r_stk(s.m.stk), ..s.m };
                if ric == 0 {
                    ExecV { m: m2, ic: ric, status: MStatus::Halted }
                } else {
                    ExecV { m: m2, ic: ric, ..s }
                }
            },
            MInstrV::SET => ExecV { m: MView { sw: true, ..s.m }, ic: s.ic + 1, ..s },
            MInstrV::B(_, t) => ExecV { ic: t, ..s },
            MInstrV::BT(_, t) => if s.m.sw {
                ExecV { ic: t, ..s }
            } else {
                ExecV { ic: s.ic + 1, ..s }
            },
            MInstrV::BF(_, t) => if !s.m.sw {
                ExecV { ic: t, ..s }
            } else {
                ExecV { ic: s.ic + 1, ..s }
            },
            MInstrV::BE => if s.m.sw {
                ExecV { ic: s.ic + 1, ..s }
            } else {
                ExecV { status: MStatus::Failed, ..s }
            },
            MInstrV::CL(t) => ExecV {
                m: MView { output: spec_cl(s.m.output, t), ..s.m },
                ic: s.ic + 1,
                ..s
            },
            MInstrV::CI => ExecV { m: spec_ci(s.m), ic: s.ic + 1, ..s },
            MInstrV::GN1 => if !gn1_allowed(s.m.stk) {
                ExecV { status: MStatus::Trapped, ..s }
            } else {
                ExecV { m: spec_gn1(s.m), ic: s.ic + 1, ..s }
            },
            MInstrV::GN2 => if !gn2_allowed(s.m.stk) {
                ExecV { status: MStatus::Trapped, ..s }
            } else {
                ExecV { m: spec_gn2(s.m), ic: s.ic + 1, ..s }
            },
            MInstrV::LB => ExecV {
                m: MView { output: spec_lb(s.m.output), ..s.m },
                ic: s.ic + 1,
                ..s
            },
            MInstrV::OUT => ExecV {
                m: MView { output: spec_out(s.m.output), ..s.m },
                ic: s.ic + 1,
                ..s
            },
        }
    }
}

/// The machine after `n` steps.
pub open spec fn run(pgm: Seq<MInstrV>, s: ExecV, n: nat) -> ExecV
    decreases n,
{
    if n == 0 {
        s
    } else {
        step(pgm, run(pgm, s, (n - 1) as nat))
    }
}

/// Where execution begins: an implicit call whose return target is the halt
/// sentinel, then a jump to the target of the prolog `ADR`. A program whose
/// first instruction is not `ADR` traps at once.
pub open spec fn init_exec(pgm: Seq<MInstrV>, m: MView) -> ExecV {
    if pgm.len() > 0 && pgm[0] matches MInstrV::ADR(_, t) {
        ExecV { m: spec_cll(m, 0), ic: pgm[0]->ADR_1, status: MStatus::Running }
    } else {
        ExecV { m: spec_cll(m, 0), ic: 0, status: MStatus::Trapped }
    }
}

/// A finished or trapped machine stays as it is.
pub proof fn lemma_run_absorb(pgm: Seq<MInstrV>, s: ExecV, i: nat, n: nat)
    requires
        i <= n,
        !(run(pgm, s, i).status matches MStatus::Running),
    ensures
        run(pgm, s, n) == run(pgm, s, i),
    decreases n,
{
    if n > i {
        lemma_run_absorb(pgm, s, i, (n - 1) as nat);
    }
}

impl M {
    /// Runs the program for at most `fuel` steps, from the implicit
    /// top-level call to the halt sentinel. The result says whether the run
    /// finished — by halting or by a recognition failure — within the fuel;
    /// the machine ends exactly as `run` of the step relation describes. A
    /// program that would trap within the fuel — a fetch out of bounds, a
    /// stray `ADR` or undefined instruction, a return or label operation on
    /// a stack without its frame — is ruled out by the caller.
    pub fn execute(&mut self, pgm: &MProgram, fuel: u64) -> (done: bool)
        requires
            old(self).wf(),
            forall|n: nat|
                n <= fuel ==> !((#[trigger] run(
                    pgm@.instrs,
                    init_exec(pgm@.instrs, old(self)@),
                    n,
                )).status matches MStatus::Trapped),
        ensures
            final(self)@ == run(pgm@.instrs, init_exec(pgm@.instrs, old(self)@), fuel as nat).m,
            done == !(run(pgm@.instrs, init_exec(pgm@.instrs, old(self)@), fuel as nat).status
                matches MStatus::Running),
            final(self).wf(),
    {
        let ghost pgmv = pgm@.instrs;
        let ghost init = init_exec(pgmv, old(self)@);
        self.cll(0);
        proof {
            assert(run(pgmv, init, 0) == init);
            assert(!(init.status matches MStatus::Trapped));
        }
        let start: usize = match &pgm.instrs[0] {
            MInstr::ADR(_, t) => *t,
            _ => {
                proof {
                    assert(false);
                }
                0
            },
        };
        let mut ic: usize = start;
        let mut steps: u64 = 0;
        loop
            invariant
                steps <= fuel,
                self.wf(),
                pgmv == pgm@.instrs,
                init == init_exec(pgmv, old(self)@),
                (run(pgmv, init, steps as nat) == (ExecV {
                    m: self@,
                    ic: ic as int,
                    status: MStatus::Running,
                })),
                forall|n: nat|
                    n <= fuel ==> !((#[trigger] run(pgmv, init, n)).status
                        matches MStatus::Trapped),
            decreases fuel - steps,
        {
            if steps >= fuel {
                return false;
            }
            let ghost cur = run(pgmv, init, steps as nat);
            proof {
                assert(run(pgmv, init, steps as nat + 1) == step(pgmv, cur));
                assert(!(step(pgmv, cur).status matches MStatus::Trapped));
            }
            let plen: usize = pgm.instrs.len();
            proof {
                assert(ic < plen);
            }
            let instr = &pgm.instrs[ic];
            proof {
                assert(instr@ == pgmv[ic as int]);
            }
            match instr {
                MInstr::Undef => {
                    proof {
                        assert(false);
                    }
                    return false;
                },
                MInstr::ADR(_, _) => {
                    proof {
                        assert(false);
                    }
                    return false;
                },
                MInstr::TST(s) => {
                    self.tst(s.as_str());
                    ic = ic + 1;
                },
                MInstr::ID => {
                    self.id();
                    ic = ic + 1;
                },
                MInstr::NUM => {
                    self.num();
                    ic = ic + 1;
                },
                MInstr::SR => {
                    self.sr();
                    ic = ic + 1;
                },
                MInstr::CLL(_, t) => {
                    self.cll(ic + 1);
                    ic = *t;
                },
                MInstr::R => {
                    let ric = self.r();
                    if ric == 0 {
                        proof {
                            assert(step(pgmv, cur) =~= (ExecV {
                                m: self@,
                                ic: ric as int,
                                status: MStatus::Halted,
                            }));
                            lemma_run_absorb(pgmv, init, steps as nat + 1, fuel as nat);
                        }
                        return true;
                    }
                    ic = ric;
                },
                MInstr::SET => {
                    self.set();
                    ic = ic + 1;
                },
                MInstr::B(_, t) => {
                    ic = *t;
                },
                MInstr::BT(_, t) => {
                    if self.sw {
                        ic = *t;
                    } else {
                        ic = ic + 1;
                    }
                },
                MInstr::BF(_, t) => {
                    if !self.sw {
                        ic = *t;
                    } else {
                        ic = ic + 1;
                    }
                },
                MInstr::BE => {
                    match self.be() {
                        Ok(_) => {
                            ic = ic + 1;
                        },
                        Err(_) => {
                            proof {
                                assert(step(pgmv, cur) =~= (ExecV {
                                    m: self@,
                                    ic: ic as int,
                                    status: MStatus::Failed,
                                }));
                                lemma_run_absorb(pgmv, init, steps as nat + 1, fuel as nat);
                            }
                            return true;
                        },
                    }
                },
                MInstr::CL(s) => {
                    self.cl(s.as_str());
                    ic = ic + 1;
                },
                MInstr::CI => {
                    self.ci();
                    ic = ic + 1;
                },
                MInstr::GN1 => {
                    self.gn1();
                    ic = ic + 1;
                },
                MInstr::GN2 => {
                    self.gn2();
                    ic = ic + 1;
                },
                MInstr::LB => {
                    self.lb();
                    ic = ic + 1;
                },
                MInstr::OUT => {
                    self.out();
                    ic = ic + 1;
                },
            }
            proof {
                assert(step(pgmv, cur) =~= (ExecV {
                    m: self@,
                    ic: ic as int,
                    status: MStatus::Running,
                }));
            }
            steps = steps + 1;
        }
    }
}

/// What the translator command is told: the program to load and the source
/// to run it against.
pub struct Options {
    pub mpgm_path: String,
    pub source_path: String,
}

impl Options {
    /// Reads the two paths from the argument list, the leading program name
    /// skipped.
    pub fn build(args: Vec<String>) -> (r: Result<Options, &'static str>)
        ensures
            args@.len() >= 3 ==> (r matches Ok(o) && o.mpgm_path@ == args@[1]@ && o.source_path@
                == args@[2]@),
            args@.len() < 2 ==> (r matches Err(e) && e@
                == "missing meta machine program path argument"@),
            args@.len() == 2 ==> (r matches Err(e) && e@ == "missing source file path argument"@),
    {
        if args.len() < 2 {
            return Err("missing meta machine program path argument");
        }
        if args.len() < 3 {
            return Err("missing source file path argument");
        }
        Ok(Options { mpgm_path: args[1].clone(), source_path: args[2].clone() })
    }
}

} // verus!
